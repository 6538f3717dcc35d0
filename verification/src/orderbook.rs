use vstd::prelude::*;

use crate::inputs::Side;

verus! {

/// A limit order: immutable identity plus the residual quantity still open.
#[derive(Clone, Copy, Debug, PartialEq, Eq, Structural)]
pub struct Order {
    pub order_id: u32,
    pub user_id: u32,
    pub price: u32,
    pub quantity: u32,
    pub side: Side,
}

/// One resting order inside a price level. Entries are only ever appended;
/// removal tombstones an entry in place so that arrival order is never
/// disturbed.
#[derive(Clone, Copy, Debug, PartialEq, Eq, Structural)]
pub struct LevelEntry {
    pub order_id: u32,
    pub user_id: u32,
    pub quantity: u32,
    pub tombstone: bool,
}

/// What a live entry contributes to its level's total quantity.
pub open spec fn entry_contrib(e: LevelEntry) -> int {
    if e.tombstone {
        0
    } else {
        e.quantity as int
    }
}

/// Sum of the residual quantities of the live (non-tombstoned) entries.
pub open spec fn sum_live(s: Seq<LevelEntry>) -> int
    decreases s.len(),
{
    if s.len() == 0 {
        0
    } else {
        sum_live(s.drop_last()) + entry_contrib(s.last())
    }
}

pub proof fn lemma_sum_live_nonneg(s: Seq<LevelEntry>)
    ensures
        sum_live(s) >= 0,
    decreases s.len(),
{
    if s.len() > 0 {
        lemma_sum_live_nonneg(s.drop_last());
    }
}

pub proof fn lemma_sum_live_push(s: Seq<LevelEntry>, e: LevelEntry)
    ensures
        sum_live(s.push(e)) == sum_live(s) + entry_contrib(e),
{
    assert(s.push(e).drop_last() =~= s);
}

pub proof fn lemma_sum_live_update(s: Seq<LevelEntry>, i: int, e: LevelEntry)
    requires
        0 <= i < s.len(),
    ensures
        sum_live(s.update(i, e)) == sum_live(s) - entry_contrib(s[i]) + entry_contrib(e),
    decreases s.len(),
{
    if i == s.len() - 1 {
        assert(s.update(i, e).drop_last() =~= s.drop_last());
    } else {
        assert(s.update(i, e).drop_last() =~= s.drop_last().update(i, e));
        lemma_sum_live_update(s.drop_last(), i, e);
    }
}

/// Any single live entry contributes no more than the whole sum.
pub proof fn lemma_sum_live_entry_le(s: Seq<LevelEntry>, i: int)
    requires
        0 <= i < s.len(),
    ensures
        entry_contrib(s[i]) <= sum_live(s),
    decreases s.len(),
{
    lemma_sum_live_nonneg(s.drop_last());
    if i < s.len() - 1 {
        lemma_sum_live_entry_le(s.drop_last(), i);
    }
}

/// If every entry is tombstoned, the live sum vanishes.
pub proof fn lemma_sum_live_all_tombstoned(s: Seq<LevelEntry>)
    requires
        forall|i: int| 0 <= i < s.len() ==> (#[trigger] s[i]).tombstone,
    ensures
        sum_live(s) == 0,
    decreases s.len(),
{
    if s.len() > 0 {
        lemma_sum_live_all_tombstoned(s.drop_last());
    }
}

/// If some entry is live, the live sum is at least its quantity.
pub proof fn lemma_sum_live_pos(s: Seq<LevelEntry>, i: int)
    requires
        0 <= i < s.len(),
        !s[i].tombstone,
    ensures
        sum_live(s) >= s[i].quantity,
{
    lemma_sum_live_entry_le(s, i);
}

/// All resting orders at one price on one side, in arrival order, with a
/// cached total of the live quantities.
pub struct PriceLevel {
    pub price: u32,
    pub entries: Vec<LevelEntry>,
    pub total_qty: u32,
}

impl PriceLevel {
    /// The cached total is exactly the sum over live entries.
    pub open spec fn totals_ok(self) -> bool {
        self.total_qty as int == sum_live(self.entries@)
    }

    /// Every live entry still has something left to trade.
    pub open spec fn live_positive(self) -> bool {
        forall|i: int|
            0 <= i < self.entries@.len() && !(#[trigger] self.entries@[i]).tombstone
                ==> self.entries@[i].quantity > 0
    }

    pub open spec fn wf(self) -> bool {
        self.totals_ok() && self.live_positive()
    }

    pub fn new(price: u32) -> (level: PriceLevel)
        ensures
            level.wf(),
            level.price == price,
            level.entries@ == Seq::<LevelEntry>::empty(),
            level.total_qty == 0,
    {
        PriceLevel { price, entries: Vec::new(), total_qty: 0 }
    }

    /// Appends a live entry for `order` and grows the cached total.
    pub fn push(&mut self, order: &Order)
        requires
            old(self).wf(),
            order.quantity > 0,
            old(self).total_qty + order.quantity <= u32::MAX,
        ensures
            final(self).wf(),
            final(self).price == old(self).price,
            final(self).entries@ == old(self).entries@.push(
                LevelEntry {
                    order_id: order.order_id,
                    user_id: order.user_id,
                    quantity: order.quantity,
                    tombstone: false,
                },
            ),
            final(self).total_qty == old(self).total_qty + order.quantity,
    {
        let e = LevelEntry {
            order_id: order.order_id,
            user_id: order.user_id,
            quantity: order.quantity,
            tombstone: false,
        };
        proof {
            lemma_sum_live_push(self.entries@, e);
        }
        self.entries.push(e);
        self.total_qty = self.total_qty + order.quantity;
    }

    /// Tombstones the entry at `idx` and subtracts its quantity from the
    /// cached total; a second removal of the same entry is a no-op.
    pub fn remove_at(&mut self, idx: usize)
        requires
            old(self).wf(),
            idx < old(self).entries@.len(),
        ensures
            final(self).wf(),
            final(self).price == old(self).price,
            old(self).entries@[idx as int].tombstone ==> *final(self) == *old(self),
            !old(self).entries@[idx as int].tombstone ==> {
                &&& final(self).entries@ == old(self).entries@.update(
                    idx as int,
                    (LevelEntry { tombstone: true, ..old(self).entries@[idx as int] }),
                )
                &&& final(self).total_qty == old(self).total_qty - old(
                    self,
                ).entries@[idx as int].quantity
            },
    {
        let e = self.entries[idx];
        if !e.tombstone {
            proof {
                lemma_sum_live_entry_le(self.entries@, idx as int);
                lemma_sum_live_update(
                    self.entries@,
                    idx as int,
                    LevelEntry { tombstone: true, ..e },
                );
            }
            self.entries[idx] = LevelEntry { tombstone: true, ..e };
            self.total_qty = self.total_qty - e.quantity;
        }
    }

    /// Shrinks the live entry at `idx` to `new_qty` (a strict reduction)
    /// and lowers the cached total by the difference.
    pub fn reduce_at(&mut self, idx: usize, new_qty: u32)
        requires
            old(self).wf(),
            idx < old(self).entries@.len(),
            !old(self).entries@[idx as int].tombstone,
            new_qty < old(self).entries@[idx as int].quantity,
        ensures
            final(self).totals_ok(),
            final(self).price == old(self).price,
            final(self).entries@ == old(self).entries@.update(
                idx as int,
                (LevelEntry { quantity: new_qty, ..old(self).entries@[idx as int] }),
            ),
            final(self).total_qty == old(self).total_qty - (old(
                self,
            ).entries@[idx as int].quantity - new_qty),
            new_qty > 0 ==> final(self).wf(),
    {
        let e = self.entries[idx];
        proof {
            lemma_sum_live_entry_le(self.entries@, idx as int);
            lemma_sum_live_update(
                self.entries@,
                idx as int,
                LevelEntry { quantity: new_qty, ..e },
            );
        }
        self.entries[idx] = LevelEntry { quantity: new_qty, ..e };
        self.total_qty = self.total_qty - (e.quantity - new_qty);
    }

    /// A level is spent exactly when its cached total reaches zero.
    pub fn is_empty(&self) -> (r: bool)
        ensures
            r == (self.total_qty == 0),
    {
        self.total_qty == 0
    }

    /// A spent well-formed level has no live entry left, and a level with a
    /// live entry has quantity behind it: the tombstone bookkeeping can
    /// never strand residual quantity.
    pub proof fn lemma_empty_iff_all_tombstoned(self)
        requires
            self.wf(),
        ensures
            (self.total_qty == 0) <==> (forall|i: int|
                0 <= i < self.entries@.len() ==> (#[trigger] self.entries@[i]).tombstone),
    {
        if self.total_qty == 0 {
            assert forall|i: int| 0 <= i < self.entries@.len() implies (
            #[trigger] self.entries@[i]).tombstone by {
                if !self.entries@[i].tombstone {
                    lemma_sum_live_pos(self.entries@, i);
                }
            }
        } else {
            if forall|i: int| 0 <= i < self.entries@.len() ==> (
            #[trigger] self.entries@[i]).tombstone {
                lemma_sum_live_all_tombstoned(self.entries@);
            }
        }
    }
}


/// Where a live resting order sits: its side, its price level, and its
/// position within that level, so a cancel needs no search.
#[derive(Clone, Copy, Debug, PartialEq, Eq, Structural)]
pub struct OrderLocation {
    pub side: Side,
    pub price: u32,
    pub index: usize,
}

/// The top-of-book snapshot scratch area: up to twenty `[price, qty]` rows
/// per side, rebuilt on demand when the dirty bit is set.
pub struct DepthCache {
    pub bids: Vec<[u32; 2]>,
    pub asks: Vec<[u32; 2]>,
    pub dirty: bool,
}

/// Strictly monotone prices; bids are kept best-first (descending), asks
/// best-first (ascending).
pub open spec fn levels_sorted(levels: Seq<PriceLevel>, descending: bool) -> bool {
    forall|i: int, j: int|
        0 <= i < j < levels.len() ==> if descending {
            (#[trigger] levels[i]).price > (#[trigger] levels[j]).price
        } else {
            (#[trigger] levels[i]).price < (#[trigger] levels[j]).price
        }
}

/// Every level present is internally consistent and still holds quantity:
/// a level whose live total reaches zero is reaped at once.
pub open spec fn levels_wf(levels: Seq<PriceLevel>) -> bool {
    forall|i: int|
        0 <= i < levels.len() ==> (#[trigger] levels[i]).wf() && levels[i].total_qty > 0
}

/// The position `(li, ei)` names a live entry of `levels`.
pub open spec fn entry_live(levels: Seq<PriceLevel>, li: int, ei: int) -> bool {
    &&& 0 <= li < levels.len()
    &&& 0 <= ei < levels[li].entries@.len()
    &&& !levels[li].entries@[ei].tombstone
}

/// The location `loc` resolves, on the given side's levels, to a live
/// entry carrying `id`.
pub open spec fn loc_valid(levels: Seq<PriceLevel>, id: u32, loc: OrderLocation) -> bool {
    exists|li: int|
        {
            &&& 0 <= li < levels.len()
            &&& (#[trigger] levels[li]).price == loc.price
            &&& loc.index < levels[li].entries@.len()
            &&& levels[li].entries@[loc.index as int].order_id == id
            &&& !levels[li].entries@[loc.index as int].tombstone
        }
}

/// Depth rows mirror the first `min(n, len)` levels of a side.
pub open spec fn depth_rows_ok(rows: Seq<[u32; 2]>, levels: Seq<PriceLevel>, n: int) -> bool {
    &&& rows.len() == if n <= levels.len() {
        n as int
    } else {
        levels.len() as int
    }
    &&& forall|i: int|
        0 <= i < rows.len() ==> (#[trigger] rows[i])@ == seq![
            levels[i].price,
            levels[i].total_qty,
        ]
}

/// The aggregate: both sides of the book, the id index for cancels, the
/// depth scratch area, the per-event trade buffer, and the publication
/// generation counter.
pub struct OrderBook {
    /// Bid levels, best (highest) price first.
    pub bids: Vec<PriceLevel>,
    /// Ask levels, best (lowest) price first.
    pub asks: Vec<PriceLevel>,
    /// For each live resting order id, where it sits.
    pub order_locations: std::collections::HashMap<u32, OrderLocation>,
    pub depth_cache: DepthCache,
    /// Trades accumulated during the current event, flushed at its end.
    pub trades: Vec<crate::wire::TradeMsg>,
    /// Monotone generation counter stamped onto published depth.
    pub update_id: u64,
}

impl OrderBook {
    /// The levels of one side.
    pub open spec fn side_levels(self, side: Side) -> Seq<PriceLevel> {
        match side {
            Side::Buy => self.bids@,
            Side::Sell => self.asks@,
        }
    }

    pub open spec fn sides_wf(self) -> bool {
        &&& levels_wf(self.bids@)
        &&& levels_wf(self.asks@)
        &&& levels_sorted(self.bids@, true)
        &&& levels_sorted(self.asks@, false)
    }

    /// The book never crosses: when both sides are non-empty, the best bid
    /// is strictly below the best ask.
    pub open spec fn no_cross(self) -> bool {
        self.bids@.len() > 0 && self.asks@.len() > 0 ==> self.bids@[0].price < self.asks@[0].price
    }

    /// Every recorded location resolves to a live entry with that id.
    pub open spec fn locs_sound(self) -> bool {
        forall|id: u32|
            #[trigger] self.order_locations@.contains_key(id) ==> loc_valid(
                self.side_levels(self.order_locations@[id].side),
                id,
                self.order_locations@[id],
            )
    }

    /// Every live entry is recorded, under its own id, at its own place.
    pub open spec fn locs_complete(self) -> bool {
        forall|side: Side, li: int, ei: int|
            #[trigger] entry_live(self.side_levels(side), li, ei) ==> {
                let e = self.side_levels(side)[li].entries@[ei];
                &&& self.order_locations@.contains_key(e.order_id)
                &&& self.order_locations@[e.order_id] == (OrderLocation {
                    side,
                    price: self.side_levels(side)[li].price,
                    index: ei as usize,
                })
            }
    }

    /// When the depth cache is clean it mirrors the top of both sides.
    pub open spec fn cache_ok(self) -> bool {
        !self.depth_cache.dirty ==> {
            &&& depth_rows_ok(self.depth_cache.bids@, self.bids@, 20)
            &&& depth_rows_ok(self.depth_cache.asks@, self.asks@, 20)
        }
    }

    pub open spec fn wf(self) -> bool {
        &&& self.sides_wf()
        &&& self.no_cross()
        &&& self.locs_sound()
        &&& self.locs_complete()
        &&& self.cache_ok()
    }

    pub fn new() -> (book: OrderBook)
        ensures
            book.wf(),
            book.bids@.len() == 0,
            book.asks@.len() == 0,
            book.order_locations@ == Map::<u32, OrderLocation>::empty(),
            book.trades@.len() == 0,
            book.update_id == 0,
    {
        let book = OrderBook {
            bids: Vec::new(),
            asks: Vec::new(),
            order_locations: std::collections::HashMap::new(),
            depth_cache: DepthCache { bids: Vec::new(), asks: Vec::new(), dirty: true },
            trades: Vec::new(),
            update_id: 0,
        };
        proof {
            broadcast use vstd::std_specs::hash::group_hash_axioms;

        }
        book
    }

    /// Whether `order_id` is currently resting on the book.
    pub fn contains_order(&self, order_id: u32) -> (r: bool)
        ensures
            r == self.order_locations@.contains_key(order_id),
    {
        proof {
            broadcast use vstd::std_specs::hash::group_hash_axioms;

        }
        self.order_locations.contains_key(&order_id)
    }

    /// Bumps the depth generation counter; it never decreases, and only
    /// saturates at the top of its range.
    fn bump_update_id(&mut self)
        ensures
            *final(self) == (OrderBook { update_id: final(self).update_id, ..*old(self) }),
            final(self).update_id as int == if old(self).update_id < u64::MAX {
                old(self).update_id + 1
            } else {
                old(self).update_id as int
            },
            final(self).update_id >= old(self).update_id,
    {
        if self.update_id < u64::MAX {
            self.update_id = self.update_id + 1;
        }
    }
}

/// Two levels of a sorted side never share a price.
pub proof fn lemma_price_unique(levels: Seq<PriceLevel>, descending: bool, i: int, j: int)
    requires
        levels_sorted(levels, descending),
        0 <= i < levels.len(),
        0 <= j < levels.len(),
        levels[i].price == levels[j].price,
    ensures
        i == j,
{
}

/// Under `locs_complete`, two distinct live positions carry distinct ids.
pub proof fn lemma_live_ids_unique(
    book: OrderBook,
    side1: Side,
    li1: int,
    ei1: int,
    side2: Side,
    li2: int,
    ei2: int,
)
    requires
        book.sides_wf(),
        book.locs_complete(),
        entry_live(book.side_levels(side1), li1, ei1),
        entry_live(book.side_levels(side2), li2, ei2),
        book.side_levels(side1)[li1].entries@[ei1].order_id == book.side_levels(
            side2,
        )[li2].entries@[ei2].order_id,
    ensures
        side1 == side2 && li1 == li2 && ei1 == ei2,
{
    let id = book.side_levels(side1)[li1].entries@[ei1].order_id;
    let loc1 = OrderLocation { side: side1, price: book.side_levels(side1)[li1].price, index: ei1 as usize };
    let loc2 = OrderLocation { side: side2, price: book.side_levels(side2)[li2].price, index: ei2 as usize };
    assert(book.order_locations@[id] == loc1);
    assert(book.order_locations@[id] == loc2);
    let desc = match side1 { Side::Buy => true, Side::Sell => false };
    lemma_price_unique(book.side_levels(side1), desc, li1, li2);
    vstd::std_specs::vec::axiom_spec_len(&book.side_levels(side1)[li1].entries);
    assert(ei1 as usize == ei2 as usize && 0 <= ei1 <= usize::MAX && 0 <= ei2 <= usize::MAX
        ==> ei1 == ei2) by (nonlinear_arith);
}


/// The other half of the book.
pub open spec fn opposite(side: Side) -> Side {
    match side {
        Side::Buy => Side::Sell,
        Side::Sell => Side::Buy,
    }
}

/// Saturating successor, used by the publication generation counter.
pub open spec fn bumped(u: u64) -> u64 {
    if u < u64::MAX {
        (u + 1) as u64
    } else {
        u
    }
}

/// How one side changes when the live entry at `(li, index)` is removed:
/// the entry is tombstoned in place, and the level disappears if that was
/// its last live quantity.
pub open spec fn side_tombstoned(
    old_s: Seq<PriceLevel>,
    new_s: Seq<PriceLevel>,
    li: int,
    index: int,
) -> bool {
    let oldlv = old_s[li];
    &&& 0 <= li < old_s.len()
    &&& 0 <= index < oldlv.entries@.len()
    &&& !oldlv.entries@[index].tombstone
    &&& if oldlv.total_qty == oldlv.entries@[index].quantity {
        &&& new_s == old_s.remove(li)
        &&& forall|ei: int|
            0 <= ei < oldlv.entries@.len() && ei != index ==> (
            #[trigger] oldlv.entries@[ei]).tombstone
    } else {
        &&& new_s.len() == old_s.len()
        &&& new_s[li].price == oldlv.price
        &&& new_s[li].entries@ == oldlv.entries@.update(
            index,
            (LevelEntry { tombstone: true, ..oldlv.entries@[index] }),
        )
        &&& new_s[li].total_qty == oldlv.total_qty - oldlv.entries@[index].quantity
        &&& forall|j: int| 0 <= j < old_s.len() && j != li ==> new_s[j] == old_s[j]
    }
}


/// No two levels of a side share a price.
pub open spec fn prices_unique(levels: Seq<PriceLevel>) -> bool {
    forall|i: int, j: int|
        0 <= i < j < levels.len() ==> (#[trigger] levels[i]).price != (#[trigger] levels[j]).price
}

pub proof fn lemma_sorted_prices_unique(levels: Seq<PriceLevel>, descending: bool)
    requires
        levels_sorted(levels, descending),
    ensures
        prices_unique(levels),
{
}

pub proof fn lemma_sorted_remove(levels: Seq<PriceLevel>, descending: bool, i: int)
    requires
        levels_sorted(levels, descending),
        0 <= i < levels.len(),
    ensures
        levels_sorted(levels.remove(i), descending),
{
    levels.remove_ensures(i);
    let r = levels.remove(i);
    assert forall|a: int, b: int| 0 <= a < b < r.len() implies (if descending {
        (#[trigger] r[a]).price > (#[trigger] r[b]).price
    } else {
        (#[trigger] r[a]).price < (#[trigger] r[b]).price
    }) by {
        if a < i {
            assert(r[a] == levels[a]);
        } else {
            assert(r[a] == levels[a + 1]);
        }
        if b < i {
            assert(r[b] == levels[b]);
        } else {
            assert(r[b] == levels[b + 1]);
        }
    }
}

impl OrderBook {
    /// Tombstones the live entry at position `index` of the level priced
    /// `price`, dropping the level if it is thereby spent.
    fn tombstone_in(levels: &mut Vec<PriceLevel>, price: u32, index: usize)
        requires
            levels_wf(old(levels)@),
            prices_unique(old(levels)@),
            exists|li: int|
                {
                    &&& 0 <= li < old(levels)@.len()
                    &&& (#[trigger] old(levels)@[li]).price == price
                    &&& index < old(levels)@[li].entries@.len()
                    &&& !old(levels)@[li].entries@[index as int].tombstone
                },
        ensures
            levels_wf(final(levels)@),
            exists|li: int|
                #![trigger old(levels)@[li].price]
                {
                    &&& old(levels)@[li].price == price
                    &&& side_tombstoned(old(levels)@, final(levels)@, li, index as int)
                },
    {
        let ghost target: int = choose|li: int|
            {
                &&& 0 <= li < old(levels)@.len()
                &&& (#[trigger] old(levels)@[li]).price == price
                &&& index < old(levels)@[li].entries@.len()
                &&& !old(levels)@[li].entries@[index as int].tombstone
            };
        let mut li: usize = 0;
        while li < levels.len() && levels[li].price != price
            invariant
                levels@ == old(levels)@,
                0 <= li <= levels@.len(),
                forall|k: int| 0 <= k < li ==> (#[trigger] levels@[k]).price != price,
                0 <= target < levels@.len(),
                levels@[target].price == price,
            decreases levels@.len() - li,
        {
            li = li + 1;
        }
        assert(li <= target);
        assert(li as int == target);
        let mut lv = levels.remove(li);
        lv.remove_at(index);
        if lv.total_qty == 0 {
            proof {
                lv.lemma_empty_iff_all_tombstoned();
                assert forall|ei: int|
                    0 <= ei < old(levels)@[target].entries@.len() && ei != index as int implies (
                #[trigger] old(levels)@[target].entries@[ei]).tombstone by {
                    assert(lv.entries@[ei] == old(levels)@[target].entries@[ei]);
                }
                assert(side_tombstoned(old(levels)@, levels@, target, index as int));
            }
        } else {
            let ghost before_insert = levels@;
            levels.insert(li, lv);
            proof {
                before_insert.insert_ensures(target, lv);
                old(levels)@.remove_ensures(target);
                assert forall|j: int| 0 <= j < old(levels)@.len() && j != target implies
                    levels@[j] == old(levels)@[j] by {
                    if j < target {
                        assert(before_insert[j] == old(levels)@[j]);
                        assert(levels@[j] == before_insert[j]);
                    } else {
                        assert(before_insert[j - 1] == old(levels)@[j]);
                        assert(levels@[j] == before_insert[j - 1]);
                    }
                }
                assert(side_tombstoned(old(levels)@, levels@, target, index as int));
                assert forall|i: int| 0 <= i < levels@.len() implies (
                #[trigger] levels@[i]).wf() && levels@[i].total_qty > 0 by {
                    if i != target {
                        assert(levels@[i] == old(levels)@[i]);
                    }
                }
            }
        }
    }
}


/// After a live entry is tombstoned and its id dropped from the index, the
/// whole book is well-formed again.
proof fn lemma_wf_after_tombstone(old_book: OrderBook, new_book: OrderBook, order_id: u32, li: int)
    requires
        old_book.wf(),
        old_book.order_locations@.contains_key(order_id),
        ({
            let loc = old_book.order_locations@[order_id];
            &&& side_tombstoned(
                old_book.side_levels(loc.side),
                new_book.side_levels(loc.side),
                li,
                loc.index as int,
            )
            &&& old_book.side_levels(loc.side)[li].price == loc.price
            &&& levels_wf(new_book.side_levels(loc.side))
            &&& new_book.side_levels(opposite(loc.side)) == old_book.side_levels(opposite(loc.side))
        }),
        new_book.order_locations@ == old_book.order_locations@.remove(order_id),
        new_book.depth_cache.dirty,
    ensures
        new_book.wf(),
{
    let loc = old_book.order_locations@[order_id];
    let side = loc.side;
    let desc = match side {
        Side::Buy => true,
        Side::Sell => false,
    };
    let old_s = old_book.side_levels(side);
    let new_s = new_book.side_levels(side);
    let oldlv = old_s[li];
    let dropped = oldlv.total_qty == oldlv.entries@[loc.index as int].quantity;
    lemma_sorted_prices_unique(old_s, desc);
    old_s.remove_ensures(li);

    // The tombstoned entry is order_id's own.
    assert(loc_valid(old_s, order_id, loc));
    let li0 = choose|l: int|
        {
            &&& 0 <= l < old_s.len()
            &&& (#[trigger] old_s[l]).price == loc.price
            &&& loc.index < old_s[l].entries@.len()
            &&& old_s[l].entries@[loc.index as int].order_id == order_id
            &&& !old_s[l].entries@[loc.index as int].tombstone
        };
    lemma_price_unique(old_s, desc, li0, li);
    assert(oldlv.entries@[loc.index as int].order_id == order_id);

    // Sortedness of the changed side.
    if dropped {
        lemma_sorted_remove(old_s, desc, li);
    } else {
        assert forall|a: int, b: int| 0 <= a < b < new_s.len() implies (if desc {
            (#[trigger] new_s[a]).price > (#[trigger] new_s[b]).price
        } else {
            (#[trigger] new_s[a]).price < (#[trigger] new_s[b]).price
        }) by {
            assert(new_s[a].price == old_s[a].price);
            assert(new_s[b].price == old_s[b].price);
        }
    }
    assert(new_book.sides_wf()) by {
        match side {
            Side::Buy => {
                assert(new_book.asks@ == old_book.asks@);
            },
            Side::Sell => {
                assert(new_book.bids@ == old_book.bids@);
            },
        }
    }

    // The book still does not cross.
    assert(new_book.no_cross()) by {
        if new_book.bids@.len() > 0 && new_book.asks@.len() > 0 {
            match side {
                Side::Buy => {
                    assert(new_book.asks@ == old_book.asks@);
                    if dropped {
                        if li == 0 {
                            assert(new_s[0] == old_s[1]);
                        } else {
                            assert(new_s[0] == old_s[0]);
                        }
                    } else {
                        assert(new_s[0].price == old_s[0].price);
                    }
                },
                Side::Sell => {
                    assert(new_book.bids@ == old_book.bids@);
                    if dropped {
                        if li == 0 {
                            assert(new_s[0] == old_s[1]);
                        } else {
                            assert(new_s[0] == old_s[0]);
                        }
                    } else {
                        assert(new_s[0].price == old_s[0].price);
                    }
                },
            }
        }
    }

    // Every surviving location still resolves.
    assert forall|id: u32| #[trigger] new_book.order_locations@.contains_key(id) implies loc_valid(
        new_book.side_levels(new_book.order_locations@[id].side),
        id,
        new_book.order_locations@[id],
    ) by {
        let l = new_book.order_locations@[id];
        assert(id != order_id);
        assert(old_book.order_locations@.contains_key(id) && old_book.order_locations@[id] == l);
        assert(loc_valid(old_book.side_levels(l.side), id, l));
        let w = choose|w: int|
            {
                &&& 0 <= w < old_book.side_levels(l.side).len()
                &&& (#[trigger] old_book.side_levels(l.side)[w]).price == l.price
                &&& l.index < old_book.side_levels(l.side)[w].entries@.len()
                &&& old_book.side_levels(l.side)[w].entries@[l.index as int].order_id == id
                &&& !old_book.side_levels(l.side)[w].entries@[l.index as int].tombstone
            };
        if l.side != side {
            assert(new_book.side_levels(l.side) == old_book.side_levels(l.side)) by {
                match side {
                    Side::Buy => {},
                    Side::Sell => {},
                }
            }
        } else {
            if dropped {
                assert(w != li) by {
                    if w == li {
                        if l.index == loc.index {
                            assert(id == order_id);
                        } else {
                            assert(oldlv.entries@[l.index as int].tombstone);
                        }
                    }
                }
                if w < li {
                    assert(new_s[w] == old_s[w]);
                    assert(loc_valid(new_s, id, l));
                } else {
                    assert(new_s[w - 1] == old_s[w]);
                    assert(loc_valid(new_s, id, l));
                }
            } else {
                if w != li {
                    assert(new_s[w] == old_s[w]);
                    assert(loc_valid(new_s, id, l));
                } else {
                    assert(l.index != loc.index) by {
                        if l.index == loc.index {
                            assert(id == order_id);
                        }
                    }
                    assert(new_s[li].entries@[l.index as int] == old_s[li].entries@[l.index as int]);
                    assert(new_s[li].price == old_s[li].price);
                    assert(loc_valid(new_s, id, l));
                }
            }
        }
    }

    // Every live entry of the new book is still registered.
    assert forall|sd: Side, lj: int, ej: int| #[trigger] entry_live(
        new_book.side_levels(sd),
        lj,
        ej,
    ) implies {
        let e = new_book.side_levels(sd)[lj].entries@[ej];
        &&& new_book.order_locations@.contains_key(e.order_id)
        &&& new_book.order_locations@[e.order_id] == (OrderLocation {
            side: sd,
            price: new_book.side_levels(sd)[lj].price,
            index: ej as usize,
        })
    } by {
        if sd != side {
            assert(new_book.side_levels(sd) == old_book.side_levels(sd)) by {
                match side {
                    Side::Buy => {},
                    Side::Sell => {},
                }
            }
            let e = old_book.side_levels(sd)[lj].entries@[ej];
            assert(entry_live(old_book.side_levels(sd), lj, ej));
            assert(e.order_id != order_id) by {
                if e.order_id == order_id {
                    assert(old_book.order_locations@[order_id] == (OrderLocation {
                        side: sd,
                        price: old_book.side_levels(sd)[lj].price,
                        index: ej as usize,
                    }));
                }
            }
        } else {
            let olj = if dropped && lj >= li {
                lj + 1
            } else {
                lj as int
            };
            assert(new_s[lj] == old_s[olj] || (olj == li && !dropped)) by {
                if dropped {
                    if lj < li {
                        assert(new_s[lj] == old_s[lj]);
                    } else {
                        assert(new_s[lj] == old_s[lj + 1]);
                    }
                }
            }
            if !dropped && olj == li && ej == loc.index as int {
                assert(new_s[li].entries@[ej].tombstone);
                assert(false);
            }
            assert(new_s[lj].entries@[ej] == old_s[olj].entries@[ej]);
            assert(new_s[lj].price == old_s[olj].price);
            assert(entry_live(old_s, olj, ej));
            let e = old_s[olj].entries@[ej];
            assert(old_book.order_locations@.contains_key(e.order_id)
                && old_book.order_locations@[e.order_id] == (OrderLocation {
                side: sd,
                price: old_s[olj].price,
                index: ej as usize,
            }));
            assert(e.order_id != order_id) by {
                if e.order_id == order_id {
                    assert(loc.price == old_s[olj].price);
                    lemma_price_unique(old_s, desc, olj, li);
                    assert(olj == li);
                    vstd::std_specs::vec::axiom_spec_len(&old_s[li].entries);
                    assert(loc.index as int == ej);
                    if dropped {
                        assert(false);
                    } else {
                        assert(false);
                    }
                }
            }
        }
    }
}

impl OrderBook {
    /// Cancels a resting order by id. An unknown id is a no-op that
    /// returns `false`; a known id has its entry tombstoned, its level
    /// reaped when spent, and its location dropped, and returns `true`.
    pub fn delete_order(&mut self, order_id: u32) -> (deleted: bool)
        requires
            old(self).wf(),
        ensures
            final(self).wf(),
            deleted == old(self).order_locations@.contains_key(order_id),
            !deleted ==> *final(self) == *old(self),
            deleted ==> ({
                let loc = old(self).order_locations@[order_id];
                &&& final(self).order_locations@ == old(self).order_locations@.remove(order_id)
                &&& exists|li: int|
                    #![trigger old(self).side_levels(loc.side)[li]]
                    {
                        &&& old(self).side_levels(loc.side)[li].price == loc.price
                        &&& side_tombstoned(
                            old(self).side_levels(loc.side),
                            final(self).side_levels(loc.side),
                            li,
                            loc.index as int,
                        )
                    }
                &&& final(self).side_levels(opposite(loc.side)) == old(self).side_levels(
                    opposite(loc.side),
                )
                &&& final(self).trades@ == old(self).trades@
                &&& final(self).update_id == bumped(old(self).update_id)
                &&& final(self).depth_cache.dirty
            }),
    {
        proof {
            broadcast use vstd::std_specs::hash::group_hash_axioms;

        }
        let loc = match self.order_locations.get(&order_id) {
            None => {
                return false;
            },
            Some(l) => *l,
        };
        self.order_locations.remove(&order_id);
        proof {
            assert(loc_valid(old(self).side_levels(loc.side), order_id, loc));
            match loc.side {
                Side::Buy => {
                    lemma_sorted_prices_unique(old(self).bids@, true);
                },
                Side::Sell => {
                    lemma_sorted_prices_unique(old(self).asks@, false);
                },
            }
        }
        match loc.side {
            Side::Buy => {
                Self::tombstone_in(&mut self.bids, loc.price, loc.index);
            },
            Side::Sell => {
                Self::tombstone_in(&mut self.asks, loc.price, loc.index);
            },
        }
        self.depth_cache.dirty = true;
        self.bump_update_id();
        proof {
            let li = choose|li: int|
                #![trigger old(self).side_levels(loc.side)[li]]
                {
                    &&& old(self).side_levels(loc.side)[li].price == loc.price
                    &&& side_tombstoned(
                        old(self).side_levels(loc.side),
                        self.side_levels(loc.side),
                        li,
                        loc.index as int,
                    )
                };
            lemma_wf_after_tombstone(*old(self), *self, order_id, li);
        }
        true
    }
}


/// One maker fill produced while a taker crosses the book.
pub ghost struct Fill {
    pub price: u32,
    pub maker_order_id: u32,
    pub quantity: u32,
}

/// The trade record a fill turns into.
pub open spec fn fill_trade(f: Fill, taker_order_id: u32, timestamp: i64) -> crate::wire::TradeMsg {
    crate::wire::TradeMsg {
        msg_type: 1,
        price: f.price,
        quantity: f.quantity,
        maker_order_id: f.maker_order_id,
        taker_order_id,
        timestamp,
    }
}

pub open spec fn fills_to_trades(fills: Seq<Fill>, taker_order_id: u32, timestamp: i64) -> Seq<
    crate::wire::TradeMsg,
> {
    fills.map_values(|f: Fill| fill_trade(f, taker_order_id, timestamp))
}

/// Sum of the fill quantities.
pub open spec fn sum_fills(fills: Seq<Fill>) -> int
    decreases fills.len(),
{
    if fills.len() == 0 {
        0
    } else {
        fills[0].quantity + sum_fills(fills.drop_first())
    }
}

/// The ids of the live entries, in arrival order.
pub open spec fn live_ids(s: Seq<LevelEntry>) -> Seq<u32>
    decreases s.len(),
{
    if s.len() == 0 {
        Seq::empty()
    } else if s[0].tombstone {
        live_ids(s.drop_first())
    } else {
        seq![s[0].order_id] + live_ids(s.drop_first())
    }
}

/// The maker ids of a run of fills, in emission order.
pub open spec fn fill_ids(fills: Seq<Fill>) -> Seq<u32>
    decreases fills.len(),
{
    if fills.len() == 0 {
        Seq::empty()
    } else {
        seq![fills[0].maker_order_id] + fill_ids(fills.drop_first())
    }
}

/// What becomes of one level's entries when a taker with `q` left to trade
/// walks it in arrival order: the updated entries, the fills emitted, the
/// ids of makers consumed whole, and the quantity the taker still has left.
pub open spec fn consume_result(price: u32, s: Seq<LevelEntry>, q: int) -> (
    Seq<LevelEntry>,
    Seq<Fill>,
    Seq<u32>,
    int,
)
    decreases s.len(),
{
    if s.len() == 0 || q <= 0 {
        (s, Seq::<Fill>::empty(), Seq::<u32>::empty(), q)
    } else {
        let e = s[0];
        if e.tombstone {
            let r = consume_result(price, s.drop_first(), q);
            (seq![e] + r.0, r.1, r.2, r.3)
        } else if q >= e.quantity {
            let r = consume_result(price, s.drop_first(), q - e.quantity);
            (
                seq![(LevelEntry { tombstone: true, ..e })] + r.0,
                seq![(Fill { price, maker_order_id: e.order_id, quantity: e.quantity })] + r.1,
                seq![e.order_id] + r.2,
                r.3,
            )
        } else {
            (
                s.update(0, (LevelEntry { quantity: (e.quantity - q) as u32, ..e })),
                seq![(Fill { price, maker_order_id: e.order_id, quantity: q as u32 })],
                Seq::<u32>::empty(),
                0,
            )
        }
    }
}

pub proof fn lemma_sum_live_cons(e: LevelEntry, s: Seq<LevelEntry>)
    ensures
        sum_live(seq![e] + s) == entry_contrib(e) + sum_live(s),
    decreases s.len(),
{
    if s.len() == 0 {
        assert(seq![e] + s =~= seq![e]);
        assert(sum_live(seq![e]) == sum_live(seq![e].drop_last()) + entry_contrib(e));
        assert(seq![e].drop_last() =~= Seq::<LevelEntry>::empty());
    } else {
        assert((seq![e] + s).drop_last() =~= seq![e] + s.drop_last());
        assert((seq![e] + s).last() == s.last());
        lemma_sum_live_cons(e, s.drop_last());
    }
}

/// Everything the callers need to know about `consume_result`, proved in
/// one induction over the entries.
#[verifier::spinoff_prover]
#[verifier::rlimit(60)]
pub proof fn lemma_consume_props(price: u32, s: Seq<LevelEntry>, q: int)
    requires
        q >= 0,
        forall|i: int|
            0 <= i < s.len() && !(#[trigger] s[i]).tombstone ==> s[i].quantity > 0,
    ensures
        ({
            let r = consume_result(price, s, q);
            &&& 0 <= r.3 <= q
            &&& r.0.len() == s.len()
            &&& forall|i: int|
                0 <= i < s.len() ==> {
                    let oe = s[i];
                    let ne = #[trigger] r.0[i];
                    &&& ne.order_id == oe.order_id
                    &&& ne.user_id == oe.user_id
                    &&& (oe.tombstone ==> ne == oe)
                    &&& (!ne.tombstone ==> !oe.tombstone && 0 < ne.quantity <= oe.quantity)
                }
            &&& sum_live(r.0) == sum_live(s) - (q - r.3)
            &&& sum_fills(r.1) == q - r.3
            &&& (r.3 > 0 ==> sum_live(r.0) == 0)
            &&& forall|i: int|
                0 <= i < r.1.len() ==> {
                    let f = #[trigger] r.1[i];
                    &&& f.price == price
                    &&& 0 < f.quantity <= q
                }
            &&& fill_ids(r.1) == live_ids(s).take(r.1.len() as int)
            &&& r.1.len() <= live_ids(s).len()
            &&& forall|k: int|
                0 <= k < r.2.len() ==> exists|ei: int|
                    {
                        &&& 0 <= ei < s.len()
                        &&& !(#[trigger] s[ei]).tombstone
                        &&& r.0[ei].tombstone
                        &&& s[ei].order_id == #[trigger] r.2[k]
                    }
            &&& forall|ei: int|
                0 <= ei < s.len() && !(#[trigger] s[ei]).tombstone && r.0[ei].tombstone
                    ==> r.2.contains(s[ei].order_id)
        }),
    decreases s.len(),
{
    let r = consume_result(price, s, q);
    if s.len() == 0 || q <= 0 {
        assert(live_ids(s).take(0) =~= Seq::<u32>::empty());
        assert(fill_ids(Seq::<Fill>::empty()) =~= Seq::<u32>::empty());
        assert(sum_fills(Seq::<Fill>::empty()) == 0);
    } else {
        let e = s[0];
        let tail = s.drop_first();
        assert(forall|i: int|
            0 <= i < tail.len() && !(#[trigger] tail[i]).tombstone ==> tail[i].quantity > 0);
        if e.tombstone {
            let rt = consume_result(price, tail, q);
            lemma_consume_props(price, tail, q);
            assert(r.0 == seq![e] + rt.0);
            lemma_sum_live_cons(e, rt.0);
            lemma_sum_live_cons(e, tail);
            assert(sum_live(s) == entry_contrib(e) + sum_live(tail)) by {
                assert(s =~= seq![e] + tail);
            }
            assert(live_ids(s) == live_ids(tail));
            assert(forall|i: int| 0 <= i < tail.len() ==> #[trigger] rt.0[i] == r.0[i + 1]);
            assert forall|k: int| 0 <= k < r.2.len() implies exists|ei: int|
                {
                    &&& 0 <= ei < s.len()
                    &&& !(#[trigger] s[ei]).tombstone
                    &&& r.0[ei].tombstone
                    &&& s[ei].order_id == #[trigger] r.2[k]
                } by {
                let wi = choose|ei: int|
                    {
                        &&& 0 <= ei < tail.len()
                        &&& !(#[trigger] tail[ei]).tombstone
                        &&& rt.0[ei].tombstone
                        &&& tail[ei].order_id == r.2[k]
                    };
                assert(s[wi + 1] == tail[wi]);
                assert(r.0[wi + 1] == rt.0[wi]);
            }
            assert forall|ei: int|
                0 <= ei < s.len() && !(#[trigger] s[ei]).tombstone && r.0[ei].tombstone implies r
                .2.contains(s[ei].order_id) by {
                assert(ei >= 1);
                assert(tail[ei - 1] == s[ei]);
                assert(rt.0[ei - 1] == r.0[ei]);
            }
        } else if q >= e.quantity {
            let rt = consume_result(price, tail, q - e.quantity);
            lemma_consume_props(price, tail, q - e.quantity);
            let et = LevelEntry { tombstone: true, ..e };
            assert(r.0 == seq![et] + rt.0);
            lemma_sum_live_cons(et, rt.0);
            lemma_sum_live_cons(e, tail);
            assert(sum_live(s) == entry_contrib(e) + sum_live(tail)) by {
                assert(s =~= seq![e] + tail);
            }
            let f = Fill { price, maker_order_id: e.order_id, quantity: e.quantity };
            assert(r.1 == seq![f] + rt.1);
            assert(sum_fills(r.1) == f.quantity + sum_fills(rt.1)) by {
                assert((seq![f] + rt.1).drop_first() =~= rt.1);
                assert((seq![f] + rt.1)[0] == f);
            }
            assert(forall|i: int| 0 <= i < rt.1.len() ==> #[trigger] rt.1[i] == r.1[i + 1]);
            assert(live_ids(s) == seq![e.order_id] + live_ids(tail));
            assert(fill_ids(r.1) == seq![e.order_id] + fill_ids(rt.1)) by {
                assert((seq![f] + rt.1).drop_first() =~= rt.1);
                assert((seq![f] + rt.1)[0] == f);
            }
            assert(fill_ids(r.1) =~= live_ids(s).take(r.1.len() as int)) by {
                assert(fill_ids(rt.1) == live_ids(tail).take(rt.1.len() as int));
                assert(forall|i: int|
                    0 <= i < live_ids(tail).len() ==> #[trigger] live_ids(s)[i + 1] == live_ids(
                        tail,
                    )[i]);
            }
            assert(forall|i: int| 0 <= i < tail.len() ==> #[trigger] rt.0[i] == r.0[i + 1]);
            assert(r.2 == seq![e.order_id] + rt.2);
            assert(forall|k: int| 0 <= k < rt.2.len() ==> #[trigger] rt.2[k] == r.2[k + 1]);
            assert forall|k: int| 0 <= k < r.2.len() implies exists|ei: int|
                {
                    &&& 0 <= ei < s.len()
                    &&& !(#[trigger] s[ei]).tombstone
                    &&& r.0[ei].tombstone
                    &&& s[ei].order_id == #[trigger] r.2[k]
                } by {
                if k == 0 {
                    assert(!s[0].tombstone && r.0[0].tombstone && s[0].order_id == r.2[0]);
                } else {
                    let wi = choose|ei: int|
                        {
                            &&& 0 <= ei < tail.len()
                            &&& !(#[trigger] tail[ei]).tombstone
                            &&& rt.0[ei].tombstone
                            &&& tail[ei].order_id == rt.2[k - 1]
                        };
                    assert(s[wi + 1] == tail[wi]);
                    assert(r.0[wi + 1] == rt.0[wi]);
                }
            }
            assert forall|ei: int|
                0 <= ei < s.len() && !(#[trigger] s[ei]).tombstone && r.0[ei].tombstone implies r
                .2.contains(s[ei].order_id) by {
                if ei == 0 {
                    assert(r.2[0] == s[0].order_id);
                } else {
                    assert(tail[ei - 1] == s[ei]);
                    assert(rt.0[ei - 1] == r.0[ei]);
                    let wk = choose|k: int| 0 <= k < rt.2.len() && rt.2[k] == tail[ei - 1].order_id;
                    assert(r.2[wk + 1] == rt.2[wk]);
                }
            }
        } else {
            let ep = LevelEntry { quantity: (e.quantity - q) as u32, ..e };
            assert(r.0 == s.update(0, ep));
            lemma_sum_live_update(s, 0, ep);
            let f = Fill { price, maker_order_id: e.order_id, quantity: q as u32 };
            assert(r.1 == seq![f]);
            assert(sum_fills(r.1) == q) by {
                assert(seq![f].drop_first() =~= Seq::<Fill>::empty());
                assert(sum_fills(Seq::<Fill>::empty()) == 0);
                assert(sum_fills(seq![f]) == f.quantity + sum_fills(seq![f].drop_first()));
            }
            assert(live_ids(s) == seq![e.order_id] + live_ids(tail));
            assert(fill_ids(r.1) =~= live_ids(s).take(1)) by {
                assert(seq![f].drop_first() =~= Seq::<Fill>::empty());
                assert(fill_ids(Seq::<Fill>::empty()) =~= Seq::<u32>::empty());
                assert(fill_ids(seq![f]) == seq![f.maker_order_id] + fill_ids(
                    seq![f].drop_first(),
                ));
                assert(live_ids(s)[0] == e.order_id);
            }
        }
    }
}


impl OrderBook {
    /// Walks one level in arrival order, filling the taker against live
    /// entries: each maker consumed whole is tombstoned and dropped from
    /// the id index, a partially consumed maker is reduced in place, and
    /// one trade is buffered per fill.
    fn consume_level(
        level: &mut PriceLevel,
        locations: &mut std::collections::HashMap<u32, OrderLocation>,
        trades: &mut Vec<crate::wire::TradeMsg>,
        taker_order_id: u32,
        qty: u32,
        timestamp: i64,
    ) -> (remaining: u32)
        requires
            old(level).wf(),
            qty > 0,
        ensures
            ({
                let r = consume_result(old(level).price, old(level).entries@, qty as int);
                &&& final(level).wf()
                &&& final(level).price == old(level).price
                &&& final(level).entries@ == r.0
                &&& remaining as int == r.3
                &&& final(trades)@ == old(trades)@ + fills_to_trades(r.1, taker_order_id, timestamp)
                &&& final(locations)@ == old(locations)@.remove_keys(r.2.to_set())
            }),
    {
        proof {
            broadcast use vstd::std_specs::hash::group_hash_axioms;

        }
        let ghost price_g = old(level).price;
        let ghost s0 = old(level).entries@;
        let ghost full = consume_result(price_g, s0, qty as int);
        let mut idx: usize = 0;
        let mut remaining: u32 = qty;
        let ghost mut fills_done: Seq<Fill> = Seq::empty();
        let ghost mut removed_done: Seq<u32> = Seq::empty();
        proof {
            assert(s0.skip(0) =~= s0);
            assert(level.entries@.take(0) =~= Seq::<LevelEntry>::empty());
            assert(full.1 == fills_done + full.1);
            assert(full.2 == removed_done + full.2);
            assert(fills_to_trades(fills_done, taker_order_id, timestamp)
                =~= Seq::<crate::wire::TradeMsg>::empty());
            assert(trades@ =~= trades@ + fills_to_trades(fills_done, taker_order_id, timestamp));
            assert(locations@ =~= locations@.remove_keys(removed_done.to_set()));
        }
        while idx < level.entries.len() && remaining > 0
            invariant
                level.wf(),
                level.price == price_g,
                idx <= level.entries@.len(),
                level.entries@.len() == s0.len(),
                level.entries@.skip(idx as int) == s0.skip(idx as int),
                remaining <= qty,
                ({
                    let rsuf = consume_result(price_g, s0.skip(idx as int), remaining as int);
                    &&& full.0 == level.entries@.take(idx as int) + rsuf.0
                    &&& full.1 == fills_done + rsuf.1
                    &&& full.2 == removed_done + rsuf.2
                    &&& full.3 == rsuf.3
                }),
                trades@ == old(trades)@ + fills_to_trades(fills_done, taker_order_id, timestamp),
                locations@ == old(locations)@.remove_keys(removed_done.to_set()),
            decreases level.entries@.len() - idx,
        {
            let e = level.entries[idx];
            proof {
                assert(level.entries@[idx as int] == level.entries@.skip(idx as int)[0]);
                assert(e == s0.skip(idx as int)[0]);
                assert(e == s0[idx as int]);
                assert(s0.skip(idx as int).drop_first() =~= s0.skip(idx as int + 1));
            }
            let ghost rsuf = consume_result(price_g, s0.skip(idx as int), remaining as int);
            if e.tombstone {
                proof {
                    let rnext = consume_result(
                        price_g,
                        s0.skip(idx as int + 1),
                        remaining as int,
                    );
                    assert(rsuf.0 == seq![e] + rnext.0);
                    assert(level.entries@.take(idx as int + 1) =~= level.entries@.take(idx as int)
                        + seq![e]);
                    assert(level.entries@.take(idx as int) + rsuf.0 =~= level.entries@.take(
                        idx as int + 1,
                    ) + rnext.0);
                }
                idx = idx + 1;
            } else {
                let maker_id = e.order_id;
                let maker_qty = e.quantity;
                if remaining >= maker_qty {
                    let ghost et = LevelEntry { tombstone: true, ..e };
                    let ghost f = Fill { price: price_g, maker_order_id: maker_id, quantity: maker_qty };
                    let ghost rnext = consume_result(
                        price_g,
                        s0.skip(idx as int + 1),
                        remaining - maker_qty,
                    );
                    let ghost pre_entries = level.entries@;
                    level.remove_at(idx);
                    locations.remove(&maker_id);
                    trades.push(
                        crate::wire::TradeMsg {
                            msg_type: 1,
                            price: level.price,
                            quantity: maker_qty,
                            maker_order_id: maker_id,
                            taker_order_id,
                            timestamp,
                        },
                    );
                    proof {
                        assert(rsuf.0 == seq![et] + rnext.0);
                        assert(rsuf.1 == seq![f] + rnext.1);
                        assert(rsuf.2 == seq![maker_id] + rnext.2);
                        assert(level.entries@ == pre_entries.update(idx as int, et));
                        assert(level.entries@.take(idx as int) =~= pre_entries.take(idx as int));
                        assert(level.entries@.take(idx as int + 1) =~= pre_entries.take(idx as int)
                            + seq![et]);
                        assert(full.0 =~= level.entries@.take(idx as int + 1) + rnext.0) by {
                            assert(full.0 == pre_entries.take(idx as int) + (seq![et] + rnext.0));
                        }
                        assert(level.entries@.skip(idx as int + 1) =~= s0.skip(idx as int + 1)) by {
                            assert(pre_entries.skip(idx as int) == s0.skip(idx as int));
                            assert(forall|k: int| 0 <= k < s0.len() - idx as int - 1
                                ==> #[trigger] pre_entries.skip(idx as int + 1)[k] == s0.skip(
                                idx as int + 1,
                            )[k]);
                        }
                        let fills_prev = fills_done;
                        let removed_prev = removed_done;
                        fills_done = fills_done.push(f);
                        removed_done = removed_done.push(maker_id);
                        assert(fills_done =~= fills_prev + seq![f]);
                        assert(removed_done =~= removed_prev + seq![maker_id]);
                        assert(full.1 == fills_done + rnext.1) by {
                            assert(fills_prev + (seq![f] + rnext.1) =~= (fills_prev + seq![f])
                                + rnext.1);
                        }
                        assert(full.2 == removed_done + rnext.2) by {
                            assert(removed_prev + (seq![maker_id] + rnext.2) =~= (removed_prev
                                + seq![maker_id]) + rnext.2);
                        }
                        assert(trades@ == old(trades)@ + fills_to_trades(
                            fills_done,
                            taker_order_id,
                            timestamp,
                        )) by {
                            assert(trades@ =~= old(trades)@ + fills_to_trades(
                                fills_done,
                                taker_order_id,
                                timestamp,
                            ));
                        }
                        Seq::<u32>::lemma_to_set_insert_commutes(removed_prev, maker_id);
                        assert(removed_done.to_set() == removed_prev.to_set().insert(maker_id));
                        assert(locations@ == old(locations)@.remove_keys(removed_done.to_set()))
                            by {
                            assert(locations@ =~= old(locations)@.remove_keys(
                                removed_done.to_set(),
                            ));
                        }
                    }
                    remaining = remaining - maker_qty;
                    idx = idx + 1;
                } else {
                    let new_qty = maker_qty - remaining;
                    let ghost ep = LevelEntry { quantity: (maker_qty - remaining) as u32, ..e };
                    let ghost f = Fill { price: price_g, maker_order_id: maker_id, quantity: remaining };
                    let ghost pre_entries = level.entries@;
                    level.reduce_at(idx, new_qty);
                    trades.push(
                        crate::wire::TradeMsg {
                            msg_type: 1,
                            price: level.price,
                            quantity: remaining,
                            maker_order_id: maker_id,
                            taker_order_id,
                            timestamp,
                        },
                    );
                    proof {
                        assert(rsuf.0 == s0.skip(idx as int).update(0, ep));
                        assert(rsuf.1 == seq![f]);
                        assert(rsuf.2 =~= Seq::<u32>::empty());
                        assert(rsuf.3 == 0);
                        assert(level.entries@ == pre_entries.update(idx as int, ep));
                        assert(level.entries@.take(idx as int) =~= pre_entries.take(idx as int));
                        assert(level.entries@.take(idx as int + 1) =~= pre_entries.take(idx as int)
                            + seq![ep]);
                        assert(s0.skip(idx as int).update(0, ep) =~= seq![ep] + s0.skip(
                            idx as int + 1,
                        ));
                        assert(level.entries@.skip(idx as int + 1) =~= s0.skip(idx as int + 1)) by {
                            assert(pre_entries.skip(idx as int) == s0.skip(idx as int));
                            assert(forall|k: int| 0 <= k < s0.len() - idx as int - 1
                                ==> #[trigger] pre_entries.skip(idx as int + 1)[k] == s0.skip(
                                idx as int + 1,
                            )[k]);
                        }
                        let rnext = consume_result(price_g, s0.skip(idx as int + 1), 0);
                        assert(rnext.0 == s0.skip(idx as int + 1));
                        assert(full.0 =~= level.entries@.take(idx as int + 1) + rnext.0) by {
                            assert(full.0 == pre_entries.take(idx as int) + (seq![ep] + s0.skip(
                                idx as int + 1,
                            )));
                        }
                        let fills_prev = fills_done;
                        fills_done = fills_done.push(f);
                        assert(fills_done =~= fills_prev + seq![f]);
                        assert(rnext.1 =~= Seq::<Fill>::empty());
                        assert(rnext.2 =~= Seq::<u32>::empty());
                        assert(full.1 == fills_done + rnext.1) by {
                            assert(fills_done + rnext.1 =~= fills_done);
                            assert(fills_prev + (seq![f]) =~= fills_done);
                        }
                        assert(full.2 == removed_done + rnext.2) by {
                            assert(removed_done + Seq::<u32>::empty() =~= removed_done);
                            assert(removed_done + rsuf.2 =~= removed_done);
                        }
                        assert(trades@ == old(trades)@ + fills_to_trades(
                            fills_done,
                            taker_order_id,
                            timestamp,
                        )) by {
                            assert(trades@ =~= old(trades)@ + fills_to_trades(
                                fills_done,
                                taker_order_id,
                                timestamp,
                            ));
                        }
                    }
                    remaining = 0;
                    idx = idx + 1;
                }
            }
        }
        proof {
            let rsuf = consume_result(price_g, s0.skip(idx as int), remaining as int);
            if idx == level.entries@.len() {
                assert(s0.skip(idx as int) =~= Seq::<LevelEntry>::empty());
                assert(rsuf.0 =~= Seq::<LevelEntry>::empty());
                assert(level.entries@.take(idx as int) =~= level.entries@);
                assert(full.0 =~= level.entries@);
            } else {
                assert(remaining == 0);
                assert(rsuf.0 == s0.skip(idx as int));
                assert(full.0 =~= level.entries@) by {
                    assert(level.entries@.take(idx as int) + level.entries@.skip(idx as int)
                        =~= level.entries@);
                }
            }
            assert(rsuf.1 =~= Seq::<Fill>::empty());
            assert(rsuf.2 =~= Seq::<u32>::empty());
            assert(full.1 =~= fills_done);
            assert(full.2 =~= removed_done);
        }
        remaining
    }
}


/// A price level as the matching specification sees it.
pub ghost struct LevelModel {
    pub price: u32,
    pub entries: Seq<LevelEntry>,
}

pub open spec fn level_model(l: PriceLevel) -> LevelModel {
    LevelModel { price: l.price, entries: l.entries@ }
}

pub open spec fn side_model(levels: Seq<PriceLevel>) -> Seq<LevelModel> {
    levels.map_values(|l: PriceLevel| level_model(l))
}

/// Whether a maker level at `level_price` satisfies a taker limited to
/// `limit`: a buyer crosses asks priced at or below its limit, a seller
/// crosses bids priced at or above.
pub open spec fn crosses(taker_side: Side, level_price: u32, limit: u32) -> bool {
    match taker_side {
        Side::Buy => level_price <= limit,
        Side::Sell => level_price >= limit,
    }
}

/// What becomes of the opposite side when a taker walks it best-first:
/// the surviving levels, the fills in emission order, the ids of makers
/// consumed whole, and the taker's unfilled remainder.
pub open spec fn match_levels(levels: Seq<LevelModel>, taker_side: Side, limit: u32, q: int) -> (
    Seq<LevelModel>,
    Seq<Fill>,
    Seq<u32>,
    int,
)
    decreases levels.len(),
{
    if levels.len() == 0 || q <= 0 || !crosses(taker_side, levels[0].price, limit) {
        (levels, Seq::<Fill>::empty(), Seq::<u32>::empty(), q)
    } else {
        let r = consume_result(levels[0].price, levels[0].entries, q);
        if sum_live(r.0) == 0 {
            let m = match_levels(levels.drop_first(), taker_side, limit, r.3);
            (m.0, r.1 + m.1, r.2 + m.2, m.3)
        } else {
            (
                seq![(LevelModel { price: levels[0].price, entries: r.0 })] + levels.drop_first(),
                r.1,
                r.2,
                r.3,
            )
        }
    }
}

/// Pointwise relation between a level's entries before and after a taker
/// walked it: identities in place, tombstones only gained, quantities only
/// shrunk, and every liveness flip accounted for in `removed`.
pub open spec fn entries_consumed_rel(
    olde: Seq<LevelEntry>,
    newe: Seq<LevelEntry>,
    removed: Seq<u32>,
) -> bool {
    &&& newe.len() == olde.len()
    &&& forall|ei: int|
        0 <= ei < olde.len() ==> {
            let oe = olde[ei];
            let ne = #[trigger] newe[ei];
            &&& ne.order_id == oe.order_id
            &&& ne.user_id == oe.user_id
            &&& (oe.tombstone ==> ne == oe)
            &&& (!ne.tombstone ==> !oe.tombstone && 0 < ne.quantity <= oe.quantity)
        }
    &&& forall|ei: int|
        0 <= ei < olde.len() && !(#[trigger] olde[ei]).tombstone && newe[ei].tombstone
            ==> removed.contains(olde[ei].order_id)
}

/// The shape of a matched side: the first `k` levels were consumed whole
/// and dropped, the next survives (possibly reduced), the rest untouched.
pub open spec fn matched_shape(
    old_ls: Seq<LevelModel>,
    new_ls: Seq<LevelModel>,
    removed: Seq<u32>,
    k: int,
) -> bool {
    &&& 0 <= k <= old_ls.len()
    &&& new_ls.len() == old_ls.len() - k
    &&& forall|i: int| 1 <= i < new_ls.len() ==> #[trigger] new_ls[i] == old_ls[k + i]
    &&& (new_ls.len() > 0 ==> {
        &&& new_ls[0].price == old_ls[k].price
        &&& entries_consumed_rel(old_ls[k].entries, new_ls[0].entries, removed)
    })
    &&& forall|li: int, ei: int|
        #![trigger old_ls[li].entries[ei]]
        0 <= li < k && 0 <= ei < old_ls[li].entries.len() && !old_ls[li].entries[ei].tombstone
            ==> removed.contains(old_ls[li].entries[ei].order_id)
    &&& forall|j: int|
        #![trigger removed[j]]
        0 <= j < removed.len() ==> exists|li: int, ei: int|
            #![trigger old_ls[li].entries[ei]]
            {
                &&& 0 <= li <= k
                &&& li < old_ls.len()
                &&& 0 <= ei < old_ls[li].entries.len()
                &&& !old_ls[li].entries[ei].tombstone
                &&& old_ls[li].entries[ei].order_id == removed[j]
                &&& (li == k ==> new_ls.len() > 0 && new_ls[0].entries[ei].tombstone)
            }
}

/// Fills listed best-price-first for the given taker side.
pub open spec fn fills_price_ordered(taker_side: Side, fills: Seq<Fill>) -> bool {
    forall|a: int, b: int|
        0 <= a < b < fills.len() ==> match taker_side {
            Side::Buy => (#[trigger] fills[a]).price <= (#[trigger] fills[b]).price,
            Side::Sell => (#[trigger] fills[a]).price >= (#[trigger] fills[b]).price,
        }
}

/// Whether `x` prices no better than `bound` for the given taker side
/// (for a buyer, deeper asks cost more; for a seller, deeper bids pay less).
pub open spec fn price_no_better(taker_side: Side, x: u32, bound: u32) -> bool {
    match taker_side {
        Side::Buy => x >= bound,
        Side::Sell => x <= bound,
    }
}

/// A side's levels well-formed at the model: live entries carry quantity.
pub open spec fn models_live_positive(levels: Seq<LevelModel>) -> bool {
    forall|li: int, ei: int|
        #![trigger levels[li].entries[ei]]
        0 <= li < levels.len() && 0 <= ei < levels[li].entries.len() && !levels[li].entries[ei].tombstone
            ==> levels[li].entries[ei].quantity > 0
}

/// Opposite-side levels as a taker sees them: best price first, strictly
/// improving toward the front.
pub open spec fn models_best_first(levels: Seq<LevelModel>, taker_side: Side) -> bool {
    forall|i: int, j: int|
        0 <= i < j < levels.len() ==> match taker_side {
            Side::Buy => (#[trigger] levels[i]).price < (#[trigger] levels[j]).price,
            Side::Sell => (#[trigger] levels[i]).price > (#[trigger] levels[j]).price,
        }
}

/// Everything the matching code needs to know about `match_levels`,
/// proved in one induction over the levels.
#[verifier::spinoff_prover]
#[verifier::rlimit(60)]
pub proof fn lemma_match_props(levels: Seq<LevelModel>, taker_side: Side, limit: u32, q: int)
    requires
        q >= 0,
        models_live_positive(levels),
        models_best_first(levels, taker_side),
    ensures
        ({
            let m = match_levels(levels, taker_side, limit, q);
            &&& 0 <= m.3 <= q
            &&& sum_fills(m.1) == q - m.3
            &&& (m.3 > 0 ==> m.0.len() == 0 || !crosses(taker_side, m.0[0].price, limit))
            &&& exists|k: int| #[trigger] matched_shape(levels, m.0, m.2, k)
            &&& fills_price_ordered(taker_side, m.1)
            &&& forall|i: int|
                0 <= i < m.1.len() ==> crosses(taker_side, (#[trigger] m.1[i]).price, limit) && (
                levels.len() > 0 ==> price_no_better(taker_side, m.1[i].price, levels[0].price))
                    && m.1[i].quantity > 0
        }),
    decreases levels.len(),
{
    let m = match_levels(levels, taker_side, limit, q);
    if levels.len() == 0 || q <= 0 || !crosses(taker_side, levels[0].price, limit) {
        assert(sum_fills(Seq::<Fill>::empty()) == 0);
        assert(matched_shape(levels, m.0, m.2, 0));
    } else {
        let price0 = levels[0].price;
        let e0 = levels[0].entries;
        let r = consume_result(price0, e0, q);
        assert(forall|ei: int| 0 <= ei < e0.len() && !(#[trigger] e0[ei]).tombstone
            ==> e0[ei].quantity > 0);
        lemma_consume_props(price0, e0, q);
        let tail = levels.drop_first();
        assert(forall|li: int| 0 <= li < tail.len() ==> #[trigger] tail[li] == levels[li + 1]);
        assert(models_live_positive(tail));
        assert(models_best_first(tail, taker_side));
        if sum_live(r.0) == 0 {
            let mt = match_levels(tail, taker_side, limit, r.3);
            lemma_match_props(tail, taker_side, limit, r.3);
            assert(m.0 == mt.0 && m.1 == r.1 + mt.1 && m.2 == r.2 + mt.2 && m.3 == mt.3);
            assert(sum_fills(m.1) == q - m.3) by {
                lemma_sum_fills_concat(r.1, mt.1);
            }
            // shape: shift the tail's witness by one
            let kt = choose|kt: int| #[trigger] matched_shape(tail, mt.0, mt.2, kt);
            assert(matched_shape(levels, m.0, m.2, kt + 1)) by {
                assert(forall|i: int| 1 <= i < m.0.len() ==> #[trigger] m.0[i] == tail[kt + i]);
                assert(forall|i: int| 1 <= i < m.0.len() ==> #[trigger] tail[kt + i] == levels[kt + 1 + i]);
                if m.0.len() > 0 {
                    assert(m.0[0].price == tail[kt].price && tail[kt] == levels[kt + 1]);
                    assert(entries_consumed_rel(levels[kt + 1].entries, m.0[0].entries, mt.2));
                    assert(entries_consumed_rel(levels[kt + 1].entries, m.0[0].entries, m.2)) by {
                        assert forall|x: u32| mt.2.contains(x) implies #[trigger] m.2.contains(
                            x,
                        ) by {
                            let j = choose|j: int| 0 <= j < mt.2.len() && mt.2[j] == x;
                            assert(m.2[j + r.2.len()] == x);
                        }
                    }
                }
                assert forall|x: u32| mt.2.contains(x) implies #[trigger] m.2.contains(x) by {
                    let j = choose|j: int| 0 <= j < mt.2.len() && mt.2[j] == x;
                    assert(m.2[j + r.2.len()] == x);
                }
                assert forall|x: u32| r.2.contains(x) implies #[trigger] m.2.contains(x) by {
                    let j = choose|j: int| 0 <= j < r.2.len() && r.2[j] == x;
                    assert(m.2[j] == x);
                }
                // levels consumed whole: level 0 via consume facts, the rest via the tail witness
                assert forall|li: int, ei: int|
                    0 <= li < kt + 1 && 0 <= ei < levels[li].entries.len() && !(
                #[trigger] levels[li].entries[ei]).tombstone implies m.2.contains(
                    levels[li].entries[ei].order_id,
                ) by {
                    assert(levels[li].entries[ei] == levels[li].entries[ei]);
                    if li == 0 {
                        assert(r.0[ei].tombstone) by {
                            if !r.0[ei].tombstone {
                                lemma_sum_live_pos(r.0, ei);
                            }
                        }
                        assert(r.2.contains(e0[ei].order_id));
                    } else {
                        assert(tail[li - 1] == levels[li]);
                        assert(mt.2.contains(tail[li - 1].entries[ei].order_id));
                    }
                }
                // every removed id has a live witness
                assert forall|j: int| #![trigger m.2[j]] 0 <= j < m.2.len() implies exists|li: int, ei: int|
                    #![trigger levels[li].entries[ei]]
                    {
                        &&& 0 <= li <= kt + 1
                        &&& li < levels.len()
                        &&& 0 <= ei < levels[li].entries.len()
                        &&& !levels[li].entries[ei].tombstone
                        &&& levels[li].entries[ei].order_id == m.2[j]
                        &&& (li == kt + 1 ==> m.0.len() > 0 && m.0[0].entries[ei].tombstone)
                    } by {
                    if j < r.2.len() {
                        assert(r.2[j] == m.2[j]);
                        let wei = choose|ei: int|
                            {
                                &&& 0 <= ei < e0.len()
                                &&& !(#[trigger] e0[ei]).tombstone
                                &&& r.0[ei].tombstone
                                &&& e0[ei].order_id == r.2[j]
                            };
                        assert(0 <= 0 <= kt + 1 && 0 < levels.len() && 0 <= wei < levels[0].entries.len()
                            && !levels[0].entries[wei].tombstone
                            && levels[0].entries[wei].order_id == m.2[j]);
                    } else {
                        assert(m.2[j] == mt.2[j - r.2.len()]);
                        let (wli, wei): (int, int) = choose|wli: int, wei: int|
                            #![trigger tail[wli].entries[wei]]
                            {
                                &&& 0 <= wli <= kt
                                &&& wli < tail.len()
                                &&& 0 <= wei < tail[wli].entries.len()
                                &&& !tail[wli].entries[wei].tombstone
                                &&& tail[wli].entries[wei].order_id == mt.2[j - r.2.len()]
                                &&& (wli == kt ==> mt.0.len() > 0 && mt.0[0].entries[wei].tombstone)
                            };
                        assert(tail[wli] == levels[wli + 1]);
                        assert(levels[wli + 1].entries[wei] == tail[wli].entries[wei]);
                    }
                }
            }
            // fill facts
            assert forall|i: int| 0 <= i < m.1.len() implies crosses(
                taker_side,
                (#[trigger] m.1[i]).price,
                limit,
            ) && price_no_better(taker_side, m.1[i].price, levels[0].price) && m.1[i].quantity > 0
                by {
                if i < r.1.len() {
                    assert(m.1[i] == r.1[i]);
                } else {
                    assert(m.1[i] == mt.1[i - r.1.len()]);
                    if tail.len() > 0 {
                        assert(price_no_better(taker_side, mt.1[i - r.1.len()].price, tail[0].price));
                        assert(tail[0] == levels[1]);
                    } else {
                        assert(mt.1.len() == 0);
                    }
                }
            }
            assert(fills_price_ordered(taker_side, m.1)) by {
                assert forall|a: int, b: int| 0 <= a < b < m.1.len() implies match taker_side {
                    Side::Buy => (#[trigger] m.1[a]).price <= (#[trigger] m.1[b]).price,
                    Side::Sell => (#[trigger] m.1[a]).price >= (#[trigger] m.1[b]).price,
                } by {
                    if a < r.1.len() && b >= r.1.len() {
                        assert(m.1[a] == r.1[a]);
                        assert(m.1[b] == mt.1[b - r.1.len()]);
                        assert(m.1[a].price == price0);
                        if tail.len() > 0 {
                            assert(price_no_better(taker_side, m.1[b].price, tail[0].price));
                            assert(tail[0] == levels[1]);
                        } else {
                            assert(mt.1.len() == 0);
                        }
                    } else if b < r.1.len() {
                        assert(m.1[a] == r.1[a] && m.1[b] == r.1[b]);
                    } else {
                        assert(m.1[a] == mt.1[a - r.1.len()] && m.1[b] == mt.1[b - r.1.len()]);
                    }
                }
            }
        } else {
            assert(m.3 == r.3 && m.1 == r.1 && m.2 == r.2);
            assert(m.3 == 0) by {
                if r.3 > 0 {
                    assert(sum_live(r.0) == 0);
                }
            }
            assert(matched_shape(levels, m.0, m.2, 0)) by {
                assert(m.0.len() == levels.len());
                assert(forall|i: int| 1 <= i < m.0.len() ==> #[trigger] m.0[i] == tail[i - 1]);
                assert(forall|i: int| 1 <= i < m.0.len() ==> tail[i - 1] == levels[i]);
                assert(m.0[0].entries == r.0);
                assert forall|j: int| #![trigger m.2[j]] 0 <= j < m.2.len() implies exists|li: int, ei: int|
                    #![trigger levels[li].entries[ei]]
                    {
                        &&& 0 <= li <= 0
                        &&& li < levels.len()
                        &&& 0 <= ei < levels[li].entries.len()
                        &&& !levels[li].entries[ei].tombstone
                        &&& levels[li].entries[ei].order_id == m.2[j]
                        &&& (li == 0 ==> m.0.len() > 0 && m.0[0].entries[ei].tombstone)
                    } by {
                    let wei = choose|ei: int|
                        {
                            &&& 0 <= ei < e0.len()
                            &&& !(#[trigger] e0[ei]).tombstone
                            &&& r.0[ei].tombstone
                            &&& e0[ei].order_id == r.2[j]
                        };
                    assert(0 <= wei < levels[0].entries.len() && !levels[0].entries[wei].tombstone
                        && levels[0].entries[wei].order_id == m.2[j]
                        && m.0[0].entries[wei].tombstone);
                }
            }
            assert(forall|i: int|
                0 <= i < m.1.len() ==> (#[trigger] m.1[i]).price == price0 && m.1[i].quantity > 0);
        }
    }
}

pub proof fn lemma_sum_fills_concat(a: Seq<Fill>, b: Seq<Fill>)
    ensures
        sum_fills(a + b) == sum_fills(a) + sum_fills(b),
    decreases a.len(),
{
    if a.len() == 0 {
        assert(a + b =~= b);
    } else {
        assert((a + b).drop_first() =~= a.drop_first() + b);
        assert((a + b)[0] == a[0]);
        lemma_sum_fills_concat(a.drop_first(), b);
    }
}


pub proof fn lemma_fills_to_trades_concat(a: Seq<Fill>, b: Seq<Fill>, taker: u32, ts: i64)
    ensures
        fills_to_trades(a + b, taker, ts) == fills_to_trades(a, taker, ts) + fills_to_trades(
            b,
            taker,
            ts,
        ),
{
    assert(fills_to_trades(a + b, taker, ts) =~= fills_to_trades(a, taker, ts) + fills_to_trades(
        b,
        taker,
        ts,
    ));
}

pub proof fn lemma_to_set_concat(a: Seq<u32>, b: Seq<u32>)
    ensures
        (a + b).to_set() == a.to_set().union(b.to_set()),
{
    assert forall|x: u32| #[trigger] (a + b).to_set().contains(x) implies a.to_set().union(
        b.to_set(),
    ).contains(x) by {
        let j = choose|j: int| 0 <= j < (a + b).len() && (a + b)[j] == x;
        if j < a.len() {
            assert(a[j] == x);
        } else {
            assert(b[j - a.len()] == x);
        }
    }
    assert forall|x: u32| a.to_set().union(b.to_set()).contains(x) implies #[trigger] (a
        + b).to_set().contains(x) by {
        if a.to_set().contains(x) {
            let j = choose|j: int| 0 <= j < a.len() && a[j] == x;
            assert((a + b)[j] == x);
        } else {
            let j = choose|j: int| 0 <= j < b.len() && b[j] == x;
            assert((a + b)[j + a.len()] == x);
        }
    }
    assert((a + b).to_set() =~= a.to_set().union(b.to_set()));
}

pub proof fn lemma_remove_keys_compose(m: Map<u32, OrderLocation>, a: Set<u32>, b: Set<u32>)
    ensures
        m.remove_keys(a).remove_keys(b) == m.remove_keys(a.union(b)),
{
    assert(m.remove_keys(a).remove_keys(b) =~= m.remove_keys(a.union(b)));
}

impl OrderBook {
    /// Walks the opposite side best-first, consuming every crossing level
    /// until the taker is filled or no crossing liquidity remains. Spent
    /// levels are dropped; a partially consumed level stays at the front.
    #[verifier::rlimit(60)]
    fn match_against(
        levels: &mut Vec<PriceLevel>,
        locations: &mut std::collections::HashMap<u32, OrderLocation>,
        trades: &mut Vec<crate::wire::TradeMsg>,
        taker_side: Side,
        taker_order_id: u32,
        limit: u32,
        qty: u32,
        timestamp: i64,
    ) -> (remaining: u32)
        requires
            levels_wf(old(levels)@),
            qty > 0,
        ensures
            ({
                let m = match_levels(side_model(old(levels)@), taker_side, limit, qty as int);
                &&& side_model(final(levels)@) == m.0
                &&& levels_wf(final(levels)@)
                &&& remaining as int == m.3
                &&& final(trades)@ == old(trades)@ + fills_to_trades(m.1, taker_order_id, timestamp)
                &&& final(locations)@ == old(locations)@.remove_keys(m.2.to_set())
            }),
    {
        let ghost mfull = match_levels(side_model(old(levels)@), taker_side, limit, qty as int);
        let mut remaining: u32 = qty;
        let ghost mut fills_done: Seq<Fill> = Seq::empty();
        let ghost mut removed_done: Seq<u32> = Seq::empty();
        proof {
            assert(fills_done + mfull.1 =~= mfull.1);
            assert(removed_done + mfull.2 =~= mfull.2);
            assert(fills_to_trades(fills_done, taker_order_id, timestamp)
                =~= Seq::<crate::wire::TradeMsg>::empty());
            assert(trades@ =~= trades@ + fills_to_trades(fills_done, taker_order_id, timestamp));
            assert(locations@ =~= locations@.remove_keys(removed_done.to_set()));
        }
        loop
            invariant
                levels_wf(levels@),
                remaining <= qty,
                ({
                    let mnow = match_levels(
                        side_model(levels@),
                        taker_side,
                        limit,
                        remaining as int,
                    );
                    &&& mfull.0 == mnow.0
                    &&& mfull.1 == fills_done + mnow.1
                    &&& mfull.2 == removed_done + mnow.2
                    &&& mfull.3 == mnow.3
                }),
                trades@ == old(trades)@ + fills_to_trades(fills_done, taker_order_id, timestamp),
                locations@ == old(locations)@.remove_keys(removed_done.to_set()),
            ensures
                levels_wf(levels@),
                remaining <= qty,
                side_model(levels@) == mfull.0,
                remaining as int == mfull.3,
                trades@ == old(trades)@ + fills_to_trades(mfull.1, taker_order_id, timestamp),
                locations@ == old(locations)@.remove_keys(mfull.2.to_set()),
            decreases levels@.len(),
        {
            let ghost pre = levels@;
            let ghost mnow = match_levels(side_model(pre), taker_side, limit, remaining as int);
            if levels.len() == 0 {
                proof {
                    assert(side_model(pre).len() == 0);
                    assert(mfull.1 =~= fills_done);
                    assert(mfull.2 =~= removed_done);
                }
                break;
            }
            let crossing = match taker_side {
                Side::Buy => levels[0].price <= limit,
                Side::Sell => levels[0].price >= limit,
            };
            proof {
                assert(side_model(pre)[0] == level_model(pre[0]));
            }
            if !crossing {
                proof {
                    assert(!crosses(taker_side, side_model(pre)[0].price, limit));
                    assert(mfull.1 =~= fills_done);
                    assert(mfull.2 =~= removed_done);
                }
                break;
            }
            if remaining == 0 {
                proof {
                    assert(mfull.1 =~= fills_done);
                    assert(mfull.2 =~= removed_done);
                }
                break;
            }
            let ghost q_in = remaining as int;
            let mut lv = levels.remove(0);
            let ghost r = consume_result(lv.price, lv.entries@, q_in);
            let rem2 = Self::consume_level(
                &mut lv,
                locations,
                trades,
                taker_order_id,
                remaining,
                timestamp,
            );
            proof {
                assert(side_model(pre).drop_first() =~= side_model(levels@));
                lemma_consume_props(pre[0].price, pre[0].entries@, q_in);
                lemma_fills_to_trades_concat(fills_done, r.1, taker_order_id, timestamp);
                lemma_to_set_concat(removed_done, r.2);
                lemma_remove_keys_compose(
                    old(locations)@,
                    removed_done.to_set(),
                    r.2.to_set(),
                );
            }
            let ghost fills_prev = fills_done;
            let ghost removed_prev = removed_done;
            proof {
                fills_done = fills_done + r.1;
                removed_done = removed_done + r.2;
            }
            if lv.total_qty > 0 {
                proof {
                    assert(sum_live(r.0) != 0);
                    assert(rem2 as int == r.3);
                    assert(r.3 == 0);
                }
                let ghost before_insert = levels@;
                levels.insert(0, lv);
                remaining = rem2;
                proof {
                    assert(levels@ =~= seq![lv] + before_insert);
                    assert(side_model(levels@) =~= seq![level_model(lv)] + side_model(
                        before_insert,
                    ));
                    assert(mnow.0 == side_model(levels@)) by {
                        assert(mnow.0 =~= seq![(LevelModel { price: pre[0].price, entries: r.0 })]
                            + side_model(pre).drop_first());
                        assert(level_model(lv) == (LevelModel {
                            price: pre[0].price,
                            entries: r.0,
                        }));
                    }
                    assert(mnow.1 == r.1 && mnow.2 == r.2 && mnow.3 == r.3);
                    assert(mfull.1 == fills_done) by {
                        assert(fills_prev + r.1 == fills_done);
                    }
                    assert(mfull.2 == removed_done) by {
                        assert(removed_prev + r.2 == removed_done);
                    }
                    assert(levels_wf(levels@)) by {
                        assert(forall|i: int|
                            1 <= i < levels@.len() ==> #[trigger] levels@[i] == before_insert[i
                                - 1]);
                    }
                    assert(side_model(levels@) == mfull.0);
                    assert(remaining as int == mfull.3);
                }
                break;
            } else {
                remaining = rem2;
                proof {
                    assert(sum_live(r.0) == 0);
                    let mtail = match_levels(
                        side_model(levels@),
                        taker_side,
                        limit,
                        rem2 as int,
                    );
                    assert(mnow.0 == mtail.0);
                    assert(mnow.1 == r.1 + mtail.1);
                    assert(mnow.2 == r.2 + mtail.2);
                    assert(mnow.3 == mtail.3);
                    assert(mfull.1 == fills_done + mtail.1) by {
                        assert(fills_prev + (r.1 + mtail.1) =~= (fills_prev + r.1) + mtail.1);
                    }
                    assert(mfull.2 == removed_done + mtail.2) by {
                        assert(removed_prev + (r.2 + mtail.2) =~= (removed_prev + r.2) + mtail.2);
                    }
                }
            }
        }
        remaining
    }
}


/// The cached total of the level at `price`, or zero when no such level
/// exists.
pub open spec fn spec_level_total(levels: Seq<PriceLevel>, price: u32) -> int {
    if exists|li: int| 0 <= li < levels.len() && (#[trigger] levels[li]).price == price {
        levels[choose|li: int|
            0 <= li < levels.len() && (#[trigger] levels[li]).price == price].total_qty as int
    } else {
        0
    }
}

/// How one side changes when a residual order is rested on it: appended to
/// the level already at its price, or placed in a fresh level inserted at
/// the sorted position.
pub open spec fn side_rested(
    old_s: Seq<PriceLevel>,
    new_s: Seq<PriceLevel>,
    order: Order,
    li: int,
    index: int,
) -> bool {
    let entry = LevelEntry {
        order_id: order.order_id,
        user_id: order.user_id,
        quantity: order.quantity,
        tombstone: false,
    };
    &&& 0 <= li < new_s.len()
    &&& new_s[li].price == order.price
    &&& if li < old_s.len() && old_s[li].price == order.price {
        &&& new_s.len() == old_s.len()
        &&& new_s[li].entries@ == old_s[li].entries@.push(entry)
        &&& new_s[li].total_qty == old_s[li].total_qty + order.quantity
        &&& index == old_s[li].entries@.len()
        &&& forall|j: int| 0 <= j < old_s.len() && j != li ==> #[trigger] new_s[j] == old_s[j]
    } else {
        &&& new_s.len() == old_s.len() + 1
        &&& new_s[li].entries@ == seq![entry]
        &&& new_s[li].total_qty == order.quantity
        &&& index == 0
        &&& forall|j: int| 0 <= j < li ==> #[trigger] new_s[j] == old_s[j]
        &&& forall|j: int| li < j < new_s.len() ==> #[trigger] new_s[j] == old_s[j - 1]
    }
}

impl OrderBook {
    /// The live quantity resting at `price` on the given side.
    pub fn level_total(&self, side: Side, price: u32) -> (t: u32)
        requires
            self.wf(),
        ensures
            t as int == spec_level_total(self.side_levels(side), price),
    {
        let levels = match side {
            Side::Buy => &self.bids,
            Side::Sell => &self.asks,
        };
        let ghost lvls = self.side_levels(side);
        let mut li: usize = 0;
        while li < levels.len()
            invariant
                self.wf(),
                lvls == self.side_levels(side),
                levels@ == lvls,
                li <= lvls.len(),
                forall|k: int| 0 <= k < li ==> (#[trigger] lvls[k]).price != price,
            decreases lvls.len() - li,
        {
            if levels[li].price == price {
                proof {
                    let w = choose|w: int| 0 <= w < lvls.len() && (#[trigger] lvls[w]).price
                        == price;
                    match side {
                        Side::Buy => {
                            lemma_price_unique(lvls, true, w, li as int);
                        },
                        Side::Sell => {
                            lemma_price_unique(lvls, false, w, li as int);
                        },
                    }
                }
                return levels[li].total_qty;
            }
            li = li + 1;
        }
        0
    }

    /// Rests a residual order on its own side, creating the level lazily,
    /// and reports the entry's position within its level.
    fn insert_resting(levels: &mut Vec<PriceLevel>, order: &Order, descending: bool) -> (index: usize)
        requires
            levels_wf(old(levels)@),
            levels_sorted(old(levels)@, descending),
            order.quantity > 0,
            spec_level_total(old(levels)@, order.price) + order.quantity <= u32::MAX,
        ensures
            levels_wf(final(levels)@),
            levels_sorted(final(levels)@, descending),
            exists|li: int|
                #[trigger] side_rested(old(levels)@, final(levels)@, *order, li, index as int),
    {
        let mut li: usize = 0;
        loop
            invariant
                levels@ == old(levels)@,
                li <= levels@.len(),
                forall|k: int|
                    0 <= k < li ==> if descending {
                        (#[trigger] levels@[k]).price > order.price
                    } else {
                        (#[trigger] levels@[k]).price < order.price
                    },
            ensures
                li <= levels@.len(),
                forall|k: int|
                    0 <= k < li ==> if descending {
                        (#[trigger] levels@[k]).price > order.price
                    } else {
                        (#[trigger] levels@[k]).price < order.price
                    },
                li < levels@.len() ==> if descending {
                    levels@[li as int].price <= order.price
                } else {
                    levels@[li as int].price >= order.price
                },
            decreases levels@.len() - li,
        {
            if li >= levels.len() {
                break;
            }
            let better = if descending {
                levels[li].price > order.price
            } else {
                levels[li].price < order.price
            };
            if !better {
                break;
            }
            li = li + 1;
        }
        if li < levels.len() && levels[li].price == order.price {
            proof {
                let w = choose|w: int| 0 <= w < levels@.len() && (#[trigger] levels@[w]).price
                    == order.price;
                lemma_price_unique(levels@, descending, w, li as int);
                assert(spec_level_total(levels@, order.price) == levels@[li as int].total_qty);
            }
            let index = {
                let lvref = &levels[li];
                lvref.entries.len()
            };
            let mut lv = levels.remove(li);
            lv.push(order);
            let ghost mid = levels@;
            levels.insert(li, lv);
            proof {
                old(levels)@.remove_ensures(li as int);
                mid.insert_ensures(li as int, lv);
                assert forall|j: int| 0 <= j < old(levels)@.len() && j != li as int implies
                    #[trigger] levels@[j] == old(levels)@[j] by {
                    if j < li as int {
                        assert(mid[j] == old(levels)@[j]);
                        assert(levels@[j] == mid[j]);
                    } else {
                        assert(mid[j - 1] == old(levels)@[j]);
                        assert(levels@[j] == mid[j - 1]);
                    }
                }
                assert(side_rested(old(levels)@, levels@, *order, li as int, index as int));
                assert(levels_wf(levels@)) by {
                    assert(forall|i: int|
                        0 <= i < levels@.len() && i != li as int ==> #[trigger] levels@[i] == old(
                            levels,
                        )@[i]);
                }
                assert(levels_sorted(levels@, descending)) by {
                    assert(forall|i: int|
                        0 <= i < levels@.len() ==> (#[trigger] levels@[i]).price == old(
                            levels,
                        )@[i].price);
                }
            }
            index
        } else {
            let mut lv = PriceLevel::new(order.price);
            proof {
                if exists|w: int| 0 <= w < levels@.len() && (#[trigger] levels@[w]).price
                    == order.price {
                    let w = choose|w: int| 0 <= w < levels@.len() && (#[trigger] levels@[w]).price
                        == order.price;
                    if w < li as int {
                        assert(levels@[w].price == order.price);
                        assert(false);
                    } else {
                        assert(false);
                    }
                }
                assert(spec_level_total(levels@, order.price) == 0);
            }
            lv.push(order);
            let ghost before = levels@;
            levels.insert(li, lv);
            proof {
                before.insert_ensures(li as int, lv);
                assert(levels@[li as int] == lv);
                assert(side_rested(old(levels)@, levels@, *order, li as int, 0));
                assert(levels_wf(levels@)) by {
                    assert(forall|j: int| 0 <= j < li ==> #[trigger] levels@[j] == before[j]);
                    assert(forall|j: int|
                        li < j < levels@.len() ==> #[trigger] levels@[j] == before[j - 1]);
                }
                assert(levels_sorted(levels@, descending)) by {
                    assert(forall|j: int| 0 <= j < li ==> #[trigger] levels@[j] == before[j]);
                    assert(forall|j: int|
                        li < j < levels@.len() ==> #[trigger] levels@[j] == before[j - 1]);
                    assert(lv.price == order.price);
                }
            }
            0
        }
    }
}


/// After the opposite side has been matched against and the consumed
/// makers dropped from the id index, the whole book is well-formed again.
#[verifier::spinoff_prover]
#[verifier::rlimit(100)]
proof fn lemma_wf_after_match(
    old_book: OrderBook,
    new_book: OrderBook,
    taker_side: Side,
    limit: u32,
    q: int,
)
    requires
        old_book.wf(),
        q > 0,
        ({
            let m = match_levels(
                side_model(old_book.side_levels(opposite(taker_side))),
                taker_side,
                limit,
                q,
            );
            &&& side_model(new_book.side_levels(opposite(taker_side))) == m.0
            &&& levels_wf(new_book.side_levels(opposite(taker_side)))
            &&& new_book.side_levels(taker_side) == old_book.side_levels(taker_side)
            &&& new_book.order_locations@ == old_book.order_locations@.remove_keys(m.2.to_set())
        }),
        new_book.depth_cache.dirty,
    ensures
        new_book.sides_wf(),
        new_book.no_cross(),
        new_book.locs_sound(),
        new_book.locs_complete(),
        new_book.cache_ok(),
{
    let opp = opposite(taker_side);
    let old_s = old_book.side_levels(opp);
    let new_s = new_book.side_levels(opp);
    let om = side_model(old_s);
    let m = match_levels(om, taker_side, limit, q);
    let opp_desc = match opp {
        Side::Buy => true,
        Side::Sell => false,
    };
    assert(forall|i: int| 0 <= i < om.len() ==> (#[trigger] om[i]).price == old_s[i].price
        && om[i].entries == old_s[i].entries@);
    assert(forall|i: int|
        0 <= i < new_s.len() ==> (#[trigger] side_model(new_s)[i]).price == new_s[i].price
            && side_model(new_s)[i].entries == new_s[i].entries@);
    assert(models_live_positive(om)) by {
        assert forall|li: int, ei: int|
            #![trigger om[li].entries[ei]]
            0 <= li < om.len() && 0 <= ei < om[li].entries.len() && !om[li].entries[ei].tombstone
        implies om[li].entries[ei].quantity > 0 by {
            assert(old_s[li].wf());
            assert(om[li].entries == old_s[li].entries@);
        }
    }
    assert(models_best_first(om, taker_side)) by {
        match taker_side {
            Side::Buy => {
                assert(levels_sorted(old_book.asks@, false));
            },
            Side::Sell => {
                assert(levels_sorted(old_book.bids@, true));
            },
        }
    }
    lemma_match_props(om, taker_side, limit, q);
    let k = choose|k: int| #[trigger] matched_shape(om, m.0, m.2, k);

    // Sortedness of the matched side.
    assert(levels_sorted(new_s, opp_desc)) by {
        assert forall|a: int, b: int| 0 <= a < b < new_s.len() implies (if opp_desc {
            (#[trigger] new_s[a]).price > (#[trigger] new_s[b]).price
        } else {
            (#[trigger] new_s[a]).price < (#[trigger] new_s[b]).price
        }) by {
            assert(new_s[a].price == om[k + a].price) by {
                if a == 0 {
                    assert(side_model(new_s)[0].price == om[k].price);
                } else {
                    assert(side_model(new_s)[a] == om[k + a]);
                }
            }
            assert(new_s[b].price == om[k + b].price) by {
                assert(side_model(new_s)[b] == om[k + b]);
            }
            assert(old_s[k + a].price == om[k + a].price);
            assert(old_s[k + b].price == om[k + b].price);
        }
    }
    assert(new_book.sides_wf()) by {
        match taker_side {
            Side::Buy => {
                assert(new_book.bids@ == old_book.bids@);
            },
            Side::Sell => {
                assert(new_book.asks@ == old_book.asks@);
            },
        }
    }

    // No cross: the surviving opposite front is no better than the old one.
    assert(new_book.no_cross()) by {
        if new_book.bids@.len() > 0 && new_book.asks@.len() > 0 {
            if new_s.len() > 0 {
                assert(new_s[0].price == om[k].price);
                assert(old_s[k].price == om[k].price);
                if k > 0 {
                    assert(price_no_better(taker_side, old_s[k].price, old_s[0].price));
                }
                match taker_side {
                    Side::Buy => {
                        assert(new_book.bids@ == old_book.bids@);
                        assert(old_book.bids@[0].price < old_book.asks@[0].price);
                    },
                    Side::Sell => {
                        assert(new_book.asks@ == old_book.asks@);
                        assert(old_book.bids@[0].price < old_book.asks@[0].price);
                    },
                }
            } else {
                match taker_side {
                    Side::Buy => {},
                    Side::Sell => {},
                }
            }
        }
    }

    // Ids are removed exactly when their entry died.
    assert forall|id: u32| #[trigger] new_book.order_locations@.contains_key(id) implies loc_valid(
        new_book.side_levels(new_book.order_locations@[id].side),
        id,
        new_book.order_locations@[id],
    ) by {
        let l = new_book.order_locations@[id];
        assert(old_book.order_locations@.contains_key(id) && old_book.order_locations@[id] == l);
        assert(!m.2.to_set().contains(id));
        assert(!m.2.contains(id));
        assert(loc_valid(old_book.side_levels(l.side), id, l));
        let w = choose|w: int|
            {
                &&& 0 <= w < old_book.side_levels(l.side).len()
                &&& (#[trigger] old_book.side_levels(l.side)[w]).price == l.price
                &&& l.index < old_book.side_levels(l.side)[w].entries@.len()
                &&& old_book.side_levels(l.side)[w].entries@[l.index as int].order_id == id
                &&& !old_book.side_levels(l.side)[w].entries@[l.index as int].tombstone
            };
        if l.side == taker_side {
            assert(new_book.side_levels(l.side) == old_book.side_levels(l.side));
        } else {
            assert(l.side == opp) by {
                match taker_side {
                    Side::Buy => {},
                    Side::Sell => {},
                }
            }
            if w < k {
                assert(om[w].entries[l.index as int] == old_s[w].entries@[l.index as int]);
                assert(m.2.contains(om[w].entries[l.index as int].order_id));
                assert(false);
            } else if w == k {
                assert(new_s.len() > 0) by {
                    if new_s.len() == 0 {
                        assert(om.len() - k == 0);
                    }
                }
                assert(entries_consumed_rel(om[k].entries, side_model(new_s)[0].entries, m.2));
                let oe = om[k].entries[l.index as int];
                let ne = side_model(new_s)[0].entries[l.index as int];
                assert(!ne.tombstone) by {
                    if ne.tombstone {
                        assert(m.2.contains(oe.order_id));
                    }
                }
                assert(new_s[0].entries@[l.index as int].order_id == id);
                assert(new_s[0].price == old_s[k].price);
                assert(loc_valid(new_s, id, l));
            } else {
                assert(side_model(new_s)[w - k] == om[w]);
                assert(new_s[w - k].price == old_s[w].price);
                assert(new_s[w - k].entries@ == old_s[w].entries@);
                assert(loc_valid(new_s, id, l));
            }
        }
    }

    // Every live entry of the new book is still registered.
    assert forall|sd: Side, lj: int, ej: int| #[trigger] entry_live(
        new_book.side_levels(sd),
        lj,
        ej,
    ) implies {
        let e = new_book.side_levels(sd)[lj].entries@[ej];
        &&& new_book.order_locations@.contains_key(e.order_id)
        &&& new_book.order_locations@[e.order_id] == (OrderLocation {
            side: sd,
            price: new_book.side_levels(sd)[lj].price,
            index: ej as usize,
        })
    } by {
        if sd == taker_side {
            assert(new_book.side_levels(sd) == old_book.side_levels(sd));
            let e = old_book.side_levels(sd)[lj].entries@[ej];
            assert(entry_live(old_book.side_levels(sd), lj, ej));
            assert(!m.2.contains(e.order_id)) by {
                if m.2.contains(e.order_id) {
                    let j = choose|j: int| 0 <= j < m.2.len() && m.2[j] == e.order_id;
                    let (wli, wei): (int, int) = choose|wli: int, wei: int|
                        #![trigger om[wli].entries[wei]]
                        {
                            &&& 0 <= wli <= k
                            &&& wli < om.len()
                            &&& 0 <= wei < om[wli].entries.len()
                            &&& !om[wli].entries[wei].tombstone
                            &&& om[wli].entries[wei].order_id == m.2[j]
                            &&& (wli == k ==> m.0.len() > 0 && m.0[0].entries[wei].tombstone)
                        };
                    assert(entry_live(old_s, wli, wei)) by {
                        assert(om[wli].entries == old_s[wli].entries@);
                    }
                    lemma_live_ids_unique(old_book, sd, lj, ej, opp, wli, wei);
                    assert(sd == opp);
                    match taker_side {
                        Side::Buy => {},
                        Side::Sell => {},
                    }
                }
            }
        } else {
            assert(sd == opp) by {
                match taker_side {
                    Side::Buy => {},
                    Side::Sell => {},
                }
            }
            let olj = if lj == 0 {
                k
            } else {
                k + lj
            };
            assert(entry_live(old_s, olj, ej) && old_s[olj].entries@[ej].order_id
                == new_s[lj].entries@[ej].order_id && old_s[olj].price == new_s[lj].price) by {
                if lj == 0 {
                    assert(entries_consumed_rel(om[k].entries, side_model(new_s)[0].entries, m.2));
                    assert(side_model(new_s)[0].entries[ej] == new_s[0].entries@[ej]);
                    assert(om[k].entries == old_s[k].entries@);
                    assert(side_model(new_s)[0].price == om[k].price);
                } else {
                    assert(side_model(new_s)[lj] == om[k + lj]);
                }
            }
            let e = old_s[olj].entries@[ej];
            assert(entry_live(old_book.side_levels(opp), olj, ej));
            assert(old_book.order_locations@.contains_key(e.order_id)
                && old_book.order_locations@[e.order_id] == (OrderLocation {
                side: opp,
                price: old_s[olj].price,
                index: ej as usize,
            }));
            assert(!m.2.contains(e.order_id)) by {
                if m.2.contains(e.order_id) {
                    let j = choose|j: int| 0 <= j < m.2.len() && m.2[j] == e.order_id;
                    let (wli, wei): (int, int) = choose|wli: int, wei: int|
                        #![trigger om[wli].entries[wei]]
                        {
                            &&& 0 <= wli <= k
                            &&& wli < om.len()
                            &&& 0 <= wei < om[wli].entries.len()
                            &&& !om[wli].entries[wei].tombstone
                            &&& om[wli].entries[wei].order_id == m.2[j]
                            &&& (wli == k ==> m.0.len() > 0 && m.0[0].entries[wei].tombstone)
                        };
                    assert(entry_live(old_s, wli, wei)) by {
                        assert(om[wli].entries == old_s[wli].entries@);
                    }
                    lemma_live_ids_unique(old_book, opp, olj, ej, opp, wli, wei);
                    assert(olj == wli && ej == wei);
                    if lj == 0 {
                        assert(m.0[0].entries[ej].tombstone);
                        assert(m.0[0].entries == new_s[0].entries@);
                        assert(false);
                    } else {
                        assert(olj > k);
                        assert(false);
                    }
                }
            }
        }
    }
}


/// After a residual order is rested on its own side and registered in the
/// id index, the whole book is well-formed again. The residual must not
/// cross the surviving opposite front.
#[verifier::spinoff_prover]
#[verifier::rlimit(100)]
proof fn lemma_wf_after_rest(mid: OrderBook, new_book: OrderBook, order: Order, li: int)
    requires
        mid.wf(),
        order.quantity > 0,
        !mid.order_locations@.contains_key(order.order_id),
        side_rested(
            mid.side_levels(order.side),
            new_book.side_levels(order.side),
            order,
            li,
            new_book.order_locations@[order.order_id].index as int,
        ),
        new_book.order_locations@[order.order_id] == (OrderLocation {
            side: order.side,
            price: order.price,
            index: new_book.order_locations@[order.order_id].index,
        }),
        new_book.order_locations@ == mid.order_locations@.insert(
            order.order_id,
            new_book.order_locations@[order.order_id],
        ),
        levels_wf(new_book.side_levels(order.side)),
        ({
            let desc = match order.side {
                Side::Buy => true,
                Side::Sell => false,
            };
            levels_sorted(new_book.side_levels(order.side), desc)
        }),
        new_book.side_levels(opposite(order.side)) == mid.side_levels(opposite(order.side)),
        mid.side_levels(opposite(order.side)).len() > 0 ==> !crosses(
            order.side,
            mid.side_levels(opposite(order.side))[0].price,
            order.price,
        ),
        new_book.depth_cache.dirty,
    ensures
        new_book.sides_wf(),
        new_book.no_cross(),
        new_book.locs_sound(),
        new_book.locs_complete(),
        new_book.cache_ok(),
{
    let side = order.side;
    let opp = opposite(side);
    let old_s = mid.side_levels(side);
    let new_s = new_book.side_levels(side);
    let index = new_book.order_locations@[order.order_id].index as int;
    let entry = LevelEntry {
        order_id: order.order_id,
        user_id: order.user_id,
        quantity: order.quantity,
        tombstone: false,
    };
    let existing = li < old_s.len() && old_s[li].price == order.price;
    assert(new_book.sides_wf()) by {
        match side {
            Side::Buy => {
                assert(new_book.asks@ == mid.asks@);
            },
            Side::Sell => {
                assert(new_book.bids@ == mid.bids@);
            },
        }
    }
    assert(new_book.no_cross()) by {
        if new_book.bids@.len() > 0 && new_book.asks@.len() > 0 {
            assert(new_s[0].price == order.price || (old_s.len() > 0 && new_s[0].price
                == old_s[0].price)) by {
                if existing {
                    if li == 0 {
                    } else {
                        assert(new_s[0] == old_s[0]);
                    }
                } else {
                    if li == 0 {
                    } else {
                        assert(new_s[0] == old_s[0]);
                    }
                }
            }
            match side {
                Side::Buy => {
                    assert(new_book.asks@ == mid.asks@);
                },
                Side::Sell => {
                    assert(new_book.bids@ == mid.bids@);
                },
            }
        }
    }
    // The taker's id was live nowhere in mid.
    assert forall|sd: Side, lj: int, ej: int| entry_live(mid.side_levels(sd), lj, ej) implies (
    #[trigger] mid.side_levels(sd)[lj].entries@[ej]).order_id != order.order_id by {
        assert(entry_live(mid.side_levels(sd), lj, ej));
        if mid.side_levels(sd)[lj].entries@[ej].order_id == order.order_id {
            assert(mid.order_locations@.contains_key(order.order_id));
        }
    }
    assert forall|id: u32| #[trigger] new_book.order_locations@.contains_key(id) implies loc_valid(
        new_book.side_levels(new_book.order_locations@[id].side),
        id,
        new_book.order_locations@[id],
    ) by {
        let l = new_book.order_locations@[id];
        if id == order.order_id {
            assert(new_s[li].price == order.price);
            if existing {
                assert(new_s[li].entries@[index] == entry);
            } else {
                assert(new_s[li].entries@[index] == entry);
            }
            assert(loc_valid(new_s, id, l));
        } else {
            assert(mid.order_locations@.contains_key(id) && mid.order_locations@[id] == l);
            assert(loc_valid(mid.side_levels(l.side), id, l));
            let w = choose|w: int|
                {
                    &&& 0 <= w < mid.side_levels(l.side).len()
                    &&& (#[trigger] mid.side_levels(l.side)[w]).price == l.price
                    &&& l.index < mid.side_levels(l.side)[w].entries@.len()
                    &&& mid.side_levels(l.side)[w].entries@[l.index as int].order_id == id
                    &&& !mid.side_levels(l.side)[w].entries@[l.index as int].tombstone
                };
            if l.side != side {
                assert(l.side == opp && new_book.side_levels(l.side) == mid.side_levels(l.side))
                    by {
                    match side {
                        Side::Buy => {},
                        Side::Sell => {},
                    }
                }
            } else {
                if existing {
                    if w == li {
                        assert(new_s[li].entries@[l.index as int] == old_s[li].entries@[l.index as int]);
                        assert(loc_valid(new_s, id, l));
                    } else {
                        assert(new_s[w] == old_s[w]);
                        assert(loc_valid(new_s, id, l));
                    }
                } else {
                    if w < li {
                        assert(new_s[w] == old_s[w]);
                        assert(loc_valid(new_s, id, l));
                    } else {
                        assert(new_s[w + 1] == old_s[w]);
                        assert(loc_valid(new_s, id, l));
                    }
                }
            }
        }
    }
    assert forall|sd: Side, lj: int, ej: int| #[trigger] entry_live(
        new_book.side_levels(sd),
        lj,
        ej,
    ) implies {
        let e = new_book.side_levels(sd)[lj].entries@[ej];
        &&& new_book.order_locations@.contains_key(e.order_id)
        &&& new_book.order_locations@[e.order_id] == (OrderLocation {
            side: sd,
            price: new_book.side_levels(sd)[lj].price,
            index: ej as usize,
        })
    } by {
        if sd != side {
            assert(sd == opp && new_book.side_levels(sd) == mid.side_levels(sd)) by {
                match side {
                    Side::Buy => {},
                    Side::Sell => {},
                }
            }
            assert(entry_live(mid.side_levels(sd), lj, ej));
            let e = mid.side_levels(sd)[lj].entries@[ej];
            assert(e.order_id != order.order_id);
        } else {
            if existing {
                if lj == li && ej == old_s[li].entries@.len() {
                    assert(new_s[lj].entries@[ej] == entry);
                    assert(new_s[lj].price == order.price);
                } else if lj == li {
                    assert(new_s[li].entries@[ej] == old_s[li].entries@[ej]);
                    assert(entry_live(old_s, lj, ej));
                    let e = old_s[lj].entries@[ej];
                    assert(e.order_id != order.order_id);
                    assert(new_s[lj].price == old_s[lj].price);
                } else {
                    assert(new_s[lj] == old_s[lj]);
                    assert(entry_live(old_s, lj, ej));
                    let e = old_s[lj].entries@[ej];
                    assert(e.order_id != order.order_id);
                }
            } else {
                if lj == li {
                    assert(new_s[lj].entries@ == seq![entry]);
                    assert(new_s[lj].entries@[ej] == entry);
                    assert(new_s[lj].price == order.price);
                } else {
                    let olj = if lj < li {
                        lj
                    } else {
                        lj - 1
                    };
                    assert(new_s[lj] == old_s[olj]);
                    assert(entry_live(old_s, olj, ej));
                    let e = old_s[olj].entries@[ej];
                    assert(e.order_id != order.order_id);
                }
            }
        }
    }
}


impl OrderBook {
    /// Matches a taker against the opposite side under strict price–time
    /// priority, using `timestamp` for every trade of the event, and rests
    /// any residual quantity on the taker's own side. Returns whether a
    /// residual was rested.
    ///
    /// The order id must be fresh and the taker's own level must have room
    /// for the residual, which the caller checks at the event boundary.
    #[verifier::rlimit(100)]
    pub fn match_limit_order_at(&mut self, taker: Order, timestamp: i64) -> (remaining: u32)
        requires
            old(self).wf(),
            taker.quantity > 0,
            !old(self).order_locations@.contains_key(taker.order_id),
            spec_level_total(old(self).side_levels(taker.side), taker.price) + taker.quantity
                <= u32::MAX,
        ensures
            final(self).wf(),
            ({
                let m = match_levels(
                    side_model(old(self).side_levels(opposite(taker.side))),
                    taker.side,
                    taker.price,
                    taker.quantity as int,
                );
                &&& side_model(final(self).side_levels(opposite(taker.side))) == m.0
                &&& final(self).trades@ == old(self).trades@ + fills_to_trades(
                    m.1,
                    taker.order_id,
                    timestamp,
                )
                &&& remaining as int == m.3
                &&& sum_fills(m.1) + m.3 == taker.quantity
                &&& fills_price_ordered(taker.side, m.1)
                &&& (m.3 == 0 ==> {
                    &&& final(self).side_levels(taker.side) == old(self).side_levels(taker.side)
                    &&& final(self).order_locations@ == old(self).order_locations@.remove_keys(
                        m.2.to_set(),
                    )
                })
                &&& (m.3 > 0 ==> {
                    &&& final(self).order_locations@.contains_key(taker.order_id)
                    &&& exists|li: int|
                        #[trigger] side_rested(
                            old(self).side_levels(taker.side),
                            final(self).side_levels(taker.side),
                            (Order { quantity: m.3 as u32, ..taker }),
                            li,
                            final(self).order_locations@[taker.order_id].index as int,
                        )
                    &&& final(self).order_locations@ == old(self).order_locations@.remove_keys(
                        m.2.to_set(),
                    ).insert(taker.order_id, final(self).order_locations@[taker.order_id])
                    &&& final(self).order_locations@[taker.order_id].side == taker.side
                    &&& final(self).order_locations@[taker.order_id].price == taker.price
                })
            }),
            final(self).update_id == bumped(old(self).update_id),
            final(self).depth_cache.dirty,
    {
        proof {
            broadcast use vstd::std_specs::hash::group_hash_axioms;

        }
        let ghost m = match_levels(
            side_model(old(self).side_levels(opposite(taker.side))),
            taker.side,
            taker.price,
            taker.quantity as int,
        );
        let remaining = match taker.side {
            Side::Buy => Self::match_against(
                &mut self.asks,
                &mut self.order_locations,
                &mut self.trades,
                Side::Buy,
                taker.order_id,
                taker.price,
                taker.quantity,
                timestamp,
            ),
            Side::Sell => Self::match_against(
                &mut self.bids,
                &mut self.order_locations,
                &mut self.trades,
                Side::Sell,
                taker.order_id,
                taker.price,
                taker.quantity,
                timestamp,
            ),
        };
        self.depth_cache.dirty = true;
        let ghost mid = *self;
        proof {
            match taker.side {
                Side::Buy => {
                    assert(opposite(taker.side) == Side::Sell);
                },
                Side::Sell => {
                    assert(opposite(taker.side) == Side::Buy);
                },
            }
            assert(side_model(mid.side_levels(opposite(taker.side))) == m.0);
            assert(mid.side_levels(taker.side) == old(self).side_levels(taker.side)) by {
                match taker.side {
                    Side::Buy => {},
                    Side::Sell => {},
                }
            }
            lemma_wf_after_match(*old(self), mid, taker.side, taker.price, taker.quantity as int);
            assert(mid.wf());
            assert(models_live_positive(side_model(old(self).side_levels(opposite(taker.side)))))
                by {
                let om = side_model(old(self).side_levels(opposite(taker.side)));
                assert forall|li: int, ei: int|
                    #![trigger om[li].entries[ei]]
                    0 <= li < om.len() && 0 <= ei < om[li].entries.len()
                        && !om[li].entries[ei].tombstone implies om[li].entries[ei].quantity > 0
                    by {
                    assert(old(self).side_levels(opposite(taker.side))[li].wf());
                    assert(om[li].entries == old(self).side_levels(
                        opposite(taker.side),
                    )[li].entries@);
                }
            }
            assert(models_best_first(
                side_model(old(self).side_levels(opposite(taker.side))),
                taker.side,
            )) by {
                match taker.side {
                    Side::Buy => {
                        assert(levels_sorted(old(self).asks@, false));
                    },
                    Side::Sell => {
                        assert(levels_sorted(old(self).bids@, true));
                    },
                }
            }
            lemma_match_props(
                side_model(old(self).side_levels(opposite(taker.side))),
                taker.side,
                taker.price,
                taker.quantity as int,
            );
            assert(!mid.order_locations@.contains_key(taker.order_id));
        }
        if remaining > 0 {
            let order = Order {
                order_id: taker.order_id,
                user_id: taker.user_id,
                price: taker.price,
                quantity: remaining,
                side: taker.side,
            };
            proof {
                assert(spec_level_total(mid.side_levels(taker.side), taker.price) + remaining
                    <= u32::MAX);
            }
            let index = match taker.side {
                Side::Buy => Self::insert_resting(&mut self.bids, &order, true),
                Side::Sell => Self::insert_resting(&mut self.asks, &order, false),
            };
            let loc = OrderLocation { side: taker.side, price: taker.price, index };
            self.order_locations.insert(taker.order_id, loc);
            proof {
                assert(self.order_locations@ == mid.order_locations@.insert(taker.order_id, loc));
                assert(self.order_locations@[taker.order_id] == loc);
                assert(self.side_levels(opposite(taker.side)) == mid.side_levels(
                    opposite(taker.side),
                )) by {
                    match taker.side {
                        Side::Buy => {},
                        Side::Sell => {},
                    }
                }
                let li = choose|li: int|
                    #[trigger] side_rested(
                        mid.side_levels(order.side),
                        self.side_levels(order.side),
                        order,
                        li,
                        index as int,
                    );
                assert(mid.side_levels(opposite(taker.side)).len() > 0 ==> !crosses(
                    taker.side,
                    mid.side_levels(opposite(taker.side))[0].price,
                    order.price,
                )) by {
                    if mid.side_levels(opposite(taker.side)).len() > 0 {
                        assert(m.0[0].price == mid.side_levels(opposite(taker.side))[0].price);
                    }
                }
                lemma_wf_after_rest(mid, *self, order, li);
                assert(self.wf());
            }
        }
        self.bump_update_id();
        proof {
            assert(self.wf()) by {
                assert(self.bids@ == mid.bids@ || remaining > 0);
            }
        }
        remaining
    }
}


/// The decimal digit character for `d`.
pub open spec fn dec_digit(d: nat) -> char {
    if d == 0 {
        '0'
    } else if d == 1 {
        '1'
    } else if d == 2 {
        '2'
    } else if d == 3 {
        '3'
    } else if d == 4 {
        '4'
    } else if d == 5 {
        '5'
    } else if d == 6 {
        '6'
    } else if d == 7 {
        '7'
    } else if d == 8 {
        '8'
    } else {
        '9'
    }
}

/// The decimal numeral of `n`, most significant digit first.
pub open spec fn dec_str(n: nat) -> Seq<char>
    decreases n,
{
    if n < 10 {
        seq![dec_digit(n)]
    } else {
        dec_str(n / 10) + seq![dec_digit(n % 10)]
    }
}

/// The one-character string for a decimal digit.
fn digit_str(d: u64) -> (s: &'static str)
    requires
        d < 10,
    ensures
        s@ == seq![dec_digit(d as nat)],
{
    if d == 0 {
        proof {
            reveal_strlit("0");
        }
        "0"
    } else if d == 1 {
        proof {
            reveal_strlit("1");
        }
        "1"
    } else if d == 2 {
        proof {
            reveal_strlit("2");
        }
        "2"
    } else if d == 3 {
        proof {
            reveal_strlit("3");
        }
        "3"
    } else if d == 4 {
        proof {
            reveal_strlit("4");
        }
        "4"
    } else if d == 5 {
        proof {
            reveal_strlit("5");
        }
        "5"
    } else if d == 6 {
        proof {
            reveal_strlit("6");
        }
        "6"
    } else if d == 7 {
        proof {
            reveal_strlit("7");
        }
        "7"
    } else if d == 8 {
        proof {
            reveal_strlit("8");
        }
        "8"
    } else {
        proof {
            reveal_strlit("9");
        }
        "9"
    }
}

/// Renders `n` in decimal, exactly as `dec_str` describes.
pub fn u64_to_decimal(n: u64) -> (s: String)
    ensures
        s@ == dec_str(n as nat),
    decreases n,
{
    if n < 10 {
        let s = digit_str(n).to_owned();
        proof {
            assert(s@ =~= dec_str(n as nat));
        }
        s
    } else {
        let mut s = u64_to_decimal(n / 10);
        let d = digit_str(n % 10);
        s.append(d);
        proof {
            assert(s@ =~= dec_str(n as nat));
        }
        s
    }
}

impl OrderBook {
    /// Rebuilds the depth scratch area from the top twenty levels of each
    /// side and clears the dirty bit.
    fn rebuild_depth_cache(&mut self)
        requires
            old(self).wf(),
        ensures
            final(self).wf(),
            *final(self) == (OrderBook { depth_cache: final(self).depth_cache, ..*old(self) }),
            !final(self).depth_cache.dirty,
            depth_rows_ok(final(self).depth_cache.bids@, final(self).bids@, 20),
            depth_rows_ok(final(self).depth_cache.asks@, final(self).asks@, 20),
    {
        let mut bid_rows: Vec<[u32; 2]> = Vec::new();
        let mut i: usize = 0;
        while i < self.bids.len() && i < 20
            invariant
                *self == *old(self),
                i <= self.bids@.len(),
                i <= 20,
                bid_rows@.len() == i,
                forall|k: int|
                    0 <= k < i ==> (#[trigger] bid_rows@[k])@ == seq![
                        self.bids@[k].price,
                        self.bids@[k].total_qty,
                    ],
            decreases self.bids@.len() - i,
        {
            let row: [u32; 2] = [self.bids[i].price, self.bids[i].total_qty];
            proof {
                assert(row@ =~= seq![self.bids@[i as int].price, self.bids@[i as int].total_qty]);
            }
            bid_rows.push(row);
            i = i + 1;
        }
        let mut ask_rows: Vec<[u32; 2]> = Vec::new();
        let mut j: usize = 0;
        while j < self.asks.len() && j < 20
            invariant
                *self == *old(self),
                j <= self.asks@.len(),
                j <= 20,
                ask_rows@.len() == j,
                forall|k: int|
                    0 <= k < j ==> (#[trigger] ask_rows@[k])@ == seq![
                        self.asks@[k].price,
                        self.asks@[k].total_qty,
                    ],
            decreases self.asks@.len() - j,
        {
            let row: [u32; 2] = [self.asks[j].price, self.asks[j].total_qty];
            proof {
                assert(row@ =~= seq![self.asks@[j as int].price, self.asks@[j as int].total_qty]);
            }
            ask_rows.push(row);
            j = j + 1;
        }
        self.depth_cache = DepthCache { bids: bid_rows, asks: ask_rows, dirty: false };
        proof {
            assert(self.locs_complete()) by {
                assert forall|side: Side, li: int, ei: int| #[trigger] entry_live(
                    self.side_levels(side),
                    li,
                    ei,
                ) implies {
                    let e = self.side_levels(side)[li].entries@[ei];
                    &&& self.order_locations@.contains_key(e.order_id)
                    &&& self.order_locations@[e.order_id] == (OrderLocation {
                        side,
                        price: self.side_levels(side)[li].price,
                        index: ei as usize,
                    })
                } by {
                    assert(self.side_levels(side) == old(self).side_levels(side)) by {
                        match side {
                            Side::Buy => {},
                            Side::Sell => {},
                        }
                    }
                    assert(entry_live(old(self).side_levels(side), li, ei));
                }
            }
        }
    }

    /// Copies out the top `limit` levels per side, rebuilding the cache if
    /// it is stale, stamped with the current generation counter.
    pub fn get_depth(&mut self, limit: usize) -> (depth: crate::outputs::Depth)
        requires
            old(self).wf(),
            limit <= 20,
        ensures
            final(self).wf(),
            *final(self) == (OrderBook { depth_cache: final(self).depth_cache, ..*old(self) }),
            depth_rows_ok(depth.bids@, final(self).bids@, limit as int),
            depth_rows_ok(depth.asks@, final(self).asks@, limit as int),
            depth.last_update_id@ == dec_str(final(self).update_id as nat),
    {
        if self.depth_cache.dirty {
            self.rebuild_depth_cache();
        }
        let ghost snap = *self;
        let mut bids: Vec<[u32; 2]> = Vec::new();
        let mut i: usize = 0;
        while i < self.depth_cache.bids.len() && i < limit
            invariant
                *self == snap,
                limit <= 20,
                depth_rows_ok(self.depth_cache.bids@, self.bids@, 20),
                i <= self.depth_cache.bids@.len(),
                i <= limit,
                bids@.len() == i,
                forall|k: int| 0 <= k < i ==> #[trigger] bids@[k] == self.depth_cache.bids@[k],
            decreases self.depth_cache.bids@.len() - i,
        {
            let row = self.depth_cache.bids[i];
            bids.push(row);
            i = i + 1;
        }
        let mut asks: Vec<[u32; 2]> = Vec::new();
        let mut j: usize = 0;
        while j < self.depth_cache.asks.len() && j < limit
            invariant
                *self == snap,
                limit <= 20,
                depth_rows_ok(self.depth_cache.asks@, self.asks@, 20),
                j <= self.depth_cache.asks@.len(),
                j <= limit,
                asks@.len() == j,
                forall|k: int| 0 <= k < j ==> #[trigger] asks@[k] == self.depth_cache.asks@[k],
            decreases self.depth_cache.asks@.len() - j,
        {
            let row = self.depth_cache.asks[j];
            asks.push(row);
            j = j + 1;
        }
        let last_update_id = u64_to_decimal(self.update_id);
        crate::outputs::Depth { bids, asks, last_update_id }
    }
}


/// Well-formedness only reads the sides, the id index, and the depth
/// cache: two books equal there are equally well-formed.
proof fn lemma_wf_frame(a: OrderBook, b: OrderBook)
    requires
        a.wf(),
        b.bids == a.bids,
        b.asks == a.asks,
        b.order_locations@ == a.order_locations@,
        b.depth_cache == a.depth_cache,
    ensures
        b.wf(),
{
    assert(b.locs_sound()) by {
        assert forall|id: u32| #[trigger] b.order_locations@.contains_key(id) implies loc_valid(
            b.side_levels(b.order_locations@[id].side),
            id,
            b.order_locations@[id],
        ) by {
            assert(a.order_locations@.contains_key(id));
            match b.order_locations@[id].side {
                Side::Buy => {},
                Side::Sell => {},
            }
        }
    }
    assert(b.locs_complete()) by {
        assert forall|side: Side, li: int, ei: int| #[trigger] entry_live(
            b.side_levels(side),
            li,
            ei,
        ) implies {
            let e = b.side_levels(side)[li].entries@[ei];
            &&& b.order_locations@.contains_key(e.order_id)
            &&& b.order_locations@[e.order_id] == (OrderLocation {
                side,
                price: b.side_levels(side)[li].price,
                index: ei as usize,
            })
        } by {
            assert(b.side_levels(side) == a.side_levels(side)) by {
                match side {
                    Side::Buy => {},
                    Side::Sell => {},
                }
            }
            assert(entry_live(a.side_levels(side), li, ei));
        }
    }
}

/// What the matcher hands back at the end of one new-order event: the
/// wire frames for the broadcaster, and the persistence events in emission
/// order (trades first, then the residual's `NewOrder` if one rested).
pub struct MatchOutput {
    pub frames: Vec<Vec<u8>>,
    pub events: Vec<crate::persist::PersistEvent>,
}

/// The persistence event records exactly this trade (its identifier is
/// freshly generated and unconstrained).
pub open spec fn trade_event_matches(ev: crate::persist::PersistEvent, t: crate::wire::TradeMsg) -> bool {
    match ev {
        crate::persist::PersistEvent::TradeExecuted {
            trade_id,
            price,
            quantity,
            maker_order_id,
            taker_order_id,
            timestamp,
        } => {
            &&& price == t.price
            &&& quantity == t.quantity
            &&& maker_order_id == t.maker_order_id
            &&& taker_order_id == t.taker_order_id
            &&& timestamp == t.timestamp
        },
        _ => false,
    }
}

/// Everything one completed new-order event guarantees, for some event
/// timestamp `ts`: the opposite side was matched under price priority,
/// quantity was conserved, one frame and one persistence event were
/// emitted per trade, and a residual `NewOrder` event follows them.
pub open spec fn match_event_post(
    pre: OrderBook,
    post: OrderBook,
    taker: Order,
    ts: i64,
    out: MatchOutput,
) -> bool {
    let m = match_levels(
        side_model(pre.side_levels(opposite(taker.side))),
        taker.side,
        taker.price,
        taker.quantity as int,
    );
    let trades = fills_to_trades(m.1, taker.order_id, ts);
    &&& side_model(post.side_levels(opposite(taker.side))) == m.0
    &&& sum_fills(m.1) + m.3 == taker.quantity
    &&& fills_price_ordered(taker.side, m.1)
    &&& out.frames@.len() == trades.len()
    &&& forall|i: int|
        0 <= i < trades.len() ==> (#[trigger] out.frames@[i])@ == crate::wire::spec_encode_trade_msg(
            trades[i],
        )
    &&& forall|i: int|
        0 <= i < trades.len() ==> trade_event_matches(#[trigger] out.events@[i], trades[i])
    &&& if m.3 > 0 {
        &&& out.events@.len() == trades.len() + 1
        &&& out.events@[trades.len() as int] == crate::persist::PersistEvent::NewOrder(
            (Order { quantity: m.3 as u32, ..taker }),
        )
        &&& post.order_locations@.contains_key(taker.order_id)
    } else {
        &&& out.events@.len() == trades.len()
        &&& post.side_levels(taker.side) == pre.side_levels(taker.side)
        &&& post.order_locations@ == pre.order_locations@.remove_keys(m.2.to_set())
    }
}

impl OrderBook {
    /// Relies on chrono's `Utc::now` and `DateTime::timestamp_millis` for
    /// the wall-clock time in milliseconds since the epoch. Nothing is
    /// assumed of the value returned.
    #[verifier::external_body]
    fn now_millis() -> i64 {
        chrono::Utc::now().timestamp_millis()
    }

    /// Relies on uuid's `Uuid::new_v4` and `Uuid::into_bytes` for a freshly
    /// generated random 128-bit identifier. Nothing is assumed of the value
    /// returned.
    #[verifier::external_body]
    fn fresh_trade_id() -> [u8; 16] {
        uuid::Uuid::new_v4().into_bytes()
    }

    /// Drains the per-event trade buffer: one wire frame and one
    /// `TradeExecuted` persistence event per buffered trade, in order.
    pub fn flush_trades(&mut self) -> (out: (Vec<Vec<u8>>, Vec<crate::persist::PersistEvent>))
        requires
            old(self).wf(),
        ensures
            final(self).wf(),
            *final(self) == (OrderBook { trades: final(self).trades, ..*old(self) }),
            final(self).trades@.len() == 0,
            out.0@.len() == old(self).trades@.len(),
            out.1@.len() == old(self).trades@.len(),
            forall|i: int|
                0 <= i < old(self).trades@.len() ==> (#[trigger] out.0@[i])@
                    == crate::wire::spec_encode_trade_msg(old(self).trades@[i]),
            forall|i: int|
                0 <= i < old(self).trades@.len() ==> trade_event_matches(
                    #[trigger] out.1@[i],
                    old(self).trades@[i],
                ),
    {
        let mut frames: Vec<Vec<u8>> = Vec::new();
        let mut events: Vec<crate::persist::PersistEvent> = Vec::new();
        let mut i: usize = 0;
        while i < self.trades.len()
            invariant
                *self == *old(self),
                i <= self.trades@.len(),
                frames@.len() == i,
                events@.len() == i,
                forall|k: int|
                    0 <= k < i ==> (#[trigger] frames@[k])@ == crate::wire::spec_encode_trade_msg(
                        self.trades@[k],
                    ),
                forall|k: int|
                    0 <= k < i ==> trade_event_matches(#[trigger] events@[k], self.trades@[k]),
            decreases self.trades@.len() - i,
        {
            let t = self.trades[i];
            let frame = crate::wire::encode_trade_msg(&t);
            frames.push(frame);
            events.push(
                crate::persist::PersistEvent::TradeExecuted {
                    trade_id: Self::fresh_trade_id(),
                    price: t.price,
                    quantity: t.quantity,
                    maker_order_id: t.maker_order_id,
                    taker_order_id: t.taker_order_id,
                    timestamp: t.timestamp,
                },
            );
            i = i + 1;
        }
        self.trades.clear();
        proof {
            lemma_wf_frame(*old(self), *self);
        }
        (frames, events)
    }

    /// Processes one new-order event end to end: stamps the event's
    /// timestamp once, matches the taker, rests any residual, and flushes
    /// the trade buffer into broadcast frames and persistence events
    /// (trades first, then the residual's `NewOrder`).
    pub fn match_limit_order(&mut self, taker: Order) -> (out: MatchOutput)
        requires
            old(self).wf(),
            taker.quantity > 0,
            !old(self).order_locations@.contains_key(taker.order_id),
            spec_level_total(old(self).side_levels(taker.side), taker.price) + taker.quantity
                <= u32::MAX,
            old(self).trades@.len() == 0,
        ensures
            final(self).wf(),
            final(self).trades@.len() == 0,
            final(self).update_id == bumped(old(self).update_id),
            final(self).depth_cache.dirty,
            exists|ts: i64| #[trigger] match_event_post(*old(self), *final(self), taker, ts, out),
    {
        let timestamp = Self::now_millis();
        let remaining = self.match_limit_order_at(taker, timestamp);
        let ghost mid = *self;
        let (frames, mut events) = self.flush_trades();
        if remaining > 0 {
            events.push(
                crate::persist::PersistEvent::NewOrder(
                    Order {
                        order_id: taker.order_id,
                        user_id: taker.user_id,
                        price: taker.price,
                        quantity: remaining,
                        side: taker.side,
                    },
                ),
            );
        }
        let out = MatchOutput { frames, events };
        proof {
            let m = match_levels(
                side_model(old(self).side_levels(opposite(taker.side))),
                taker.side,
                taker.price,
                taker.quantity as int,
            );
            assert(mid.trades@ == fills_to_trades(m.1, taker.order_id, timestamp)) by {
                assert(old(self).trades@ + fills_to_trades(m.1, taker.order_id, timestamp)
                    =~= fills_to_trades(m.1, taker.order_id, timestamp));
            }
            assert(self.side_levels(opposite(taker.side)) == mid.side_levels(opposite(taker.side)))
                by {
                match taker.side {
                    Side::Buy => {},
                    Side::Sell => {},
                }
            }
            assert(self.side_levels(taker.side) == mid.side_levels(taker.side)) by {
                match taker.side {
                    Side::Buy => {},
                    Side::Sell => {},
                }
            }
            let trades = fills_to_trades(m.1, taker.order_id, timestamp);
            assert(remaining as int == m.3);
            assert(out.frames@.len() == trades.len());
            assert(forall|i: int|
                0 <= i < trades.len() ==> (#[trigger] out.frames@[i])@
                    == crate::wire::spec_encode_trade_msg(trades[i]));
            assert(forall|i: int|
                0 <= i < trades.len() ==> trade_event_matches(
                    #[trigger] out.events@[i],
                    trades[i],
                ));
            if remaining > 0 {
                assert(remaining == m.3 as u32);
                assert(out.events@.len() == trades.len() + 1);
                assert(out.events@[trades.len() as int]
                    == crate::persist::PersistEvent::NewOrder(
                    (Order { quantity: m.3 as u32, ..taker }),
                ));
                assert(self.order_locations@.contains_key(taker.order_id));
            } else {
                assert(out.events@.len() == trades.len());
                assert(self.order_locations@ == old(self).order_locations@.remove_keys(
                    m.2.to_set(),
                ));
            }
            assert(match_event_post(*old(self), *self, taker, timestamp, out));
        }
        out
    }
}

/// The book never crosses, every level's cached total is the sum of its
/// live entries, and the location index is a bijection onto the live
/// resting orders: these all follow from the book's well-formedness, which
/// every operation preserves.
pub proof fn lemma_book_invariants(book: OrderBook)
    requires
        book.wf(),
    ensures
        book.no_cross(),
        forall|side: Side, li: int|
            0 <= li < book.side_levels(side).len() ==> (#[trigger] book.side_levels(
                side,
            )[li]).total_qty as int == sum_live(book.side_levels(side)[li].entries@),
        book.locs_sound(),
        book.locs_complete(),
{
    assert forall|side: Side, li: int| 0 <= li < book.side_levels(side).len() implies (
    #[trigger] book.side_levels(side)[li]).total_qty as int == sum_live(
        book.side_levels(side)[li].entries@,
    ) by {
        match side {
            Side::Buy => {
                assert(book.bids@[li].wf());
            },
            Side::Sell => {
                assert(book.asks@[li].wf());
            },
        }
    }
}

/// Conservation (law): matched quantity plus the taker's remainder equals
/// the taker's original quantity.
pub proof fn lemma_conservation(levels: Seq<LevelModel>, taker_side: Side, limit: u32, q: int)
    requires
        q >= 0,
        models_live_positive(levels),
        models_best_first(levels, taker_side),
    ensures
        ({
            let m = match_levels(levels, taker_side, limit, q);
            sum_fills(m.1) + m.3 == q
        }),
{
    lemma_match_props(levels, taker_side, limit, q);
}

/// Price priority (law): the fills of one event list makers best price
/// first.
pub proof fn lemma_priority_across_levels(
    levels: Seq<LevelModel>,
    taker_side: Side,
    limit: u32,
    q: int,
)
    requires
        q >= 0,
        models_live_positive(levels),
        models_best_first(levels, taker_side),
    ensures
        fills_price_ordered(taker_side, match_levels(levels, taker_side, limit, q).1),
{
    lemma_match_props(levels, taker_side, limit, q);
}

/// Time priority (law): within one level, the fills of one event consume
/// exactly the earliest live makers, in arrival order.
pub proof fn lemma_priority_within_level(price: u32, entries: Seq<LevelEntry>, q: int)
    requires
        q >= 0,
        forall|i: int|
            0 <= i < entries.len() && !(#[trigger] entries[i]).tombstone ==> entries[i].quantity
                > 0,
    ensures
        ({
            let r = consume_result(price, entries, q);
            fill_ids(r.1) == live_ids(entries).take(r.1.len() as int)
        }),
{
    lemma_consume_props(price, entries, q);
}

/// Monotone generation counter (law): a publication's id never decreases.
pub proof fn lemma_update_id_monotone(u: u64)
    ensures
        bumped(u) >= u,
{
}


/// The fills of one event that traded at `p`.
pub open spec fn fills_at_price(fills: Seq<Fill>, p: u32) -> Seq<Fill> {
    fills.filter(|f: Fill| f.price == p)
}

proof fn lemma_fills_at_price_all(fills: Seq<Fill>, p: u32)
    requires
        forall|i: int| 0 <= i < fills.len() ==> (#[trigger] fills[i]).price == p,
    ensures
        fills_at_price(fills, p) == fills,
    decreases fills.len(),
{
    reveal(Seq::filter);
    if fills.len() > 0 {
        lemma_fills_at_price_all(fills.drop_last(), p);
        assert(fills_at_price(fills, p) =~= fills);
    } else {
        assert(fills_at_price(fills, p) =~= fills);
    }
}

proof fn lemma_fills_at_price_none(fills: Seq<Fill>, p: u32)
    requires
        forall|i: int| 0 <= i < fills.len() ==> (#[trigger] fills[i]).price != p,
    ensures
        fills_at_price(fills, p) == Seq::<Fill>::empty(),
    decreases fills.len(),
{
    reveal(Seq::filter);
    if fills.len() > 0 {
        lemma_fills_at_price_none(fills.drop_last(), p);
        assert(fills_at_price(fills, p) =~= Seq::<Fill>::empty());
    } else {
        assert(fills_at_price(fills, p) =~= Seq::<Fill>::empty());
    }
}

proof fn lemma_fills_at_price_concat(a: Seq<Fill>, b: Seq<Fill>, p: u32)
    ensures
        fills_at_price(a + b, p) == fills_at_price(a, p) + fills_at_price(b, p),
{
    Seq::<Fill>::filter_distributes_over_add(a, b, |f: Fill| f.price == p);
}

/// Time priority across a whole event (law): for any price level of the
/// opposite side, the fills that traded at its price are exactly its
/// earliest live makers, in arrival order.
#[verifier::spinoff_prover]
#[verifier::rlimit(100)]
pub proof fn lemma_priority_time_at_price(
    levels: Seq<LevelModel>,
    taker_side: Side,
    limit: u32,
    q: int,
    li: int,
)
    requires
        q >= 0,
        models_live_positive(levels),
        models_best_first(levels, taker_side),
        0 <= li < levels.len(),
    ensures
        ({
            let m = match_levels(levels, taker_side, limit, q);
            let at_p = fills_at_price(m.1, levels[li].price);
            fill_ids(at_p) == live_ids(levels[li].entries).take(at_p.len() as int)
        }),
    decreases levels.len(),
{
    let p = levels[li].price;
    let m = match_levels(levels, taker_side, limit, q);
    if levels.len() == 0 || q <= 0 || !crosses(taker_side, levels[0].price, limit) {
        assert(m.1 =~= Seq::<Fill>::empty());
        lemma_fills_at_price_none(m.1, p);
        assert(fill_ids(Seq::<Fill>::empty()) =~= Seq::<u32>::empty());
        assert(live_ids(levels[li].entries).take(0) =~= Seq::<u32>::empty());
    } else {
        let e0 = levels[0].entries;
        let r = consume_result(levels[0].price, e0, q);
        assert(forall|ei: int| 0 <= ei < e0.len() && !(#[trigger] e0[ei]).tombstone
            ==> e0[ei].quantity > 0);
        lemma_consume_props(levels[0].price, e0, q);
        let tail = levels.drop_first();
        assert(forall|k: int| 0 <= k < tail.len() ==> #[trigger] tail[k] == levels[k + 1]);
        assert(models_live_positive(tail));
        assert(models_best_first(tail, taker_side));
        if sum_live(r.0) == 0 {
            let mt = match_levels(tail, taker_side, limit, r.3);
            assert(m.1 == r.1 + mt.1);
            lemma_fills_at_price_concat(r.1, mt.1, p);
            lemma_match_props(tail, taker_side, limit, r.3);
            if li == 0 {
                lemma_fills_at_price_all(r.1, p);
                assert forall|i: int| 0 <= i < mt.1.len() implies (#[trigger] mt.1[i]).price != p
                    by {
                    assert(price_no_better(taker_side, mt.1[i].price, tail[0].price));
                    assert(tail[0] == levels[1]);
                }
                lemma_fills_at_price_none(mt.1, p);
                assert(fills_at_price(m.1, p) =~= r.1);
                assert(fill_ids(r.1) == live_ids(e0).take(r.1.len() as int));
            } else {
                assert forall|i: int| 0 <= i < r.1.len() implies (#[trigger] r.1[i]).price != p
                    by {
                    assert(r.1[i].price == levels[0].price);
                }
                lemma_fills_at_price_none(r.1, p);
                assert(fills_at_price(m.1, p) =~= fills_at_price(mt.1, p));
                lemma_priority_time_at_price(tail, taker_side, limit, r.3, li - 1);
                assert(tail[li - 1] == levels[li]);
            }
        } else {
            assert(m.1 == r.1);
            if li == 0 {
                lemma_fills_at_price_all(r.1, p);
                assert(fill_ids(r.1) == live_ids(e0).take(r.1.len() as int));
            } else {
                assert forall|i: int| 0 <= i < r.1.len() implies (#[trigger] r.1[i]).price != p
                    by {
                    assert(r.1[i].price == levels[0].price);
                }
                lemma_fills_at_price_none(r.1, p);
                assert(fill_ids(Seq::<Fill>::empty()) =~= Seq::<u32>::empty());
                assert(live_ids(levels[li].entries).take(0) =~= Seq::<u32>::empty());
            }
        }
    }
}

} // verus!
