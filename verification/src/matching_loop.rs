use vstd::prelude::*;

use crate::events::OrderEvent;
use crate::orderbook::{
    bumped, match_event_post, spec_level_total, MatchOutput, Order, OrderBook,
};
use crate::outputs::Depth;
use crate::persist::PersistEvent;

verus! {

/// Publish a fresh depth snapshot after this many processed events.
pub const DEPTH_PUBLISH_EVERY: u64 = 100;

/// Spin this many times on an empty ingress queue before yielding.
pub const IDLE_SPIN_ITERATIONS: u32 = 1000;

/// How many levels per side a published snapshot carries.
pub const DEPTH_SNAPSHOT_LIMIT: usize = 10;

/// Why a new-order event was refused at the event boundary, before it
/// could touch the book.
#[derive(Clone, Copy, Debug, PartialEq, Eq, Structural)]
pub enum RejectReason {
    /// A taker with zero quantity never reaches the matcher.
    ZeroQuantity,
    /// The order id is already resting on the book.
    DuplicateOrderId,
    /// The order's own level cannot hold the added quantity.
    LevelFull,
}

/// The decision the matcher takes on a new-order event.
pub open spec fn spec_reject(book: OrderBook, order: Order) -> Option<RejectReason> {
    if order.quantity == 0 {
        Some(RejectReason::ZeroQuantity)
    } else if book.order_locations@.contains_key(order.order_id) {
        Some(RejectReason::DuplicateOrderId)
    } else if spec_level_total(book.side_levels(order.side), order.price) + order.quantity
        > u32::MAX {
        Some(RejectReason::LevelFull)
    } else {
        None
    }
}

/// Everything one event hands to the outside: frames for the broadcaster,
/// events for the persistence sink, a snapshot to publish when the cadence
/// fires, and the refusal, if any.
pub struct EventOutput {
    pub frames: Vec<Vec<u8>>,
    pub events: Vec<PersistEvent>,
    pub publish: Option<Depth>,
    pub rejected: Option<RejectReason>,
}

/// What handling one new-order event guarantees: the boundary decision is
/// exactly `spec_reject`, a refused event leaves the book alone, and an
/// admitted one ran the matcher end to end.
pub open spec fn new_order_event_ok(
    pre: OrderBook,
    post: OrderBook,
    order: Order,
    out: EventOutput,
) -> bool {
    &&& out.rejected == spec_reject(pre, order)
    &&& (out.rejected is Some ==> {
        &&& post.bids@ == pre.bids@
        &&& post.asks@ == pre.asks@
        &&& post.order_locations@ == pre.order_locations@
        &&& post.update_id == pre.update_id
        &&& out.frames@.len() == 0
        &&& out.events@.len() == 0
    })
    &&& (out.rejected is None ==> {
        &&& exists|ts: i64|
            #[trigger] match_event_post(
                pre,
                post,
                order,
                ts,
                (MatchOutput { frames: out.frames, events: out.events }),
            )
        &&& post.update_id == bumped(pre.update_id)
    })
}

/// What the matcher decides on an empty ingress queue: whether to publish
/// a snapshot (on the first empty observation of a streak) and whether to
/// yield to the runtime instead of spinning.
pub struct IdleAction {
    pub publish: Option<Depth>,
    pub yield_now: bool,
}

/// The owner thread's state: the book it exclusively owns, the publication
/// cadence counter, and the idle-streak counter.
pub struct Matcher {
    pub book: OrderBook,
    pub events_since_publish: u64,
    pub idle_iterations: u32,
}

impl Matcher {
    pub open spec fn wf(self) -> bool {
        &&& self.book.wf()
        &&& self.book.trades@.len() == 0
        &&& self.events_since_publish < DEPTH_PUBLISH_EVERY
        &&& self.idle_iterations < IDLE_SPIN_ITERATIONS
    }

    pub fn new() -> (m: Matcher)
        ensures
            m.wf(),
            m.book.bids@.len() == 0,
            m.book.asks@.len() == 0,
            m.book.update_id == 0,
            m.events_since_publish == 0,
            m.idle_iterations == 0,
    {
        Matcher { book: OrderBook::new(), events_since_publish: 0, idle_iterations: 0 }
    }

    /// Counts one processed event and publishes when the cadence fires.
    fn tick(&mut self) -> (publish: Option<Depth>)
        requires
            old(self).book.wf(),
            old(self).events_since_publish < DEPTH_PUBLISH_EVERY,
        ensures
            final(self).book.wf(),
            final(self).idle_iterations == old(self).idle_iterations,
            final(self).book.update_id == old(self).book.update_id,
            final(self).book.bids@ == old(self).book.bids@,
            final(self).book.asks@ == old(self).book.asks@,
            final(self).book.order_locations@ == old(self).book.order_locations@,
            final(self).book.trades@ == old(self).book.trades@,
            final(self).events_since_publish < DEPTH_PUBLISH_EVERY,
            publish is Some <==> old(self).events_since_publish + 1 == DEPTH_PUBLISH_EVERY,
            final(self).events_since_publish == if old(self).events_since_publish + 1
                == DEPTH_PUBLISH_EVERY {
                0int
            } else {
                old(self).events_since_publish + 1
            },
            publish is Some ==> ({
                let d = publish->Some_0;
                &&& crate::orderbook::depth_rows_ok(
                    d.bids@,
                    final(self).book.bids@,
                    DEPTH_SNAPSHOT_LIMIT as int,
                )
                &&& crate::orderbook::depth_rows_ok(
                    d.asks@,
                    final(self).book.asks@,
                    DEPTH_SNAPSHOT_LIMIT as int,
                )
                &&& d.last_update_id@ == crate::orderbook::dec_str(
                    final(self).book.update_id as nat,
                )
            }),
    {
        self.events_since_publish = self.events_since_publish + 1;
        if self.events_since_publish == DEPTH_PUBLISH_EVERY {
            self.events_since_publish = 0;
            Some(self.book.get_depth(DEPTH_SNAPSHOT_LIMIT))
        } else {
            None
        }
    }

    /// Handles one ingress event: a new order is validated at the boundary
    /// and matched, a cancel is applied, and the publication cadence is
    /// advanced either way.
    pub fn on_event(&mut self, event: OrderEvent) -> (out: EventOutput)
        requires
            old(self).wf(),
        ensures
            final(self).wf(),
            final(self).idle_iterations == old(self).idle_iterations,
            final(self).book.update_id >= old(self).book.update_id,
            match event {
                OrderEvent::NewOrder { order_id, user_id, price, quantity, side } => {
                    new_order_event_ok(
                        old(self).book,
                        final(self).book,
                        (Order { order_id, user_id, price, quantity, side }),
                        out,
                    )
                },
                OrderEvent::DeleteOrder { order_id } => {
                    &&& out.rejected is None
                    &&& out.frames@.len() == 0
                    &&& (old(self).book.order_locations@.contains_key(order_id) ==> {
                        &&& out.events@ == seq![(PersistEvent::OrderDeleted { order_id })]
                        &&& final(self).book.order_locations@ == old(
                            self,
                        ).book.order_locations@.remove(order_id)
                        &&& final(self).book.update_id == bumped(old(self).book.update_id)
                    })
                    &&& (!old(self).book.order_locations@.contains_key(order_id) ==> {
                        &&& out.events@.len() == 0
                        &&& final(self).book.bids@ == old(self).book.bids@
                        &&& final(self).book.asks@ == old(self).book.asks@
                        &&& final(self).book.order_locations@ == old(self).book.order_locations@
                        &&& final(self).book.update_id == old(self).book.update_id
                    })
                },
            },
            out.publish is Some <==> old(self).events_since_publish + 1 == DEPTH_PUBLISH_EVERY,
            out.publish is Some ==> ({
                let d = out.publish->Some_0;
                &&& crate::orderbook::depth_rows_ok(
                    d.bids@,
                    final(self).book.bids@,
                    DEPTH_SNAPSHOT_LIMIT as int,
                )
                &&& crate::orderbook::depth_rows_ok(
                    d.asks@,
                    final(self).book.asks@,
                    DEPTH_SNAPSHOT_LIMIT as int,
                )
                &&& d.last_update_id@ == crate::orderbook::dec_str(
                    final(self).book.update_id as nat,
                )
            }),
    {
        let (frames, events, rejected): (
            Vec<Vec<u8>>,
            Vec<PersistEvent>,
            Option<RejectReason>,
        ) = match event {
            OrderEvent::NewOrder { order_id, user_id, price, quantity, side } => {
                let order = Order { order_id, user_id, price, quantity, side };
                if quantity == 0 {
                    (Vec::new(), Vec::new(), Some(RejectReason::ZeroQuantity))
                } else if self.book.contains_order(order_id) {
                    (Vec::new(), Vec::new(), Some(RejectReason::DuplicateOrderId))
                } else if self.book.level_total(side, price) > u32::MAX - quantity {
                    (Vec::new(), Vec::new(), Some(RejectReason::LevelFull))
                } else {
                    let out = self.book.match_limit_order(order);
                    (out.frames, out.events, None)
                }
            },
            OrderEvent::DeleteOrder { order_id } => {
                let deleted = self.book.delete_order(order_id);
                let mut events: Vec<PersistEvent> = Vec::new();
                if deleted {
                    events.push(PersistEvent::OrderDeleted { order_id });
                    proof {
                        assert(events@ =~= seq![(PersistEvent::OrderDeleted { order_id })]);
                    }
                }
                (Vec::new(), events, None)
            },
        };
        let ghost after_dispatch = self.book;
        let publish = self.tick();
        let out = EventOutput { frames, events, publish, rejected };
        proof {
            match event {
                OrderEvent::NewOrder { order_id, user_id, price, quantity, side } => {
                    let order = Order { order_id, user_id, price, quantity, side };
                    if rejected is None {
                        let mo = MatchOutput { frames: out.frames, events: out.events };
                        let ts = choose|ts: i64|
                            #[trigger] match_event_post(
                                old(self).book,
                                after_dispatch,
                                order,
                                ts,
                                mo,
                            );
                        assert(self.book.side_levels(crate::inputs::Side::Buy)
                            == after_dispatch.side_levels(crate::inputs::Side::Buy));
                        assert(self.book.side_levels(crate::inputs::Side::Sell)
                            == after_dispatch.side_levels(crate::inputs::Side::Sell));
                        assert(match_event_post(old(self).book, self.book, order, ts, mo));
                    }
                    assert(new_order_event_ok(old(self).book, self.book, order, out));
                },
                OrderEvent::DeleteOrder { order_id } => {},
            }
        }
        out
    }

    /// Handles one empty observation of the ingress queue: the first of a
    /// streak publishes a snapshot (the idle edge); a long streak yields to
    /// the runtime instead of spinning further.
    pub fn on_idle(&mut self) -> (act: IdleAction)
        requires
            old(self).wf(),
        ensures
            final(self).wf(),
            final(self).events_since_publish == old(self).events_since_publish,
            final(self).book.update_id == old(self).book.update_id,
            final(self).book.bids@ == old(self).book.bids@,
            final(self).book.asks@ == old(self).book.asks@,
            final(self).book.order_locations@ == old(self).book.order_locations@,
            act.publish is Some <==> old(self).idle_iterations == 0,
            act.yield_now <==> old(self).idle_iterations + 1 == IDLE_SPIN_ITERATIONS,
            final(self).idle_iterations == if old(self).idle_iterations + 1
                == IDLE_SPIN_ITERATIONS {
                0int
            } else {
                old(self).idle_iterations + 1
            },
            act.publish is Some ==> ({
                let d = act.publish->Some_0;
                &&& crate::orderbook::depth_rows_ok(
                    d.bids@,
                    final(self).book.bids@,
                    DEPTH_SNAPSHOT_LIMIT as int,
                )
                &&& crate::orderbook::depth_rows_ok(
                    d.asks@,
                    final(self).book.asks@,
                    DEPTH_SNAPSHOT_LIMIT as int,
                )
                &&& d.last_update_id@ == crate::orderbook::dec_str(
                    final(self).book.update_id as nat,
                )
            }),
    {
        let publish = if self.idle_iterations == 0 {
            Some(self.book.get_depth(DEPTH_SNAPSHOT_LIMIT))
        } else {
            None
        };
        self.idle_iterations = self.idle_iterations + 1;
        let yield_now = self.idle_iterations == IDLE_SPIN_ITERATIONS;
        if yield_now {
            self.idle_iterations = 0;
        }
        IdleAction { publish, yield_now }
    }
}

} // verus!
