use vstd::prelude::*;

verus! {

/// A transparent wrapper marking a value as having arrived in, or being
/// bound for, the MessagePack body of an HTTP exchange. Extraction from a
/// request and serialization live with the HTTP layer; the wrapper itself
/// only carries the value.
pub struct MsgPack<T>(pub T);

impl<T> MsgPack<T> {
    pub fn into_inner(self) -> (inner: T)
        ensures
            inner == self.0,
    {
        self.0
    }
}

} // verus!
