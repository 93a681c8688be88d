//! A single header field, borrowed from the input buffer.

use vstd::prelude::*;

verus! {

/// One header field: a name such as `Host` and a value such as
/// `subdomain.domain.tld`, both borrowed from the buffer the message was
/// parsed from.
///
/// A header whose name and value are both empty is the sentinel that marks
/// an unused slot in a caller-provided header array.
#[derive(Debug, Clone, Copy, PartialEq)]
pub struct Header<'a> {
    /// The name portion of the header.  Filled only with bytes legal in a
    /// header name (RFC 7230 token characters) by the parsers of this crate.
    pub name: &'a [u8],
    /// The value portion of the header.  May hold any bytes other than CR
    /// and LF.
    pub value: &'a [u8],
}

impl<'a> View for Header<'a> {
    type V = (Seq<u8>, Seq<u8>);

    open spec fn view(&self) -> (Seq<u8>, Seq<u8>) {
        (self.name@, self.value@)
    }
}

/// True of the header-slot pair that marks an unused slot.
pub open spec fn is_sentinel(p: (Seq<u8>, Seq<u8>)) -> bool {
    p.0.len() == 0 && p.1.len() == 0
}

impl<'a> Header<'a> {
    /// An empty header, the sentinel for an unused slot.
    pub fn new() -> (r: Self)
        ensures
            is_sentinel(r@),
    {
        Header { name: &[], value: &[] }
    }

    /// The name portion of the header.
    pub fn name(&self) -> (r: &[u8])
        ensures
            r@ == self@.0,
    {
        self.name
    }

    /// The value portion of the header.
    pub fn value(&self) -> (r: &[u8])
        ensures
            r@ == self@.1,
    {
        self.value
    }
}

} // verus!
