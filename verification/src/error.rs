use vstd::prelude::*;

verus! {

/// Everything that can go wrong while encoding, decoding or resolving.
///
/// Codec errors abort the enclosing message decode or encode entirely;
/// no partial message is ever returned.
#[derive(Copy, Clone, Debug, PartialEq, Eq, Structural)]
pub enum DnsError {
    /// A cursor access at or beyond the fixed 512-byte capacity.
    BoundsError,
    /// A name label longer than 63 bytes was handed to the encoder.
    LabelTooLong,
    /// A header carried a result code outside the closed 0..=5 set.
    MalformedResultCode,
    /// A name's compression-pointer chain exceeded the hop limit.  More
    /// hops than the buffer has positions means some offset repeated, and
    /// a repeated offset can only be an infinite loop.
    PointerLoop,
    /// The transport failed to deliver a query or a reply.
    TransportError,
    /// The resolution walk ran out of delegation hops.
    UnresolvableDelegation,
}

} // verus!
