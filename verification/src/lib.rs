use vstd::prelude::*;

pub mod bridge;
pub mod control;
pub mod convert;
pub mod transfer;
pub mod bus;
pub mod storage;
pub mod codec;
pub mod envelope;
pub mod util;

verus! {

/// Media type carried by every mesh envelope.
pub open spec fn canonical_content_type() -> Seq<char> {
    "application/msgpack"@
}

pub fn content_type_string() -> (r: String)
    ensures
        r@ == canonical_content_type(),
{
    String::from_str("application/msgpack")
}

} // verus!
