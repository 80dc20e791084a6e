//! Framing of log records: one serialized event per line.

use vstd::prelude::*;
use vstd::string::{StrSliceExecFns, StringSliceAdditionalSpecFns};

verus! {

/// The bytes written for one event: its serialized form, then a newline.
pub fn frame_record(event: &str) -> (r: Vec<u8>)
    ensures
        r@ == event.spec_bytes().push(10u8),
{
    let mut line = event.as_bytes_vec();
    line.push(10u8);
    line
}

} // verus!
