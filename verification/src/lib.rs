//! Native-messaging host library for a browser theme relay.
//!
//! The crate models the two wire protocols of the system: length-prefixed
//! JSON frames exchanged with the browser over stdio, and newline-delimited
//! command tokens exchanged between local peers over a Unix-domain socket.
//! The surrounding binary performs the actual I/O; everything that decides,
//! encodes or decodes is here, with verified contracts.

pub mod bridge;
pub mod config;
pub mod events;
pub mod framing;
pub mod json;
pub mod messaging;
pub mod server;
pub mod themes;

use vstd::prelude::*;
use vstd::string::StrSliceExecFns;

verus! {

/// Character-by-character string comparison; `true` exactly when the two
/// views are the same sequence of characters.
pub fn str_eq(a: &str, b: &str) -> (r: bool)
    ensures
        r == (a@ == b@),
{
    let na = a.unicode_len();
    let nb = b.unicode_len();
    if na != nb {
        return false;
    }
    let mut i: usize = 0;
    while i < na
        invariant
            na == a@.len(),
            nb == b@.len(),
            na == nb,
            i <= na,
            forall|j: int| 0 <= j < i ==> a@[j] == b@[j],
        decreases na - i,
    {
        if a.get_char(i) != b.get_char(i) {
            return false;
        }
        i = i + 1;
    }
    proof {
        assert(a@ =~= b@);
    }
    true
}

} // verus!
