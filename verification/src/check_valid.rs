//! Checks on what a read from a socket returned.

use vstd::prelude::*;
use crate::scan::{double_crlf, find_bytes, lemma_find_from, occurs_at};

pub mod check;

verus! {

/// A read of `n` bytes keeps the connection alive unless the peer closed it (`n == 0`).
pub fn is_valid_read_len(n: usize) -> (r: bool)
    ensures
        r == (n != 0),
{
    n != 0
}

/// Whether `buffer` holds `\r\n\r\n` anywhere, that is, whether an HTTP head in it is complete.
pub fn buffer_window_end(buffer: &Vec<u8>) -> (r: bool)
    ensures
        r == exists|i: int| occurs_at(buffer@, double_crlf(), i),
{
    let pat: [u8; 4] = [13, 10, 13, 10];
    assert(pat@ =~= double_crlf());
    let found = find_bytes(buffer.as_slice(), &pat, 0);
    proof {
        lemma_find_from(buffer@, double_crlf(), 0);
    }
    found.is_some()
}

} // verus!
