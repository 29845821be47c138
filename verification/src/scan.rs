//! Searching byte buffers for delimiters such as `\r\n`.

use vstd::prelude::*;

verus! {

/// The line delimiter `\r\n`.
pub open spec fn crlf() -> Seq<u8> {
    seq![13u8, 10u8]
}

/// The delimiter `\r\n\r\n` that ends an HTTP head.
pub open spec fn double_crlf() -> Seq<u8> {
    seq![13u8, 10u8, 13u8, 10u8]
}

/// `a` is a prefix of `b`.
pub open spec fn is_prefix_of(a: Seq<u8>, b: Seq<u8>) -> bool {
    a.len() <= b.len() && b.take(a.len() as int) == a
}

/// `pat` occurs in `s` starting at index `i`.
pub open spec fn occurs_at(s: Seq<u8>, pat: Seq<u8>, i: int) -> bool {
    0 <= i && i + pat.len() <= s.len() && s.subrange(i, i + pat.len()) == pat
}

/// The index of the first occurrence of `pat` in `s` that starts at or after `i`.
pub open spec fn find_from(s: Seq<u8>, pat: Seq<u8>, i: nat) -> Option<nat>
    decreases s.len() - i,
{
    if i >= s.len() || i + pat.len() > s.len() {
        None
    } else if occurs_at(s, pat, i as int) {
        Some(i)
    } else {
        find_from(s, pat, i + 1)
    }
}

/// The index of the first occurrence of `pat` in `s`.
pub open spec fn find_first(s: Seq<u8>, pat: Seq<u8>) -> Option<nat> {
    find_from(s, pat, 0)
}

/// `find_from` returns the first occurrence at or after `i`, or `None` when there is none.
pub proof fn lemma_find_from(s: Seq<u8>, pat: Seq<u8>, i: nat)
    requires
        pat.len() > 0,
    ensures
        match find_from(s, pat, i) {
            Some(p) => i <= p && occurs_at(s, pat, p as int) && forall|j: int|
                i <= j < p ==> !#[trigger] occurs_at(s, pat, j),
            None => forall|j: int| i <= j ==> !#[trigger] occurs_at(s, pat, j),
        },
    decreases s.len() - i,
{
    if i >= s.len() || i + pat.len() > s.len() {
    } else if occurs_at(s, pat, i as int) {
    } else {
        lemma_find_from(s, pat, i + 1);
    }
}

/// An occurrence at `p` with none between `i` and `p` is the one that `find_from` finds.
pub proof fn lemma_find_from_first(s: Seq<u8>, pat: Seq<u8>, i: nat, p: nat)
    requires
        pat.len() > 0,
        i <= p,
        occurs_at(s, pat, p as int),
        forall|j: int| i <= j < p ==> !#[trigger] occurs_at(s, pat, j),
    ensures
        find_from(s, pat, i) == Some(p),
    decreases p - i,
{
    if i < p {
        assert(!occurs_at(s, pat, i as int));
        lemma_find_from_first(s, pat, i + 1, p);
    }
}

/// An occurrence that lies wholly inside `s` is found at the same place in any extension of `s`.
pub proof fn lemma_find_from_extend(s: Seq<u8>, more: Seq<u8>, pat: Seq<u8>, i: nat)
    requires
        pat.len() > 0,
        find_from(s, pat, i) is Some,
    ensures
        find_from(s + more, pat, i) == find_from(s, pat, i),
    decreases s.len() - i,
{
    let t = s + more;
    if i >= s.len() || i + pat.len() > s.len() {
    } else {
        assert(t.subrange(i as int, (i + pat.len()) as int) =~= s.subrange(i as int, (i + pat.len()) as int));
        if !occurs_at(s, pat, i as int) {
            lemma_find_from_extend(s, more, pat, i + 1);
        }
    }
}

/// The first index `p >= from` at which `pat` occurs in `buf`.
pub fn find_bytes(buf: &[u8], pat: &[u8], from: usize) -> (r: Option<usize>)
    requires
        pat@.len() > 0,
    ensures
        match r {
            Some(p) => find_from(buf@, pat@, from as nat) == Some(p as nat),
            None => find_from(buf@, pat@, from as nat) is None,
        },
{
    if from >= buf.len() {
        return None;
    }
    let mut i = from;
    while i < buf.len() && pat.len() <= buf.len() - i
        invariant
            from <= i <= buf@.len(),
            pat@.len() > 0,
            find_from(buf@, pat@, from as nat) == find_from(buf@, pat@, i as nat),
        decreases buf@.len() - i,
    {
        let mut j: usize = 0;
        let mut same = true;
        while j < pat.len()
            invariant
                0 <= j <= pat@.len(),
                i + pat@.len() <= buf@.len(),
                buf@.len() == buf.len(),
                same == forall|k: int| 0 <= k < j ==> buf@[i + k] == pat@[k],
            decreases pat@.len() - j,
        {
            if buf[i + j] != pat[j] {
                same = false;
            }
            j = j + 1;
        }
        if same {
            assert(buf@.subrange(i as int, i + pat@.len()) =~= pat@);
            return Some(i);
        }
        proof {
            let k = choose|k: int| 0 <= k < pat@.len() && buf@[i + k] != pat@[k];
            assert(buf@.subrange(i as int, i + pat@.len())[k] != pat@[k]);
        }
        i = i + 1;
    }
    None
}

/// The first index `p >= from` at which the single byte `b` occurs in `buf`.
pub fn find_byte(buf: &[u8], b: u8, from: usize) -> (r: Option<usize>)
    ensures
        match r {
            Some(p) => find_from(buf@, seq![b], from as nat) == Some(p as nat),
            None => find_from(buf@, seq![b], from as nat) is None,
        },
{
    let pat: [u8; 1] = [b];
    assert(pat@ =~= seq![b]);
    find_bytes(buf, &pat, from)
}

/// The index of the first `\r\n` in `buffer`, or `None` when it holds none.
pub fn crlf_finder(buffer: &[u8]) -> (r: Option<usize>)
    ensures
        match r {
            Some(p) => find_first(buffer@, crlf()) == Some(p as nat),
            None => find_first(buffer@, crlf()) is None,
        },
{
    let pat: [u8; 2] = [13, 10];
    assert(pat@ =~= crlf());
    find_bytes(buffer, &pat, 0)
}

/// The first occurrence of `pat` in `s` is also the first in any prefix of `s` that holds it.
pub proof fn lemma_find_first_take(s: Seq<u8>, pat: Seq<u8>, n: int)
    requires
        pat.len() > 0,
        find_first(s, pat) matches Some(p) && p + pat.len() <= n <= s.len(),
    ensures
        find_first(s.take(n), pat) == find_first(s, pat),
{
    lemma_find_from(s, pat, 0);
    let p = find_first(s, pat).unwrap();
    let t = s.take(n);
    assert(t.subrange(p as int, p + pat.len() as int) =~= s.subrange(p as int, p + pat.len() as int));
    assert forall|j: int| 0 <= j < p implies !#[trigger] occurs_at(t, pat, j) by {
        if occurs_at(t, pat, j) {
            assert(t.subrange(j, j + pat.len()) =~= s.subrange(j, j + pat.len()));
            assert(occurs_at(s, pat, j));
        }
    }
    lemma_find_from_first(t, pat, 0, p);
}

} // verus!
