//! Byte-level text helpers for HTTP heads: ASCII case folding, whitespace trimming and
//! parsing of unsigned decimal and hexadecimal numbers.

use vstd::prelude::*;
use vstd::arithmetic::div_mod::{lemma_div_decreases, lemma_fundamental_div_mod};

verus! {

/// The byte `b` with an ASCII upper-case letter mapped to lower case.
pub open spec fn ascii_lower(b: u8) -> u8 {
    if 65 <= b && b <= 90 {
        (b + 32) as u8
    } else {
        b
    }
}

/// `a` and `b` are equal up to ASCII case (as `<[u8]>::eq_ignore_ascii_case`).
pub open spec fn eq_ignore_ascii_case(a: Seq<u8>, b: Seq<u8>) -> bool {
    &&& a.len() == b.len()
    &&& forall|i: int| 0 <= i < a.len() ==> #[trigger] ascii_lower(a[i]) == ascii_lower(b[i])
}

/// Whether `a` and `b` are equal up to ASCII case.
pub fn bytes_eq_ignore_ascii_case(a: &[u8], b: &[u8]) -> (r: bool)
    ensures
        r == eq_ignore_ascii_case(a@, b@),
{
    if a.len() != b.len() {
        return false;
    }
    let mut i: usize = 0;
    while i < a.len()
        invariant
            a@.len() == b@.len(),
            0 <= i <= a@.len(),
            forall|k: int| 0 <= k < i ==> #[trigger] ascii_lower(a@[k]) == ascii_lower(b@[k]),
        decreases a@.len() - i,
    {
        let x = a[i];
        let y = b[i];
        let lx = if 65 <= x && x <= 90 {
            x + 32
        } else {
            x
        };
        let ly = if 65 <= y && y <= 90 {
            y + 32
        } else {
            y
        };
        if lx != ly {
            assert(ascii_lower(a@[i as int]) != ascii_lower(b@[i as int]));
            return false;
        }
        i = i + 1;
    }
    true
}

/// The bytes that `u8::is_ascii_whitespace` accepts: space, tab, line feed, form feed and
/// carriage return.
pub open spec fn is_ascii_whitespace(b: u8) -> bool {
    b == 32 || b == 9 || b == 10 || b == 12 || b == 13
}

/// `s` without its leading ASCII whitespace (as `<[u8]>::trim_ascii_start`).
pub open spec fn trim_ascii_start(s: Seq<u8>) -> Seq<u8>
    decreases s.len(),
{
    if s.len() > 0 && is_ascii_whitespace(s[0]) {
        trim_ascii_start(s.drop_first())
    } else {
        s
    }
}

/// The number of leading ASCII whitespace bytes of `s`.
pub fn ascii_whitespace_prefix_len(s: &[u8]) -> (k: usize)
    ensures
        k <= s@.len(),
        trim_ascii_start(s@) == s@.skip(k as int),
{
    let mut k: usize = 0;
    assert(s@.skip(0) =~= s@);
    while k < s.len() && (s[k] == 32 || s[k] == 9 || s[k] == 10 || s[k] == 12 || s[k] == 13)
        invariant
            0 <= k <= s@.len(),
            trim_ascii_start(s@) == trim_ascii_start(s@.skip(k as int)),
        decreases s@.len() - k,
    {
        assert(s@.skip(k as int).drop_first() =~= s@.skip(k + 1));
        k = k + 1;
    }
    k
}

/// The three-byte UTF-8 encodings of the Unicode whitespace characters U+1680, U+2000 to
/// U+200A, U+2028, U+2029, U+202F, U+205F and U+3000.
pub open spec fn is_wide_whitespace(a: u8, b: u8, c: u8) -> bool {
    ||| (a == 0xE1 && b == 0x9A && c == 0x80)
    ||| (a == 0xE2 && b == 0x80 && ((0x80 <= c && c <= 0x8A) || c == 0xA8 || c == 0xA9 || c
        == 0xAF))
    ||| (a == 0xE2 && b == 0x81 && c == 0x9F)
    ||| (a == 0xE3 && b == 0x80 && c == 0x80)
}

/// The two-byte UTF-8 encodings of the Unicode whitespace characters U+0085 and U+00A0.
pub open spec fn is_latin_whitespace(a: u8, b: u8) -> bool {
    a == 0xC2 && (b == 0x85 || b == 0xA0)
}

/// The one-byte Unicode whitespace characters: U+0009 to U+000D and the space.
pub open spec fn is_narrow_whitespace(a: u8) -> bool {
    (9 <= a && a <= 13) || a == 32
}

/// The length of the UTF-8 encoding of a whitespace character (`char::is_whitespace`) that
/// starts `s`, or 0 when `s` does not start with one.
pub open spec fn whitespace_prefix_len(s: Seq<u8>) -> nat {
    if s.len() >= 1 && is_narrow_whitespace(s[0]) {
        1
    } else if s.len() >= 2 && is_latin_whitespace(s[0], s[1]) {
        2
    } else if s.len() >= 3 && is_wide_whitespace(s[0], s[1], s[2]) {
        3
    } else {
        0
    }
}

/// The length of the UTF-8 encoding of a whitespace character that ends `s`, or 0.
pub open spec fn whitespace_suffix_len(s: Seq<u8>) -> nat {
    let n = s.len();
    if n >= 1 && is_narrow_whitespace(s[n - 1]) {
        1
    } else if n >= 2 && is_latin_whitespace(s[n - 2], s[n - 1]) {
        2
    } else if n >= 3 && is_wide_whitespace(s[n - 3], s[n - 2], s[n - 1]) {
        3
    } else {
        0
    }
}

/// `s` without the encodings of the whitespace characters that start it.
pub open spec fn trim_whitespace_start(s: Seq<u8>) -> Seq<u8>
    decreases s.len(),
{
    let n = whitespace_prefix_len(s);
    if n > 0 {
        trim_whitespace_start(s.skip(n as int))
    } else {
        s
    }
}

/// `s` without the encodings of the whitespace characters that end it.
pub open spec fn trim_whitespace_end(s: Seq<u8>) -> Seq<u8>
    decreases s.len(),
{
    let n = whitespace_suffix_len(s);
    if n > 0 {
        trim_whitespace_end(s.take(s.len() - n))
    } else {
        s
    }
}

/// `s` without the whitespace characters at both of its ends: on bytes that are UTF-8, what
/// `str::trim` leaves of them.
pub open spec fn trim_whitespace(s: Seq<u8>) -> Seq<u8> {
    trim_whitespace_end(trim_whitespace_start(s))
}

/// The length of the whitespace character encoded at `s[i..]`, or 0.
fn whitespace_len_at(s: &[u8], i: usize) -> (n: usize)
    requires
        i <= s@.len(),
    ensures
        n == whitespace_prefix_len(s@.skip(i as int)),
        n <= s@.len() - i,
{
    let ghost t = s@.skip(i as int);
    let rest = s.len() - i;
    if rest >= 1 && ((9 <= s[i] && s[i] <= 13) || s[i] == 32) {
        1
    } else if rest >= 2 && s[i] == 0xC2 && (s[i + 1] == 0x85 || s[i + 1] == 0xA0) {
        2
    } else if rest >= 3 && ((s[i] == 0xE1 && s[i + 1] == 0x9A && s[i + 2] == 0x80) || (s[i]
        == 0xE2 && s[i + 1] == 0x80 && ((0x80 <= s[i + 2] && s[i + 2] <= 0x8A) || s[i + 2]
        == 0xA8 || s[i + 2] == 0xA9 || s[i + 2] == 0xAF)) || (s[i] == 0xE2 && s[i + 1] == 0x81
        && s[i + 2] == 0x9F) || (s[i] == 0xE3 && s[i + 1] == 0x80 && s[i + 2] == 0x80)) {
        3
    } else {
        0
    }
}

/// The length of the whitespace character encoded just before `s[end]`, within `s[start..end]`,
/// or 0.
fn whitespace_len_before(s: &[u8], start: usize, end: usize) -> (n: usize)
    requires
        start <= end <= s@.len(),
    ensures
        n == whitespace_suffix_len(s@.subrange(start as int, end as int)),
        n <= end - start,
{
    let rest = end - start;
    if rest >= 1 && ((9 <= s[end - 1] && s[end - 1] <= 13) || s[end - 1] == 32) {
        1
    } else if rest >= 2 && s[end - 2] == 0xC2 && (s[end - 1] == 0x85 || s[end - 1] == 0xA0) {
        2
    } else if rest >= 3 && ((s[end - 3] == 0xE1 && s[end - 2] == 0x9A && s[end - 1] == 0x80)
        || (s[end - 3] == 0xE2 && s[end - 2] == 0x80 && ((0x80 <= s[end - 1] && s[end - 1]
        <= 0x8A) || s[end - 1] == 0xA8 || s[end - 1] == 0xA9 || s[end - 1] == 0xAF)) || (s[end
        - 3] == 0xE2 && s[end - 2] == 0x81 && s[end - 1] == 0x9F) || (s[end - 3] == 0xE3 && s[end
        - 2] == 0x80 && s[end - 1] == 0x80)) {
        3
    } else {
        0
    }
}

/// The bounds `(start, end)` of what remains of `s` once the whitespace characters at both of
/// its ends are removed.
pub fn whitespace_trim_bounds(s: &[u8]) -> (r: (usize, usize))
    ensures
        r.0 <= r.1 <= s@.len(),
        trim_whitespace(s@) == s@.subrange(r.0 as int, r.1 as int),
{
    let mut start: usize = 0;
    assert(s@.skip(0) =~= s@);
    loop
        invariant
            0 <= start <= s@.len(),
            trim_whitespace_start(s@) == trim_whitespace_start(s@.skip(start as int)),
            s@.len() == s.len(),
        ensures
            0 <= start <= s@.len(),
            trim_whitespace_start(s@) == trim_whitespace_start(s@.skip(start as int)),
            whitespace_prefix_len(s@.skip(start as int)) == 0,
        decreases s@.len() - start,
    {
        let n = whitespace_len_at(s, start);
        if n == 0 {
            break;
        }
        assert(s@.skip(start as int).skip(n as int) =~= s@.skip(start + n));
        start = start + n;
    }
    let ghost front = s@.skip(start as int);
    assert(trim_whitespace_start(s@) == front);
    let mut end: usize = s.len();
    assert(front =~= s@.subrange(start as int, end as int));
    loop
        invariant
            0 <= start <= end <= s@.len(),
            front == s@.skip(start as int),
            trim_whitespace(s@) == trim_whitespace_end(s@.subrange(start as int, end as int)),
        ensures
            0 <= start <= end <= s@.len(),
            trim_whitespace(s@) == trim_whitespace_end(s@.subrange(start as int, end as int)),
            whitespace_suffix_len(s@.subrange(start as int, end as int)) == 0,
        decreases end - start,
    {
        let n = whitespace_len_before(s, start, end);
        if n == 0 {
            break;
        }
        assert(s@.subrange(start as int, end as int).take(end - start - n) =~= s@.subrange(
            start as int,
            end - n,
        ));
        end = end - n;
    }
    (start, end)
}

/// The value of the digit `b` in a base up to 16 (`0-9`, `a-f`, `A-F`), or 16 when `b` is not
/// a digit at all.
pub open spec fn digit_of(b: u8) -> nat {
    if 48 <= b && b <= 57 {
        (b - 48) as nat
    } else if 97 <= b && b <= 102 {
        (b - 87) as nat
    } else if 65 <= b && b <= 70 {
        (b - 55) as nat
    } else {
        16
    }
}

/// Every byte of `s` is a digit in base `radix`.
pub open spec fn all_digits(s: Seq<u8>, radix: nat) -> bool {
    forall|i: int| 0 <= i < s.len() ==> #[trigger] digit_of(s[i]) < radix
}

/// The number that the digits `s` spell in base `radix`, most significant first.
pub open spec fn digits_value(s: Seq<u8>, radix: nat) -> nat
    decreases s.len(),
{
    if s.len() == 0 {
        0
    } else {
        digits_value(s.drop_last(), radix) * radix + digit_of(s.last())
    }
}

/// `s` without one leading `+` sign, if it has one.
pub open spec fn strip_plus(s: Seq<u8>) -> Seq<u8> {
    if s.len() > 0 && s[0] == 43 {
        s.drop_first()
    } else {
        s
    }
}

/// What `usize::from_str_radix(s, radix)` gives on the bytes `s`: an optional `+`, then one or
/// more digits in base `radix`, whose value must fit in a `usize`.
pub open spec fn parse_unsigned(s: Seq<u8>, radix: nat) -> Option<usize> {
    let d = strip_plus(s);
    if d.len() > 0 && all_digits(d, radix) && digits_value(d, radix) <= usize::MAX {
        Some(digits_value(d, radix) as usize)
    } else {
        None
    }
}

/// A prefix of a digit string has no larger value than the whole of it.
pub proof fn lemma_digits_prefix_le(s: Seq<u8>, i: int, radix: nat)
    requires
        0 <= i <= s.len(),
        radix >= 1,
    ensures
        digits_value(s.take(i), radix) <= digits_value(s, radix),
    decreases s.len(),
{
    if i == s.len() {
        assert(s.take(i) =~= s);
    } else {
        let t = s.drop_last();
        assert(t.take(i) =~= s.take(i));
        lemma_digits_prefix_le(t, i, radix);
        let v = digits_value(t, radix);
        assert(v * radix >= v) by (nonlinear_arith)
            requires
                radix >= 1,
        ;
    }
}

/// Reading one more digit multiplies the value so far by the base and adds the digit.
proof fn lemma_digits_step(d: Seq<u8>, k: int, radix: nat)
    requires
        0 <= k < d.len(),
    ensures
        digits_value(d.take(k + 1), radix) == digits_value(d.take(k), radix) * radix + digit_of(
            d[k],
        ),
        all_digits(d.take(k), radix) && digit_of(d[k]) < radix ==> all_digits(
            d.take(k + 1),
            radix,
        ),
{
    let next = d.take(k + 1);
    assert(next.drop_last() =~= d.take(k));
    assert(next.last() == d[k]);
    if all_digits(d.take(k), radix) && digit_of(d[k]) < radix {
        assert forall|i: int| 0 <= i < next.len() implies #[trigger] digit_of(next[i]) < radix by {
            if i < k {
                assert(next[i] == d.take(k)[i]);
            }
        }
    }
}

/// Once a prefix of the digits is too large for a `usize`, so is the whole number.
proof fn lemma_overflow_rejected(s: Seq<u8>, k: int, radix: nat)
    requires
        0 <= k <= strip_plus(s).len(),
        radix >= 1,
        digits_value(strip_plus(s).take(k), radix) > usize::MAX,
    ensures
        parse_unsigned(s, radix) is None,
{
    lemma_digits_prefix_le(strip_plus(s), k, radix);
}

/// The unsigned number that `s` spells in base `radix` (10 or 16), as `usize::from_str_radix`
/// reads it.
pub fn parse_unsigned_bytes(s: &[u8], radix: usize) -> (r: Option<usize>)
    requires
        radix == 10 || radix == 16,
    ensures
        r == parse_unsigned(s@, radix as nat),
{
    let start: usize = if s.len() > 0 && s[0] == 43 {
        1
    } else {
        0
    };
    let ghost d = strip_plus(s@);
    assert(d =~= s@.skip(start as int));
    if start >= s.len() {
        return None;
    }
    let mut i: usize = start;
    let mut acc: usize = 0;
    assert(d.take(0) =~= Seq::<u8>::empty());
    while i < s.len()
        invariant
            start <= i <= s@.len(),
            d == strip_plus(s@),
            d == s@.skip(start as int),
            radix == 10 || radix == 16,
            acc as nat == digits_value(d.take(i - start), radix as nat),
            all_digits(d.take(i - start), radix as nat),
        decreases s@.len() - i,
    {
        let b = s[i];
        let dig: usize = if 48 <= b && b <= 57 {
            (b - 48) as usize
        } else if 97 <= b && b <= 102 {
            (b - 87) as usize
        } else if 65 <= b && b <= 70 {
            (b - 55) as usize
        } else {
            16
        };
        assert(dig == digit_of(d[i - start]));
        if dig >= radix {
            assert(digit_of(d[i - start]) >= radix);
            return None;
        }
        proof {
            lemma_digits_step(d, i - start, radix as nat);
        }
        match acc.checked_mul(radix) {
            None => {
                proof {
                    lemma_overflow_rejected(s@, i - start + 1, radix as nat);
                }
                return None;
            },
            Some(m) => match m.checked_add(dig) {
                None => {
                    proof {
                        lemma_overflow_rejected(s@, i - start + 1, radix as nat);
                    }
                    return None;
                },
                Some(v) => {
                    acc = v;
                },
            },
        }
        i = i + 1;
    }
    assert(d.take(i - start) =~= d);
    Some(acc)
}

/// The digit byte for a value below 16: `0`-`9`, then the lower-case letters `a`-`f`.
pub open spec fn digit_byte(v: nat) -> u8 {
    if v < 10 {
        (48 + v) as u8
    } else {
        (87 + v) as u8
    }
}

/// The digits of `n` in base `radix` (from 2 to 16), most significant first, without leading
/// zeros (a single `0` for zero).
pub open spec fn format_unsigned(n: nat, radix: nat) -> Seq<u8>
    decreases n,
{
    if radix < 2 || n < radix {
        seq![digit_byte(n)]
    } else {
        proof {
            lemma_div_decreases(n as int, radix as int);
        }
        format_unsigned(n / radix, radix).push(digit_byte(n % radix))
    }
}

/// Every byte of `s` is printable ASCII other than the space, so trimming whitespace leaves it
/// alone.
pub open spec fn is_plain_ascii(s: Seq<u8>) -> bool {
    forall|i: int| 0 <= i < s.len() ==> 33 <= #[trigger] s[i] && s[i] <= 126
}

/// Trimming whitespace leaves plain ASCII unchanged.
pub proof fn lemma_trim_plain(s: Seq<u8>)
    requires
        is_plain_ascii(s),
    ensures
        trim_whitespace(s) == s,
{
    if s.len() > 0 {
        assert(33 <= s[0] && s[0] <= 126);
        assert(33 <= s[s.len() - 1] && s[s.len() - 1] <= 126);
    }
    assert(whitespace_prefix_len(s) == 0);
    assert(trim_whitespace_start(s) == s);
    assert(whitespace_suffix_len(s) == 0);
}

/// The digits of a number are plain ASCII, start with no `+`, and spell the number.
pub proof fn lemma_format_digits(n: nat, radix: nat)
    requires
        2 <= radix <= 16,
    ensures
        format_unsigned(n, radix).len() > 0,
        all_digits(format_unsigned(n, radix), radix),
        is_plain_ascii(format_unsigned(n, radix)),
        format_unsigned(n, radix)[0] != 43,
        digits_value(format_unsigned(n, radix), radix) == n,
    decreases n,
{
    let f = format_unsigned(n, radix);
    if n < radix {
        assert(f.drop_last() =~= Seq::<u8>::empty());
        assert(digit_of(digit_byte(n)) == n);
        assert(f.last() == digit_byte(n));
        assert(digits_value(f.drop_last(), radix) == 0);
        assert(0 * radix == 0) by (nonlinear_arith);
        assert(digits_value(f, radix) == n);
    } else {
        lemma_div_decreases(n as int, radix as int);
        let q = n / radix;
        let r = n % radix;
        lemma_format_digits(q, radix);
        let g = format_unsigned(q, radix);
        assert(f == g.push(digit_byte(r)));
        assert(f.drop_last() =~= g);
        assert(digit_of(digit_byte(r)) == r);
        lemma_fundamental_div_mod(n as int, radix as int);
        assert(q * radix + r == n) by (nonlinear_arith)
            requires
                n == radix * q + r,
        ;
        assert forall|i: int| 0 <= i < f.len() implies #[trigger] digit_of(f[i]) < radix by {
            if i < g.len() {
                assert(f[i] == g[i]);
            }
        }
        assert forall|i: int| 0 <= i < f.len() implies 33 <= #[trigger] f[i] && f[i] <= 126 by {
            if i < g.len() {
                assert(f[i] == g[i]);
            }
        }
        assert(f[0] == g[0]);
        assert(f.last() == digit_byte(r));
        assert(digits_value(f, radix) == digits_value(g, radix) * radix + r);
    }
}

/// Formatting a `usize` in base `radix`, then parsing it in that base, gives it back.
pub proof fn lemma_format_then_parse(n: usize, radix: nat)
    requires
        2 <= radix <= 16,
    ensures
        parse_unsigned(format_unsigned(n as nat, radix), radix) == Some(n),
{
    lemma_format_digits(n as nat, radix);
}

/// Trimming leading ASCII whitespace drops exactly the longest prefix made only of the bytes
/// space, tab, line feed, form feed and carriage return: every dropped byte is one of those,
/// what is left is a suffix of `s`, and it is empty or starts with another byte.
pub proof fn lemma_trim_ascii_start(s: Seq<u8>)
    ensures
        ({
            let k = s.len() - trim_ascii_start(s).len();
            &&& 0 <= k <= s.len()
            &&& trim_ascii_start(s) == s.skip(k)
            &&& forall|j: int|
                0 <= j < k ==> (#[trigger] s[j] == 32 || s[j] == 9 || s[j] == 10 || s[j] == 12
                    || s[j] == 13)
            &&& k < s.len() ==> !(s[k] == 32 || s[k] == 9 || s[k] == 10 || s[k] == 12 || s[k]
                == 13)
        }),
    decreases s.len(),
{
    if s.len() > 0 && is_ascii_whitespace(s[0]) {
        let t = s.drop_first();
        lemma_trim_ascii_start(t);
        let k = s.len() - trim_ascii_start(s).len();
        assert(t.skip(k - 1) =~= s.skip(k));
        assert forall|j: int| 0 <= j < k implies (#[trigger] s[j] == 32 || s[j] == 9 || s[j]
            == 10 || s[j] == 12 || s[j] == 13) by {
            if j > 0 {
                assert(s[j] == t[j - 1]);
            }
        }
        if k < s.len() {
            assert(s[k] == t[k - 1]);
        }
    } else {
        assert(s.skip(0) =~= s);
    }
}

} // verus!
