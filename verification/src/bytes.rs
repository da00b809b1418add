//! Byte-level text scanning: character classes, splitting on a separator
//! byte, and digit values. Everything here works on the UTF-8 bytes of a
//! string, addressing a sub-range `[lo, hi)` of a byte slice.

use vstd::prelude::*;

verus! {

pub open spec fn is_digit(b: u8) -> bool {
    48 <= b <= 57
}

pub open spec fn is_hex(b: u8) -> bool {
    is_digit(b) || (65 <= b <= 70) || (97 <= b <= 102)
}

pub open spec fn is_ascii_alnum(b: u8) -> bool {
    is_digit(b) || (65 <= b <= 90) || (97 <= b <= 122)
}

/// Value of a hexadecimal (or decimal) digit byte.
pub open spec fn digit_value(b: u8) -> nat {
    if is_digit(b) {
        (b - 48) as nat
    } else if b <= 70 {
        (b - 55) as nat
    } else {
        (b - 87) as nat
    }
}

pub open spec fn all_digits(s: Seq<u8>) -> bool {
    forall|i: int| 0 <= i < s.len() ==> is_digit(#[trigger] s[i])
}

pub open spec fn all_hex(s: Seq<u8>) -> bool {
    forall|i: int| 0 <= i < s.len() ==> is_hex(#[trigger] s[i])
}

/// Positional value of a digit string in the given radix.
pub open spec fn radix_value(s: Seq<u8>, radix: nat) -> nat
    decreases s.len(),
{
    if s.len() == 0 {
        0
    } else {
        radix_value(s.drop_last(), radix) * radix + digit_value(s.last())
    }
}

/// ASCII lowercase of one byte; every other byte is unchanged.
pub open spec fn ascii_lower(b: u8) -> u8 {
    if 65 <= b <= 90 {
        (b + 32) as u8
    } else {
        b
    }
}

/// Byte-wise ASCII lowercase.
pub open spec fn ascii_lower_seq(s: Seq<u8>) -> Seq<u8> {
    Seq::new(s.len(), |i: int| ascii_lower(s[i]))
}

/// ASCII case-insensitive equality (`eq_ignore_ascii_case`).
pub open spec fn eq_ignore_case(a: Seq<u8>, b: Seq<u8>) -> bool {
    a.len() == b.len() && ascii_lower_seq(a) == ascii_lower_seq(b)
}

/// The byte ranges of the pieces of `s` between occurrences of `sep`
/// (`str::split`): one more piece than there are separators, pieces may be
/// empty, and ranges are relative to the start of `s`.
pub open spec fn split_ranges(s: Seq<u8>, sep: u8) -> Seq<(int, int)>
    decreases s.len(),
{
    if s.len() == 0 {
        seq![(0, 0)]
    } else {
        let r = split_ranges(s.drop_last(), sep);
        if s.last() == sep {
            r.push((s.len() as int, s.len() as int))
        } else {
            r.update(r.len() - 1, (r.last().0, s.len() as int))
        }
    }
}

/// The `k`-th piece of `s` split on `sep`.
pub open spec fn piece(s: Seq<u8>, sep: u8, k: int) -> Seq<u8> {
    let r = split_ranges(s, sep);
    s.subrange(r[k].0, r[k].1)
}

/// Whether `b` occurs in `s`.
pub open spec fn has_byte(s: Seq<u8>, b: u8) -> bool {
    exists|i: int| 0 <= i < s.len() && s[i] == b
}

/// Index of the last occurrence of `b` in `s`.
pub open spec fn last_index_of(s: Seq<u8>, b: u8) -> Option<int>
    decreases s.len(),
{
    if s.len() == 0 {
        None
    } else if s.last() == b {
        Some(s.len() - 1)
    } else {
        last_index_of(s.drop_last(), b)
    }
}

/// Index of the first occurrence of `b` in `s`.
pub open spec fn first_index_of(s: Seq<u8>, b: u8) -> Option<int>
    decreases s.len(),
{
    if s.len() == 0 {
        None
    } else {
        match first_index_of(s.drop_last(), b) {
            Some(i) => Some(i),
            None => if s.last() == b {
                Some(s.len() - 1)
            } else {
                None
            },
        }
    }
}

/// Shape of the split ranges: consecutive, separated by single `sep`
/// bytes, covering `s`, and free of `sep` inside.
pub proof fn lemma_split_ranges(s: Seq<u8>, sep: u8)
    ensures
        ({
            let r = split_ranges(s, sep);
            &&& r.len() >= 1
            &&& r[0].0 == 0
            &&& r.last().1 == s.len()
            &&& forall|k: int| 0 <= k < r.len() ==> 0 <= #[trigger] r[k].0 <= r[k].1 <= s.len()
            &&& forall|k: int|
                0 <= k < r.len() - 1 ==> #[trigger] r[k + 1].0 == r[k].1 + 1 && s[r[k].1] == sep
            &&& forall|k: int, j: int|
                #![trigger r[k], s[j]]
                0 <= k < r.len() && r[k].0 <= j < r[k].1 ==> s[j] != sep
        }),
    decreases s.len(),
{
    if s.len() > 0 {
        lemma_split_ranges(s.drop_last(), sep);
        let r0 = split_ranges(s.drop_last(), sep);
        let r = split_ranges(s, sep);
        assert forall|k: int, j: int|
            #![trigger r[k], s[j]]
            0 <= k < r.len() && r[k].0 <= j < r[k].1 implies s[j] != sep by {
            if j < s.len() - 1 {
                assert(s.drop_last()[j] == s[j]);
                if k < r0.len() {
                    if k == r0.len() - 1 && s.last() != sep {
                        assert(r0[k].0 <= j);
                        if j >= r0[k].1 {
                            assert(r0[k].1 == s.len() - 1);
                        }
                    }
                }
            }
        }
        assert forall|k: int| 0 <= k < r.len() - 1 implies #[trigger] r[k + 1].0 == r[k].1 + 1
            && s[r[k].1] == sep by {
            if k < r0.len() - 1 {
                assert(0 <= r0[k].0 <= r0[k].1);
                assert(r0[k + 1].0 == r0[k].1 + 1);
                assert(r0[k + 1].0 <= r0[k + 1].1);
                assert(r0[k + 1].1 <= s.len() - 1);
                assert(s.drop_last()[r0[k].1] == s[r0[k].1]);
            }
        }
    }
}

/// A piece that is not the last ends at a separator, right before the next
/// piece.
pub proof fn lemma_split_piece_end(s: Seq<u8>, sep: u8, k: int)
    requires
        0 <= k < split_ranges(s, sep).len() - 1,
    ensures
        ({
            let r = split_ranges(s, sep);
            &&& 0 <= r[k].0 <= r[k].1 < s.len()
            &&& s[r[k].1] == sep
            &&& r[k + 1].0 == r[k].1 + 1
            &&& r[k + 1].0 <= r[k + 1].1 <= s.len()
        }),
{
    lemma_split_ranges(s, sep);
    let r = split_ranges(s, sep);
    assert(r[k + 1].0 == r[k].1 + 1);
    assert(0 <= r[k].0 <= r[k].1);
    assert(0 <= r[k + 1].0 <= r[k + 1].1 <= s.len());
}

/// Reading digits left to right: the value of one more digit.
pub proof fn lemma_radix_value_step(s: Seq<u8>, j: int, radix: nat)
    requires
        0 <= j < s.len(),
    ensures
        radix_value(s.take(j + 1), radix) == radix_value(s.take(j), radix) * radix + digit_value(
            s[j],
        ),
{
    assert(s.take(j + 1).drop_last() =~= s.take(j));
}

/// `radix^n`.
pub open spec fn radix_pow(radix: nat, n: nat) -> nat
    decreases n,
{
    if n == 0 {
        1
    } else {
        radix_pow(radix, (n - 1) as nat) * radix
    }
}

/// A digit string of length `n` in radix `radix` stays below `radix^n`.
pub proof fn lemma_radix_value_bound(s: Seq<u8>, radix: nat)
    requires
        radix > 0,
        forall|i: int| 0 <= i < s.len() ==> digit_value(#[trigger] s[i]) < radix,
    ensures
        radix_value(s, radix) < radix_pow(radix, s.len()),
    decreases s.len(),
{
    if s.len() > 0 {
        let t = s.drop_last();
        lemma_radix_value_bound(t, radix);
        let v = radix_value(t, radix);
        let p = radix_pow(radix, t.len());
        let x = digit_value(s.last());
        assert(v * radix + x < p * radix) by (nonlinear_arith)
            requires
                v < p,
                x < radix,
                radix > 0,
        ;
    }
}

/// Reading more digits never makes a value smaller.
pub proof fn lemma_radix_value_prefix_le(s: Seq<u8>, j: int, radix: nat)
    requires
        0 <= j <= s.len(),
    ensures
        radix_value(s.take(j), radix) <= radix_value(s, radix) || radix == 0,
    decreases s.len() - j,
{
    if j < s.len() && radix > 0 {
        lemma_radix_value_prefix_le(s, j + 1, radix);
        lemma_radix_value_step(s, j, radix);
        let v = radix_value(s.take(j), radix);
        assert(v * radix >= v) by (nonlinear_arith)
            requires
                radix > 0,
        ;
    }
    if j == s.len() {
        assert(s.take(j) =~= s);
    }
}

/// `bytes[lo..hi]` split on `sep`, as absolute byte ranges.
pub fn split_ranges_in(bytes: &[u8], lo: usize, hi: usize, sep: u8) -> (r: Vec<(usize, usize)>)
    requires
        lo <= hi <= bytes@.len(),
    ensures
        ({
            let sr = split_ranges(bytes@.subrange(lo as int, hi as int), sep);
            &&& r@.len() == sr.len()
            &&& forall|k: int|
                0 <= k < r@.len() ==> (#[trigger] r@[k]).0 == lo + sr[k].0 && r@[k].1 == lo
                    + sr[k].1
        }),
{
    let mut out: Vec<(usize, usize)> = Vec::new();
    let mut start: usize = lo;
    let mut i: usize = lo;
    while i < hi
        invariant
            lo <= start <= i <= hi <= bytes@.len(),
            ({
                let sr = split_ranges(bytes@.subrange(lo as int, i as int), sep);
                &&& sr.len() == out@.len() + 1
                &&& forall|k: int|
                    0 <= k < out@.len() ==> (#[trigger] out@[k]).0 == lo + sr[k].0 && out@[k].1
                        == lo + sr[k].1
                &&& sr.last() == (start - lo, i - lo)
            }),
        decreases hi - i,
    {
        assert(bytes@.subrange(lo as int, i + 1).drop_last() =~= bytes@.subrange(lo as int, i as int));
        if bytes[i] == sep {
            out.push((start, i));
            start = i + 1;
        }
        i = i + 1;
    }
    out.push((start, hi));
    out
}

/// Whether `bytes[lo..hi]` contains `b`.
pub fn contains_byte(bytes: &[u8], lo: usize, hi: usize, b: u8) -> (r: bool)
    requires
        lo <= hi <= bytes@.len(),
    ensures
        r == has_byte(bytes@.subrange(lo as int, hi as int), b),
{
    let ghost s = bytes@.subrange(lo as int, hi as int);
    let mut i: usize = lo;
    while i < hi
        invariant
            lo <= i <= hi <= bytes@.len(),
            s == bytes@.subrange(lo as int, hi as int),
            forall|j: int| 0 <= j < i - lo ==> s[j] != b,
        decreases hi - i,
    {
        if bytes[i] == b {
            assert(s[i - lo] == b);
            return true;
        }
        i = i + 1;
    }
    false
}

/// Index (absolute) of the first `b` in `bytes[lo..hi]`.
pub fn find_first_byte(bytes: &[u8], lo: usize, hi: usize, b: u8) -> (r: Option<usize>)
    requires
        lo <= hi <= bytes@.len(),
    ensures
        match first_index_of(bytes@.subrange(lo as int, hi as int), b) {
            Some(i) => r == Some((lo + i) as usize),
            None => r is None,
        },
{
    let mut i: usize = lo;
    while i < hi
        invariant
            lo <= i <= hi <= bytes@.len(),
            first_index_of(bytes@.subrange(lo as int, i as int), b) is None,
        decreases hi - i,
    {
        assert(bytes@.subrange(lo as int, i + 1).drop_last() =~= bytes@.subrange(lo as int, i as int));
        if bytes[i] == b {
            proof { lemma_first_index_extend(bytes@.subrange(lo as int, hi as int), (i - lo) as int, b); }
            assert(bytes@.subrange(lo as int, hi as int).take(i - lo + 1) =~= bytes@.subrange(lo as int, i + 1));
            return Some(i);
        }
        i = i + 1;
    }
    assert(bytes@.subrange(lo as int, i as int) =~= bytes@.subrange(lo as int, hi as int));
    None
}

/// Once the first occurrence lies in a prefix, it is the first occurrence of
/// the whole sequence.
pub proof fn lemma_first_index_extend(s: Seq<u8>, j: int, b: u8)
    requires
        0 <= j < s.len(),
        first_index_of(s.take(j + 1), b) is Some,
    ensures
        first_index_of(s, b) == first_index_of(s.take(j + 1), b),
    decreases s.len(),
{
    if s.len() > j + 1 {
        assert(s.drop_last().take(j + 1) =~= s.take(j + 1));
        lemma_first_index_extend(s.drop_last(), j, b);
    } else {
        assert(s.take(j + 1) =~= s);
    }
}

/// Index (absolute) of the last `b` in `bytes[lo..hi]`.
pub fn find_last_byte(bytes: &[u8], lo: usize, hi: usize, b: u8) -> (r: Option<usize>)
    requires
        lo <= hi <= bytes@.len(),
    ensures
        match last_index_of(bytes@.subrange(lo as int, hi as int), b) {
            Some(i) => r == Some((lo + i) as usize),
            None => r is None,
        },
{
    let mut i: usize = hi;
    while i > lo
        invariant
            lo <= i <= hi <= bytes@.len(),
            last_index_of(bytes@.subrange(lo as int, hi as int), b) == last_index_of(
                bytes@.subrange(lo as int, i as int),
                b,
            ),
        decreases i,
    {
        assert(bytes@.subrange(lo as int, i as int).drop_last() =~= bytes@.subrange(lo as int, i - 1));
        if bytes[i - 1] == b {
            return Some(i - 1);
        }
        i = i - 1;
    }
    None
}

/// Value of the digit string `bytes[lo..hi]` in `radix`, or `None` when it
/// exceeds `limit`.
pub fn digits_value_upto(bytes: &[u8], lo: usize, hi: usize, radix: u32, limit: u32) -> (r: Option<u32>)
    requires
        lo <= hi <= bytes@.len(),
        2 <= radix <= 16,
        limit < 0x0100_0000,
        forall|i: int| lo <= i < hi ==> is_hex(#[trigger] bytes@[i]),
        forall|i: int| lo <= i < hi ==> digit_value(#[trigger] bytes@[i]) < radix,
    ensures
        ({
            let v = radix_value(bytes@.subrange(lo as int, hi as int), radix as nat);
            match r {
                Some(x) => x == v && v <= limit,
                None => v > limit,
            }
        }),
{
    let ghost s = bytes@.subrange(lo as int, hi as int);
    let mut acc: u32 = 0;
    let mut i: usize = lo;
    while i < hi
        invariant
            lo <= i <= hi <= bytes@.len(),
            2 <= radix <= 16,
            limit < 0x0100_0000,
            s == bytes@.subrange(lo as int, hi as int),
            forall|j: int| lo <= j < hi ==> is_hex(#[trigger] bytes@[j]),
            forall|j: int| lo <= j < hi ==> digit_value(#[trigger] bytes@[j]) < radix,
            acc == radix_value(s.take(i - lo), radix as nat),
            acc <= limit,
        decreases hi - i,
    {
        proof {
            lemma_radix_value_step(s, i - lo, radix as nat);
        }
        let b = bytes[i];
        let d: u32 = if b <= 57 {
            (b - 48) as u32
        } else if b <= 70 {
            (b - 55) as u32
        } else {
            (b - 87) as u32
        };
        assert(s[i - lo] == b);
        assert(d == digit_value(b));
        assert(acc * radix + d < 0x1000_0000) by (nonlinear_arith)
            requires
                acc <= limit,
                limit < 0x0100_0000,
                radix <= 16,
                d < 16,
        ;
        let next = acc * radix + d;
        if next > limit {
            proof {
                lemma_radix_value_prefix_le(s, i - lo + 1, radix as nat);
            }
            return None;
        }
        acc = next;
        i = i + 1;
    }
    assert(s.take(i - lo) =~= s);
    Some(acc)
}

/// Lowercases the ASCII letters of `s` (`str::to_ascii_lowercase` on bytes).
pub fn ascii_lowercase_bytes(s: &[u8], lo: usize, hi: usize) -> (r: Vec<u8>)
    requires
        lo <= hi <= s@.len(),
    ensures
        r@ == ascii_lower_seq(s@.subrange(lo as int, hi as int)),
{
    let mut out: Vec<u8> = Vec::new();
    let mut i: usize = lo;
    while i < hi
        invariant
            lo <= i <= hi <= s@.len(),
            out@ =~= ascii_lower_seq(s@.subrange(lo as int, i as int)),
        decreases hi - i,
    {
        let b = s[i];
        let l = if 65 <= b && b <= 90 { b + 32 } else { b };
        out.push(l);
        i = i + 1;
    }
    out
}

/// Whether `a[alo..ahi]` equals `b`.
pub fn bytes_eq(a: &[u8], alo: usize, ahi: usize, b: &[u8]) -> (r: bool)
    requires
        alo <= ahi <= a@.len(),
    ensures
        r == (a@.subrange(alo as int, ahi as int) == b@),
{
    if ahi - alo != b.len() {
        return false;
    }
    let mut i: usize = 0;
    while i < b.len()
        invariant
            alo <= ahi <= a@.len(),
            ahi - alo == b@.len(),
            0 <= i <= b@.len(),
            forall|j: int| 0 <= j < i ==> a@[alo + j] == b@[j],
        decreases b@.len() - i,
    {
        if a[alo + i] != b[i] {
            assert(a@.subrange(alo as int, ahi as int)[i as int] != b@[i as int]);
            return false;
        }
        i = i + 1;
    }
    assert(a@.subrange(alo as int, ahi as int) =~= b@);
    true
}

/// Whether `s` ends with `suffix`.
pub open spec fn ends_with_bytes(s: Seq<u8>, suffix: Seq<u8>) -> bool {
    suffix.len() <= s.len() && s.subrange(s.len() - suffix.len(), s.len() as int) == suffix
}

/// Whether `s` ends with `suffix`.
pub fn bytes_end_with(s: &[u8], suffix: &[u8]) -> (r: bool)
    ensures
        r == ends_with_bytes(s@, suffix@),
{
    if suffix.len() > s.len() {
        return false;
    }
    bytes_eq(s, s.len() - suffix.len(), s.len(), suffix)
}

/// Whether `a[alo..ahi]` equals `b` ignoring ASCII case.
pub fn bytes_eq_ignore_case(a: &[u8], alo: usize, ahi: usize, b: &[u8]) -> (r: bool)
    requires
        alo <= ahi <= a@.len(),
    ensures
        r == eq_ignore_case(a@.subrange(alo as int, ahi as int), b@),
{
    if ahi - alo != b.len() {
        return false;
    }
    let ghost sa = a@.subrange(alo as int, ahi as int);
    let mut i: usize = 0;
    while i < b.len()
        invariant
            alo <= ahi <= a@.len(),
            sa == a@.subrange(alo as int, ahi as int),
            ahi - alo == b@.len(),
            0 <= i <= b@.len(),
            forall|j: int| 0 <= j < i ==> ascii_lower(sa[j]) == ascii_lower(b@[j]),
        decreases b@.len() - i,
    {
        let x = a[alo + i];
        let y = b[i];
        let lx = if 65 <= x && x <= 90 { x + 32 } else { x };
        let ly = if 65 <= y && y <= 90 { y + 32 } else { y };
        assert(sa[i as int] == x);
        if lx != ly {
            assert(ascii_lower_seq(sa)[i as int] != ascii_lower_seq(b@)[i as int]);
            return false;
        }
        i = i + 1;
    }
    assert(ascii_lower_seq(sa) =~= ascii_lower_seq(b@));
    true
}

} // verus!

verus! {

pub proof fn lemma_last_index_of(s: Seq<u8>, b: u8)
    ensures
        last_index_of(s, b) matches Some(i) ==> 0 <= i < s.len() && s[i] == b,
        last_index_of(s, b) is None ==> !has_byte(s, b),
    decreases s.len(),
{
    if s.len() > 0 {
        lemma_last_index_of(s.drop_last(), b);
        if s.last() != b && last_index_of(s.drop_last(), b) is None {
            assert forall|i: int| 0 <= i < s.len() implies s[i] != b by {
                if i < s.len() - 1 {
                    assert(s.drop_last()[i] == s[i]);
                }
            }
        }
        if let Some(i) = last_index_of(s.drop_last(), b) {
            if s.last() != b {
                assert(s.drop_last()[i] == s[i]);
            }
        }
    }
}

pub proof fn lemma_first_index_of(s: Seq<u8>, b: u8)
    ensures
        first_index_of(s, b) matches Some(i) ==> 0 <= i < s.len() && s[i] == b,
        first_index_of(s, b) is None ==> !has_byte(s, b),
    decreases s.len(),
{
    if s.len() > 0 {
        lemma_first_index_of(s.drop_last(), b);
        if let Some(i) = first_index_of(s.drop_last(), b) {
            assert(s.drop_last()[i] == s[i]);
        } else if s.last() != b {
            assert forall|i: int| 0 <= i < s.len() implies s[i] != b by {
                if i < s.len() - 1 {
                    assert(s.drop_last()[i] == s[i]);
                }
            }
        }
    }
}

} // verus!
