//! Text primitives: UTF-8 byte ranges, decimal rendering, and the few `std`
//! string operations the library relies on.

use vstd::prelude::*;
use vstd::string::*;
use vstd::utf8::*;

verus! {

/// Byte range `[start, end)` of `bytes` whose ends both fall on character
/// boundaries, so that it can be cut out of the string it encodes.
pub open spec fn is_char_range(bytes: Seq<u8>, start: int, end: int) -> bool {
    &&& valid_utf8(bytes)
    &&& 0 <= start <= end <= bytes.len()
    &&& is_char_boundary(bytes, start)
    &&& is_char_boundary(bytes, end)
}

/// The characters encoded by the byte range `[start, end)` of `bytes`.
pub open spec fn chars_in(bytes: Seq<u8>, start: int, end: int) -> Seq<char> {
    decode_utf8(bytes.subrange(start, end))
}

/// An ASCII byte always starts a character.
pub proof fn lemma_ascii_byte_is_boundary(bytes: Seq<u8>, i: int)
    requires
        valid_utf8(bytes),
        0 <= i < bytes.len(),
        bytes[i] < 128,
    ensures
        is_char_boundary(bytes, i),
{
    let b = bytes[i];
    assert(b < 128 ==> (b & 0xc0) != 0x80) by (bit_vector);
    is_char_boundary_iff_not_is_continuation_byte(bytes, i);
}

/// The byte after an ASCII byte always starts a character (or ends the
/// text).
pub proof fn lemma_after_ascii_byte_is_boundary(bytes: Seq<u8>, j: int)
    requires
        valid_utf8(bytes),
        0 <= j < bytes.len(),
        bytes[j] < 128,
    ensures
        is_char_boundary(bytes, j + 1),
{
    if j + 1 == bytes.len() {
        is_char_boundary_start_end_of_seq(bytes);
    } else {
        lemma_ascii_byte_is_boundary(bytes, j);
        valid_utf8_split(bytes, j);
        let t = bytes.subrange(j, bytes.len() as int);
        assert(t[0] == bytes[j]);
        assert(valid_utf8(t));
        let u = bytes.subrange(j + 1, bytes.len() as int);
        assert(pop_first_scalar(t) =~= u);
        assert(valid_utf8(u));
        assert(valid_first_scalar(u));
        assert(u[0] == bytes[j + 1]);
        is_char_boundary_iff_is_leading_byte(bytes, j + 1);
    }
}

/// Boundaries of a valid byte sequence stay boundaries of any of its pieces
/// that is cut at boundaries.
pub proof fn lemma_boundary_in_piece(bytes: Seq<u8>, lo: int, hi: int, j: int)
    requires
        is_char_range(bytes, lo, hi),
        lo <= j <= hi,
        is_char_boundary(bytes, j),
    ensures
        valid_utf8(bytes.subrange(lo, hi)),
        is_char_boundary(bytes.subrange(lo, hi), j - lo),
{
    let tail = bytes.subrange(lo, bytes.len() as int);
    valid_utf8_split(bytes, lo);
    assert(valid_utf8(tail));
    let piece = bytes.subrange(lo, hi);
    if hi < bytes.len() {
        is_char_boundary_iff_not_is_continuation_byte(bytes, hi);
        is_char_boundary_iff_not_is_continuation_byte(tail, hi - lo);
        assert(tail[hi - lo] == bytes[hi]);
        valid_utf8_split(tail, hi - lo);
        assert(tail.subrange(0, hi - lo) =~= piece);
    } else {
        assert(tail =~= piece);
    }
    assert(valid_utf8(piece));
    if j == lo {
    } else if j == hi {
        is_char_boundary_start_end_of_seq(piece);
    } else {
        is_char_boundary_iff_not_is_continuation_byte(bytes, j);
        is_char_boundary_iff_not_is_continuation_byte(piece, j - lo);
        assert(piece[j - lo] == bytes[j]);
    }
}

/// The whole of a valid byte sequence is a character range.
pub proof fn lemma_whole_is_char_range(bytes: Seq<u8>)
    requires
        valid_utf8(bytes),
    ensures
        is_char_range(bytes, 0, bytes.len() as int),
{
    is_char_boundary_start_end_of_seq(bytes);
}

/// The string encoded by bytes `[start, end)` of `s`.
pub fn substr(s: &str, start: usize, end: usize) -> (r: &str)
    requires
        is_char_range(s.spec_bytes(), start as int, end as int),
    ensures
        r.spec_bytes() == s.spec_bytes().subrange(start as int, end as int),
        r@ == chars_in(s.spec_bytes(), start as int, end as int),
{
    let ghost bytes = s.spec_bytes();
    proof {
        lemma_whole_is_char_range(bytes);
        lemma_boundary_in_piece(bytes, start as int, bytes.len() as int, start as int);
        lemma_boundary_in_piece(bytes, start as int, bytes.len() as int, end as int);
    }
    let (_, tail) = s.split_at(start);
    assert(tail.spec_bytes() =~= bytes.subrange(start as int, bytes.len() as int));
    let (mid, _) = tail.split_at(end - start);
    assert(mid.spec_bytes() =~= bytes.subrange(start as int, end as int));
    proof {
        encode_utf8_decode_utf8(mid@);
    }
    mid
}

/// Decimal digit character for `d < 10`.
pub open spec fn digit_char(d: nat) -> char {
    (d + 48) as char
}

/// Decimal rendering of a natural number, most significant digit first.
pub open spec fn decimal(n: nat) -> Seq<char>
    decreases n,
{
    if n < 10 {
        seq![digit_char(n)]
    } else {
        decimal(n / 10).push(digit_char(n % 10))
    }
}

proof fn lemma_decimal_nonempty(n: nat)
    ensures
        decimal(n).len() >= 1,
        n >= 10 ==> decimal(n).len() >= 2,
    decreases n,
{
    if n >= 10 {
        lemma_decimal_nonempty(n / 10);
    }
}

/// Law: different numbers are written differently.
pub proof fn lemma_decimal_injective(a: nat, b: nat)
    requires
        decimal(a) == decimal(b),
    ensures
        a == b,
    decreases a,
{
    lemma_decimal_nonempty(a);
    lemma_decimal_nonempty(b);
    let da = decimal(a);
    let db = decimal(b);
    assert(da.last() == digit_char(a % 10));
    assert(db.last() == digit_char(b % 10));
    assert(digit_char(a % 10) as nat == a % 10 + 48);
    assert(digit_char(b % 10) as nat == b % 10 + 48);
    if a >= 10 && b >= 10 {
        assert(da.drop_last() =~= decimal(a / 10));
        assert(db.drop_last() =~= decimal(b / 10));
        lemma_decimal_injective(a / 10, b / 10);
    }
}

/// Appends `c` to `s` (`String::push`).
#[verifier::external_body]
pub(crate) fn push_char(s: &mut String, c: char)
    ensures
        final(s)@ == old(s)@.push(c),
{
    s.push(c)
}

/// Decimal rendering of `n`, as `n.to_string()` writes it.
pub fn decimal_string(n: usize) -> (r: String)
    ensures
        r@ == decimal(n as nat),
{
    let mut digits: Vec<char> = Vec::new();
    let mut rest: usize = n;
    loop
        invariant_except_break
            decimal(n as nat) =~= decimal(rest as nat) + digits@.reverse(),
        ensures
            decimal(n as nat) =~= digits@.reverse(),
        decreases rest,
    {
        let d = rest % 10;
        let c = ((d as u8) + 48) as char;
        assert(c == digit_char(d as nat));
        let ghost old_digits = digits@;
        digits.push(c);
        assert(digits@.reverse() =~= seq![c] + old_digits.reverse());
        if rest < 10 {
            break;
        }
        assert(decimal(rest as nat) == decimal((rest / 10) as nat).push(c));
        assert(decimal(rest as nat) + old_digits.reverse() =~= decimal((rest / 10) as nat) + digits@.reverse());
        rest = rest / 10;
    }
    let mut out = String::new();
    let mut i: usize = digits.len();
    while i > 0
        invariant
            i <= digits.len(),
            out@ =~= digits@.reverse().take((digits.len() - i) as int),
        decreases i,
    {
        i = i - 1;
        push_char(&mut out, digits[i]);
    }
    out
}

} // verus!

verus! {

/// Unicode lowercase of a string (`str::to_lowercase`).
pub uninterp spec fn unicode_lowercase(s: Seq<char>) -> Seq<char>;

/// `str::to_lowercase`: the Unicode lowercase mapping of `s`, which depends
/// on `s` alone. What the mapping is for each character (the Unicode
/// `Lowercase` tables) is left to `unicode_lowercase` and not stated.
#[verifier::external_body]
pub(crate) fn to_lowercase(s: &str) -> (r: String)
    ensures
        r@ == unicode_lowercase(s@),
{
    s.to_lowercase()
}

/// Unicode `White_Space` (`char::is_whitespace`).
pub open spec fn is_whitespace(c: char) -> bool {
    ||| c == ' '
    ||| ('\t' <= c && c <= '\r')
    ||| c == '\u{85}'
    ||| c == '\u{a0}'
    ||| c == '\u{1680}'
    ||| ('\u{2000}' <= c && c <= '\u{200a}')
    ||| c == '\u{2028}'
    ||| c == '\u{2029}'
    ||| c == '\u{202f}'
    ||| c == '\u{205f}'
    ||| c == '\u{3000}'
}

fn char_is_whitespace(c: char) -> (r: bool)
    ensures
        r == is_whitespace(c),
{
    c == ' ' || ('\t' <= c && c <= '\r') || c == '\u{85}' || c == '\u{a0}' || c == '\u{1680}' || (
    '\u{2000}' <= c && c <= '\u{200a}') || c == '\u{2028}' || c == '\u{2029}' || c == '\u{202f}'
        || c == '\u{205f}' || c == '\u{3000}'
}

/// Number of leading whitespace characters.
pub open spec fn leading_ws(s: Seq<char>) -> nat
    decreases s.len(),
{
    if s.len() > 0 && is_whitespace(s[0]) {
        1 + leading_ws(s.drop_first())
    } else {
        0
    }
}

/// Number of trailing whitespace characters.
pub open spec fn trailing_ws(s: Seq<char>) -> nat
    decreases s.len(),
{
    if s.len() > 0 && is_whitespace(s.last()) {
        1 + trailing_ws(s.drop_last())
    } else {
        0
    }
}

/// `s` without leading and trailing whitespace (`str::trim`).
pub open spec fn trim_chars(s: Seq<char>) -> Seq<char> {
    let t = s.skip(leading_ws(s) as int);
    t.take(t.len() - trailing_ws(t))
}

proof fn lemma_leading_ws_bound(s: Seq<char>)
    ensures
        leading_ws(s) <= s.len(),
    decreases s.len(),
{
    if s.len() > 0 && is_whitespace(s[0]) {
        lemma_leading_ws_bound(s.drop_first());
    }
}

proof fn lemma_trailing_ws_bound(s: Seq<char>)
    ensures
        trailing_ws(s) <= s.len(),
    decreases s.len(),
{
    if s.len() > 0 && is_whitespace(s.last()) {
        lemma_trailing_ws_bound(s.drop_last());
    }
}

proof fn lemma_leading_ws_push(s: Seq<char>, c: char)
    ensures
        leading_ws(s.push(c)) == if leading_ws(s) == s.len() {
            s.len() + if is_whitespace(c) {
                1nat
            } else {
                0nat
            }
        } else {
            leading_ws(s)
        },
    decreases s.len(),
{
    let sp = s.push(c);
    if s.len() == 0 {
        assert(sp.drop_first() =~= Seq::<char>::empty());
        assert(sp[0] == c);
        assert(leading_ws(Seq::<char>::empty()) == 0);
        assert(leading_ws(s) == 0);
        if is_whitespace(c) {
            assert(leading_ws(sp) == 1 + leading_ws(sp.drop_first()));
        } else {
            assert(leading_ws(sp) == 0);
        }
    } else {
        assert(sp[0] == s[0]);
        if is_whitespace(s[0]) {
            assert(sp.drop_first() =~= s.drop_first().push(c));
            lemma_leading_ws_push(s.drop_first(), c);
            assert(leading_ws(sp) == 1 + leading_ws(sp.drop_first()));
            assert(leading_ws(s) == 1 + leading_ws(s.drop_first()));
        } else {
            assert(leading_ws(sp) == 0);
            assert(leading_ws(s) == 0);
        }
    }
}

/// Law (ASCII whitespace): the space and the controls from tab to carriage
/// return (`\t`, `\n`, vertical tab, form feed, `\r`) are whitespace, and no
/// other ASCII character is.
pub proof fn lemma_ascii_whitespace(c: char)
    ensures
        (c == ' ' || c == '\t' || c == '\n' || c == '\u{0b}' || c == '\u{0c}' || c == '\r') ==> is_whitespace(c),
        (c as u32) < 128 && is_whitespace(c) ==> (c == ' ' || c == '\t' || c == '\n' || c == '\u{0b}'
            || c == '\u{0c}' || c == '\r'),
{
}

/// Law (trimming): a whitespace character added at either end of a text is
/// trimmed away, leaving what trimming the text gives.
pub proof fn lemma_trim_ignores_outer_whitespace(s: Seq<char>, c: char)
    requires
        is_whitespace(c),
    ensures
        trim_chars(s.push(c)) == trim_chars(s),
        trim_chars(seq![c] + s) == trim_chars(s),
{
    lemma_leading_ws_bound(s);
    lemma_leading_ws_push(s, c);
    let l = leading_ws(s) as int;
    let sp = s.push(c);
    if l == s.len() {
        assert(sp.skip(leading_ws(sp) as int) =~= Seq::<char>::empty());
        assert(s.skip(l) =~= Seq::<char>::empty());
        assert(trim_chars(sp) =~= Seq::<char>::empty());
        assert(trim_chars(s) =~= Seq::<char>::empty());
    } else {
        let t = s.skip(l);
        assert(sp.skip(l) =~= t.push(c));
        assert(t.push(c).drop_last() =~= t);
        lemma_trailing_ws_bound(t);
        assert(trailing_ws(t.push(c)) == 1 + trailing_ws(t));
        assert(t.push(c).take(t.len() - trailing_ws(t)) =~= t.take(t.len() - trailing_ws(t)));
    }
    let sf = seq![c] + s;
    assert(sf[0] == c);
    assert(sf.drop_first() =~= s);
    assert(leading_ws(sf) == 1 + l);
    assert(sf.skip(1 + l) =~= s.skip(l));
}

/// `s` without leading and trailing whitespace (`str::trim`).
pub fn trim(s: &str) -> (r: &str)
    ensures
        r@ == trim_chars(s@),
{
    let n = s.unicode_len();
    let mut a: usize = 0;
    assert(s@.skip(0) =~= s@);
    while a < n && char_is_whitespace(s.get_char(a))
        invariant
            n == s@.len(),
            a <= n,
            leading_ws(s@) == a + leading_ws(s@.skip(a as int)),
        decreases n - a,
    {
        assert(s@.skip(a as int).drop_first() =~= s@.skip(a + 1));
        a = a + 1;
    }
    proof {
        if a < n {
            assert(s@.skip(a as int)[0] == s@[a as int]);
        }
        assert(leading_ws(s@) == a);
        lemma_leading_ws_bound(s@);
    }
    let ghost t = s@.skip(a as int);
    let mut b: usize = n;
    assert(t.take(n - a) =~= t);
    while b > a && char_is_whitespace(s.get_char(b - 1))
        invariant
            n == s@.len(),
            a <= b <= n,
            t == s@.skip(a as int),
            trailing_ws(t) == (n - b) + trailing_ws(t.take(b - a)),
        decreases b,
    {
        assert(t.take(b - a).drop_last() =~= t.take(b - a - 1));
        assert(t.take(b - a).last() == s@[b - 1]);
        b = b - 1;
    }
    proof {
        if b > a {
            assert(t.take(b - a).last() == s@[b - 1]);
        }
        assert(trailing_ws(t.take(b - a)) == 0);
        assert(t.take(t.len() - trailing_ws(t)) =~= s@.subrange(a as int, b as int));
    }
    s.substring_char(a, b)
}

} // verus!
