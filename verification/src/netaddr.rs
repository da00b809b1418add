//! Textual IP addresses and prefix lengths, as `std` parses them
//! (`Ipv4Addr`, `Ipv6Addr` and `u8` from a string), written over the
//! UTF-8 bytes of the text.
//!
//! IPv4 text is exactly four dot-separated decimal octets: one to three
//! digits, no leading zero, at most 255. IPv6 text is colon-separated groups
//! of one to four hex digits, with at most one `::` standing for one or more
//! zero groups, and an optional dotted IPv4 address in place of the last two
//! groups.

use vstd::prelude::*;
use crate::bytes::{
    all_digits, all_hex, digit_value, digits_value_upto, is_digit, is_hex, lemma_radix_value_bound,
    lemma_split_ranges, piece, radix_pow, radix_value, split_ranges, split_ranges_in,
};

verus! {

/// `.`, between IPv4 octets.
pub const DOT: u8 = 46;

/// `:`, between IPv6 groups.
pub const COLON: u8 = 58;

/// `+`, which `u8` parsing accepts as a leading sign.
pub const PLUS: u8 = 43;

/// One octet of dotted-decimal IPv4 text.
pub open spec fn is_dec_octet(f: Seq<u8>) -> bool {
    &&& 1 <= f.len() <= 3
    &&& all_digits(f)
    &&& (f.len() == 1 || f[0] != 48)
    &&& radix_value(f, 10) <= 255
}

/// One group of IPv6 text.
pub open spec fn is_hex_group(f: Seq<u8>) -> bool {
    1 <= f.len() <= 4 && all_hex(f)
}

/// The 32-bit value of four octets, first octet most significant.
pub open spec fn octets_value(a: nat, b: nat, c: nat, d: nat) -> nat {
    a * 16777216 + b * 65536 + c * 256 + d
}

/// The address denoted by IPv4 text, as its big-endian 32-bit value.
pub open spec fn ipv4_text_value(s: Seq<u8>) -> Option<u32> {
    let r = split_ranges(s, DOT);
    if r.len() == 4 && (forall|k: int| 0 <= k < 4 ==> is_dec_octet(#[trigger] piece(s, DOT, k))) {
        Some(
            octets_value(
                radix_value(piece(s, DOT, 0), 10),
                radix_value(piece(s, DOT, 1), 10),
                radix_value(piece(s, DOT, 2), 10),
                radix_value(piece(s, DOT, 3), 10),
            ) as u32,
        )
    } else {
        None
    }
}

/// A prefix length as `u8::from_str` reads it: an optional `+`, then one or
/// more ASCII digits with a value of at most 255.
pub open spec fn u8_text_value(s: Seq<u8>) -> Option<u8> {
    let d = if s.len() > 0 && s[0] == PLUS {
        s.drop_first()
    } else {
        s
    };
    if d.len() > 0 && all_digits(d) && radix_value(d, 10) <= 255 {
        Some(radix_value(d, 10) as u8)
    } else {
        None
    }
}

/// The groups written by colon-separated IPv6 text without `::`; the last
/// piece may be dotted IPv4 text (two groups) when `allow_v4` holds.
pub open spec fn v6_groups(s: Seq<u8>, allow_v4: bool) -> Option<Seq<u16>> {
    let n = split_ranges(s, COLON).len();
    if forall|k: int| 0 <= k < n - 1 ==> is_hex_group(#[trigger] piece(s, COLON, k)) {
        let init = Seq::new(
            (n - 1) as nat,
            |k: int| radix_value(piece(s, COLON, k), 16) as u16,
        );
        let last = piece(s, COLON, n - 1);
        if is_hex_group(last) {
            Some(init.push(radix_value(last, 16) as u16))
        } else if allow_v4 && ipv4_text_value(last) is Some {
            let a = ipv4_text_value(last).unwrap();
            Some(init.push((a / 65536) as u16).push((a % 65536) as u16))
        } else {
            None
        }
    } else {
        None
    }
}

/// Index of the first `::` in `s`.
pub open spec fn first_double_colon(s: Seq<u8>) -> Option<int>
    decreases s.len(),
{
    if s.len() < 2 {
        None
    } else {
        match first_double_colon(s.drop_last()) {
            Some(i) => Some(i),
            None => if s[s.len() - 2] == COLON && s[s.len() - 1] == COLON {
                Some(s.len() - 2)
            } else {
                None
            },
        }
    }
}

/// The 128-bit value of 16-bit groups, first group most significant.
pub open spec fn groups_value(g: Seq<u16>) -> nat
    decreases g.len(),
{
    if g.len() == 0 {
        0
    } else {
        groups_value(g.drop_last()) * 65536 + g.last() as nat
    }
}

/// Eight groups: the explicit head, zeros for the `::`, the explicit tail.
pub open spec fn expand_groups(head: Seq<u16>, tail: Seq<u16>) -> Seq<u16> {
    head + Seq::new((8 - head.len() - tail.len()) as nat, |i: int| 0u16) + tail
}

/// The address denoted by IPv6 text, as its 128-bit value.
pub open spec fn ipv6_text_value(s: Seq<u8>) -> Option<u128> {
    match first_double_colon(s) {
        Some(p) => {
            let head = s.subrange(0, p);
            let tail = s.subrange(p + 2, s.len() as int);
            let hg = if head.len() == 0 {
                Some(Seq::<u16>::empty())
            } else {
                v6_groups(head, false)
            };
            let tg = if tail.len() == 0 {
                Some(Seq::<u16>::empty())
            } else {
                v6_groups(tail, true)
            };
            if hg is Some && tg is Some && hg.unwrap().len() + tg.unwrap().len() <= 7 {
                Some(groups_value(expand_groups(hg.unwrap(), tg.unwrap())) as u128)
            } else {
                None
            }
        },
        None => match v6_groups(s, true) {
            Some(g) => if g.len() == 8 {
                Some(groups_value(g) as u128)
            } else {
                None
            },
            None => None,
        },
    }
}

/// `65536^k`.
pub open spec fn pow_group(k: nat) -> nat
    decreases k,
{
    if k == 0 {
        1
    } else {
        pow_group((k - 1) as nat) * 65536
    }
}

pub proof fn lemma_groups_value_bound(g: Seq<u16>)
    ensures
        groups_value(g) < pow_group(g.len()),
    decreases g.len(),
{
    if g.len() > 0 {
        lemma_groups_value_bound(g.drop_last());
        let v = groups_value(g.drop_last());
        let p = pow_group(g.drop_last().len());
        let x = g.last() as nat;
        assert(v * 65536 + x < p * 65536) by (nonlinear_arith)
            requires
                v < p,
                x < 65536,
        ;
    }
}

proof fn lemma_pow_group_8()
    ensures
        pow_group(8) == 0x1_0000_0000_0000_0000_0000_0000_0000_0000,
{
    reveal_with_fuel(pow_group, 9);
}

/// Parses one decimal octet `bytes[lo..hi]`.
fn parse_dec_octet(bytes: &[u8], lo: usize, hi: usize) -> (r: Option<u8>)
    requires
        lo <= hi <= bytes@.len(),
    ensures
        ({
            let f = bytes@.subrange(lo as int, hi as int);
            match r {
                Some(v) => is_dec_octet(f) && v == radix_value(f, 10),
                None => !is_dec_octet(f),
            }
        }),
{
    let ghost f = bytes@.subrange(lo as int, hi as int);
    if hi - lo < 1 || hi - lo > 3 {
        return None;
    }
    let mut i: usize = lo;
    while i < hi
        invariant
            lo <= i <= hi <= bytes@.len(),
            f == bytes@.subrange(lo as int, hi as int),
            forall|j: int| lo <= j < i ==> is_digit(#[trigger] bytes@[j]),
        decreases hi - i,
    {
        if bytes[i] < 48 || bytes[i] > 57 {
            assert(!is_digit(f[i - lo]));
            return None;
        }
        i = i + 1;
    }
    assert(all_digits(f)) by {
        assert forall|j: int| 0 <= j < f.len() implies is_digit(#[trigger] f[j]) by {
            assert(f[j] == bytes@[lo + j]);
        }
    }
    if hi - lo > 1 && bytes[lo] == 48 {
        return None;
    }
    match digits_value_upto(bytes, lo, hi, 10, 255) {
        Some(v) => Some(v as u8),
        None => None,
    }
}

/// Parses one hex group `bytes[lo..hi]`.
fn parse_hex_group(bytes: &[u8], lo: usize, hi: usize) -> (r: Option<u16>)
    requires
        lo <= hi <= bytes@.len(),
    ensures
        ({
            let f = bytes@.subrange(lo as int, hi as int);
            match r {
                Some(v) => is_hex_group(f) && v == radix_value(f, 16),
                None => !is_hex_group(f),
            }
        }),
{
    let ghost f = bytes@.subrange(lo as int, hi as int);
    if hi - lo < 1 || hi - lo > 4 {
        return None;
    }
    let mut i: usize = lo;
    while i < hi
        invariant
            lo <= i <= hi <= bytes@.len(),
            f == bytes@.subrange(lo as int, hi as int),
            forall|j: int| lo <= j < i ==> is_hex(#[trigger] bytes@[j]),
        decreases hi - i,
    {
        let b = bytes[i];
        if !((48 <= b && b <= 57) || (65 <= b && b <= 70) || (97 <= b && b <= 102)) {
            assert(!is_hex(f[i - lo]));
            return None;
        }
        i = i + 1;
    }
    assert(all_hex(f)) by {
        assert forall|j: int| 0 <= j < f.len() implies is_hex(#[trigger] f[j]) by {
            assert(f[j] == bytes@[lo + j]);
        }
    }
    proof {
        assert forall|j: int| 0 <= j < f.len() implies digit_value(#[trigger] f[j]) < 16 by {
            assert(is_hex(f[j]));
        }
        lemma_radix_value_bound(f, 16);
        reveal_with_fuel(radix_pow, 5);
    }
    match digits_value_upto(bytes, lo, hi, 16, 65535) {
        Some(v) => Some(v as u16),
        None => None,
    }
}

/// Parses IPv4 text `bytes[lo..hi]` (`Ipv4Addr::from_str`), giving the
/// address as its big-endian 32-bit value.
pub fn parse_ipv4(bytes: &[u8], lo: usize, hi: usize) -> (r: Option<u32>)
    requires
        lo <= hi <= bytes@.len(),
    ensures
        r == ipv4_text_value(bytes@.subrange(lo as int, hi as int)),
{
    let ghost s = bytes@.subrange(lo as int, hi as int);
    let ranges = split_ranges_in(bytes, lo, hi, DOT);
    proof {
        lemma_split_ranges(s, DOT);
    }
    if ranges.len() != 4 {
        return None;
    }
    let mut octets: Vec<u8> = Vec::new();
    let mut k: usize = 0;
    while k < 4
        invariant
            lo <= hi <= bytes@.len(),
            s == bytes@.subrange(lo as int, hi as int),
            ranges@.len() == 4,
            split_ranges(s, DOT).len() == 4,
            forall|j: int|
                0 <= j < 4 ==> (#[trigger] ranges@[j]).0 == lo + split_ranges(s, DOT)[j].0
                    && ranges@[j].1 == lo + split_ranges(s, DOT)[j].1,
            forall|j: int| 0 <= j < 4 ==> 0 <= #[trigger] split_ranges(s, DOT)[j].0 <= split_ranges(s, DOT)[j].1 <= s.len(),
            k <= 4,
            octets@.len() == k,
            forall|j: int|
                0 <= j < k ==> is_dec_octet(#[trigger] piece(s, DOT, j)) && octets@[j] == radix_value(
                    piece(s, DOT, j),
                    10,
                ),
        decreases 4 - k,
    {
        let (a, b) = ranges[k];
        assert(bytes@.subrange(a as int, b as int) =~= piece(s, DOT, k as int));
        match parse_dec_octet(bytes, a, b) {
            Some(v) => {
                octets.push(v);
            },
            None => {
                return None;
            },
        }
        k = k + 1;
    }
    let v = (octets[0] as u32) * 16777216 + (octets[1] as u32) * 65536 + (octets[2] as u32) * 256
        + (octets[3] as u32);
    Some(v)
}

/// Parses a prefix length `bytes[lo..hi]` (`u8::from_str`).
pub fn parse_u8(bytes: &[u8], lo: usize, hi: usize) -> (r: Option<u8>)
    requires
        lo <= hi <= bytes@.len(),
    ensures
        r == u8_text_value(bytes@.subrange(lo as int, hi as int)),
{
    let ghost s = bytes@.subrange(lo as int, hi as int);
    let start = if hi > lo && bytes[lo] == PLUS { lo + 1 } else { lo };
    let ghost d = bytes@.subrange(start as int, hi as int);
    assert(d =~= (if s.len() > 0 && s[0] == PLUS { s.drop_first() } else { s }));
    if start == hi {
        return None;
    }
    let mut i: usize = start;
    while i < hi
        invariant
            lo <= start <= i <= hi <= bytes@.len(),
            d == bytes@.subrange(start as int, hi as int),
            s == bytes@.subrange(lo as int, hi as int),
            d == (if s.len() > 0 && s[0] == PLUS { s.drop_first() } else { s }),
            forall|j: int| start <= j < i ==> is_digit(#[trigger] bytes@[j]),
        decreases hi - i,
    {
        if bytes[i] < 48 || bytes[i] > 57 {
            assert(!is_digit(d[i - start]));
            assert(!all_digits(d));
            return None;
        }
        i = i + 1;
    }
    assert(all_digits(d)) by {
        assert forall|j: int| 0 <= j < d.len() implies is_digit(#[trigger] d[j]) by {
            assert(d[j] == bytes@[start + j]);
        }
    }
    match digits_value_upto(bytes, start, hi, 10, 255) {
        Some(v) => Some(v as u8),
        None => None,
    }
}

} // verus!

verus! {

proof fn lemma_pow_group_mono(a: nat, b: nat)
    requires
        a <= b,
    ensures
        pow_group(a) <= pow_group(b),
    decreases b,
{
    if a < b {
        lemma_pow_group_mono(a, (b - 1) as nat);
        assert(pow_group((b - 1) as nat) * 65536 >= pow_group((b - 1) as nat)) by (nonlinear_arith);
    }
}

proof fn lemma_first_double_colon_range(s: Seq<u8>)
    ensures
        first_double_colon(s) matches Some(q) ==> 0 <= q && q + 2 <= s.len(),
    decreases s.len(),
{
    if s.len() >= 2 {
        lemma_first_double_colon_range(s.drop_last());
    }
}

proof fn lemma_first_double_colon_extend(s: Seq<u8>, j: int)
    requires
        2 <= j <= s.len(),
        first_double_colon(s.take(j)) is Some,
    ensures
        first_double_colon(s) == first_double_colon(s.take(j)),
    decreases s.len(),
{
    if s.len() > j {
        assert(s.drop_last().take(j) =~= s.take(j));
        lemma_first_double_colon_extend(s.drop_last(), j);
    } else {
        assert(s.take(j) =~= s);
    }
}

/// Absolute index of the first `::` in `bytes[lo..hi]`.
fn find_double_colon(bytes: &[u8], lo: usize, hi: usize) -> (r: Option<usize>)
    requires
        lo <= hi <= bytes@.len(),
    ensures
        match first_double_colon(bytes@.subrange(lo as int, hi as int)) {
            Some(p) => r == Some((lo + p) as usize),
            None => r is None,
        },
{
    let ghost s = bytes@.subrange(lo as int, hi as int);
    if hi - lo < 2 {
        return None;
    }
    let mut i: usize = lo + 1;
    while i < hi
        invariant
            lo + 1 <= i <= hi <= bytes@.len(),
            s == bytes@.subrange(lo as int, hi as int),
            first_double_colon(s.take(i - lo)) is None,
        decreases hi - i,
    {
        assert(s.take(i - lo + 1).drop_last() =~= s.take(i - lo));
        if bytes[i - 1] == COLON && bytes[i] == COLON {
            proof {
                lemma_first_double_colon_extend(s, i - lo + 1);
            }
            return Some(i - 1);
        }
        i = i + 1;
    }
    assert(s.take(i - lo) =~= s);
    None
}

/// Parses colon-separated groups `bytes[lo..hi]` that hold no `::`.
fn parse_v6_groups(bytes: &[u8], lo: usize, hi: usize, allow_v4: bool) -> (r: Option<Vec<u16>>)
    requires
        lo <= hi <= bytes@.len(),
    ensures
        match r {
            Some(g) => v6_groups(bytes@.subrange(lo as int, hi as int), allow_v4) == Some(g@),
            None => v6_groups(bytes@.subrange(lo as int, hi as int), allow_v4) is None,
        },
{
    let ghost s = bytes@.subrange(lo as int, hi as int);
    let ranges = split_ranges_in(bytes, lo, hi, COLON);
    proof {
        lemma_split_ranges(s, COLON);
    }
    let ghost sr = split_ranges(s, COLON);
    let n = ranges.len();
    let mut groups: Vec<u16> = Vec::new();
    let mut k: usize = 0;
    while k < n - 1
        invariant
            lo <= hi <= bytes@.len(),
            s == bytes@.subrange(lo as int, hi as int),
            sr == split_ranges(s, COLON),
            n == ranges@.len() == sr.len(),
            n >= 1,
            forall|j: int|
                0 <= j < n ==> (#[trigger] ranges@[j]).0 == lo + sr[j].0 && ranges@[j].1 == lo
                    + sr[j].1,
            forall|j: int| 0 <= j < n ==> 0 <= #[trigger] sr[j].0 <= sr[j].1 <= s.len(),
            k <= n - 1,
            groups@.len() == k,
            forall|j: int|
                0 <= j < k ==> is_hex_group(#[trigger] piece(s, COLON, j)) && groups@[j] == radix_value(
                    piece(s, COLON, j),
                    16,
                ) as u16,
        decreases n - 1 - k,
    {
        let (a, b) = ranges[k];
        assert(bytes@.subrange(a as int, b as int) =~= piece(s, COLON, k as int));
        match parse_hex_group(bytes, a, b) {
            Some(v) => {
                groups.push(v);
            },
            None => {
                return None;
            },
        }
        k = k + 1;
    }
    let ghost init = Seq::new((n - 1) as nat, |j: int| radix_value(piece(s, COLON, j), 16) as u16);
    assert(groups@ =~= init);
    let (a, b) = ranges[n - 1];
    assert(bytes@.subrange(a as int, b as int) =~= piece(s, COLON, n - 1));
    match parse_hex_group(bytes, a, b) {
        Some(v) => {
            groups.push(v);
            Some(groups)
        },
        None => {
            if allow_v4 {
                match parse_ipv4(bytes, a, b) {
                    Some(x) => {
                        groups.push((x / 65536) as u16);
                        groups.push((x % 65536) as u16);
                        Some(groups)
                    },
                    None => None,
                }
            } else {
                None
            }
        },
    }
}

/// The 128-bit value of at most eight groups.
fn groups_to_u128(g: &Vec<u16>) -> (r: u128)
    requires
        g@.len() <= 8,
    ensures
        r == groups_value(g@),
{
    let mut acc: u128 = 0;
    let mut k: usize = 0;
    while k < g.len()
        invariant
            g@.len() <= 8,
            k <= g@.len(),
            acc == groups_value(g@.take(k as int)),
        decreases g@.len() - k,
    {
        assert(g@.take(k + 1).drop_last() =~= g@.take(k as int));
        proof {
            lemma_groups_value_bound(g@.take(k as int));
            lemma_pow_group_mono((k + 1) as nat, 8);
            lemma_pow_group_8();
            let p = pow_group(k as nat);
            let x = g@[k as int] as nat;
            assert(acc * 65536 + x < p * 65536) by (nonlinear_arith)
                requires
                    acc < p,
                    x < 65536,
            ;
        }
        acc = acc * 65536 + g[k] as u128;
        k = k + 1;
    }
    assert(g@.take(k as int) =~= g@);
    acc
}

/// Parses IPv6 text `bytes[lo..hi]` (`Ipv6Addr::from_str`), giving the
/// address as its 128-bit value.
pub fn parse_ipv6(bytes: &[u8], lo: usize, hi: usize) -> (r: Option<u128>)
    requires
        lo <= hi <= bytes@.len(),
    ensures
        r == ipv6_text_value(bytes@.subrange(lo as int, hi as int)),
{
    let ghost s = bytes@.subrange(lo as int, hi as int);
    match find_double_colon(bytes, lo, hi) {
        Some(p) => {
            proof {
                lemma_first_double_colon_range(s);
            }
            assert(s.subrange(0, p - lo) =~= bytes@.subrange(lo as int, p as int));
            assert(s.subrange(p - lo + 2, s.len() as int) =~= bytes@.subrange(p + 2, hi as int));
            let head = if p == lo {
                Some(Vec::new())
            } else {
                parse_v6_groups(bytes, lo, p, false)
            };
            let tail = if p + 2 == hi {
                Some(Vec::new())
            } else {
                parse_v6_groups(bytes, p + 2, hi, true)
            };
            match (head, tail) {
                (Some(h), Some(t)) => {
                    if h.len() <= 7 && t.len() <= 7 - h.len() {
                        let mut all: Vec<u16> = Vec::new();
                        let mut i: usize = 0;
                        while i < h.len()
                            invariant
                                i <= h@.len(),
                                all@ =~= h@.take(i as int),
                            decreases h@.len() - i,
                        {
                            all.push(h[i]);
                            i = i + 1;
                        }
                        let zeros = 8 - h.len() - t.len();
                        let mut z: usize = 0;
                        while z < zeros
                            invariant
                                h@.len() + t@.len() <= 7,
                                zeros == 8 - h@.len() - t@.len(),
                                z <= zeros,
                                all@ =~= h@ + Seq::new(z as nat, |j: int| 0u16),
                            decreases zeros - z,
                        {
                            all.push(0);
                            z = z + 1;
                        }
                        let mut j: usize = 0;
                        while j < t.len()
                            invariant
                                h@.len() + t@.len() <= 7,
                                zeros == 8 - h@.len() - t@.len(),
                                j <= t@.len(),
                                all@ =~= h@ + Seq::new(zeros as nat, |q: int| 0u16) + t@.take(j as int),
                            decreases t@.len() - j,
                        {
                            all.push(t[j]);
                            j = j + 1;
                        }
                        assert(all@ =~= expand_groups(h@, t@));
                        Some(groups_to_u128(&all))
                    } else {
                        None
                    }
                },
                _ => None,
            }
        },
        None => match parse_v6_groups(bytes, lo, hi, true) {
            Some(g) => {
                if g.len() == 8 {
                    Some(groups_to_u128(&g))
                } else {
                    None
                }
            },
            None => None,
        },
    }
}

} // verus!
