//! Network math for subnet-preserving IP anonymization, and the bijective
//! base-26 labels (`A`, `B`, … `Z`, `AA`, …) used for every pseudonym.

use vstd::prelude::*;
use vstd::arithmetic::power2::{pow2, lemma_pow2_unfold, lemma_pow2_pos, lemma_pow2_adds, lemma_pow2_strictly_increases, lemma2_to64};
use vstd::arithmetic::div_mod::lemma_fundamental_div_mod;
use crate::text::push_char;

verus! {

/// The network part of an address of `width` bits under a `prefix`-bit mask
/// (the prefix is capped at `width`): the address with its low
/// `width - prefix` bits cleared.
pub open spec fn network_value(addr: nat, width: nat, prefix: nat) -> nat {
    let p = if prefix < width { prefix } else { width };
    let k = (width - p) as nat;
    (addr / pow2(k)) * pow2(k)
}

proof fn lemma_pow2_128()
    ensures
        pow2(128) == 0x1_0000_0000_0000_0000_0000_0000_0000_0000,
        pow2(32) == 0x1_0000_0000,
{
    lemma2_to64();
    lemma_pow2_adds(64, 64);
}

/// `2^k` for `k < 128`.
fn pow2_u128(k: u32) -> (r: u128)
    requires
        k < 128,
    ensures
        r == pow2(k as nat),
        r > 0,
{
    let mut d: u128 = 1;
    let mut i: u32 = 0;
    proof {
        lemma2_to64();
    }
    while i < k
        invariant
            i <= k < 128,
            d == pow2(i as nat),
        decreases k - i,
    {
        proof {
            lemma_pow2_unfold((i + 1) as nat);
            lemma_pow2_strictly_increases((i + 1) as nat, 128);
            lemma_pow2_128();
        }
        d = d * 2;
        i = i + 1;
    }
    proof {
        lemma_pow2_pos(k as nat);
    }
    d
}

/// `(x / d) * d` for `d > 0`, never above `x`.
fn clear_low(x: u128, d: u128) -> (r: u128)
    requires
        d > 0,
    ensures
        r == (x / d) * d,
        r <= x,
{
    proof {
        lemma_fundamental_div_mod(x as int, d as int);
        vstd::arithmetic::div_mod::lemma_mod_pos_bound(x as int, d as int);
        vstd::arithmetic::mul::lemma_mul_is_commutative(d as int, (x / d) as int);
    }
    (x / d) * d
}

proof fn lemma_network_zero_prefix(addr: nat, width: nat)
    requires
        addr < pow2(width),
    ensures
        network_value(addr, width, 0) == 0,
{
    lemma_pow2_pos(width);
    vstd::arithmetic::div_mod::lemma_basic_div(addr as int, pow2(width) as int);
    assert((width - 0) as nat == width);
    assert(network_value(addr, width, 0) == (addr / pow2(width)) * pow2(width));
}

/// Network address of `addr` masked to `prefix` bits (IPv4; the prefix is
/// capped at 32).
pub fn ipv4_network(addr: u32, prefix: u8) -> (r: u32)
    ensures
        r == network_value(addr as nat, 32, prefix as nat),
{
    let p: u8 = if prefix < 32 { prefix } else { 32 };
    if p == 0 {
        proof {
            lemma_pow2_128();
            lemma_network_zero_prefix(addr as nat, 32);
        }
        return 0;
    }
    let d = pow2_u128((32 - p) as u32);
    let r = clear_low(addr as u128, d);
    r as u32
}

/// Network address of `addr` masked to `prefix` bits (IPv6; the prefix is
/// capped at 128).
pub fn ipv6_network(addr: u128, prefix: u8) -> (r: u128)
    ensures
        r == network_value(addr as nat, 128, prefix as nat),
{
    let p: u8 = if prefix < 128 { prefix } else { 128 };
    if p == 0 {
        proof {
            lemma_pow2_128();
            lemma_network_zero_prefix(addr as nat, 128);
        }
        return 0;
    }
    let d = pow2_u128((128 - p) as u32);
    clear_low(addr, d)
}

/// Law: two addresses share a network exactly when they agree on the bits
/// above the host part.
pub proof fn lemma_same_network(a: nat, b: nat, width: nat, prefix: nat)
    ensures
        ({
            let p = if prefix < width { prefix } else { width };
            let k = (width - p) as nat;
            network_value(a, width, prefix) == network_value(b, width, prefix) <==> a / pow2(k)
                == b / pow2(k)
        }),
{
    let p = if prefix < width { prefix } else { width };
    let k = (width - p) as nat;
    lemma_pow2_pos(k);
    let qa = a / pow2(k);
    let qb = b / pow2(k);
    if qa * pow2(k) == qb * pow2(k) {
        assert(qa == qb) by (nonlinear_arith)
            requires
                qa * pow2(k) == qb * pow2(k),
                pow2(k) > 0,
        ;
    }
}

/// Law: an address lies in its own network: masking the network again
/// changes nothing.
pub proof fn lemma_network_idempotent(a: nat, width: nat, prefix: nat)
    ensures
        network_value(network_value(a, width, prefix), width, prefix) == network_value(
            a,
            width,
            prefix,
        ),
{
    let p = if prefix < width { prefix } else { width };
    let k = (width - p) as nat;
    lemma_pow2_pos(k);
    let q = a / pow2(k);
    vstd::arithmetic::div_mod::lemma_div_multiples_vanish(q as int, pow2(k) as int);
    vstd::arithmetic::mul::lemma_mul_is_commutative(q as int, pow2(k) as int);
}

/// Letter for a base-26 digit.
pub open spec fn letter(d: nat) -> char {
    (d + 65) as char
}

/// Bijective base-26 label: 0 is `A`, 25 is `Z`, 26 is `AA`, 27 is `AB`, …
pub open spec fn letters(n: nat) -> Seq<char>
    decreases n,
{
    if n < 26 {
        seq![letter(n)]
    } else {
        letters((n / 26 - 1) as nat).push(letter(n % 26))
    }
}

proof fn lemma_letter_injective(x: nat, y: nat)
    requires
        x < 26,
        y < 26,
        letter(x) == letter(y),
    ensures
        x == y,
{
    assert(letter(x) as u32 == x + 65);
    assert(letter(y) as u32 == y + 65);
}

proof fn lemma_letters_nonempty(n: nat)
    ensures
        letters(n).len() >= 1,
        n >= 26 ==> letters(n).len() >= 2,
    decreases n,
{
    if n >= 26 {
        lemma_letters_nonempty((n / 26 - 1) as nat);
    }
}

/// Law: distinct indices get distinct labels, so pseudonyms built from them
/// never collide.
pub proof fn lemma_letters_injective(a: nat, b: nat)
    requires
        letters(a) == letters(b),
    ensures
        a == b,
    decreases a,
{
    lemma_letters_nonempty(a);
    lemma_letters_nonempty(b);
    let la = letters(a);
    let lb = letters(b);
    assert(la.last() == letter(a % 26));
    assert(lb.last() == letter(b % 26));
    lemma_letter_injective(a % 26, b % 26);
    if a >= 26 && b >= 26 {
        assert(la.drop_last() =~= letters((a / 26 - 1) as nat));
        assert(lb.drop_last() =~= letters((b / 26 - 1) as nat));
        lemma_letters_injective((a / 26 - 1) as nat, (b / 26 - 1) as nat);
    }
}

/// Law (coarser networks compose): the network of an address under a
/// shorter prefix `q` is the network, under `q`, of its network under `p`.
pub proof fn lemma_network_coarsen(a: nat, width: nat, p: nat, q: nat)
    requires
        q <= p,
    ensures
        network_value(network_value(a, width, p), width, q) == network_value(a, width, q),
{
    let pp = if p < width { p } else { width };
    let qq = if q < width { q } else { width };
    let k1 = (width - pp) as nat;
    let k2 = (width - qq) as nat;
    let d = (k2 - k1) as nat;
    lemma_pow2_pos(k1);
    lemma_pow2_pos(d);
    lemma_pow2_adds(k1, d);
    assert(pow2(k2) == pow2(k1) * pow2(d));
    let x = a / pow2(k1);
    // (x * 2^k1) / (2^k1 * 2^d) == x / 2^d == a / 2^k2
    vstd::arithmetic::div_mod::lemma_div_denominator(a as int, pow2(k1) as int, pow2(d) as int);
    vstd::arithmetic::div_mod::lemma_div_denominator((x * pow2(k1)) as int, pow2(k1) as int, pow2(d) as int);
    vstd::arithmetic::div_mod::lemma_div_multiples_vanish(x as int, pow2(k1) as int);
    vstd::arithmetic::mul::lemma_mul_is_commutative(x as int, pow2(k1) as int);
}

/// Value of a bijective base-26 label plus one: `A` is 1, `Z` is 26, `AA`
/// is 27, …
pub open spec fn letters_value(s: Seq<char>) -> nat
    decreases s.len(),
{
    if s.len() == 0 {
        0
    } else {
        letters_value(s.drop_last()) * 26 + ((s.last() as nat) - 64) as nat
    }
}

/// Law (labels decode back): a label is made of the letters `A` to `Z`, is
/// never empty, and read back in bijective base 26 it gives its index.
pub proof fn lemma_letters_round_trip(n: nat)
    ensures
        letters(n).len() >= 1,
        forall|i: int| 0 <= i < letters(n).len() ==> 'A' <= #[trigger] letters(n)[i] <= 'Z',
        letters_value(letters(n)) == n + 1,
    decreases n,
{
    lemma_letters_nonempty(n);
    if n < 26 {
        assert(letters(n)[0] == letter(n));
        assert(letter(n) as nat == n + 65);
        assert(letters(n).drop_last() =~= Seq::<char>::empty());
        assert(letters(n).last() == letter(n));
        assert(letters_value(letters(n)) == letters_value(Seq::<char>::empty()) * 26 + ((letter(n) as nat) - 64) as nat);
    } else {
        let m = (n / 26 - 1) as nat;
        lemma_letters_round_trip(m);
        let l = letters(n);
        assert(l == letters(m).push(letter(n % 26)));
        assert(l.drop_last() =~= letters(m));
        assert(letter(n % 26) as nat == n % 26 + 65);
        assert forall|i: int| 0 <= i < l.len() implies 'A' <= #[trigger] l[i] <= 'Z' by {
            if i < l.len() - 1 {
                assert(l[i] == letters(m)[i]);
            }
        }
        assert(l.last() == letter(n % 26));
        assert(letters_value(l) == letters_value(letters(m)) * 26 + ((letter(n % 26) as nat) - 64) as nat);
        lemma_fundamental_div_mod(n as int, 26);
        assert(letters_value(l) == (m + 1) * 26 + n % 26 + 1) by (nonlinear_arith)
            requires
                letters_value(l) == letters_value(letters(m)) * 26 + n % 26 + 1,
                letters_value(letters(m)) == m + 1,
        ;
        assert((m + 1) * 26 == (n / 26) * 26);
    }
}

/// Bijective base-26 label for `idx` (`A`, `B`, … `Z`, `AA`, …).
pub fn subnet_letters(idx: usize) -> (r: String)
    ensures
        r@ == letters(idx as nat),
{
    let mut rev: Vec<char> = Vec::new();
    let mut n: usize = idx;
    loop
        invariant_except_break
            letters(idx as nat) =~= letters(n as nat) + rev@.reverse(),
        ensures
            letters(idx as nat) =~= rev@.reverse(),
        decreases n,
    {
        let c = ((n % 26) as u8 + 65) as char;
        assert(c == letter((n % 26) as nat));
        let ghost before = rev@;
        rev.push(c);
        assert(rev@.reverse() =~= seq![c] + before.reverse());
        if n < 26 {
            break;
        }
        assert(letters(n as nat) == letters((n / 26 - 1) as nat).push(c));
        assert(letters(n as nat) + before.reverse() =~= letters((n / 26 - 1) as nat) + rev@.reverse());
        n = n / 26 - 1;
    }
    let mut out = String::new();
    let mut i: usize = rev.len();
    while i > 0
        invariant
            i <= rev@.len(),
            out@ =~= rev@.reverse().take((rev@.len() - i) as int),
        decreases i,
    {
        i = i - 1;
        push_char(&mut out, rev[i]);
    }
    out
}

} // verus!
