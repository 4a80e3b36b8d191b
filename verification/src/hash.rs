//! The 64-bit FNV-1a hash of a chunk and its hexadecimal name.

use vstd::prelude::*;
use vstd::arithmetic::div_mod::{lemma_mul_mod_noop_left, lemma_mod_multiples_vanish, lemma_small_mod};
use vstd::arithmetic::mul::lemma_mul_is_associative;

verus! {

/// FNV-1a 64-bit prime.
pub const FNV_PRIME: u64 = 1099511628211;

/// FNV-1a 64-bit offset basis.
pub const FNV_OFFSET_BASIS: u64 = 14695981039346656037;

/// One FNV-1a round: xor the byte in, then multiply by the prime modulo 2^64.
pub open spec fn fnv1a_round(h: u64, b: u8) -> u64 {
    ((((h ^ (b as u64)) as nat) * (FNV_PRIME as nat)) % 0x1_0000_0000_0000_0000nat) as u64
}

/// FNV-1a of a byte sequence.
pub open spec fn fnv1a(bytes: Seq<u8>) -> u64
    decreases bytes.len(),
{
    if bytes.len() == 0 {
        FNV_OFFSET_BASIS
    } else {
        fnv1a_round(fnv1a(bytes.drop_last()), bytes.last())
    }
}

/// The FNV-1a hash of `buffer`.
pub fn fnv1a_hash(buffer: &[u8]) -> (h: u64)
    ensures
        h == fnv1a(buffer@),
{
    let mut h: u64 = FNV_OFFSET_BASIS;
    let n = buffer.len();
    for i in 0..n
        invariant
            n == buffer@.len(),
            h == fnv1a(buffer@.take(i as int)),
    {
        assert(buffer@.take(i + 1).drop_last() == buffer@.take(i as int));
        h = h ^ (buffer[i] as u64);
        h = h.wrapping_mul(FNV_PRIME);
    }
    assert(buffer@.take(n as int) == buffer@);
    h
}

/// The inverse of `FNV_PRIME` modulo 2^64: the prime is odd, so multiplying
/// by it modulo 2^64 can be undone.
pub open spec fn fnv_prime_inverse() -> nat {
    14886173955864302971
}

proof fn lemma_prime_round_trip(x: u64)
    ensures
        (((x as nat) * (FNV_PRIME as nat)) % 0x1_0000_0000_0000_0000nat) * fnv_prime_inverse()
            % 0x1_0000_0000_0000_0000nat == x,
{
    let m: int = 0x1_0000_0000_0000_0000;
    let p: int = FNV_PRIME as int;
    let q: int = fnv_prime_inverse() as int;
    let k: int = 887285111055;
    let xi = x as int;
    lemma_mul_mod_noop_left(xi * p, q, m);
    lemma_mul_is_associative(xi, p, q);
    assert(p * q == 1 + k * m);
    assert(xi * (1 + k * m) == m * (xi * k) + xi) by (nonlinear_arith);
    lemma_mod_multiples_vanish(xi * k, xi, m);
    lemma_small_mod(x as nat, m as nat);
}

proof fn lemma_round_inputs_equal(h1: u64, b1: u8, h2: u64, b2: u8)
    requires
        fnv1a_round(h1, b1) == fnv1a_round(h2, b2),
    ensures
        h1 ^ (b1 as u64) == h2 ^ (b2 as u64),
{
    let m: nat = 0x1_0000_0000_0000_0000nat;
    let x = h1 ^ (b1 as u64);
    let y = h2 ^ (b2 as u64);
    let rx = ((x as nat) * (FNV_PRIME as nat)) % m;
    let ry = ((y as nat) * (FNV_PRIME as nat)) % m;
    assert(rx < m && ry < m);
    assert(rx == ry);
    lemma_prime_round_trip(x);
    lemma_prime_round_trip(y);
}

/// One FNV-1a round is one-to-one in its byte, for a given running hash.
pub proof fn lemma_round_injective_in_byte(h: u64, b1: u8, b2: u8)
    requires
        b1 != b2,
    ensures
        fnv1a_round(h, b1) != fnv1a_round(h, b2),
{
    if fnv1a_round(h, b1) == fnv1a_round(h, b2) {
        lemma_round_inputs_equal(h, b1, h, b2);
        assert(b1 == b2) by (bit_vector)
            requires h ^ (b1 as u64) == h ^ (b2 as u64);
    }
}

/// One FNV-1a round is one-to-one in the running hash, for a given byte.
pub proof fn lemma_round_injective_in_hash(h1: u64, h2: u64, b: u8)
    requires
        h1 != h2,
    ensures
        fnv1a_round(h1, b) != fnv1a_round(h2, b),
{
    if fnv1a_round(h1, b) == fnv1a_round(h2, b) {
        lemma_round_inputs_equal(h1, b, h2, b);
        assert(h1 == h2) by (bit_vector)
            requires h1 ^ (b as u64) == h2 ^ (b as u64);
    }
}

/// Every byte counts: changing any one byte of a buffer, wherever it is,
/// changes its FNV-1a hash.
pub proof fn lemma_fnv1a_every_byte_counts(s: Seq<u8>, i: int, b: u8)
    requires
        0 <= i < s.len(),
        b != s[i],
    ensures
        fnv1a(s.update(i, b)) != fnv1a(s),
    decreases s.len(),
{
    let t = s.update(i, b);
    assert(t.len() == s.len());
    if i == s.len() - 1 {
        assert(t.drop_last() =~= s.drop_last());
        assert(t.last() == b);
        lemma_round_injective_in_byte(fnv1a(s.drop_last()), b, s.last());
    } else {
        assert(t.drop_last() =~= s.drop_last().update(i, b));
        assert(t.last() == s.last());
        lemma_fnv1a_every_byte_counts(s.drop_last(), i, b);
        lemma_round_injective_in_hash(fnv1a(t.drop_last()), fnv1a(s.drop_last()), s.last());
    }
}

/// Two blocks that differ in a single byte, wherever it is, get different
/// chunk names, so neither is taken for the other.
pub proof fn lemma_chunk_name_every_byte_counts(s: Seq<u8>, i: int, b: u8)
    requires
        0 <= i < s.len(),
        b != s[i],
    ensures
        chunk_hash_name(s.update(i, b)) != chunk_hash_name(s),
{
    lemma_fnv1a_every_byte_counts(s, i, b);
    if chunk_hash_name(s.update(i, b)) == chunk_hash_name(s) {
        lemma_hex16_injective(fnv1a(s.update(i, b)), fnv1a(s));
    }
}

/// `16^w`.
pub open spec fn pow16(w: nat) -> nat
    decreases w,
{
    if w == 0 {
        1
    } else {
        16 * pow16((w - 1) as nat)
    }
}

/// The lowercase hexadecimal digits, by value.
pub open spec fn hex_alphabet() -> Seq<char> {
    seq!['0', '1', '2', '3', '4', '5', '6', '7', '8', '9', 'a', 'b', 'c', 'd', 'e', 'f']
}

/// The lowest `width` hexadecimal digits of `v`, most significant first,
/// zero-padded on the left.
pub open spec fn hex_fixed(v: nat, width: nat) -> Seq<char>
    decreases width,
{
    if width == 0 {
        Seq::empty()
    } else {
        hex_fixed(v / 16, (width - 1) as nat).push(hex_alphabet()[(v % 16) as int])
    }
}

/// A 64-bit value written as 16 lowercase hexadecimal digits (`{:016x}`).
pub open spec fn hex16(h: u64) -> Seq<char> {
    hex_fixed(h as nat, 16)
}

/// The name of a chunk: the FNV-1a hash of its bytes in 16 hexadecimal digits.
pub open spec fn chunk_hash_name(bytes: Seq<u8>) -> Seq<char> {
    hex16(fnv1a(bytes))
}

fn hex_digit(d: u64) -> (c: char)
    requires
        d < 16,
    ensures
        c == hex_alphabet()[d as int],
{
    match d {
        0 => '0',
        1 => '1',
        2 => '2',
        3 => '3',
        4 => '4',
        5 => '5',
        6 => '6',
        7 => '7',
        8 => '8',
        9 => '9',
        10 => 'a',
        11 => 'b',
        12 => 'c',
        13 => 'd',
        14 => 'e',
        _ => 'f',
    }
}

/// Writes `h` as exactly 16 lowercase hexadecimal digits.
pub fn format_hex16(h: u64) -> (s: String)
    ensures
        s@ == hex16(h),
{
    let mut digits: Vec<char> = Vec::new();
    let mut v: u64 = h;
    let mut i: u64 = 0;
    while i < 16
        invariant
            i <= 16,
            hex16(h) == hex_fixed(v as nat, (16 - i) as nat) + digits@,
        decreases 16 - i,
    {
        let c = hex_digit(v % 16);
        proof {
            let w = (16 - i) as nat;
            assert(hex_fixed(v as nat, w) == hex_fixed((v / 16) as nat, (w - 1) as nat).push(c));
            assert(hex_fixed(v as nat, w) + digits@ == hex_fixed((v / 16) as nat, (w - 1) as nat)
                + seq![c].add(digits@));
        }
        digits.insert(0, c);
        v = v / 16;
        i = i + 1;
    }
    assert(hex_fixed(v as nat, 0) + digits@ == digits@);
    let mut s = String::new();
    let n = digits.len();
    for j in 0..n
        invariant
            n == digits@.len(),
            s@ == digits@.take(j as int),
    {
        crate::text::push_char(&mut s, digits[j]);
        assert(digits@.take(j + 1) == digits@.take(j as int).push(digits@[j as int]));
    }
    assert(digits@.take(n as int) == digits@);
    s
}

/// `s` is a well-formed chunk name: exactly 16 lowercase hexadecimal digits.
pub open spec fn is_hex_name(s: Seq<char>) -> bool {
    &&& s.len() == 16
    &&& forall|i: int| 0 <= i < s.len() ==> hex_alphabet().contains(#[trigger] s[i])
}

proof fn lemma_hex_fixed_shape(v: nat, w: nat)
    ensures
        hex_fixed(v, w).len() == w,
        forall|i: int| 0 <= i < w ==> hex_alphabet().contains(#[trigger] hex_fixed(v, w)[i]),
    decreases w,
{
    if w > 0 {
        lemma_hex_fixed_shape(v / 16, (w - 1) as nat);
        let d = (v % 16) as int;
        assert(hex_alphabet()[d] == hex_alphabet()[d]);
        assert forall|i: int| 0 <= i < w implies hex_alphabet().contains(#[trigger] hex_fixed(v, w)[i]) by {
            if i < w - 1 {
                assert(hex_fixed(v, w)[i] == hex_fixed(v / 16, (w - 1) as nat)[i]);
            } else {
                assert(hex_fixed(v, w)[i] == hex_alphabet()[d]);
            }
        }
    }
}

proof fn lemma_hex_digit_injective(a: nat, b: nat)
    requires
        a < 16,
        b < 16,
        hex_alphabet()[a as int] == hex_alphabet()[b as int],
    ensures
        a == b,
{
    assert(forall|i: int, j: int|
        0 <= i < 16 && 0 <= j < 16 && i != j ==> hex_alphabet()[i] != hex_alphabet()[j]) by {
        assert(hex_alphabet() =~= seq!['0', '1', '2', '3', '4', '5', '6', '7', '8', '9', 'a', 'b', 'c', 'd', 'e', 'f']);
    }
}

proof fn lemma_hex_fixed_injective(v: nat, u: nat, w: nat)
    requires
        v < pow16(w),
        u < pow16(w),
        hex_fixed(v, w) == hex_fixed(u, w),
    ensures
        v == u,
    decreases w,
{
    if w > 0 {
        let pv = hex_fixed(v / 16, (w - 1) as nat);
        let pu = hex_fixed(u / 16, (w - 1) as nat);
        let dv = hex_alphabet()[(v % 16) as int];
        let du = hex_alphabet()[(u % 16) as int];
        assert(hex_fixed(v, w) == pv.push(dv));
        assert(hex_fixed(u, w) == pu.push(du));
        assert(pv.push(dv).last() == dv);
        assert(pu.push(du).last() == du);
        lemma_hex_digit_injective(v % 16, u % 16);
        assert(pv.push(dv).drop_last() == pv);
        assert(pu.push(du).drop_last() == pu);
        let b = pow16((w - 1) as nat);
        assert(v / 16 < b) by (nonlinear_arith)
            requires v < 16 * b;
        assert(u / 16 < b) by (nonlinear_arith)
            requires u < 16 * b;
        lemma_hex_fixed_injective(v / 16, u / 16, (w - 1) as nat);
    }
}

/// Chunk names are well formed: every value written by `format_hex16` is
/// 16 lowercase hexadecimal digits.
pub proof fn lemma_hex16_is_hex_name(h: u64)
    ensures
        is_hex_name(hex16(h)),
{
    lemma_hex_fixed_shape(h as nat, 16);
}

/// Distinct hashes get distinct names: two chunks share a name only when
/// their FNV-1a hashes are equal.
pub proof fn lemma_hex16_injective(a: u64, b: u64)
    requires
        hex16(a) == hex16(b),
    ensures
        a == b,
{
    reveal_with_fuel(pow16, 17);
    assert(pow16(16) == 0x1_0000_0000_0000_0000nat);
    lemma_hex_fixed_injective(a as nat, b as nat, 16);
}

proof fn lemma_pow16_monotone(a: nat, b: nat)
    requires
        a <= b,
    ensures
        pow16(a) <= pow16(b),
    decreases b,
{
    if a < b {
        lemma_pow16_monotone(a, (b - 1) as nat);
    }
}

fn hex_digit_value(c: char) -> (r: Option<u64>)
    ensures
        r matches Some(d) ==> d < 16 && hex_alphabet()[d as int] == c,
        r is None ==> !hex_alphabet().contains(c),
{
    proof {
        assert(hex_alphabet() =~= seq!['0', '1', '2', '3', '4', '5', '6', '7', '8', '9', 'a', 'b', 'c', 'd', 'e', 'f']);
    }
    match c {
        '0' => Some(0),
        '1' => Some(1),
        '2' => Some(2),
        '3' => Some(3),
        '4' => Some(4),
        '5' => Some(5),
        '6' => Some(6),
        '7' => Some(7),
        '8' => Some(8),
        '9' => Some(9),
        'a' => Some(10),
        'b' => Some(11),
        'c' => Some(12),
        'd' => Some(13),
        'e' => Some(14),
        'f' => Some(15),
        _ => {
            proof {
                if hex_alphabet().contains(c) {
                    let i = choose|i: int| 0 <= i < hex_alphabet().len() && hex_alphabet()[i] == c;
                    assert(0 <= i < 16);
                }
            }
            None
        },
    }
}

/// Reads back a value written as 16 lowercase hexadecimal digits: `Some(v)`
/// exactly when `s` is `hex16(v)`.
pub fn parse_hex16(s: &str) -> (r: Option<u64>)
    ensures
        r matches Some(v) ==> hex16(v) == s@,
        r is None ==> forall|v: u64| hex16(v) != s@,
{
    let cs = crate::text::chars_of(s);
    if cs.len() != 16 {
        proof {
            assert forall|v: u64| hex16(v) != s@ by {
                lemma_hex16_is_hex_name(v);
            }
        }
        return None;
    }
    let mut v: u64 = 0;
    let mut i: usize = 0;
    proof {
        lemma_pow16_monotone(0, 16);
    }
    while i < 16
        invariant
            cs@ == s@,
            cs@.len() == 16,
            i <= 16,
            v < pow16(i as nat),
            hex_fixed(v as nat, i as nat) == cs@.take(i as int),
        decreases 16 - i,
    {
        match hex_digit_value(cs[i]) {
            Some(d) => {
                proof {
                    lemma_pow16_monotone((i + 1) as nat, 16);
                    reveal_with_fuel(pow16, 17);
                    assert(pow16(16) == 0x1_0000_0000_0000_0000nat);
                    assert(pow16((i + 1) as nat) == 16 * pow16(i as nat));
                    assert(v * 16 + d < 16 * pow16(i as nat)) by (nonlinear_arith)
                        requires v < pow16(i as nat), d < 16;
                }
                let w: u64 = v * 16 + d;
                proof {
                    assert(w as nat / 16 == v as nat);
                    assert(w as nat % 16 == d as nat);
                    assert(hex_fixed(w as nat, (i + 1) as nat) == hex_fixed(v as nat, i as nat).push(
                        hex_alphabet()[d as int],
                    ));
                    assert(cs@.take(i + 1) == cs@.take(i as int).push(cs@[i as int]));
                }
                v = w;
                i = i + 1;
            },
            None => {
                proof {
                    assert forall|x: u64| hex16(x) != s@ by {
                        lemma_hex16_is_hex_name(x);
                        if hex16(x) == s@ {
                            assert(hex_alphabet().contains(hex16(x)[i as int]));
                        }
                    }
                }
                return None;
            },
        }
    }
    assert(cs@.take(16) == cs@);
    Some(v)
}

/// The name under which a chunk is stored: the FNV-1a hash of `buffer`
/// written as 16 lowercase hexadecimal digits.
pub fn compute_chunk_hash(buffer: &[u8]) -> (name: String)
    ensures
        name@ == chunk_hash_name(buffer@),
{
    format_hex16(fnv1a_hash(buffer))
}

} // verus!
