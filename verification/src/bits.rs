//! The mathematical model of bit streams: the MSB-first bit view of
//! bytes, the unsigned value of a bit sequence, and the Exp-Golomb
//! codes, with the lemmas relating them.

use vstd::prelude::*;

verus! {

use vstd::arithmetic::power2::pow2;
use vstd::arithmetic::power2::lemma_pow2_unfold;
use vstd::arithmetic::power2::lemma_pow2_adds;
use vstd::arithmetic::power2::lemma_pow2_pos;
use vstd::arithmetic::power2::lemma2_to64;
use vstd::arithmetic::power2::lemma2_to64_rest;
use vstd::arithmetic::div_mod::lemma_fundamental_div_mod_converse_div;
use vstd::arithmetic::div_mod::lemma_fundamental_div_mod_converse_mod;
use vstd::arithmetic::mul::lemma_mul_is_associative;
use vstd::arithmetic::mul::lemma_mul_is_distributive_add;
use vstd::bits::lemma_u8_shr_is_div;

/// Bit `i` of byte `b`, counting MSB first: bit 0 is the most
/// significant bit.
pub open spec fn bit_at(b: u8, i: int) -> bool
    recommends
        0 <= i < 8,
{
    (b >> ((7 - i) as u8)) & 1 == 1
}

/// The eight bits of a byte, MSB first.
pub open spec fn byte_bits(b: u8) -> Seq<bool> {
    Seq::new(8, |i: int| bit_at(b, i))
}

/// The bits of a byte sequence, MSB first within each byte, in stream
/// order.
pub open spec fn bytes_bits(s: Seq<u8>) -> Seq<bool> {
    Seq::new(s.len() * 8, |i: int| bit_at(s[i / 8], i % 8))
}

/// The unsigned value of a bit sequence read MSB first.
pub open spec fn bits_value(s: Seq<bool>) -> nat
    decreases s.len(),
{
    if s.len() == 0 {
        0
    } else {
        2 * bits_value(s.drop_last()) + (if s.last() {
            1nat
        } else {
            0nat
        })
    }
}

/// The `n`-bit MSB-first representation of `v` (of `v % 2^n` when `v`
/// does not fit).
pub open spec fn nat_bits(v: nat, n: nat) -> Seq<bool>
    decreases n,
{
    if n == 0 {
        Seq::empty()
    } else {
        nat_bits(v / 2, (n - 1) as nat).push(v % 2 == 1)
    }
}

/// The bytes of an aligned bit sequence, eight bits at a time.
pub open spec fn bits_bytes(s: Seq<bool>) -> Seq<u8>
    recommends
        s.len() % 8 == 0,
{
    Seq::new(s.len() / 8, |k: int| bits_value(s.subrange(8 * k, 8 * k + 8)) as u8)
}

/// The value of a bit sequence is bounded by two to its length.
pub proof fn lemma_bits_value_bound(s: Seq<bool>)
    ensures
        bits_value(s) < pow2(s.len()),
    decreases s.len(),
{
    if s.len() == 0 {
        assert(pow2(0) == 1) by {
            lemma2_to64();
        }
    } else {
        lemma_bits_value_bound(s.drop_last());
        lemma_pow2_unfold(s.len());
    }
}

/// Reading a concatenation MSB first: the left part is shifted up by
/// the length of the right part.
pub proof fn lemma_bits_value_append(a: Seq<bool>, b: Seq<bool>)
    ensures
        bits_value(a + b) == bits_value(a) * pow2(b.len()) + bits_value(b),
    decreases b.len(),
{
    if b.len() == 0 {
        assert(a + b =~= a);
        assert(pow2(0) == 1) by {
            lemma2_to64();
        }
    } else {
        assert((a + b).drop_last() =~= a + b.drop_last());
        assert((a + b).last() == b.last());
        lemma_bits_value_append(a, b.drop_last());
        lemma_pow2_unfold(b.len());
        let p = pow2((b.len() - 1) as nat) as int;
        let va = bits_value(a) as int;
        assert(2 * (va * p) == va * (2 * p)) by (nonlinear_arith);
    }
}

/// The value of the first `k` bits of a byte is the byte shifted down
/// by `8 - k`.
pub proof fn lemma_byte_bits_take(b: u8, k: int)
    requires
        0 <= k <= 8,
    ensures
        bits_value(byte_bits(b).take(k)) == ((b as u32) >> ((8 - k) as u32)),
    decreases k,
{
    if k == 0 {
        assert(byte_bits(b).take(0) =~= Seq::<bool>::empty());
        assert((b as u32) >> 8 == 0) by (bit_vector);
    } else {
        lemma_byte_bits_take(b, k - 1);
        assert(byte_bits(b).take(k).drop_last() =~= byte_bits(b).take(k - 1));
        let s32 = (8 - k) as u32;
        let t32 = (9 - k) as u32;
        let s8 = (8 - k) as u8;
        assert((7 - (k - 1)) as u8 == s8);
        assert(byte_bits(b).take(k).last() == ((b >> s8) & 1 == 1));
        assert((b >> s8) & 1 == 0 || (b >> s8) & 1 == 1) by (bit_vector);
        assert((b as u32) >> s32 == 2 * ((b as u32) >> t32) + (((b >> s8) & 1) as u32))
            by (bit_vector)
            requires
                s32 <= 7,
                t32 == s32 + 1,
                s8 as u32 == s32,
        ;
    }
}

/// The whole byte reads back as its own value.
pub proof fn lemma_byte_bits_value(b: u8)
    ensures
        bits_value(byte_bits(b)) == b,
{
    lemma_byte_bits_take(b, 8);
    assert(byte_bits(b).take(8) =~= byte_bits(b));
    assert((b as u32) >> 0 == b as u32) by (bit_vector);
}

/// The value of bits `i..j` of a byte: shift down by `8 - j`, then take
/// the remainder modulo two to the width.
pub proof fn lemma_byte_bits_sub(b: u8, i: int, j: int)
    requires
        0 <= i <= j <= 8,
    ensures
        bits_value(byte_bits(b).subrange(i, j)) == ((b as u32) >> ((8 - j) as u32)) as nat % pow2(
            (j - i) as nat,
        ),
{
    let t = byte_bits(b);
    assert(t.take(j) =~= t.take(i) + t.subrange(i, j));
    lemma_bits_value_append(t.take(i), t.subrange(i, j));
    lemma_bits_value_bound(t.subrange(i, j));
    lemma_byte_bits_take(b, i);
    lemma_byte_bits_take(b, j);
    lemma_pow2_pos((j - i) as nat);
    lemma_fundamental_div_mod_converse_mod(
        bits_value(t.take(j)) as int,
        pow2((j - i) as nat) as int,
        bits_value(t.take(i)) as int,
        bits_value(t.subrange(i, j)) as int,
    );
}

/// Dropping `k` whole bytes drops `8 k` bits.
pub proof fn lemma_bytes_bits_skip(s: Seq<u8>, k: int)
    requires
        0 <= k <= s.len(),
    ensures
        bytes_bits(s.skip(k)) == bytes_bits(s).skip(8 * k),
{
    let lhs = bytes_bits(s.skip(k));
    let rhs = bytes_bits(s).skip(8 * k);
    assert forall|i: int| 0 <= i < lhs.len() implies lhs[i] == rhs[i] by {
        assert((8 * k + i) / 8 == k + i / 8 && (8 * k + i) % 8 == i % 8) by {
            lemma_fundamental_div_mod_converse_div(8 * k + i, 8, k + i / 8, i % 8);
            lemma_fundamental_div_mod_converse_mod(8 * k + i, 8, k + i / 8, i % 8);
            assert(8 * (k + i / 8) == 8 * k + 8 * (i / 8)) by {
                lemma_mul_is_distributive_add(8, k, i / 8);
            }
        }
    }
    assert(lhs =~= rhs);
}

/// Taking `k` whole bytes takes `8 k` bits.
pub proof fn lemma_bytes_bits_take(s: Seq<u8>, k: int)
    requires
        0 <= k <= s.len(),
    ensures
        bytes_bits(s.take(k)) == bytes_bits(s).take(8 * k),
{
    let lhs = bytes_bits(s.take(k));
    let rhs = bytes_bits(s).take(8 * k);
    assert forall|i: int| 0 <= i < lhs.len() implies lhs[i] == rhs[i] by {
        assert(0 <= i / 8 < k);
    }
    assert(lhs =~= rhs);
}

/// The bit view of one byte of a sequence.
pub proof fn lemma_bytes_bits_byte(s: Seq<u8>, k: int)
    requires
        0 <= k < s.len(),
    ensures
        bytes_bits(s).subrange(8 * k, 8 * k + 8) == byte_bits(s[k]),
{
    let lhs = bytes_bits(s).subrange(8 * k, 8 * k + 8);
    assert forall|j: int| 0 <= j < 8 implies lhs[j] == byte_bits(s[k])[j] by {
        assert((8 * k + j) / 8 == k + j / 8 && (8 * k + j) % 8 == j % 8) by {
            lemma_fundamental_div_mod_converse_div(8 * k + j, 8, k + j / 8, j % 8);
            lemma_fundamental_div_mod_converse_mod(8 * k + j, 8, k + j / 8, j % 8);
            assert(8 * (k + j / 8) == 8 * k + 8 * (j / 8)) by {
                lemma_mul_is_distributive_add(8, k, j / 8);
            }
        }
    }
    assert(lhs =~= byte_bits(s[k]));
}

/// Grouping the bit view of bytes back into bytes gives the bytes.
pub proof fn lemma_bits_bytes_of_bytes(d: Seq<u8>)
    ensures
        bits_bytes(bytes_bits(d)) == d,
{
    let s = bytes_bits(d);
    assert forall|k: int| 0 <= k < d.len() implies bits_bytes(s)[k] == d[k] by {
        lemma_bytes_bits_byte(d, k);
        lemma_byte_bits_value(d[k]);
    }
    assert(bits_bytes(s) =~= d);
}

/// An eight-bit sequence is the bit view of its own value.
pub proof fn lemma_byte_of_bits(t: Seq<bool>)
    requires
        t.len() == 8,
    ensures
        bits_value(t) < 256,
        byte_bits(bits_value(t) as u8) == t,
{
    assert(bits_value(t) < 256) by {
        lemma_bits_value_bound(t);
        lemma2_to64();
    }
    let v = bits_value(t) as u8;
    assert forall|j: int| 0 <= j < 8 implies byte_bits(v)[j] == t[j] by {
        let hi = t.take(j + 1);
        let lo = t.skip(j + 1);
        assert(t =~= hi + lo);
        lemma_bits_value_append(hi, lo);
        lemma_bits_value_bound(lo);
        let p = pow2((7 - j) as nat);
        lemma_pow2_pos((7 - j) as nat);
        // v >> (7 - j) is the value of the first j + 1 bits.
        lemma_u8_shr_is_div(v, (7 - j) as u8);
        lemma_fundamental_div_mod_converse_div(
            v as int,
            p as int,
            bits_value(hi) as int,
            bits_value(lo) as int,
        );
        assert(v >> ((7 - j) as u8) == bits_value(hi));
        // The low bit of that value is t[j].
        assert(hi.drop_last() =~= t.take(j));
        assert(hi.last() == t[j]);
        assert(bits_value(hi) % 2 == (if t[j] {
            1nat
        } else {
            0nat
        }));
        let h = (bits_value(hi) as u8) as u8;
        assert(h & 1 == h % 2) by (bit_vector);
        assert(bits_value(hi) < 256) by {
            assert(bits_value(hi) <= bits_value(hi) * (p as int)) by (nonlinear_arith)
                requires
                    p >= 1,
            ;
        }
        assert(byte_bits(v)[j] == ((v >> ((7 - j) as u8)) & 1 == 1));
    }
    assert(byte_bits(v) =~= t);
}

/// The bit view of a byte sequence starts with the bits of its first
/// byte.
pub proof fn lemma_bytes_bits_first(s: Seq<u8>)
    requires
        s.len() > 0,
    ensures
        bytes_bits(s) == byte_bits(s[0]) + bytes_bits(s.skip(1)),
{
    lemma_bytes_bits_byte(s, 0);
    lemma_bytes_bits_skip(s, 1);
    assert(bytes_bits(s).subrange(0, 8) =~= bytes_bits(s).take(8));
    assert(bytes_bits(s) =~= bytes_bits(s).take(8) + bytes_bits(s).skip(8));
}

/// A value below `2^c` shifted up by `v` bits stays below `2^(c + v)`.
pub proof fn lemma_mul_pow2_bound(u: nat, c: nat, v: nat)
    requires
        u < pow2(c),
    ensures
        u * pow2(v) + pow2(v) <= pow2(c + v),
{
    lemma_pow2_adds(c, v);
    assert((u + 1) * pow2(v) <= pow2(c) * pow2(v)) by (nonlinear_arith)
        requires
            u + 1 <= pow2(c),
    ;
    assert((u + 1) * pow2(v) == u * pow2(v) + pow2(v)) by (nonlinear_arith);
}

/// Shifting `a` up by `sh` bits and merging `b` into the cleared low
/// bits is the arithmetic combination `a * 2^sh + b`.
pub proof fn lemma_u64_shl_or(a: u64, b: u64, sh: u64)
    requires
        sh < 64,
        b < pow2(sh as nat),
        a * pow2(sh as nat) + b <= u64::MAX,
    ensures
        ((a << sh) | b) == a * pow2(sh as nat) + b,
{
    vstd::bits::lemma_u64_pow2_no_overflow(sh as nat);
    vstd::bits::lemma_u64_shl_is_mul(a, sh);
    vstd::bits::lemma_u64_shl_is_mul(1u64, sh);
    assert(1u64 * pow2(sh as nat) == pow2(sh as nat)) by (nonlinear_arith);
    assert(((a << sh) | b) == ((a << sh) + b) as u64) by (bit_vector)
        requires
            sh < 64,
            b < (1u64 << sh),
    ;
}

/// Shifting a byte left moves its bits toward the most significant end.
pub proof fn lemma_byte_bits_shl(b: u8, k: u8, i: u8)
    requires
        i + k < 8,
    ensures
        bit_at((b << k) as u8, i as int) == bit_at(b, i as int + k as int),
{
    let s1 = (7 - i) as u8;
    let s2 = (7 - (i + k)) as u8;
    assert((7 - i as int) as u8 == s1);
    assert((7 - (i as int + k as int)) as u8 == s2);
    assert((((b << k) >> s1) & 1) == ((b >> s2) & 1)) by (bit_vector)
        requires
            s1 < 8,
            s2 < 8,
            s1 == s2 + k,
            k < 8,
    ;
}

/// Splitting an aligned bit sequence into bytes and flattening again
/// gives the sequence back.
pub proof fn lemma_bytes_of_bits(s: Seq<bool>)
    requires
        s.len() % 8 == 0,
    ensures
        bytes_bits(bits_bytes(s)) == s,
{
    let d = bits_bytes(s);
    assert(8 * (s.len() as int / 8) == s.len()) by {
        vstd::arithmetic::div_mod::lemma_fundamental_div_mod(s.len() as int, 8);
    }
    assert forall|i: int| 0 <= i < s.len() implies bytes_bits(d)[i] == s[i] by {
        let k = i / 8;
        let j = i % 8;
        assert(0 <= j < 8);
        assert(i == 8 * k + j) by {
            vstd::arithmetic::div_mod::lemma_fundamental_div_mod(i, 8);
        }
        assert(0 <= k < d.len()) by {
            vstd::arithmetic::div_mod::lemma_div_is_ordered(i, s.len() as int - 1, 8);
        }
        let t = s.subrange(8 * k, 8 * k + 8);
        lemma_byte_of_bits(t);
        assert(byte_bits(d[k]) == t);
        assert(bytes_bits(d)[i] == bit_at(d[i / 8], i % 8));
        assert(byte_bits(d[k])[j] == bit_at(d[k], j));
        assert(t[j] == s[i]);
    }
    assert(bytes_bits(d) =~= s);
}

/// The value of a single bit.
pub proof fn lemma_bits_value_one(b: bool)
    ensures
        bits_value(seq![b]) == (if b {
            1nat
        } else {
            0nat
        }),
{
    assert(bits_value(Seq::<bool>::empty()) == 0);
    assert(seq![b].len() == 1 && seq![b].last() == b);
    assert(seq![b].drop_last() =~= Seq::<bool>::empty());
}

/// The number of `false` bits before the first `true` bit (the length
/// of the sequence when no bit is set).
pub open spec fn lead_zeros(s: Seq<bool>) -> nat
    decreases s.len(),
{
    if s.len() == 0 {
        0
    } else if s[0] {
        0
    } else {
        1 + lead_zeros(s.skip(1))
    }
}

/// Pins `lead_zeros` down from a prefix of zeros ended by a one bit or
/// by the end of the sequence.
pub proof fn lemma_lead_zeros_at(s: Seq<bool>, i: int)
    requires
        0 <= i <= s.len(),
        forall|j: int| 0 <= j < i ==> !(#[trigger] s[j]),
        i < s.len() ==> s[i],
    ensures
        lead_zeros(s) == i,
    decreases i,
{
    if i == 0 {
    } else {
        assert(!s[0]);
        let tail = s.skip(1);
        assert forall|j: int| 0 <= j < i - 1 implies !(#[trigger] tail[j]) by {
            assert(tail[j] == s[j + 1]);
        }
        assert(i - 1 < tail.len() ==> tail[i - 1]);
        lemma_lead_zeros_at(tail, i - 1);
    }
}

/// A prefix of zeros bounds `lead_zeros` from below.
pub proof fn lemma_lead_zeros_ge(s: Seq<bool>, i: int)
    requires
        0 <= i <= s.len(),
        forall|j: int| 0 <= j < i ==> !(#[trigger] s[j]),
    ensures
        lead_zeros(s) >= i,
    decreases i,
{
    if i > 0 {
        let tail = s.skip(1);
        assert forall|j: int| 0 <= j < i - 1 implies !(#[trigger] tail[j]) by {
            assert(tail[j] == s[j + 1]);
        }
        lemma_lead_zeros_ge(tail, i - 1);
    }
}

/// The bits form a complete unsigned Exp-Golomb code that the 64-bit
/// decoder accepts: a run of zeros, a one bit, and as many suffix bits
/// as there were zeros, with at most 63 zeros.
pub open spec fn ue_ok(s: Seq<bool>) -> bool {
    let z = lead_zeros(s) as int;
    z < s.len() && 2 * z + 1 <= s.len() && z <= 63
}

/// The code's zero run is too long for a 64-bit code number.
pub open spec fn ue_long(s: Seq<bool>) -> bool {
    lead_zeros(s) > 63 && lead_zeros(s) < s.len()
}

/// The bits end before the unsigned Exp-Golomb code is complete.
pub open spec fn ue_eos(s: Seq<bool>) -> bool {
    !ue_ok(s) && !ue_long(s)
}

/// The code number of the unsigned Exp-Golomb code at the head of `s`:
/// `2^z - 1` plus the value of the `z` bits after the stop bit.
pub open spec fn ue_value(s: Seq<bool>) -> nat
    recommends
        ue_ok(s),
{
    let z = lead_zeros(s) as int;
    (pow2(lead_zeros(s)) - 1 + bits_value(s.subrange(z + 1, 2 * z + 1))) as nat
}

/// The number of bits the unsigned Exp-Golomb code occupies.
pub open spec fn ue_end(s: Seq<bool>) -> int {
    2 * (lead_zeros(s) as int) + 1
}

/// A 64-bit code number never reaches `u64::MAX`.
pub proof fn lemma_ue_value_bound(s: Seq<bool>)
    requires
        ue_ok(s),
    ensures
        ue_value(s) <= u64::MAX - 1,
{
    let z = lead_zeros(s) as int;
    lemma_bits_value_bound(s.subrange(z + 1, 2 * z + 1));
    assert(pow2(lead_zeros(s)) <= pow2(63)) by {
        if lead_zeros(s) < 63 {
            vstd::arithmetic::power2::lemma_pow2_strictly_increases(lead_zeros(s), 63);
        }
    }
    lemma2_to64_rest();
}

/// The signed Exp-Golomb mapping from a code number: odd code numbers
/// give the positive values, even ones the negatives.
pub open spec fn se_of(k: nat) -> int {
    if k % 2 == 1 {
        (k + 1) as int / 2
    } else {
        -((k / 2) as int)
    }
}


/// Alignment law: reads totalling a whole number of bytes, taken from
/// a byte-aligned position, end on a byte boundary again. A reader is
/// byte aligned exactly when the length of its remaining bits is a
/// multiple of eight, and a read of `n` bits drops `n` bits from the
/// front.
pub proof fn lemma_alignment_preserved(s: Seq<bool>, n: int)
    requires
        s.len() % 8 == 0,
        0 <= n <= s.len(),
        n % 8 == 0,
    ensures
        s.skip(n).len() % 8 == 0,
{
    vstd::arithmetic::div_mod::lemma_sub_mod_noop(s.len() as int, n, 8);
}

/// The outcome of decoding one unsigned Exp-Golomb code with an upper
/// bound on the result.
pub ghost enum CodeStep {
    Value(nat, Seq<bool>),
    EndOfStream,
    ReadError,
}

/// The outcome of decoding one signed Exp-Golomb code with bounds on
/// the result.
pub ghost enum CodeStepI {
    Value(int, Seq<bool>),
    EndOfStream,
    ReadError,
}

/// Decoding an unsigned Exp-Golomb code whose value must fit below
/// `max`: the code number and the bits after the code, or the failure.
pub open spec fn step_ue(s: Seq<bool>, max: nat) -> CodeStep {
    if ue_eos(s) {
        CodeStep::EndOfStream
    } else if ue_long(s) {
        CodeStep::ReadError
    } else if ue_value(s) > max {
        CodeStep::ReadError
    } else {
        CodeStep::Value(ue_value(s), s.skip(ue_end(s)))
    }
}

/// Decoding a signed Exp-Golomb code into a 64-bit value.
pub open spec fn step_se64(s: Seq<bool>) -> CodeStepI {
    if ue_eos(s) {
        CodeStepI::EndOfStream
    } else if ue_long(s) {
        CodeStepI::ReadError
    } else {
        CodeStepI::Value(se_of(ue_value(s)), s.skip(ue_end(s)))
    }
}

/// Decoding a signed Exp-Golomb code whose value must fit in eight
/// bits.
pub open spec fn step_se8(s: Seq<bool>) -> CodeStepI {
    if ue_eos(s) {
        CodeStepI::EndOfStream
    } else if ue_long(s) {
        CodeStepI::ReadError
    } else if se_of(ue_value(s)) < -128 || se_of(ue_value(s)) > 127 {
        CodeStepI::ReadError
    } else {
        CodeStepI::Value(se_of(ue_value(s)), s.skip(ue_end(s)))
    }
}

/// The remaining bits are exactly an `rbsp_stop_one_bit` followed by
/// zeros, or nothing at all.
pub open spec fn is_rbsp_stop(s: Seq<bool>) -> bool {
    s.len() == 0 || (s[0] && forall|i: int| 1 <= i < s.len() ==> !(#[trigger] s[i]))
}

/// The outcome of consuming the RBSP trailing bits.
pub ghost enum TrailStep {
    Value(Seq<bool>),
    EndOfStream,
    Invalid,
}

/// Consuming the RBSP trailing bits: one stop bit that must be `1`,
/// then zero bits up to the next byte boundary; the value is the bits
/// after the boundary.
pub open spec fn step_trailing(s: Seq<bool>) -> TrailStep {
    let t: int = if s.len() % 8 == 0 {
        8
    } else {
        s.len() as int % 8
    };
    let w = lead_zeros(s.skip(1)) as int;
    if s.len() == 0 {
        TrailStep::EndOfStream
    } else if !s[0] {
        TrailStep::Invalid
    } else if w >= t - 1 {
        TrailStep::Value(s.skip(t))
    } else if w == s.len() - 1 {
        TrailStep::EndOfStream
    } else {
        TrailStep::Invalid
    }
}

} // verus!
