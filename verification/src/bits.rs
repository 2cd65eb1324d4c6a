//! The bit-level model of a byte buffer: bits are numbered from the start of
//! the buffer, most significant bit of each byte first.
use vstd::arithmetic::div_mod::*;
use vstd::arithmetic::power2::*;
use vstd::prelude::*;

verus! {

/// Bit `q` of `bytes` (bit 0 is the most significant bit of the first byte).
pub open spec fn bit_at(bytes: Seq<u8>, q: int) -> bool {
    (bytes[q / 8] >> ((7 - q % 8) as usize)) & 1u8 == 1u8
}

/// All `8 * bytes.len()` bits of `bytes`, in reading order.
pub open spec fn bits_of(bytes: Seq<u8>) -> Seq<bool> {
    Seq::new((8 * bytes.len()) as nat, |q: int| bit_at(bytes, q))
}

/// The number whose big-endian binary digits are `bits`.
pub open spec fn be_value(bits: Seq<bool>) -> nat
    decreases bits.len(),
{
    if bits.len() == 0 {
        0
    } else {
        2 * be_value(bits.drop_last()) + (if bits.last() {
            1nat
        } else {
            0nat
        })
    }
}

/// The low `n` binary digits of `value`, most significant first.
pub open spec fn value_bits(value: nat, n: nat) -> Seq<bool> {
    Seq::new(n, |i: int| (value / pow2((n - 1 - i) as nat)) % 2 == 1)
}

/// `n` zero bits.
pub open spec fn zeros(n: nat) -> Seq<bool> {
    Seq::new(n, |i: int| false)
}

/// The number of bytes needed to hold `nbits` bits.
pub open spec fn bytes_for(nbits: int) -> int {
    (nbits + 7) / 8
}

/// `base` with `w` written over it from bit `p` on.
pub open spec fn overwrite(base: Seq<bool>, p: int, w: Seq<bool>) -> Seq<bool> {
    base.subrange(0, p) + w + base.subrange(p + w.len(), base.len() as int)
}

/// Two writes in a row, the second starting where the first ended, are one
/// write of both.
pub proof fn lemma_overwrite_chain(base: Seq<bool>, p: int, w1: Seq<bool>, w2: Seq<bool>, n1: nat, n2: nat)
    requires
        0 <= p <= base.len(),
        p + w1.len() <= base.len() + n1,
        p + w1.len() + w2.len() <= base.len() + n1 + n2,
    ensures
        overwrite(overwrite(base + zeros(n1), p, w1) + zeros(n2), p + w1.len(), w2)
            =~= overwrite(base + zeros(n1 + n2), p, w1 + w2),
{
}

/// Setting and clearing one bit of a byte leaves its other bits alone.
pub proof fn lemma_set_clear_bit(x: u8, s: usize, j: usize)
    requires
        s < 8,
        j < 8,
    ensures
        ((x | (1u8 << s)) >> (7 - j) as usize) & 1u8 == (if j == 7 - s {
            1u8
        } else {
            (x >> (7 - j) as usize) & 1u8
        }),
        ((x & !(1u8 << s)) >> (7 - j) as usize) & 1u8 == (if j == 7 - s {
            0u8
        } else {
            (x >> (7 - j) as usize) & 1u8
        }),
        (0u8 >> (7 - j) as usize) & 1u8 == 0u8,
{
    let t: usize = (7 - j) as usize;
    assert(((x | (1u8 << s)) >> t) & 1u8 == (if t == s {
        1u8
    } else {
        (x >> t) & 1u8
    })) by (bit_vector)
        requires
            s < 8,
            t < 8,
    ;
    assert(((x & !(1u8 << s)) >> t) & 1u8 == (if t == s {
        0u8
    } else {
        (x >> t) & 1u8
    })) by (bit_vector)
        requires
            s < 8,
            t < 8,
    ;
    assert((0u8 >> t) & 1u8 == 0u8) by (bit_vector);
}

/// Bit `i` of a `u64`, as the exec code extracts it, is its `i`-th binary digit.
pub proof fn lemma_u64_bit(value: u64, i: usize)
    requires
        i < 64,
    ensures
        ((value >> i) & 1u64 == 1u64) == ((value as nat / pow2(i as nat)) % 2 == 1),
        (value >> i) & 1u64 <= 1,
{
    assert((value >> i) & 1u64 == (value >> i) % 2) by (bit_vector);
    assert(value >> i == value >> (i as u64)) by (bit_vector)
        requires
            i < 64,
    ;
    vstd::bits::lemma_u64_shr_is_div(value, i as u64);
    assert((value >> i) & 1u64 <= 1) by (bit_vector);
}

/// Reading back the digits of `value` gives `value` modulo `2^n`.
pub proof fn lemma_be_value_of_value_bits(value: nat, n: nat)
    ensures
        be_value(value_bits(value, n)) == value % pow2(n),
    decreases n,
{
    lemma_pow2_pos(n);
    if n == 0 {
        lemma2_to64();
    } else {
        let s = value_bits(value, n);
        let t = value_bits(value / 2, (n - 1) as nat);
        assert(s.drop_last() =~= t) by {
            assert forall|i: int| 0 <= i < n - 1 implies s[i] == t[i] by {
                lemma_pow2_pos((n - 2 - i) as nat);
                lemma_div_denominator(value as int, 2, pow2((n - 2 - i) as nat) as int);
                lemma_pow2_unfold((n - 1 - i) as nat);
            }
        }
        lemma2_to64();
        lemma_be_value_of_value_bits(value / 2, (n - 1) as nat);
        lemma_pow2_unfold(n);
        lemma_pow2_pos((n - 1) as nat);
        lemma_mod_breakdown(value as int, 2, pow2((n - 1) as nat) as int);
        assert(s.last() == (value % 2 == 1)) by {
            assert(value / pow2(0) == value);
        }
        assert(value % 2 == 0 || value % 2 == 1);
        assert(be_value(s) == 2 * be_value(t) + (if s.last() {
            1nat
        } else {
            0nat
        }));
    }
}

/// A number with `bits.len()` binary digits is below `2^bits.len()`.
pub proof fn lemma_be_value_bound(bits: Seq<bool>)
    ensures
        be_value(bits) < pow2(bits.len()),
    decreases bits.len(),
{
    if bits.len() == 0 {
        lemma2_to64();
    } else {
        lemma_be_value_bound(bits.drop_last());
        lemma_pow2_unfold(bits.len());
    }
}

/// Appending one bit doubles the value and adds the bit.
pub proof fn lemma_be_value_push(bits: Seq<bool>, b: bool)
    ensures
        be_value(bits.push(b)) == 2 * be_value(bits) + (if b {
            1nat
        } else {
            0nat
        }),
{
    assert(bits.push(b).drop_last() =~= bits);
}

/// The bits of a byte are its binary digits.
pub proof fn lemma_byte_bit(b: u8, j: int)
    requires
        0 <= j < 8,
    ensures
        ((b >> ((7 - j) as usize)) & 1u8 == 1u8) == ((b as nat / pow2((7 - j) as nat)) % 2 == 1),
{
    let s: usize = (7 - j) as usize;
    assert((b >> s) & 1u8 == (b >> s) % 2) by (bit_vector);
    assert(b >> s == b >> (s as u8)) by (bit_vector)
        requires
            s < 8,
    ;
    vstd::bits::lemma_u8_shr_is_div(b, s as u8);
}

/// The eight bits of byte `i` of `bytes` are the binary digits of that byte.
pub proof fn lemma_bits_of_byte(bytes: Seq<u8>, i: int)
    requires
        0 <= i < bytes.len(),
    ensures
        bits_of(bytes).subrange(8 * i, 8 * i + 8) =~= value_bits(bytes[i] as nat, 8),
{
    assert forall|j: int| 0 <= j < 8 implies bits_of(bytes).subrange(8 * i, 8 * i + 8)[j]
        == value_bits(bytes[i] as nat, 8)[j] by {
        assert((8 * i + j) / 8 == i);
        assert((8 * i + j) % 8 == j);
        lemma_byte_bit(bytes[i], j);
    }
}

/// The value of the eight bits of byte `i` of `bytes` is that byte.
pub proof fn lemma_byte_value(bytes: Seq<u8>, i: int)
    requires
        0 <= i < bytes.len(),
    ensures
        be_value(bits_of(bytes).subrange(8 * i, 8 * i + 8)) == bytes[i],
{
    lemma_bits_of_byte(bytes, i);
    lemma_be_value_of_value_bits(bytes[i] as nat, 8);
    lemma2_to64();
}

/// The value of two digit strings in a row.
pub proof fn lemma_be_value_concat(s: Seq<bool>, t: Seq<bool>)
    ensures
        be_value(s + t) == be_value(s) * pow2(t.len()) + be_value(t),
    decreases t.len(),
{
    lemma2_to64();
    if t.len() == 0 {
        assert(s + t =~= s);
    } else {
        let t0 = t.drop_last();
        assert((s + t).drop_last() =~= s + t0);
        lemma_be_value_concat(s, t0);
        lemma_pow2_unfold(t.len());
        vstd::arithmetic::mul::lemma_mul_is_associative(be_value(s) as int, pow2(t0.len()) as int, 2);
    }
}

/// Digit strings of one length with one value are the same.
pub proof fn lemma_be_value_injective(s: Seq<bool>, t: Seq<bool>)
    requires
        s.len() == t.len(),
        be_value(s) == be_value(t),
    ensures
        s == t,
    decreases s.len(),
{
    if s.len() > 0 {
        let bs: nat = if s.last() { 1 } else { 0 };
        let bt: nat = if t.last() { 1 } else { 0 };
        assert(bs == bt && be_value(s.drop_last()) == be_value(t.drop_last())) by {
            assert((2 * be_value(s.drop_last()) + bs) % 2 == bs);
            assert((2 * be_value(t.drop_last()) + bt) % 2 == bt);
        }
        lemma_be_value_injective(s.drop_last(), t.drop_last());
        assert(s =~= s.drop_last().push(s.last()));
        assert(t =~= t.drop_last().push(t.last()));
    } else {
        assert(s =~= t);
    }
}

/// The digits of two numbers in a row are the digits of one number: the
/// first shifted past the second.
pub proof fn lemma_value_bits_concat(x: nat, a: nat, y: nat, b: nat)
    ensures
        value_bits(x, a) + value_bits(y, b) == value_bits(
            (x % pow2(a)) * pow2(b) + y % pow2(b),
            a + b,
        ),
{
    let xs = x % pow2(a);
    let ys = y % pow2(b);
    let v = xs * pow2(b) + ys;
    lemma_pow2_pos(a);
    lemma_pow2_pos(b);
    lemma_be_value_concat(value_bits(x, a), value_bits(y, b));
    lemma_be_value_of_value_bits(x, a);
    lemma_be_value_of_value_bits(y, b);
    lemma_be_value_of_value_bits(v, a + b);
    assert(v < pow2(a + b)) by {
        lemma_pow2_adds(a, b);
        vstd::arithmetic::mul::lemma_mul_inequality(xs as int, pow2(a) - 1, pow2(b) as int);
        vstd::arithmetic::mul::lemma_mul_is_distributive_sub_other_way(pow2(b) as int, pow2(a) as int, 1);
    }
    vstd::arithmetic::div_mod::lemma_small_mod(v, pow2(a + b));
    lemma_be_value_injective(value_bits(x, a) + value_bits(y, b), value_bits(v, a + b));
}

/// The bits of bytes in a row are their bits in a row.
pub proof fn lemma_bits_of_append(a: Seq<u8>, b: Seq<u8>)
    ensures
        bits_of(a + b) == bits_of(a) + bits_of(b),
{
    assert forall|q: int| 0 <= q < 8 * (a.len() + b.len()) implies bits_of(a + b)[q] == (bits_of(
        a,
    ) + bits_of(b))[q] by {
        if q >= 8 * a.len() {
            assert((q - 8 * a.len()) / 8 == q / 8 - a.len());
            assert((q - 8 * a.len()) % 8 == q % 8);
        }
    }
    assert(bits_of(a + b) =~= bits_of(a) + bits_of(b));
}

/// Bytes with the same bits are the same bytes.
pub proof fn lemma_bits_of_injective(a: Seq<u8>, b: Seq<u8>)
    requires
        bits_of(a) == bits_of(b),
    ensures
        a == b,
{
    assert(a.len() == b.len()) by {
        assert(bits_of(a).len() == 8 * a.len());
        assert(bits_of(b).len() == 8 * b.len());
    }
    assert forall|i: int| 0 <= i < a.len() implies a[i] == b[i] by {
        lemma_byte_value(a, i);
        lemma_byte_value(b, i);
    }
    assert(a =~= b);
}

} // verus!
