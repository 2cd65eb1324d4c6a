//! The wire format of a request: a 2-bit opcode, a 32-bit key length, the
//! key's bytes, and, for `Add` and `Update`, a 32-bit value length and the
//! value's bytes. Everything is packed bit by bit, most significant bit first.
use crate::bits::{
    be_value, bits_of, bytes_for, lemma_be_value_bound, lemma_be_value_of_value_bits,
    lemma_be_value_push, lemma_bits_of_byte, lemma_byte_value, lemma_overwrite_chain,
    lemma_bits_of_append, lemma_bits_of_injective, lemma_set_clear_bit, lemma_u64_bit,
    lemma_value_bits_concat, overwrite, value_bits, zeros,
};
use vstd::arithmetic::power2::*;
use vstd::prelude::*;
use vstd::string::StringSliceAdditionalSpecFns;
use vstd::utf8::{
    decode_utf8, encode_utf8, encode_utf8_decode_utf8, encode_utf8_valid_utf8, valid_utf8,
};

verus! {

/// The operation a request asks for.
#[derive(Debug, Clone, Copy, PartialEq, Eq, Structural)]
pub enum OP {
    Get,
    Add,
    Update,
    Remove,
}

/// A decoded request.
#[derive(Debug)]
pub struct Action {
    pub op: OP,
    pub key: String,
    pub value: String,
}

/// Reads bits, most significant first, from a borrowed byte buffer.
pub struct BitCursor<'a> {
    buf: &'a [u8],
    bit_pos: usize,
}

impl<'a> BitCursor<'a> {
    /// The bytes being read.
    pub closed spec fn data(&self) -> Seq<u8> {
        self.buf@
    }

    /// The position of the next bit to read.
    pub closed spec fn pos(&self) -> nat {
        self.bit_pos as nat
    }

    #[verifier::type_invariant]
    closed spec fn inv(&self) -> bool {
        &&& self.bit_pos <= 8 * self.buf@.len()
        &&& 8 * self.buf@.len() <= usize::MAX
    }

    /// A cursor at the first bit of `buf`. Every bit position of `buf` must
    /// fit in a `usize`.
    pub fn new(buf: &'a [u8]) -> (r: Self)
        requires
            8 * buf@.len() <= usize::MAX,
        ensures
            r.data() == buf@,
            r.pos() == 0,
    {
        Self { buf, bit_pos: 0 }
    }

    /// The position of the next bit to read.
    pub fn stream_position(&self) -> (r: usize)
        ensures
            r == self.pos(),
            r <= 8 * self.data().len(),
    {
        proof {
            use_type_invariant(self);
        }
        self.bit_pos
    }

    /// Skips `n` bits; fails, leaving the cursor where it was, when fewer
    /// than `n` bits are left.
    pub fn advance(&mut self, n: usize) -> (r: Result<(), &'static str>)
        ensures
            final(self).data() == old(self).data(),
            r is Ok <==> old(self).pos() + n <= 8 * old(self).data().len(),
            r is Ok ==> final(self).pos() == old(self).pos() + n,
            r matches Err(e) ==> {
                &&& final(self).pos() == old(self).pos()
                &&& old(self).pos() + n > usize::MAX ==> e@ == "bit position overflow"@
                &&& old(self).pos() + n <= usize::MAX ==> e@ == "advance past end of buffer"@
            },
    {
        proof {
            use_type_invariant(&*self);
        }
        let new_pos = match self.bit_pos.checked_add(n) {
            Some(p) => p,
            None => return Err("bit position overflow"),
        };
        if new_pos > self.buf.len() * 8 {
            return Err("advance past end of buffer");
        }
        self.bit_pos = new_pos;
        Ok(())
    }

    /// Reads the next `n` bits (at most 64) as a big-endian number; fails,
    /// leaving the cursor where it was, when fewer than `n` bits are left.
    pub fn read_bits(&mut self, n: usize) -> (r: Result<u64, &'static str>)
        ensures
            final(self).data() == old(self).data(),
            r is Ok <==> n <= 64 && old(self).pos() + n <= 8 * old(self).data().len(),
            r matches Ok(v) ==> {
                &&& v == be_value(
                    bits_of(old(self).data()).subrange(
                        old(self).pos() as int,
                        old(self).pos() + n,
                    ),
                )
                &&& final(self).pos() == old(self).pos() + n
            },
            r matches Err(e) ==> {
                &&& final(self).pos() == old(self).pos()
                &&& n > 64 ==> e@ == "cannot read more than 64 bits into u64"@
                &&& n <= 64 && old(self).pos() + n > usize::MAX ==> e@
                    == "bit position overflow"@
                &&& n <= 64 && old(self).pos() + n <= usize::MAX ==> e@
                    == "read past end of buffer"@
            },
    {
        proof {
            use_type_invariant(&*self);
        }
        if n > 64 {
            return Err("cannot read more than 64 bits into u64");
        }
        let end = match self.bit_pos.checked_add(n) {
            Some(e) => e,
            None => return Err("bit position overflow"),
        };
        if end > self.buf.len() * 8 {
            return Err("read past end of buffer");
        }
        let ghost start = self.bit_pos as int;
        let ghost bits = bits_of(self.buf@);
        let mut value = 0u64;
        let mut k: usize = 0;
        while k < n
            invariant
                self.buf@ == old(self).buf@,
                bits == bits_of(self.buf@),
                start == old(self).bit_pos,
                end == start + n,
                n <= 64,
                end <= 8 * self.buf@.len(),
                k <= n,
                self.bit_pos == start + k,
                value == be_value(bits.subrange(start, start + k)),
            decreases n - k,
        {
            proof {
                use_type_invariant(&*self);
            }
            let byte_index = self.bit_pos / 8;
            let bit_index = self.bit_pos % 8;
            let byte = self.buf[byte_index];
            let shift = 7 - bit_index;
            let bit = (byte >> shift) & 1;
            proof {
                let p = self.bit_pos as int;
                assert(bits.subrange(start, p + 1) =~= bits.subrange(start, p).push(bits[p]));
                lemma_be_value_push(bits.subrange(start, p), bits[p]);
                lemma_be_value_bound(bits.subrange(start, p));
                lemma_pow2_strictly_increases(k as nat, 64);
                assert(pow2(63) == 0x8000_0000_0000_0000) by {
                    lemma2_to64();
                    lemma2_to64_rest();
                }
                if k < 63 {
                    lemma_pow2_strictly_increases(k as nat, 63);
                }
                assert(bit == 0 || bit == 1) by (bit_vector)
                    requires
                        bit == (byte >> shift) & 1,
                ;
                assert(value < 0x8000_0000_0000_0000);
                assert(((value << 1) | (bit as u64)) == 2 * value + bit) by (bit_vector)
                    requires
                        value < 0x8000_0000_0000_0000,
                        bit <= 1,
                ;
            }
            value = (value << 1) | (bit as u64);
            self.bit_pos += 1;
            k += 1;
        }
        Ok(value)
    }

    /// Reads the next `n` whole bytes (which need not be byte-aligned). When
    /// fewer than `8 * n` bits are left it fails after reading the bytes that
    /// fit.
    fn read_bytes(&mut self, n: usize) -> (r: Result<Vec<u8>, &'static str>)
        ensures
            final(self).data() == old(self).data(),
            r is Ok <==> old(self).pos() + 8 * n <= 8 * old(self).data().len(),
            r matches Ok(v) ==> {
                &&& v@ == bytes_at(bits_of(old(self).data()), old(self).pos() as int, n as nat)
                &&& final(self).pos() == old(self).pos() + 8 * n
            },
            r matches Err(e) ==> {
                &&& final(self).pos() == old(self).pos() + 8 * ((8 * old(self).data().len()
                    - old(self).pos()) / 8)
                &&& final(self).pos() + 8 > usize::MAX ==> e@ == "bit position overflow"@
                &&& final(self).pos() + 8 <= usize::MAX ==> e@ == "read past end of buffer"@
            },
    {
        proof {
            use_type_invariant(&*self);
        }
        let ghost start = self.bit_pos as int;
        let ghost bits = bits_of(self.buf@);
        let ghost len8 = 8 * self.buf@.len();
        // Room for the bytes that can actually be read: a length field read
        // off the wire must not make this allocate more than the buffer.
        let available = (self.buf.len() * 8 - self.bit_pos) / 8;
        let mut out: Vec<u8> = Vec::with_capacity(if n < available {
            n
        } else {
            available
        });
        let mut k: usize = 0;
        while k < n
            invariant
                self.buf@ == old(self).buf@,
                bits == bits_of(self.buf@),
                len8 == 8 * self.buf@.len(),
                start == old(self).bit_pos,
                k <= n,
                self.bit_pos == start + 8 * k,
                start + 8 * k <= len8,
                out@ == bytes_at(bits, start, k as nat),
            decreases n - k,
        {
            proof {
                use_type_invariant(&*self);
            }
            let b = match self.read_bits(8) {
                Ok(v) => v,
                Err(e) => {
                    assert(len8 <= usize::MAX);
                    assert((len8 - start) / 8 == k) by {
                        assert(start + 8 * k + 8 > len8);
                    }
                    return Err(e);
                },
            };
            proof {
                lemma_be_value_bound(bits.subrange(start + 8 * k, start + 8 * k + 8));
                lemma2_to64();
            }
            out.push(b as u8);
            proof {
                assert(out@ =~= bytes_at(bits, start, (k + 1) as nat));
            }
            k += 1;
        }
        Ok(out)
    }
}

/// Writes bits, most significant first, into a growing byte buffer.
pub struct BitWriter {
    buf: Vec<u8>,
    bit_pos: usize,
}

/// What bit `q` of a writer's buffer holds after the bits `w` were written
/// from bit `p` on, over a buffer that held `base` (and zeros past its end).
pub open spec fn written_bit(base: Seq<bool>, p: int, w: Seq<bool>, q: int) -> bool {
    if p <= q < p + w.len() {
        w[q - p]
    } else if q < base.len() {
        base[q]
    } else {
        false
    }
}

impl BitWriter {
    /// The bytes written so far.
    pub closed spec fn data(&self) -> Seq<u8> {
        self.buf@
    }

    /// The position of the next bit to write.
    pub closed spec fn pos(&self) -> nat {
        self.bit_pos as nat
    }

    /// The buffer has exactly the bytes that the bits up to the position
    /// need, every bit from the position on is zero, and every bit position
    /// fits in a `usize`.
    #[verifier::type_invariant]
    closed spec fn inv(&self) -> bool {
        &&& self.buf@.len() == bytes_for(self.bit_pos as int)
        &&& forall|q: int|
            self.bit_pos <= q < 8 * self.buf@.len() ==> !#[trigger] bits_of(self.buf@)[q]
        &&& 8 * self.buf@.len() <= usize::MAX
    }

    /// An empty writer.
    pub fn new() -> (r: Self)
        ensures
            r.data() == Seq::<u8>::empty(),
            r.pos() == 0,
    {
        Self { buf: Vec::new(), bit_pos: 0 }
    }

    /// The position of the next bit to write. The buffer holds just the
    /// bytes that the bits before it need, and its bits from it on are zero.
    pub fn stream_position(&self) -> (r: usize)
        ensures
            r == self.pos(),
            self.data().len() == bytes_for(r as int),
            forall|q: int| r <= q < 8 * self.data().len() ==> !#[trigger] bits_of(self.data())[q],
    {
        proof {
            use_type_invariant(self);
        }
        self.bit_pos
    }

    /// Skips `n` bits of the bytes already written; fails, leaving the
    /// writer where it was, when that would pass the end of the buffer.
    pub fn advance(&mut self, n: usize) -> (r: Result<(), &'static str>)
        ensures
            final(self).data() == old(self).data(),
            r is Ok <==> old(self).pos() + n <= 8 * old(self).data().len(),
            r is Ok ==> final(self).pos() == old(self).pos() + n,
            r matches Err(e) ==> {
                &&& final(self).pos() == old(self).pos()
                &&& old(self).pos() + n > usize::MAX ==> e@ == "bit position overflow"@
                &&& old(self).pos() + n <= usize::MAX ==> e@ == "advance past end of buffer"@
            },
    {
        proof {
            use_type_invariant(&*self);
        }
        let new_pos = match self.bit_pos.checked_add(n) {
            Some(p) => p,
            None => return Err("bit position overflow"),
        };
        if new_pos > self.buf.len() * 8 {
            return Err("advance past end of buffer");
        }
        self.bit_pos = new_pos;
        Ok(())
    }

    /// Writes the low `nbits` bits of `value` (at most 64), most significant
    /// first, growing the buffer by zero bytes as needed. Every bit position
    /// of the grown buffer must fit in a `usize`.
    pub fn write_bits(&mut self, value: u64, nbits: usize) -> (r: Result<(), &'static str>)
        requires
            nbits <= 64 ==> 8 * bytes_for(old(self).pos() + nbits) <= usize::MAX,
        ensures
            r is Ok <==> nbits <= 64,
            r matches Err(e) ==> {
                &&& e@ == "too many bits"@
                &&& final(self).data() == old(self).data()
                &&& final(self).pos() == old(self).pos()
            },
            r is Ok ==> {
                let old_len = old(self).data().len() as int;
                let new_len = if old_len < bytes_for(old(self).pos() + nbits) {
                    bytes_for(old(self).pos() + nbits)
                } else {
                    old_len
                };
                &&& final(self).pos() == old(self).pos() + nbits
                &&& final(self).data().len() == new_len
                &&& bits_of(final(self).data()) == overwrite(
                    bits_of(old(self).data()) + zeros((8 * (new_len - old_len)) as nat),
                    old(self).pos() as int,
                    value_bits(value as nat, nbits as nat),
                )
            },
    {
        proof {
            use_type_invariant(&*self);
        }
        if nbits > 64 {
            return Err("too many bits");
        }
        let mut whole = BitWriter::new();
        std::mem::swap(self, &mut whole);
        let BitWriter { mut buf, mut bit_pos } = whole;
        let ghost p0 = bit_pos as int;
        let ghost base = bits_of(buf@);
        let ghost w = value_bits(value as nat, nbits as nat);
        let ghost old_len = buf@.len() as int;
        let mut i = nbits;
        while i > 0
            invariant
                old_len == bytes_for(p0),
                forall|q: int| p0 <= q < base.len() ==> !#[trigger] base[q],
                bit_pos <= 8 * buf@.len(),
                8 * buf@.len() <= usize::MAX,
                nbits <= 64,
                8 * bytes_for(p0 + nbits) <= usize::MAX,
                i <= nbits,
                bit_pos == p0 + (nbits - i),
                base.len() == 8 * old_len,
                w == value_bits(value as nat, nbits as nat),
                buf@.len() == if old_len < bytes_for(bit_pos as int) {
                    bytes_for(bit_pos as int)
                } else {
                    old_len
                },
                forall|q: int|
                    0 <= q < 8 * buf@.len() ==> #[trigger] bits_of(buf@)[q]
                        == written_bit(base, p0, w.subrange(0, nbits - i), q),
            decreases i,
        {
            i -= 1;
            let bit = ((value >> i) & 1) as u8;
            proof {
                lemma_u64_bit(value, i);
            }
            if bit > 1 {
                return Err("bit must be 0 or 1");
            }
            let ghost before = buf@;
            let ghost done = w.subrange(0, nbits - i - 1);
            let byte_index = bit_pos / 8;
            let bit_index = bit_pos % 8;
            if byte_index == buf.len() {
                buf.push(0);
            }
            let ghost mid = buf@;
            let shift = 7 - bit_index;
            let old_byte = buf[byte_index];
            if bit == 1 {
                buf[byte_index] = old_byte | (1u8 << shift);
            } else {
                buf[byte_index] = old_byte & !(1u8 << shift);
            }
            proof {
                let p = bit_pos as int;
                let now = w.subrange(0, nbits - i);
                assert(now[nbits - i - 1] == w[nbits - i - 1]);
                assert(w[nbits - i - 1] == (bit == 1));
                assert forall|q: int| 0 <= q < 8 * buf@.len() implies #[trigger] bits_of(
                    buf@,
                )[q] == written_bit(base, p0, now, q) by {
                    let j = q % 8;
                    lemma_set_clear_bit(old_byte, shift, j as usize);
                    if q / 8 == byte_index {
                        if q < 8 * before.len() {
                            assert(bits_of(before)[q] == written_bit(base, p0, done, q));
                        }
                    } else {
                        assert(bits_of(buf@)[q] == bits_of(before)[q]);
                        assert(bits_of(before)[q] == written_bit(base, p0, done, q));
                    }
                }
            }
            bit_pos += 1;
        }
        proof {
            let new_len = buf@.len() as int;
            assert(bytes_for(p0) <= bytes_for(p0 + nbits));
            let target = overwrite(base + zeros((8 * (new_len - old_len)) as nat), p0, w);
            assert(w.subrange(0, nbits as int) =~= w);
            assert(bits_of(buf@) =~= target) by {
                assert forall|q: int| 0 <= q < 8 * new_len implies bits_of(buf@)[q]
                    == target[q] by {
                    assert(bits_of(buf@)[q] == written_bit(base, p0, w, q));
                }
            }
            assert forall|q: int| bit_pos <= q < 8 * buf@.len() implies !#[trigger] bits_of(
                buf@,
            )[q] by {
                assert(bits_of(buf@)[q] == written_bit(base, p0, w, q));
            }
        }
        *self = BitWriter { buf, bit_pos };
        Ok(())
    }

    /// Writes the bytes of `bytes`, eight bits each, from the current bit
    /// position on (which need not be byte-aligned).
    pub fn write_bytes(&mut self, bytes: &[u8]) -> (r: Result<(), &'static str>)
        requires
            8 * bytes_for((old(self).pos() + 8 * bytes@.len()) as int) <= usize::MAX,
        ensures
            r is Ok,
            ({
                let old_len = old(self).data().len() as int;
                let end = (old(self).pos() + 8 * bytes@.len()) as int;
                let new_len = if old_len < bytes_for(end) {
                    bytes_for(end)
                } else {
                    old_len
                };
                &&& final(self).pos() == end
                &&& final(self).data().len() == new_len
                &&& bits_of(final(self).data()) == overwrite(
                    bits_of(old(self).data()) + zeros((8 * (new_len - old_len)) as nat),
                    old(self).pos() as int,
                    bits_of(bytes@),
                )
            }),
    {
        proof {
            use_type_invariant(&*self);
        }
        let ghost p0 = self.bit_pos as int;
        let ghost base = bits_of(self.buf@);
        let ghost old_len = self.buf@.len() as int;
        let mut k: usize = 0;
        proof {
            assert(overwrite(base + zeros(0), p0, bits_of(bytes@.subrange(0, 0))) =~= base);
            assert(bits_of(self.buf@) =~= overwrite(base + zeros(0), p0, bits_of(bytes@.subrange(0, 0))));
        }
        while k < bytes.len()
            invariant
                k <= bytes@.len(),
                8 * bytes_for(p0 + 8 * bytes@.len()) <= usize::MAX,
                p0 <= 8 * old_len,
                base.len() == 8 * old_len,
                self.bit_pos == p0 + 8 * k,
                self.buf@.len() == if old_len < bytes_for(self.bit_pos as int) {
                    bytes_for(self.bit_pos as int)
                } else {
                    old_len
                },
                bits_of(self.buf@) == overwrite(
                    base + zeros((8 * (self.buf@.len() - old_len)) as nat),
                    p0,
                    bits_of(bytes@.subrange(0, k as int)),
                ),
            decreases bytes@.len() - k,
        {
            let b = bytes[k];
            let ghost cur = bits_of(self.buf@);
            let ghost cur_len = self.buf@.len() as int;
            proof {
                assert(bytes_for(p0 + 8 * k + 8) <= bytes_for(p0 + 8 * bytes@.len()));
            }
            let r = self.write_bits(b as u64, 8);
            proof {
                let new_len = self.buf@.len() as int;
                let done = bits_of(bytes@.subrange(0, k as int));
                let one = value_bits(b as nat, 8);
                lemma_bits_of_byte(bytes@, k as int);
                assert(bits_of(bytes@.subrange(0, k + 1)) =~= done + one) by {
                    assert forall|q: int| 0 <= q < 8 * (k + 1) implies bits_of(
                        bytes@.subrange(0, k + 1),
                    )[q] == (done + one)[q] by {
                        if q < 8 * k {
                        } else {
                            assert(bits_of(bytes@).subrange(8 * k, 8 * k + 8)[q - 8 * k]
                                == bits_of(bytes@)[q]);
                        }
                    }
                }
                lemma_overwrite_chain(
                    base,
                    p0,
                    done,
                    one,
                    (8 * (cur_len - old_len)) as nat,
                    (8 * (new_len - cur_len)) as nat,
                );
                assert(bits_of(self.buf@) == overwrite(
                    base + zeros((8 * (new_len - old_len)) as nat),
                    p0,
                    bits_of(bytes@.subrange(0, k + 1)),
                ));
            }
            k += 1;
        }
        proof {
            assert(bytes@.subrange(0, bytes@.len() as int) =~= bytes@);
        }
        Ok(())
    }

    /// The bytes written, the last one padded with zero bits.
    pub fn finish(self) -> (r: Vec<u8>)
        ensures
            r@ == self.data(),
            r@.len() == bytes_for(self.pos() as int),
            forall|q: int| self.pos() <= q < 8 * r@.len() ==> !#[trigger] bits_of(r@)[q],
    {
        proof {
            use_type_invariant(&self);
        }
        self.buf
    }
}

/// The `n` bytes whose bits start at bit `p` of `bits`.
pub open spec fn bytes_at(bits: Seq<bool>, p: int, n: nat) -> Seq<u8> {
    Seq::new(n, |i: int| be_value(bits.subrange(p + 8 * i, p + 8 * i + 8)) as u8)
}

} // verus!

verus! {

/// The 2-bit code of an operation on the wire.
pub open spec fn wire_code(op: OP) -> nat {
    match op {
        OP::Get => 0,
        OP::Add => 1,
        OP::Update => 2,
        OP::Remove => 3,
    }
}

/// Whether a request with this operation carries a value.
pub open spec fn carries_value(op: OP) -> bool {
    op == OP::Add || op == OP::Update
}

/// The bits of a request for `op` on the key and value with these UTF-8
/// bytes. Lengths are written as 32-bit numbers (the low 32 bits of the
/// length).
pub open spec fn message_bits(op: OP, key: Seq<u8>, value: Seq<u8>) -> Seq<bool> {
    let head = value_bits(wire_code(op), 2) + value_bits(key.len(), 32) + bits_of(key);
    if carries_value(op) {
        head + value_bits(value.len(), 32) + bits_of(value)
    } else {
        head
    }
}

/// `bits` followed by the zero bits that fill its last byte.
pub open spec fn pad_to_bytes(bits: Seq<bool>) -> Seq<bool> {
    bits + zeros((8 * bytes_for(bits.len() as int) - bits.len()) as nat)
}

/// A writer that started empty and wrote `prefix` holds `prefix`, padded.
pub open spec fn holds_prefix(bytes: Seq<u8>, prefix: Seq<bool>) -> bool {
    &&& bytes.len() == bytes_for(prefix.len() as int)
    &&& bits_of(bytes) == pad_to_bytes(prefix)
}

/// Writing `w` at the end of what a writer holds appends it.
proof fn lemma_append_write(before: Seq<u8>, prefix: Seq<bool>, w: Seq<bool>, after: Seq<u8>)
    requires
        holds_prefix(before, prefix),
        after.len() == (if before.len() < bytes_for((prefix.len() + w.len()) as int) {
            bytes_for((prefix.len() + w.len()) as int)
        } else {
            before.len() as int
        }),
        bits_of(after) == overwrite(
            bits_of(before) + zeros((8 * (after.len() - before.len())) as nat),
            prefix.len() as int,
            w,
        ),
    ensures
        holds_prefix(after, prefix + w),
{
    assert(bits_of(after) =~= pad_to_bytes(prefix + w));
}

/// Encodes a request. The result's bits are the request's bits, padded with
/// zeros to a whole number of bytes; the value is left out for `Get` and
/// `Remove`. Every bit position of the result must fit in a `usize`.
pub fn write_msg(op: OP, key: &str, value: &str) -> (r: Result<Vec<u8>, &'static str>)
    requires
        8 * bytes_for(message_bits(op, key.spec_bytes(), value.spec_bytes()).len() as int)
            <= usize::MAX,
    ensures
        r matches Ok(v) && bits_of(v@) == pad_to_bytes(
            message_bits(op, key.spec_bytes(), value.spec_bytes()),
        ),
{
    let ghost kb = key.spec_bytes();
    let ghost vb = value.spec_bytes();
    let ghost total = message_bits(op, kb, vb).len() as int;
    let mut cur = BitWriter::new();
    let (op_code, has_value) = match op {
        OP::Get => (0b00, false),
        OP::Add => (0b01, true),
        OP::Update => (0b10, true),
        OP::Remove => (0b11, false),
    };
    let ghost w1 = value_bits(op_code as nat, 2);
    let ghost w2 = value_bits(kb.len(), 32);
    let ghost w3 = value_bits(vb.len(), 32);
    proof {
        assert(holds_prefix(cur.data(), Seq::empty())) by {
            assert(bits_of(cur.data()) =~= pad_to_bytes(Seq::empty()));
        }
        assert(bytes_for(2) <= bytes_for(total));
    }
    let ghost before = cur.data();
    cur.write_bits(op_code, 2)?;
    proof {
        lemma_append_write(before, Seq::empty(), w1, cur.data());
        assert(Seq::<bool>::empty() + w1 =~= w1);
        assert(bytes_for(34) <= bytes_for(total));
    }
    let ghost before = cur.data();
    cur.write_bits(key.len() as u64, 32)?;
    proof {
        lemma_append_write(before, w1, w2, cur.data());
        assert(bytes_for((34 + 8 * kb.len()) as int) <= bytes_for(total));
    }
    let kbytes = key.as_bytes();
    let ghost before = cur.data();
    cur.write_bytes(kbytes)?;
    proof {
        lemma_append_write(before, w1 + w2, bits_of(kb), cur.data());
    }
    if has_value {
        let ghost head = w1 + w2 + bits_of(kb);
        proof {
            assert(bytes_for((34 + 8 * kb.len() + 32) as int) <= bytes_for(total));
        }
        let ghost before = cur.data();
        cur.write_bits(value.len() as u64, 32)?;
        proof {
            lemma_append_write(before, head, w3, cur.data());
        }
        let vbytes = value.as_bytes();
        let ghost before = cur.data();
        cur.write_bytes(vbytes)?;
        proof {
            lemma_append_write(before, head + w3, bits_of(vb), cur.data());
        }
    }
    let out = cur.finish();
    Ok(out)
}

/// The number held in the `n` bits of `bits` from bit `p` on.
pub open spec fn field(bits: Seq<bool>, p: int, n: int) -> nat {
    be_value(bits.subrange(p, p + n))
}

/// The operation with this wire code.
pub open spec fn op_of_code(code: nat) -> OP {
    if code == 0 {
        OP::Get
    } else if code == 1 {
        OP::Add
    } else if code == 2 {
        OP::Update
    } else {
        OP::Remove
    }
}

/// The operation of the request whose bits start at bit `p`.
pub open spec fn decoded_op(bits: Seq<bool>, p: int) -> OP {
    op_of_code(field(bits, p, 2))
}

/// The key length that the request at bit `p` declares.
pub open spec fn decoded_key_len(bits: Seq<bool>, p: int) -> nat {
    field(bits, p + 2, 32)
}

/// Where the key of the request at bit `p` ends.
pub open spec fn key_end(bits: Seq<bool>, p: int) -> int {
    p + 34 + 8 * decoded_key_len(bits, p)
}

/// The value length that the request at bit `p` declares, if it carries one.
pub open spec fn decoded_value_len(bits: Seq<bool>, p: int) -> nat {
    field(bits, key_end(bits, p), 32)
}

/// Where the request at bit `p` ends.
pub open spec fn message_end(bits: Seq<bool>, p: int) -> int {
    if carries_value(decoded_op(bits, p)) {
        key_end(bits, p) + 32 + 8 * decoded_value_len(bits, p)
    } else {
        key_end(bits, p)
    }
}

/// Whether a whole request starts at bit `p` of `bits`: every field it
/// declares lies within `bits`.
pub open spec fn decodable(bits: Seq<bool>, p: int) -> bool {
    &&& 0 <= p
    &&& p + 34 <= bits.len()
    &&& key_end(bits, p) <= bits.len()
    &&& carries_value(decoded_op(bits, p)) ==> key_end(bits, p) + 32 <= bits.len()
    &&& message_end(bits, p) <= bits.len()
}

/// The key bytes of the request at bit `p`.
pub open spec fn decoded_key(bits: Seq<bool>, p: int) -> Seq<u8> {
    bytes_at(bits, p + 34, decoded_key_len(bits, p))
}

/// The value bytes of the request at bit `p` (none for `Get` and `Remove`).
pub open spec fn decoded_value(bits: Seq<bool>, p: int) -> Seq<u8> {
    if carries_value(decoded_op(bits, p)) {
        bytes_at(bits, key_end(bits, p) + 32, decoded_value_len(bits, p))
    } else {
        Seq::empty()
    }
}

/// The characters that `String::from_utf8_lossy` makes of `bytes`.
pub uninterp spec fn lossy_utf8(bytes: Seq<u8>) -> Seq<char>;

/// Calls `String::from_utf8_lossy` and takes the result as an owned `String`.
/// Trusted: the result is named `lossy_utf8` of the bytes, and, as std
/// documents, valid UTF-8 is decoded unchanged. What replaces invalid
/// sequences is not stated.
#[verifier::external_body]
fn string_from_utf8_lossy(bytes: &[u8]) -> (s: String)
    ensures
        s@ == lossy_utf8(bytes@),
        valid_utf8(bytes@) ==> s@ == decode_utf8(bytes@),
{
    String::from_utf8_lossy(bytes).to_string()
}

/// Decodes the request at the cursor. When a whole request is there, returns
/// it and moves the cursor past it; otherwise returns `None` and leaves the
/// cursor where it was. Key and value bytes are turned into text as
/// `String::from_utf8_lossy` does.
pub fn try_decode_msg(cur: &mut BitCursor) -> (r: Option<Action>)
    ensures
        final(cur).data() == old(cur).data(),
        ({
            let bits = bits_of(old(cur).data());
            let p = old(cur).pos() as int;
            &&& r is Some <==> decodable(bits, p)
            &&& r is None ==> final(cur).pos() == old(cur).pos()
            &&& r matches Some(a) ==> {
                &&& a.op == decoded_op(bits, p)
                &&& a.key@ == lossy_utf8(decoded_key(bits, p))
                &&& a.value@ == if carries_value(a.op) {
                    lossy_utf8(decoded_value(bits, p))
                } else {
                    Seq::<char>::empty()
                }
                &&& valid_utf8(decoded_key(bits, p)) ==> a.key@ == decode_utf8(decoded_key(bits, p))
                &&& valid_utf8(decoded_value(bits, p)) ==> a.value@ == decode_utf8(
                    decoded_value(bits, p),
                )
                &&& final(cur).pos() == message_end(bits, p)
            }
        }),
{
    proof {
        use_type_invariant(&*cur);
    }
    let ghost bits = bits_of(cur.buf@);
    let ghost p = cur.bit_pos as int;
    let mut probe = BitCursor { buf: cur.buf, bit_pos: cur.bit_pos };
    let code = match probe.read_bits(2) {
        Ok(c) => c,
        Err(_) => return None,
    };
    proof {
        lemma_be_value_bound(bits.subrange(p, p + 2));
        lemma2_to64();
    }
    let (op, has_value) = match code as u8 {
        0 => (OP::Get, false),
        1 => (OP::Add, true),
        2 => (OP::Update, true),
        _ => (OP::Remove, false),
    };
    let key_len = match probe.read_bits(32) {
        Ok(l) => l,
        Err(_) => return None,
    };
    proof {
        lemma_be_value_bound(bits.subrange(p + 2, p + 34));
        lemma2_to64();
    }
    let key_bytes = match probe.read_bytes(key_len as usize) {
        Ok(b) => b,
        Err(_) => return None,
    };
    let key = string_from_utf8_lossy(&key_bytes);
    let value = if has_value {
        let value_len = match probe.read_bits(32) {
            Ok(l) => l,
            Err(_) => return None,
        };
        proof {
            let ke = key_end(bits, p);
            lemma_be_value_bound(bits.subrange(ke, ke + 32));
            lemma2_to64();
        }
        let value_bytes = match probe.read_bytes(value_len as usize) {
            Ok(b) => b,
            Err(_) => return None,
        };
        string_from_utf8_lossy(&value_bytes)
    } else {
        String::new()
    };
    cur.bit_pos = probe.bit_pos;
    Some(Action { op, key, value })
}

/// Decodes the request at the cursor and moves the cursor past it. A whole
/// request must be there.
pub fn decode_msg(cur: &mut BitCursor) -> (a: Action)
    requires
        decodable(bits_of(old(cur).data()), old(cur).pos() as int),
    ensures
        final(cur).data() == old(cur).data(),
        ({
            let bits = bits_of(old(cur).data());
            let p = old(cur).pos() as int;
            &&& a.op == decoded_op(bits, p)
            &&& a.key@ == lossy_utf8(decoded_key(bits, p))
            &&& a.value@ == if carries_value(a.op) {
                lossy_utf8(decoded_value(bits, p))
            } else {
                Seq::<char>::empty()
            }
            &&& valid_utf8(decoded_key(bits, p)) ==> a.key@ == decode_utf8(decoded_key(bits, p))
            &&& valid_utf8(decoded_value(bits, p)) ==> a.value@ == decode_utf8(
                decoded_value(bits, p),
            )
            &&& final(cur).pos() == message_end(bits, p)
        }),
{
    match try_decode_msg(cur) {
        Some(a) => a,
        None => {
            proof {
                assert(false);
            }
            Action { op: OP::Get, key: String::new(), value: String::new() }
        },
    }
}

/// Reading `n` bits where a writer wrote the low `n` bits of `value` gives
/// back those bits: `value` modulo `2^n`.
pub proof fn lemma_read_what_was_written(base: Seq<bool>, p: int, value: nat, n: nat)
    requires
        0 <= p,
        p + n <= base.len(),
    ensures
        field(overwrite(base, p, value_bits(value, n)), p, n as int) == value % pow2(n),
{
    let s = overwrite(base, p, value_bits(value, n));
    assert(s.subrange(p, p + n) =~= value_bits(value, n));
    lemma_be_value_of_value_bits(value, n);
}

/// The bytes of `data`, read back eight bits at a time from where their bits
/// start in `bits`, are `data`.
proof fn lemma_bytes_at_bits_of(bits: Seq<bool>, p: int, data: Seq<u8>)
    requires
        0 <= p,
        p + 8 * data.len() <= bits.len(),
        bits.subrange(p, p + 8 * data.len()) == bits_of(data),
    ensures
        bytes_at(bits, p, data.len()) == data,
{
    assert forall|i: int| 0 <= i < data.len() implies bytes_at(bits, p, data.len())[i]
        == data[i] by {
        assert(bits.subrange(p + 8 * i, p + 8 * i + 8) =~= bits_of(data).subrange(
            8 * i,
            8 * i + 8,
        ));
        lemma_byte_value(data, i);
    }
    assert(bytes_at(bits, p, data.len()) =~= data);
}

/// Decoding what `write_msg` encodes gives the request back: the same
/// operation, the same key bytes, and the value bytes for `Add` and
/// `Update`, and the request ends where its bits end, whatever follows it.
/// Lengths must fit in the 32 bits the format gives them.
pub proof fn lemma_decode_encoded(op: OP, key: Seq<u8>, value: Seq<u8>, rest: Seq<bool>)
    requires
        key.len() < 0x1_0000_0000,
        carries_value(op) ==> value.len() < 0x1_0000_0000,
    ensures
        ({
            let m = message_bits(op, key, value);
            let bits = m + rest;
            &&& decodable(bits, 0)
            &&& decoded_op(bits, 0) == op
            &&& decoded_key(bits, 0) == key
            &&& decoded_value(bits, 0) == if carries_value(op) {
                value
            } else {
                Seq::<u8>::empty()
            }
            &&& message_end(bits, 0) == m.len()
        }),
{
    let m = message_bits(op, key, value);
    let bits = m + rest;
    let w1 = value_bits(wire_code(op), 2);
    let w2 = value_bits(key.len(), 32);
    let kend: int = (34 + 8 * key.len()) as int;
    lemma2_to64();
    lemma2_to64_rest();
    assert(bits.subrange(0, 2) =~= w1);
    lemma_be_value_of_value_bits(wire_code(op), 2);
    assert(decoded_op(bits, 0) == op);
    assert(bits.subrange(2, 34) =~= w2);
    lemma_be_value_of_value_bits(key.len(), 32);
    assert(decoded_key_len(bits, 0) == key.len());
    assert(bits.subrange(34, kend) =~= bits_of(key));
    lemma_bytes_at_bits_of(bits, 34, key);
    if carries_value(op) {
        let w3 = value_bits(value.len(), 32);
        assert(bits.subrange(kend, kend + 32) =~= w3);
        lemma_be_value_of_value_bits(value.len(), 32);
        assert(decoded_value_len(bits, 0) == value.len());
        assert(bits.subrange(kend + 32, kend + 32 + 8 * value.len()) =~= bits_of(value));
        lemma_bytes_at_bits_of(bits, kend + 32, value);
    }
}

/// Text survives the trip: decoding what `write_msg` makes of a key and a
/// value gives back bytes that are valid UTF-8 and decode to that key and
/// (for `Add` and `Update`) that value; `Get` and `Remove` carry the empty
/// value. Lengths must fit in the 32 bits the format gives them.
pub proof fn lemma_text_survives_encoding(op: OP, key: Seq<char>, value: Seq<char>, rest: Seq<bool>)
    requires
        encode_utf8(key).len() < 0x1_0000_0000,
        carries_value(op) ==> encode_utf8(value).len() < 0x1_0000_0000,
    ensures
        ({
            let bits = message_bits(op, encode_utf8(key), encode_utf8(value)) + rest;
            &&& decodable(bits, 0)
            &&& decoded_op(bits, 0) == op
            &&& valid_utf8(decoded_key(bits, 0))
            &&& decode_utf8(decoded_key(bits, 0)) == key
            &&& valid_utf8(decoded_value(bits, 0))
            &&& decode_utf8(decoded_value(bits, 0)) == if carries_value(op) {
                value
            } else {
                Seq::<char>::empty()
            }
        }),
{
    lemma_decode_encoded(op, encode_utf8(key), encode_utf8(value), rest);
    encode_utf8_valid_utf8(key);
    encode_utf8_decode_utf8(key);
    if carries_value(op) {
        encode_utf8_valid_utf8(value);
        encode_utf8_decode_utf8(value);
    } else {
        assert(valid_utf8(Seq::<u8>::empty()));
        assert(decode_utf8(Seq::<u8>::empty()) =~= Seq::<char>::empty());
    }
}

/// Writing `a` bits of `x` and then `b` bits of `y` leaves the bits as one
/// write of `a + b` bits of `x` (its low `a` bits) followed by the low `b`
/// bits of `y`. With `write_bits`'s contract and `lemma_bits_of_injective`,
/// two writers that do these writes from one state end in one state.
pub proof fn lemma_write_bits_compose(
    base: Seq<bool>,
    p: int,
    x: nat,
    a: nat,
    y: nat,
    b: nat,
    n1: nat,
    n2: nat,
)
    requires
        0 <= p <= base.len(),
        p + a <= base.len() + n1,
        p + a + b <= base.len() + n1 + n2,
    ensures
        overwrite(
            overwrite(base + zeros(n1), p, value_bits(x, a)) + zeros(n2),
            p + a,
            value_bits(y, b),
        ) == overwrite(
            base + zeros(n1 + n2),
            p,
            value_bits((x % pow2(a)) * pow2(b) + y % pow2(b), a + b),
        ),
{
    lemma_overwrite_chain(base, p, value_bits(x, a), value_bits(y, b), n1, n2);
    lemma_value_bits_concat(x, a, y, b);
}

/// `Get` and `Remove` requests do not carry the value: two buffers that
/// `write_msg` made for such a request with different values are the same.
pub proof fn lemma_value_not_encoded(
    op: OP,
    key: Seq<u8>,
    v1: Seq<u8>,
    v2: Seq<u8>,
    w1: Seq<u8>,
    w2: Seq<u8>,
)
    requires
        !carries_value(op),
        bits_of(w1) == pad_to_bytes(message_bits(op, key, v1)),
        bits_of(w2) == pad_to_bytes(message_bits(op, key, v2)),
    ensures
        w1 == w2,
{
    assert(message_bits(op, key, v1) == message_bits(op, key, v2));
    lemma_bits_of_injective(w1, w2);
}

/// Decoding the bytes `write_msg` made, followed by any bytes, gives the
/// request back and ends where the request's bits end: what follows a
/// request in a buffer is ignored. Lengths must fit in the 32 bits the
/// format gives them.
pub proof fn lemma_decode_written_bytes(
    op: OP,
    key: Seq<u8>,
    value: Seq<u8>,
    written: Seq<u8>,
    extra: Seq<u8>,
)
    requires
        key.len() < 0x1_0000_0000,
        carries_value(op) ==> value.len() < 0x1_0000_0000,
        bits_of(written) == pad_to_bytes(message_bits(op, key, value)),
    ensures
        ({
            let bits = bits_of(written + extra);
            &&& decodable(bits, 0)
            &&& decoded_op(bits, 0) == op
            &&& decoded_key(bits, 0) == key
            &&& decoded_value(bits, 0) == if carries_value(op) {
                value
            } else {
                Seq::<u8>::empty()
            }
            &&& message_end(bits, 0) == message_bits(op, key, value).len()
        }),
{
    let m = message_bits(op, key, value);
    let pad = zeros((8 * bytes_for(m.len() as int) - m.len()) as nat);
    lemma_bits_of_append(written, extra);
    assert(bits_of(written + extra) =~= m + (pad + bits_of(extra)));
    lemma_decode_encoded(op, key, value, pad + bits_of(extra));
}

} // verus!
