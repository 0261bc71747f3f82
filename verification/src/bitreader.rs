//! A bit-granular reader over a byte buffer: unsigned n-bit reads (MSB
//! first), inline H.264 emulation-prevention stripping, Exp-Golomb
//! codes, alignment handling and the RBSP trailing-bit disciplines.
//!
//! The reader is specified through [`BitReader::remaining`], the exact
//! sequence of bits it will deliver: the bits of the buffer from the
//! current position onward, with every `0x03` byte that follows two
//! zero bytes removed.

use vstd::prelude::*;

use crate::ParserError;
use crate::BitReaderError;

verus! {

use crate::bits::bit_at;
use crate::bits::byte_bits;
use crate::bits::bytes_bits;
use crate::bits::bits_value;
use crate::bits::bits_bytes;
use crate::bits::lemma_bits_value_bound;
use crate::bits::lemma_bits_value_append;
use crate::bits::lemma_byte_bits_take;
use crate::bits::lemma_bytes_bits_first;
use crate::bits::lemma_mul_pow2_bound;
use crate::bits::lemma_u64_shl_or;
use crate::bits::lemma_byte_bits_shl;
use crate::bits::lemma_bits_value_one;
use crate::bits::lead_zeros;
use crate::bits::lemma_lead_zeros_at;
use crate::bits::lemma_lead_zeros_ge;
use crate::bits::ue_ok;
use crate::bits::ue_long;
use crate::bits::ue_eos;
use crate::bits::ue_value;
use crate::bits::ue_end;
use crate::bits::lemma_ue_value_bound;
use crate::bits::se_of;
use crate::bits::is_rbsp_stop;
use crate::ParserUnit;
use crate::ParserUnitError;
use vstd::arithmetic::power2::pow2;
use vstd::arithmetic::power2::lemma_pow2_strictly_increases;
use vstd::arithmetic::power2::lemma2_to64;
use vstd::arithmetic::power2::lemma2_to64_rest;

/// The byte stream delivered by the pull layer: the raw bytes with
/// every `0x03` that follows a run of exactly two zero bytes dropped.
/// `zeros` is the count of consecutive zero bytes already delivered.
pub open spec fn unescape(raw: Seq<u8>, zeros: nat) -> Seq<u8>
    decreases raw.len(),
{
    if raw.len() == 0 {
        Seq::empty()
    } else if zeros == 2 && raw[0] == 0x03 {
        unescape(raw.skip(1), 0)
    } else if raw[0] == 0x00 {
        seq![0u8] + unescape(raw.skip(1), zeros + 1)
    } else {
        seq![raw[0]] + unescape(raw.skip(1), 0)
    }
}

/// The number of raw bytes the pull layer consumes to deliver `k` more
/// bytes, starting from a run of `zeros` zero bytes already delivered:
/// stripped `0x03` bytes on the way are counted too.
pub open spec fn pull_count(raw: Seq<u8>, zeros: nat, k: nat) -> nat
    decreases raw.len(),
{
    if k == 0 || raw.len() == 0 {
        0
    } else if zeros == 2 && raw[0] == 0x03 {
        1 + pull_count(raw.skip(1), 0, k)
    } else if raw[0] == 0x00 {
        1 + pull_count(raw.skip(1), zeros + 1, (k - 1) as nat)
    } else {
        1 + pull_count(raw.skip(1), 0, (k - 1) as nat)
    }
}

/// The pull layer's zero-run counter after it has delivered `k` more
/// bytes.
pub open spec fn zeros_after(raw: Seq<u8>, zeros: nat, k: nat) -> nat
    decreases raw.len(),
{
    if k == 0 || raw.len() == 0 {
        zeros
    } else if zeros == 2 && raw[0] == 0x03 {
        zeros_after(raw.skip(1), 0, k)
    } else if raw[0] == 0x00 {
        zeros_after(raw.skip(1), zeros + 1, (k - 1) as nat)
    } else {
        zeros_after(raw.skip(1), 0, (k - 1) as nat)
    }
}

/// The pull layer never consumes more raw bytes than there are.
proof fn lemma_pull_count_le(raw: Seq<u8>, zeros: nat, k: nat)
    ensures
        pull_count(raw, zeros, k) <= raw.len(),
    decreases raw.len(),
{
    if k > 0 && raw.len() > 0 {
        if zeros == 2 && raw[0] == 0x03 {
            lemma_pull_count_le(raw.skip(1), 0, k);
        } else if raw[0] == 0x00 {
            lemma_pull_count_le(raw.skip(1), zeros + 1, (k - 1) as nat);
        } else {
            lemma_pull_count_le(raw.skip(1), 0, (k - 1) as nat);
        }
    }
}

/// Delivering `a + b` bytes is delivering `a`, then `b` more from the
/// raw suffix and zero-run state that the first `a` leave behind.
proof fn lemma_pull_split(raw: Seq<u8>, zeros: nat, a: nat, b: nat)
    ensures
        pull_count(raw, zeros, a + b) == pull_count(raw, zeros, a) + pull_count(
            raw.skip(pull_count(raw, zeros, a) as int),
            zeros_after(raw, zeros, a),
            b,
        ),
        zeros_after(raw, zeros, a + b) == zeros_after(
            raw.skip(pull_count(raw, zeros, a) as int),
            zeros_after(raw, zeros, a),
            b,
        ),
    decreases raw.len(),
{
    if a == 0 || raw.len() == 0 {
        assert(raw.skip(0) =~= raw);
    } else if zeros == 2 && raw[0] == 0x03 {
        lemma_pull_split(raw.skip(1), 0, a, b);
        lemma_pull_count_le(raw.skip(1), 0, a);
        assert(raw.skip(1 + pull_count(raw.skip(1), 0, a) as int) =~= raw.skip(1).skip(
            pull_count(raw.skip(1), 0, a) as int,
        ));
    } else {
        let z2: nat = if raw[0] == 0x00 {
            zeros + 1
        } else {
            0
        };
        lemma_pull_split(raw.skip(1), z2, (a - 1) as nat, b);
        lemma_pull_count_le(raw.skip(1), z2, (a - 1) as nat);
        assert((a + b - 1) as nat == (a - 1) as nat + b);
        assert(raw.skip(1 + pull_count(raw.skip(1), z2, (a - 1) as nat) as int) =~= raw.skip(
            1,
        ).skip(pull_count(raw.skip(1), z2, (a - 1) as nat) as int));
    }
}

/// A bit-addressable reader over an owned byte buffer.
pub struct BitReader {
    data: Vec<u8>,
    bits: u8,
    valid_bits: u8,
    num_zeroes: usize,
    /// Count of raw bytes pulled from the buffer so far.
    pub pos: usize,
    end_of_data: bool,
}

/// Builds the bit-reader error kind.
fn err(text: &'static str) -> (e: ParserError)
    ensures
        e is BitReaderError,
{
    ParserError::BitReaderError(BitReaderError::new(text))
}

/// Builds the invalid-stream error kind for a syntactic violation seen
/// by the bit reader.
fn invalid(text: &'static str) -> (e: ParserError)
    ensures
        e is InvalidStream,
{
    ParserError::InvalidStream(ParserUnitError::new(ParserUnit::Bits(), text))
}

impl BitReader {
    /// The raw bytes not yet pulled.
    pub closed spec fn raw(self) -> Seq<u8> {
        self.data@.skip(self.pos as int)
    }

    /// The bits of the current partial byte that have not been read.
    pub closed spec fn partial(self) -> Seq<bool> {
        byte_bits(self.bits).take(self.valid_bits as int)
    }

    /// The exact sequence of bits this reader will deliver, after
    /// emulation-prevention stripping.
    pub closed spec fn remaining(self) -> Seq<bool> {
        self.partial() + bytes_bits(unescape(self.raw(), self.num_zeroes as nat))
    }

    /// Whether a pull past the end of the buffer has happened.
    pub closed spec fn at_end(self) -> bool {
        self.end_of_data
    }

    /// The byte position, as a mathematical value: the count of raw
    /// bytes pulled so far, stripped `0x03` bytes included. For a
    /// well-formed reader it is a function of the buffer and of the
    /// bits left: see [`BitReader::lemma_byte_pos`].
    pub closed spec fn byte_pos(self) -> nat {
        self.pos as nat
    }

    /// The underlying buffer.
    pub closed spec fn stream(self) -> Seq<u8> {
        self.data@
    }

    /// The length of the underlying buffer.
    pub open spec fn stream_len(self) -> nat {
        self.stream().len()
    }

    /// The internal invariant, allowing a freshly pulled full byte.
    spec fn inv(self) -> bool {
        &&& self.valid_bits <= 8
        &&& self.pos <= self.data@.len()
        &&& self.num_zeroes <= self.pos
        &&& (self.end_of_data ==> self.remaining().len() == 0)
    }

    /// The byte position and the zero-run counter agree with the pull
    /// layer's path through the buffer: until a pull runs past the end,
    /// `pos` is exactly the raw cost of the bytes delivered so far;
    /// after that every raw byte has been pulled.
    spec fn pos_ok(self) -> bool {
        if self.end_of_data {
            self.pos == self.data@.len()
        } else {
            let u = unescape(self.data@, 0);
            let rest = unescape(self.raw(), self.num_zeroes as nat);
            &&& rest.len() <= u.len()
            &&& rest == u.skip(u.len() - rest.len())
            &&& self.pos == pull_count(self.data@, 0, (u.len() - rest.len()) as nat)
            &&& self.num_zeroes as nat == zeros_after(
                self.data@,
                0,
                (u.len() - rest.len()) as nat,
            )
        }
    }

    /// Well-formedness between reads: at most seven bits are held over.
    pub closed spec fn wf(self) -> bool {
        &&& self.inv()
        &&& self.pos_ok()
        &&& self.valid_bits <= 7
    }

    /// Creates a reader over an owned byte buffer, positioned at its
    /// first bit.
    pub fn new(data: Vec<u8>) -> (r: BitReader)
        ensures
            r.wf(),
            r.remaining() == bytes_bits(unescape(data@, 0)),
            !r.at_end(),
            r.byte_pos() == 0,
            r.stream() == data@,
    {
        let r = BitReader {
            data,
            bits: 0,
            valid_bits: 0,
            num_zeroes: 0,
            pos: 0,
            end_of_data: false,
        };
        proof {
            assert(r.raw() =~= r.data@);
            assert(r.partial() =~= Seq::<bool>::empty());
            assert(r.remaining() =~= bytes_bits(unescape(r.data@, 0)));
            assert(unescape(r.data@, 0) =~= unescape(r.data@, 0).skip(0));
        }
        r
    }

    /// Reads `n` bits (`n <= 64`) into an unsigned 64-bit integer, MSB
    /// first, right-aligned in the result.
    pub fn u64(&mut self, n: u8) -> (res: Result<u64, ParserError>)
        requires
            old(self).wf(),
        ensures
            final(self).wf(),
            final(self).stream() == old(self).stream(),
            old(self).byte_pos() <= final(self).byte_pos(),
            n > 64 ==> (res matches Err(e) && e is BitReaderError && *final(self) == *old(self)),
            n <= 64 && n <= old(self).remaining().len() ==> {
                &&& res matches Ok(v) && v == bits_value(old(self).remaining().take(n as int))
                &&& final(self).remaining() == old(self).remaining().skip(n as int)
                &&& final(self).at_end() == old(self).at_end()
            },
            n <= 64 && n > old(self).remaining().len() ==> {
                &&& res matches Err(e) && e is BitReaderEndOfStream
                &&& final(self).remaining().len() == 0
                &&& final(self).at_end()
            },
    {
        read(self, n)
    }

    /// Reads `n` bits (`n <= 32`) into an unsigned 32-bit integer.
    pub fn u32(&mut self, n: u8) -> (res: Result<u32, ParserError>)
        requires
            old(self).wf(),
        ensures
            final(self).wf(),
            final(self).stream() == old(self).stream(),
            old(self).byte_pos() <= final(self).byte_pos(),
            n > 32 ==> (res matches Err(e) && e is BitReaderError && *final(self) == *old(self)),
            n <= 32 && n <= old(self).remaining().len() ==> {
                &&& res matches Ok(v) && v == bits_value(old(self).remaining().take(n as int))
                &&& final(self).remaining() == old(self).remaining().skip(n as int)
                &&& final(self).at_end() == old(self).at_end()
            },
            n <= 32 && n > old(self).remaining().len() ==> {
                &&& res matches Err(e) && e is BitReaderEndOfStream
                &&& final(self).remaining().len() == 0
                &&& final(self).at_end()
            },
    {
        if n > 32 {
            return Err(err("too many bits, > 32"));
        }
        let u = match self.u64(n) {
            Ok(u) => u,
            Err(e) => return Err(e),
        };
        proof {
            lemma_bits_value_bound(old(self).remaining().take(n as int));
            assert(pow2(n as nat) <= pow2(32)) by {
                if (n as nat) < 32 {
                    lemma_pow2_strictly_increases(n as nat, 32);
                }
            }
            lemma2_to64();
        }
        if u > u32::MAX as u64 {
            return Err(err("u32 overflow"));
        }
        Ok(u as u32)
    }

    /// Reads `n` bits (`n <= 8`) into an unsigned 8-bit integer.
    pub fn u8(&mut self, n: u8) -> (res: Result<u8, ParserError>)
        requires
            old(self).wf(),
        ensures
            final(self).wf(),
            final(self).stream() == old(self).stream(),
            old(self).byte_pos() <= final(self).byte_pos(),
            n > 8 ==> (res matches Err(e) && e is BitReaderError && *final(self) == *old(self)),
            n <= 8 && n <= old(self).remaining().len() ==> {
                &&& res matches Ok(v) && v == bits_value(old(self).remaining().take(n as int))
                &&& final(self).remaining() == old(self).remaining().skip(n as int)
                &&& final(self).at_end() == old(self).at_end()
            },
            n <= 8 && n > old(self).remaining().len() ==> {
                &&& res matches Err(e) && e is BitReaderEndOfStream
                &&& final(self).remaining().len() == 0
                &&& final(self).at_end()
            },
    {
        if n > 8 {
            return Err(err("too many bits, > 8"));
        }
        let u = match self.u64(n) {
            Ok(u) => u,
            Err(e) => return Err(e),
        };
        proof {
            lemma_bits_value_bound(old(self).remaining().take(n as int));
            assert(pow2(n as nat) <= pow2(8)) by {
                if (n as nat) < 8 {
                    lemma_pow2_strictly_increases(n as nat, 8);
                }
            }
            lemma2_to64();
        }
        if u > u8::MAX as u64 {
            return Err(err("u8 overflow"));
        }
        Ok(u as u8)
    }

    /// Reads one whole byte; on a byte-aligned reader this is the next
    /// delivered byte.
    pub fn b(&mut self) -> (res: Result<u8, ParserError>)
        requires
            old(self).wf(),
        ensures
            final(self).wf(),
            final(self).stream() == old(self).stream(),
            old(self).byte_pos() <= final(self).byte_pos(),
            old(self).remaining().len() >= 8 ==> {
                &&& res matches Ok(v)
                &&& v as nat == bits_value(old(self).remaining().take(8))
                &&& v == bits_bytes(old(self).remaining())[0]
                &&& final(self).remaining() == old(self).remaining().skip(8)
                &&& final(self).at_end() == old(self).at_end()
            },
            old(self).remaining().len() < 8 ==> {
                &&& res matches Err(e) && e is BitReaderEndOfStream
                &&& final(self).remaining().len() == 0
                &&& final(self).at_end()
            },
    {
        let v = match self.u8(8) {
            Ok(v) => v,
            Err(e) => return Err(e),
        };
        proof {
            let s = old(self).remaining();
            assert(s.take(8) =~= s.subrange(0, 8));
            assert(s.len() as int / 8 >= 1) by {
                vstd::arithmetic::div_mod::lemma_div_is_ordered(8, s.len() as int, 8);
            }
            assert(bits_bytes(s)[0] == bits_value(s.subrange(0, 8)) as u8);
        }
        Ok(v)
    }

    /// Reads one bit as a flag.
    pub fn flag(&mut self) -> (res: Result<bool, ParserError>)
        requires
            old(self).wf(),
        ensures
            final(self).wf(),
            final(self).stream() == old(self).stream(),
            old(self).byte_pos() <= final(self).byte_pos(),
            old(self).remaining().len() >= 1 ==> {
                &&& res matches Ok(v)
                &&& v == old(self).remaining()[0]
                &&& final(self).remaining() == old(self).remaining().skip(1)
                &&& final(self).at_end() == old(self).at_end()
            },
            old(self).remaining().len() == 0 ==> {
                &&& res matches Err(e) && e is BitReaderEndOfStream
                &&& final(self).remaining().len() == 0
                &&& final(self).at_end()
            },
    {
        let u = match self.u64(1) {
            Ok(u) => u,
            Err(e) => return Err(e),
        };
        proof {
            let s = old(self).remaining();
            assert(s.take(1) =~= seq![s[0]]);
            crate::bits::lemma_bits_value_one(s[0]);
        }
        Ok(u == 1)
    }

    /// Whether the reader stands on a byte boundary of the delivered
    /// stream.
    pub fn is_byte_aligned(&self) -> (r: bool)
        requires
            self.wf(),
        ensures
            r == (self.remaining().len() % 8 == 0),
    {
        proof {
            self.lemma_remaining_mod();
        }
        self.valid_bits == 0 || self.valid_bits == 8
    }

    /// Discards any partial byte, moving to the next byte boundary.
    /// The emulation-prevention state is untouched.
    pub fn byte_align(&mut self)
        requires
            old(self).wf(),
        ensures
            final(self).wf(),
            final(self).stream() == old(self).stream(),
            final(self).byte_pos() == old(self).byte_pos(),
            final(self).remaining() == old(self).remaining().skip(
                old(self).remaining().len() as int % 8,
            ),
            final(self).at_end() == old(self).at_end(),
    {
        proof {
            old(self).lemma_remaining_mod();
        }
        self.valid_bits = 0;
        proof {
            assert(self.partial() =~= Seq::<bool>::empty());
            assert(self.remaining() =~= old(self).remaining().skip(
                old(self).valid_bits as int,
            ));
        }
    }

    /// Whether a read has run past the end of the buffer.
    pub fn reached_end_of_data(&self) -> (r: bool)
        ensures
            r == self.at_end(),
    {
        self.end_of_data
    }

    /// Decodes an unsigned Exp-Golomb code (H.264 section 9.1): a run
    /// of `z` zero bits, a one bit, then `z` suffix bits; the code
    /// number is `2^z - 1` plus the suffix value.
    pub fn ue64(&mut self) -> (res: Result<u64, ParserError>)
        requires
            old(self).wf(),
        ensures
            final(self).wf(),
            final(self).stream() == old(self).stream(),
            old(self).byte_pos() <= final(self).byte_pos(),
            ue_ok(old(self).remaining()) ==> {
                &&& res matches Ok(v) && v == ue_value(old(self).remaining())
                &&& final(self).remaining() == old(self).remaining().skip(
                    ue_end(old(self).remaining()),
                )
                &&& final(self).at_end() == old(self).at_end()
            },
            ue_long(old(self).remaining()) ==> {
                &&& res matches Err(e) && e is BitReaderError
                &&& final(self).remaining() == old(self).remaining().skip(
                    lead_zeros(old(self).remaining()) as int + 1,
                )
                &&& final(self).at_end() == old(self).at_end()
            },
            ue_eos(old(self).remaining()) ==> {
                &&& res matches Err(e) && e is BitReaderEndOfStream
                &&& final(self).remaining().len() == 0
                &&& final(self).at_end()
            },
    {
        let ghost s = self.remaining();
        let mut leading_zeroes: u16 = 0;
        let ghost mut k: int = 0;
        loop
            invariant_except_break
                self.remaining() == s.skip(k),
            invariant
                self.wf(),
                s == old(self).remaining(),
                0 <= k <= s.len(),
                forall|j: int| 0 <= j < k ==> !(#[trigger] s[j]),
                leading_zeroes as int == (if k < 65 {
                    k
                } else {
                    65
                }),
                self.at_end() == old(self).at_end(),
                self.stream() == old(self).stream(),
                old(self).byte_pos() <= self.byte_pos(),
            ensures
                0 <= k < s.len(),
                s[k],
                self.remaining() == s.skip(k + 1),
            decreases s.len() - k,
        {
            let bit = match self.u64(1) {
                Ok(b) => b,
                Err(e) => {
                    proof {
                        lemma_lead_zeros_at(s, k);
                    }
                    return Err(e);
                },
            };
            proof {
                assert(s.skip(k).take(1) =~= seq![s[k]]);
                lemma_bits_value_one(s[k]);
                assert(s.skip(k).skip(1) =~= s.skip(k + 1));
            }
            if bit == 1 {
                break ;
            }
            proof {
                k = k + 1;
            }
            if leading_zeroes < 65 {
                leading_zeroes = leading_zeroes + 1;
            }
        }
        proof {
            lemma_lead_zeros_at(s, k);
        }
        if leading_zeroes > 63 {
            return Err(err("exp-golomb code longer than 64 bits"));
        }
        let z = leading_zeroes as u8;
        let suffix = match self.u64(z) {
            Ok(v) => v,
            Err(e) => {
                return Err(e);
            },
        };
        proof {
            assert(s.skip(k + 1).take(k) =~= s.subrange(k + 1, 2 * k + 1));
            assert(s.skip(k + 1).skip(k) =~= s.skip(2 * k + 1));
            lemma_bits_value_bound(s.subrange(k + 1, 2 * k + 1));
            vstd::bits::lemma_u64_pow2_no_overflow(z as nat);
            vstd::bits::lemma_u64_shl_is_mul(1u64, z as u64);
            assert(pow2(k as nat) <= pow2(63)) by {
                if k < 63 {
                    lemma_pow2_strictly_increases(k as nat, 63);
                }
            }
            lemma2_to64_rest();
        }
        let base = (1u64 << (z as u64)) - 1;
        Ok(base + suffix)
    }

    /// Decodes an unsigned Exp-Golomb code into 32 bits, failing with
    /// an overflow error when the code number does not fit.
    pub fn ue32(&mut self) -> (res: Result<u32, ParserError>)
        requires
            old(self).wf(),
        ensures
            final(self).wf(),
            final(self).stream() == old(self).stream(),
            old(self).byte_pos() <= final(self).byte_pos(),
            ue_ok(old(self).remaining()) && ue_value(old(self).remaining()) <= u32::MAX ==> {
                &&& res matches Ok(v) && v == ue_value(old(self).remaining())
                &&& final(self).remaining() == old(self).remaining().skip(
                    ue_end(old(self).remaining()),
                )
                &&& final(self).at_end() == old(self).at_end()
            },
            ue_ok(old(self).remaining()) && ue_value(old(self).remaining()) > u32::MAX ==> {
                &&& res matches Err(e) && e is BitReaderError
                &&& final(self).remaining() == old(self).remaining().skip(
                    ue_end(old(self).remaining()),
                )
                &&& final(self).at_end() == old(self).at_end()
            },
            ue_long(old(self).remaining()) ==> (res matches Err(e) && e is BitReaderError),
            ue_eos(old(self).remaining()) ==> {
                &&& res matches Err(e) && e is BitReaderEndOfStream
                &&& final(self).remaining().len() == 0
                &&& final(self).at_end()
            },
    {
        let ue = match self.ue64() {
            Ok(u) => u,
            Err(e) => return Err(e),
        };
        if ue > u32::MAX as u64 {
            return Err(err("u32 overflow"));
        }
        Ok(ue as u32)
    }

    /// Decodes an unsigned Exp-Golomb code into 8 bits, failing with an
    /// overflow error when the code number does not fit.
    pub fn ue8(&mut self) -> (res: Result<u8, ParserError>)
        requires
            old(self).wf(),
        ensures
            final(self).wf(),
            final(self).stream() == old(self).stream(),
            old(self).byte_pos() <= final(self).byte_pos(),
            ue_ok(old(self).remaining()) && ue_value(old(self).remaining()) <= u8::MAX ==> {
                &&& res matches Ok(v) && v == ue_value(old(self).remaining())
                &&& final(self).remaining() == old(self).remaining().skip(
                    ue_end(old(self).remaining()),
                )
                &&& final(self).at_end() == old(self).at_end()
            },
            ue_ok(old(self).remaining()) && ue_value(old(self).remaining()) > u8::MAX ==> {
                &&& res matches Err(e) && e is BitReaderError
                &&& final(self).remaining() == old(self).remaining().skip(
                    ue_end(old(self).remaining()),
                )
                &&& final(self).at_end() == old(self).at_end()
            },
            ue_long(old(self).remaining()) ==> (res matches Err(e) && e is BitReaderError),
            ue_eos(old(self).remaining()) ==> {
                &&& res matches Err(e) && e is BitReaderEndOfStream
                &&& final(self).remaining().len() == 0
                &&& final(self).at_end()
            },
    {
        let ue = match self.ue64() {
            Ok(u) => u,
            Err(e) => return Err(e),
        };
        if ue > u8::MAX as u64 {
            return Err(err("u8 overflow"));
        }
        Ok(ue as u8)
    }

    /// Decodes a signed Exp-Golomb code (H.264 section 9.1.1): odd code
    /// numbers map to positive values, even ones to negatives.
    pub fn se64(&mut self) -> (res: Result<i64, ParserError>)
        requires
            old(self).wf(),
        ensures
            final(self).wf(),
            final(self).stream() == old(self).stream(),
            old(self).byte_pos() <= final(self).byte_pos(),
            ue_ok(old(self).remaining()) ==> {
                &&& res matches Ok(v) && v == se_of(ue_value(old(self).remaining()))
                &&& final(self).remaining() == old(self).remaining().skip(
                    ue_end(old(self).remaining()),
                )
                &&& final(self).at_end() == old(self).at_end()
            },
            ue_long(old(self).remaining()) ==> (res matches Err(e) && e is BitReaderError),
            ue_eos(old(self).remaining()) ==> {
                &&& res matches Err(e) && e is BitReaderEndOfStream
                &&& final(self).remaining().len() == 0
                &&& final(self).at_end()
            },
    {
        let code_num = match self.ue64() {
            Ok(u) => u,
            Err(e) => return Err(e),
        };
        proof {
            lemma_ue_value_bound(old(self).remaining());
            let c = code_num;
            assert((c & 1 == 1) == (c % 2 == 1) && c >> 1 == c / 2) by (bit_vector);
        }
        if code_num & 1 == 1 {
            let half = (code_num >> 1) + 1;
            proof {
                assert(code_num / 2 + 1 == (code_num + 1) as int / 2) by {
                    vstd::arithmetic::div_mod::lemma_fundamental_div_mod(code_num as int, 2);
                    vstd::arithmetic::div_mod::lemma_fundamental_div_mod_converse_div(
                        code_num as int + 1,
                        2,
                        code_num as int / 2 + 1,
                        0,
                    );
                }
            }
            Ok(half as i64)
        } else {
            let half = code_num / 2;
            Ok(-(half as i64))
        }
    }

    /// Decodes a signed Exp-Golomb code into 8 bits, failing with an
    /// overflow error when the value does not fit.
    pub fn se8(&mut self) -> (res: Result<i8, ParserError>)
        requires
            old(self).wf(),
        ensures
            final(self).wf(),
            final(self).stream() == old(self).stream(),
            old(self).byte_pos() <= final(self).byte_pos(),
            ue_ok(old(self).remaining()) && i8::MIN <= se_of(ue_value(old(self).remaining()))
                <= i8::MAX ==> {
                &&& res matches Ok(v) && v == se_of(ue_value(old(self).remaining()))
                &&& final(self).remaining() == old(self).remaining().skip(
                    ue_end(old(self).remaining()),
                )
                &&& final(self).at_end() == old(self).at_end()
            },
            ue_ok(old(self).remaining()) && !(i8::MIN <= se_of(ue_value(old(self).remaining()))
                <= i8::MAX) ==> {
                &&& res matches Err(e) && e is BitReaderError
                &&& final(self).remaining() == old(self).remaining().skip(
                    ue_end(old(self).remaining()),
                )
                &&& final(self).at_end() == old(self).at_end()
            },
            ue_long(old(self).remaining()) ==> (res matches Err(e) && e is BitReaderError),
            ue_eos(old(self).remaining()) ==> {
                &&& res matches Err(e) && e is BitReaderEndOfStream
                &&& final(self).remaining().len() == 0
                &&& final(self).at_end()
            },
    {
        let se = match self.se64() {
            Ok(v) => v,
            Err(e) => return Err(e),
        };
        if se > i8::MAX as i64 {
            return Err(err("i8 overflow"));
        }
        if se < i8::MIN as i64 {
            return Err(err("i8 underflow"));
        }
        Ok(se as i8)
    }

    /// Consumes the RBSP trailing bits: one `rbsp_stop_one_bit` that
    /// must be `1`, then zero bits up to the next byte boundary.
    pub fn rbsp_trailing_bits(&mut self) -> (res: Result<(), ParserError>)
        requires
            old(self).wf(),
        ensures
            final(self).wf(),
            final(self).stream() == old(self).stream(),
            old(self).byte_pos() <= final(self).byte_pos(),
            ({
                let s = old(self).remaining();
                let t: int = if s.len() % 8 == 0 {
                    8
                } else {
                    s.len() as int % 8
                };
                let w = lead_zeros(s.skip(1)) as int;
                &&& (s.len() >= t && s[0] && w >= t - 1) ==> {
                    &&& res is Ok
                    &&& final(self).remaining() == s.skip(t)
                    &&& final(self).remaining().len() % 8 == 0
                    &&& final(self).at_end() == old(self).at_end()
                }
                &&& (s.len() == 0) ==> {
                    &&& res matches Err(e) && e is BitReaderEndOfStream
                    &&& final(self).remaining().len() == 0
                    &&& final(self).at_end()
                }
                &&& (s.len() >= 1 && !s[0]) ==> {
                    &&& res matches Err(e) && e is InvalidStream
                    &&& final(self).remaining() == s.skip(1)
                    &&& final(self).at_end() == old(self).at_end()
                }
                &&& (s.len() >= 1 && s[0] && w < t - 1 && w < s.len() - 1) ==> {
                    &&& res matches Err(e) && e is InvalidStream
                    &&& final(self).remaining() == s.skip(w + 2)
                    &&& final(self).at_end() == old(self).at_end()
                }
                &&& (s.len() >= 1 && s[0] && w == s.len() - 1 && s.len() < t) ==> {
                    &&& res matches Err(e) && e is BitReaderEndOfStream
                    &&& final(self).remaining().len() == 0
                    &&& final(self).at_end()
                }
            }),
    {
        let ghost s = self.remaining();
        let ghost t: int = if s.len() % 8 == 0 {
            8
        } else {
            s.len() as int % 8
        };
        let stop = match self.u8(1) {
            Ok(v) => v,
            Err(e) => return Err(e),
        };
        proof {
            assert(s.take(1) =~= seq![s[0]]);
            lemma_bits_value_one(s[0]);
            lemma_align_target(s.len() as int, t);
        }
        if stop != 1 {
            return Err(invalid("rbsp_stop_one_bit is not 1"));
        }
        let ghost mut j: int = 1;
        while !self.is_byte_aligned()
            invariant
                self.wf(),
                s == old(self).remaining(),
                t == (if s.len() % 8 == 0 {
                    8
                } else {
                    s.len() as int % 8
                }),
                1 <= t <= 8 && t <= s.len() && (s.len() - t) % 8 == 0,
                s.len() >= 1 && s[0],
                1 <= j <= t,
                forall|i: int| 1 <= i < j ==> !(#[trigger] s[i]),
                self.remaining() == s.skip(j),
                self.at_end() == old(self).at_end(),
                self.stream() == old(self).stream(),
                old(self).byte_pos() <= self.byte_pos(),
            decreases t - j,
        {
            proof {
                lemma_align_point(s.len() as int, t, j);
            }
            let bit = match self.u8(1) {
                Ok(v) => v,
                Err(e) => {
                    proof {
                        assert(j == s.len());
                        assert forall|i: int| 0 <= i < j - 1 implies !(#[trigger] s.skip(1)[i]) by {
                            assert(s.skip(1)[i] == s[i + 1]);
                        }
                        lemma_lead_zeros_at(s.skip(1), j - 1);
                    }
                    return Err(e);
                },
            };
            proof {
                assert(s.skip(j).take(1) =~= seq![s[j]]);
                lemma_bits_value_one(s[j]);
                assert(s.skip(j).skip(1) =~= s.skip(j + 1));
            }
            if bit != 0 {
                proof {
                    assert forall|i: int| 0 <= i < j - 1 implies !(#[trigger] s.skip(1)[i]) by {
                        assert(s.skip(1)[i] == s[i + 1]);
                    }
                    assert(s.skip(1)[j - 1] == s[j]);
                    lemma_lead_zeros_at(s.skip(1), j - 1);
                }
                return Err(invalid("rbsp_alignment_zero_bit is not 0"));
            }
            proof {
                j = j + 1;
            }
        }
        proof {
            lemma_align_point(s.len() as int, t, j);
            assert(j == t);
            assert forall|i: int| 0 <= i < t - 1 implies !(#[trigger] s.skip(1)[i]) by {
                assert(s.skip(1)[i] == s[i + 1]);
            }
            lemma_lead_zeros_ge(s.skip(1), t - 1);
        }
        Ok(())
    }

    /// Looks ahead for more RBSP data: returns `false` exactly when the
    /// remaining bits are nothing, or one stop bit followed by zeros.
    /// The reader is restored on every path; no read result after the
    /// call is changed by it.
    pub fn more_rbsp_data(&mut self) -> (res: Result<bool, ParserError>)
        requires
            old(self).wf(),
        ensures
            final(self).wf(),
            res matches Ok(more) && more == !is_rbsp_stop(old(self).remaining()),
            final(self).remaining() == old(self).remaining(),
            final(self).at_end() == old(self).at_end(),
            final(self).byte_pos() == old(self).byte_pos(),
            final(self).stream() == old(self).stream(),
    {
        let saved_bits = self.bits;
        let saved_valid_bits = self.valid_bits;
        let saved_num_zeroes = self.num_zeroes;
        let saved_end_of_data = self.end_of_data;
        let saved_pos = self.pos;
        let ghost s = self.remaining();

        let mut more_data = false;
        match read(self, 1) {
            Err(_) => {},
            Ok(first) => {
                proof {
                    assert(s.take(1) =~= seq![s[0]]);
                    lemma_bits_value_one(s[0]);
                }
                if first == 0 {
                    more_data = true;
                } else {
                    let ghost mut i: int = 1;
                    loop
                        invariant_except_break
                            more_data == false,
                            self.remaining() == s.skip(i),
                        invariant
                            self.wf(),
                            self.data == old(self).data,
                            s == old(self).remaining(),
                            1 <= i <= s.len(),
                            s[0],
                            forall|j: int| 1 <= j < i ==> !(#[trigger] s[j]),
                        ensures
                            more_data == !is_rbsp_stop(s),
                        decreases s.len() - i,
                    {
                        match read(self, 1) {
                            Err(_) => {
                                proof {
                                    assert(i == s.len());
                                    assert(is_rbsp_stop(s));
                                }
                                break ;
                            },
                            Ok(next) => {
                                proof {
                                    assert(s.skip(i).take(1) =~= seq![s[i]]);
                                    lemma_bits_value_one(s[i]);
                                    assert(s.skip(i).skip(1) =~= s.skip(i + 1));
                                }
                                if next == 1 {
                                    more_data = true;
                                    proof {
                                        assert(!is_rbsp_stop(s));
                                    }
                                    break ;
                                }
                                proof {
                                    i = i + 1;
                                }
                            },
                        }
                    }
                }
            },
        }
        self.bits = saved_bits;
        self.valid_bits = saved_valid_bits;
        self.num_zeroes = saved_num_zeroes;
        self.end_of_data = saved_end_of_data;
        self.pos = saved_pos;
        proof {
            assert(self.raw() == old(self).raw());
            assert(self.partial() == old(self).partial());
        }
        Ok(more_data)
    }

    /// The byte position law: until a pull has run past the end of the
    /// data, the position is exactly the raw cost — stripped `0x03`
    /// bytes included — of the delivered bytes consumed so far, which
    /// makes it a function of the buffer and of the number of bits
    /// left; after a pull past the end, every raw byte has been pulled.
    /// A new byte is pulled only when the current partial byte has no
    /// valid bits left.
    pub proof fn lemma_byte_pos(self)
        requires
            self.wf(),
        ensures
            self.at_end() ==> self.byte_pos() == self.stream_len(),
            !self.at_end() ==> self.byte_pos() == pull_count(
                self.stream(),
                0,
                (unescape(self.stream(), 0).len() - self.remaining().len() / 8) as nat,
            ),
    {
        if !self.end_of_data {
            let u = unescape(self.data@, 0);
            let rest = unescape(self.raw(), self.num_zeroes as nat);
            assert(self.partial().len() == self.valid_bits as int);
            assert(bytes_bits(rest).len() == rest.len() * 8);
            assert(self.remaining().len() == self.valid_bits + rest.len() * 8);
            assert(self.remaining().len() as int / 8 == rest.len()) by {
                vstd::arithmetic::div_mod::lemma_fundamental_div_mod_converse_div(
                    self.valid_bits as int + rest.len() * 8,
                    8,
                    rest.len() as int,
                    self.valid_bits as int,
                );
            }
        }
    }

    /// The length of the remaining delivered stream is congruent to the
    /// partial-bit count modulo eight.
    proof fn lemma_remaining_mod(self)
        requires
            self.wf(),
        ensures
            self.remaining().len() % 8 == self.valid_bits as int,
    {
        let k = bytes_bits(unescape(self.raw(), self.num_zeroes as nat)).len() as int / 8;
        assert(bytes_bits(unescape(self.raw(), self.num_zeroes as nat)).len() % 8 == 0) by {
            vstd::arithmetic::div_mod::lemma_mod_multiples_basic(
                unescape(self.raw(), self.num_zeroes as nat).len() as int,
                8,
            );
            assert(unescape(self.raw(), self.num_zeroes as nat).len() * 8 == 8 * unescape(
                self.raw(),
                self.num_zeroes as nat,
            ).len());
        }
        vstd::arithmetic::div_mod::lemma_add_mod_noop(
            self.valid_bits as int,
            bytes_bits(unescape(self.raw(), self.num_zeroes as nat)).len() as int,
            8,
        );
        vstd::arithmetic::div_mod::lemma_small_mod(self.valid_bits as nat, 8);
    }
}

/// Pulls the next byte into the partial-byte register when it is
/// empty, stripping emulation-prevention bytes; the delivered bit
/// stream is unchanged by a pull.
fn ensure(r: &mut BitReader) -> (res: Result<(), ParserError>)
    requires
        old(r).inv(),
        old(r).pos_ok(),
    ensures
        final(r).inv(),
        final(r).pos_ok(),
        final(r).stream() == old(r).stream(),
        old(r).byte_pos() <= final(r).byte_pos(),
        final(r).data == old(r).data,
        old(r).valid_bits > 0 ==> res is Ok && *final(r) == *old(r),
        old(r).valid_bits == 0 ==> final(r).remaining() == old(r).remaining(),
        old(r).valid_bits == 0 && old(r).remaining().len() > 0 ==> {
            &&& res is Ok
            &&& final(r).valid_bits == 8
            &&& final(r).end_of_data == old(r).end_of_data
        },
        old(r).valid_bits == 0 && old(r).remaining().len() == 0 ==> {
            &&& res matches Err(e) && e is BitReaderEndOfStream
            &&& final(r).end_of_data
            &&& final(r).valid_bits == 0
        },
{
    if r.valid_bits > 0 {
        return Ok(());
    }
    let ghost rem0 = r.remaining();
    let ghost rawe = old(r).raw();
    let ghost ze = old(r).num_zeroes as nat;
    loop
        invariant
            r.inv(),
            r.valid_bits == 0,
            old(r).valid_bits == 0,
            r.data == old(r).data,
            rem0 == old(r).remaining(),
            r.remaining() == rem0,
            r.end_of_data == old(r).end_of_data,
            old(r).pos <= r.pos,
            rawe == old(r).raw(),
            ze == old(r).num_zeroes as nat,
            old(r).pos_ok(),
            unescape(r.raw(), r.num_zeroes as nat) == unescape(rawe, ze),
            r.pos + pull_count(r.raw(), r.num_zeroes as nat, 1) == old(r).pos + pull_count(
                rawe,
                ze,
                1,
            ),
            zeros_after(r.raw(), r.num_zeroes as nat, 1) == zeros_after(rawe, ze, 1),
        decreases r.data@.len() - r.pos,
    {
        if r.pos >= r.data.len() {
            r.end_of_data = true;
            proof {
                assert(r.raw().len() == 0);
                assert(r.remaining() =~= Seq::<bool>::empty());
            }
            return Err(ParserError::BitReaderEndOfStream());
        }
        let ghost raw0 = r.raw();
        let ghost z0 = r.num_zeroes as nat;
        let byte = r.data[r.pos];
        r.pos = r.pos + 1;
        proof {
            assert(raw0[0] == byte);
            assert(r.raw() =~= raw0.skip(1));
        }
        if r.num_zeroes == 2 && byte == 0x03 {
            r.num_zeroes = 0;
            proof {
                assert(unescape(raw0, z0) == unescape(raw0.skip(1), 0));
                assert(r.remaining() =~= rem0);
                assert(pull_count(raw0, z0, 1) == 1 + pull_count(raw0.skip(1), 0, 1));
                assert(zeros_after(raw0, z0, 1) == zeros_after(raw0.skip(1), 0, 1));
            }
        } else {
            if byte == 0x00 {
                r.num_zeroes = r.num_zeroes + 1;
            } else {
                r.num_zeroes = 0;
            }
            r.bits = byte;
            r.valid_bits = 8;
            proof {
                let u = unescape(raw0, z0);
                assert(u == seq![byte] + unescape(raw0.skip(1), r.num_zeroes as nat));
                assert(u.len() > 0 && u[0] == byte);
                assert(u.skip(1) =~= unescape(raw0.skip(1), r.num_zeroes as nat));
                lemma_bytes_bits_first(u);
                assert(r.partial() =~= byte_bits(byte));
                assert(r.remaining() =~= rem0);
                // One delivered byte costs exactly this raw pull.
                assert(pull_count(raw0, z0, 1) == 1 + pull_count(
                    raw0.skip(1),
                    r.num_zeroes as nat,
                    0,
                ));
                assert(zeros_after(raw0, z0, 1) == zeros_after(
                    raw0.skip(1),
                    r.num_zeroes as nat,
                    0,
                ));
                // The position law is kept: the delivered count went up
                // by one, and the pull layer's path with it.
                assert(!old(r).end_of_data) by {
                    if old(r).end_of_data {
                        assert(old(r).pos == r.data@.len());
                    }
                }
                let all = unescape(r.data@, 0);
                let reste = unescape(rawe, ze);
                let d0 = all.len() - reste.len();
                assert(reste == u);
                assert(reste.len() >= 1);
                lemma_pull_split(r.data@, 0, d0 as nat, 1);
                assert(rawe == r.data@.skip(old(r).pos as int));
                assert(pull_count(r.data@, 0, (d0 + 1) as nat) == old(r).pos + pull_count(
                    rawe,
                    ze,
                    1,
                ));
                assert(zeros_after(r.data@, 0, (d0 + 1) as nat) == zeros_after(rawe, ze, 1));
                let restf = unescape(r.raw(), r.num_zeroes as nat);
                assert(restf == reste.skip(1));
                assert(all.skip(d0).skip(1) =~= all.skip(d0 + 1));
                assert(restf == all.skip(d0 + 1));
                assert(restf.len() == reste.len() - 1);
                assert((all.len() - restf.len()) as nat == (d0 + 1) as nat);
                assert(r.pos_ok());
            }
            return Ok(());
        }
    }
}

/// Reads `n` bits into an unsigned 64-bit integer, MSB first.
fn read(r: &mut BitReader, n: u8) -> (res: Result<u64, ParserError>)
    requires
        old(r).wf(),
    ensures
        final(r).wf(),
        final(r).data == old(r).data,
        final(r).stream() == old(r).stream(),
        old(r).byte_pos() <= final(r).byte_pos(),
        n > 64 ==> (res matches Err(e) && e is BitReaderError && *final(r) == *old(r)),
        n <= 64 && n <= old(r).remaining().len() ==> {
            &&& res matches Ok(v) && v == bits_value(old(r).remaining().take(n as int))
            &&& final(r).remaining() == old(r).remaining().skip(n as int)
            &&& final(r).at_end() == old(r).at_end()
        },
        n <= 64 && n > old(r).remaining().len() ==> {
            &&& res matches Err(e) && e is BitReaderEndOfStream
            &&& final(r).remaining().len() == 0
            &&& final(r).at_end()
        },
{
    let mut requested_bits = n;
    let mut u: u64 = 0;

    if n > 64 {
        return Err(err("too many bits, > 64"));
    }
    let ghost s0 = r.remaining();
    proof {
        assert(s0.take(0) =~= Seq::<bool>::empty());
        lemma2_to64();
    }
    while requested_bits > 0
        invariant
            r.wf(),
            r.data == old(r).data,
            requested_bits <= n <= 64,
            s0 == old(r).remaining(),
            n - requested_bits <= s0.len(),
            r.remaining() == s0.skip(n - requested_bits),
            u == bits_value(s0.take(n - requested_bits)),
            u < pow2((n - requested_bits) as nat),
            r.at_end() == old(r).at_end(),
            r.stream() == old(r).stream(),
            old(r).byte_pos() <= r.byte_pos(),
        decreases requested_bits,
    {
        let ghost c = n as int - requested_bits as int;
        match ensure(r) {
            Ok(()) => {},
            Err(e) => {
                proof {
                    assert(r.remaining().len() == 0);
                    assert(s0.skip(c).len() == 0);
                    assert(s0.len() == c);
                }
                return Err(e);
            },
        }
        proof {
            assert(r.remaining() == s0.skip(c));
            assert(1 <= r.valid_bits <= 8);
            assert(r.remaining().take(r.valid_bits as int) =~= r.partial());
        }
        let ghost head = r.remaining();
        if requested_bits >= r.valid_bits {
            let muted_bits = 8 - r.valid_bits;
            let taken = r.valid_bits;
            let chunk = r.bits >> muted_bits;
            proof {
                let b0 = r.bits;
                lemma_byte_bits_take(b0, taken as int);
                assert((chunk as u32) == (b0 as u32) >> (muted_bits as u32)) by (bit_vector)
                    requires
                        chunk == b0 >> muted_bits,
                        muted_bits < 8,
                ;
                assert(muted_bits as u32 == (8 - taken as int) as u32);
                assert(chunk as nat == bits_value(head.take(taken as int)));
                lemma_join(s0, c, taken as int, u, chunk as u64);
            }
            u = (u << (taken as u64)) | (chunk as u64);
            requested_bits = requested_bits - taken;
            r.valid_bits = 0;
            proof {
                assert(r.partial() =~= Seq::<bool>::empty());
                assert(r.remaining() =~= head.skip(taken as int));
                assert(r.remaining() =~= s0.skip(c + taken));
            }
        } else {
            let taken = requested_bits;
            let muted_bits = 8 - taken;
            let chunk = r.bits >> muted_bits;
            let ghost bits0 = r.bits;
            let ghost valid0 = r.valid_bits as int;
            proof {
                let b0 = r.bits;
                lemma_byte_bits_take(b0, taken as int);
                assert((chunk as u32) == (b0 as u32) >> (muted_bits as u32)) by (bit_vector)
                    requires
                        chunk == b0 >> muted_bits,
                        muted_bits < 8,
                ;
                assert(muted_bits as u32 == (8 - taken as int) as u32);
                assert(head.take(taken as int) =~= r.partial().take(taken as int));
                assert(byte_bits(b0).take(taken as int) =~= r.partial().take(taken as int));
                assert(chunk as nat == bits_value(head.take(taken as int)));
                lemma_join(s0, c, taken as int, u, chunk as u64);
            }
            u = (u << (taken as u64)) | (chunk as u64);
            r.bits = r.bits << taken;
            r.valid_bits = r.valid_bits - taken;
            requested_bits = 0;
            proof {
                assert forall|i: int| 0 <= i < r.valid_bits as int implies r.partial()[i]
                    == byte_bits(bits0)[i + taken as int] by {
                    lemma_byte_bits_shl(bits0, taken, i as u8);
                }
                assert(r.partial() =~= byte_bits(bits0).take(valid0).skip(taken as int));
                assert(r.remaining() =~= head.skip(taken as int));
                assert(r.remaining() =~= s0.skip(c + taken));
            }
        }
    }
    proof {
        assert(r.remaining() =~= s0.skip(n as int));
        assert(u == bits_value(s0.take(n as int)));
    }
    Ok(u)
}

/// The number of bits between the stop bit and the next byte boundary
/// of the delivered stream: consuming exactly `t` bits from `len`
/// reaches a byte boundary, and `t` is between one and eight.
proof fn lemma_align_target(len: int, t: int)
    requires
        len >= 1,
        t == (if len % 8 == 0 {
            8int
        } else {
            len % 8
        }),
    ensures
        1 <= t <= 8,
        t <= len,
        (len - t) % 8 == 0,
{
    if len % 8 == 0 {
        assert(len >= 8) by {
            if len < 8 {
                vstd::arithmetic::div_mod::lemma_small_mod(len as nat, 8);
            }
        }
        vstd::arithmetic::div_mod::lemma_mod_sub_multiples_vanish(len, 8);
    } else {
        vstd::arithmetic::div_mod::lemma_fundamental_div_mod(len, 8);
        vstd::arithmetic::div_mod::lemma_mod_multiples_basic(len / 8, 8);
        assert(len - len % 8 == (len / 8) * 8);
    }
}

/// Consuming `j` of the `t` bits up to the byte boundary reaches the
/// boundary exactly at `j == t`.
proof fn lemma_align_point(len: int, t: int, j: int)
    requires
        1 <= j <= t <= 8,
        t <= len,
        (len - t) % 8 == 0,
    ensures
        ((len - j) % 8 == 0) == (j == t),
{
    if j != t {
        assert(0 < t - j < 8);
        vstd::arithmetic::div_mod::lemma_add_mod_noop(len - t, t - j, 8);
        vstd::arithmetic::div_mod::lemma_small_mod((t - j) as nat, 8);
        assert((len - j) % 8 == t - j);
    }
}

/// `u * 2^t + chunk` is the value of the first `c + t` bits when `u`
/// is the value of the first `c` and `chunk` that of the `t` after
/// them; the shift-and-or in `read` computes exactly that.
proof fn lemma_join(s0: Seq<bool>, c: int, t: int, u: u64, chunk: u64)
    requires
        0 <= c,
        1 <= t <= 8,
        c + t <= 64,
        c + t <= s0.len(),
        u == bits_value(s0.take(c)),
        u < pow2(c as nat),
        chunk == bits_value(s0.skip(c).take(t)),
    ensures
        ((u << (t as u64)) | chunk) == bits_value(s0.take(c + t)),
        bits_value(s0.take(c + t)) < pow2((c + t) as nat),
{
    let piece = s0.skip(c).take(t);
    assert(s0.take(c + t) =~= s0.take(c) + piece);
    lemma_bits_value_append(s0.take(c), piece);
    lemma_bits_value_bound(piece);
    lemma_mul_pow2_bound(u as nat, c as nat, t as nat);
    lemma_bits_value_bound(s0.take(c + t));
    assert(pow2(64) == 0x10000000000000000) by {
        lemma2_to64();
        lemma2_to64_rest();
    }
    assert(pow2((c + t) as nat) <= pow2(64)) by {
        if c + t < 64 {
            vstd::arithmetic::power2::lemma_pow2_strictly_increases((c + t) as nat, 64);
        }
    }
    lemma_u64_shl_or(u, chunk, t as u64);
}

} // verus!
