//! NAL unit framing: locating start codes in an Annex B stream,
//! decoding the one-byte NAL header, and separating one NAL unit's
//! RBSP payload from the stream.
//!
//! Both scanners work on the delivered byte stream (after
//! emulation-prevention stripping) and are specified through
//! [`find_start_from`]: a terminator is a `0x01` byte right after a
//! run of exactly two or three zero bytes.

use vstd::prelude::*;

use crate::ParserError;
use crate::ParserUnit;
use crate::ParserUnitError;
use crate::bitreader::BitReader;

verus! {

use crate::bits::bits_value;
use crate::bits::bits_bytes;
use crate::bits::bytes_bits;
use crate::bits::byte_bits;
use crate::bits::lemma_bytes_of_bits;
use crate::bits::lemma_bits_bytes_of_bytes;
use crate::bits::lemma_bytes_bits_byte;
use crate::bits::lemma_bytes_bits_skip;
use crate::bits::lemma_byte_bits_sub;
use vstd::arithmetic::power2::lemma2_to64;

/// A decoded NAL unit header.
#[derive(Debug)]
pub struct NalUnit {
    pub nal_ref_idc: u8,
    pub nal_unit_type: u8,
    pub svc_extension_flag: bool,
    pub avc_3d_extension_flag: bool,
}

/// The length of the run of zero bytes immediately before index `i`.
pub open spec fn zero_run(d: Seq<u8>, i: int) -> nat
    recommends
        0 <= i <= d.len(),
    decreases i,
{
    if i <= 0 {
        0
    } else if d[i - 1] == 0x00 {
        zero_run(d, i - 1) + 1
    } else {
        0
    }
}

/// A start-code terminator as the scanners recognise it: a `0x01` byte
/// right after a run of exactly two or three zero bytes.
pub open spec fn is_start_at(d: Seq<u8>, i: int) -> bool {
    d[i] == 0x01 && (zero_run(d, i) == 2 || zero_run(d, i) == 3)
}

/// The first terminator index at or after `i`, if any.
pub open spec fn find_start_from(d: Seq<u8>, i: int) -> Option<int>
    decreases d.len() - i,
{
    if i < 0 || i >= d.len() {
        None
    } else if is_start_at(d, i) {
        Some(i)
    } else {
        find_start_from(d, i + 1)
    }
}

/// A NAL unit type whose extension header this parser does not decode.
pub open spec fn is_ext_type(t: u8) -> bool {
    t == 14 || t == 20 || t == 21
}

/// A zero run never reaches back past the start of the sequence.
proof fn lemma_zero_run_le(d: Seq<u8>, i: int)
    requires
        0 <= i <= d.len(),
    ensures
        zero_run(d, i) <= i,
    decreases i,
{
    if i > 0 && d[i - 1] == 0x00 {
        lemma_zero_run_le(d, i - 1);
    }
}

/// Scanning may begin at `b` when no terminator lies in `[a, b)`.
proof fn lemma_find_start_shift(d: Seq<u8>, a: int, b: int)
    requires
        0 <= a <= b,
        forall|j: int| a <= j < b ==> !is_start_at(d, j),
    ensures
        find_start_from(d, a) == find_start_from(d, b),
    decreases b - a,
{
    if a < b {
        if a >= d.len() {
            assert(b >= d.len());
        } else {
            lemma_find_start_shift(d, a + 1, b);
        }
    }
}

/// Builds the invalid-stream error kind for the NAL unit.
fn err(text: &'static str) -> (e: ParserError)
    ensures
        e is InvalidStream,
{
    ParserError::InvalidStream(ParserUnitError::new(ParserUnit::Nal(), text))
}

/// Builds the not-implemented error kind for the NAL unit.
fn not_impl(text: &'static str) -> (e: ParserError)
    ensures
        e is NotImplemented,
{
    ParserError::NotImplemented(ParserUnitError::new(ParserUnit::Nal(), text))
}

impl NalUnit {
    /// Positions the reader right after the next start code, scanning
    /// bytes from the next byte boundary. Returns `Ok(true)` right
    /// after a start code, `Ok(false)` when the data ends first.
    pub fn next(r: &mut BitReader) -> (res: Result<bool, ParserError>)
        requires
            old(r).wf(),
        ensures
            final(r).wf(),
            final(r).stream() == old(r).stream(),
            old(r).byte_pos() <= final(r).byte_pos(),
            ({
                let d = bits_bytes(
                    old(r).remaining().skip(old(r).remaining().len() as int % 8),
                );
                match find_start_from(d, 0) {
                    Some(i) => {
                        &&& res matches Ok(b) && b == true
                        &&& final(r).remaining() == bytes_bits(d.skip(i + 1))
                        &&& final(r).at_end() == old(r).at_end()
                    },
                    None => {
                        &&& res matches Ok(b) && b == false
                        &&& final(r).remaining().len() == 0
                        &&& final(r).at_end()
                    },
                }
            }),
    {
        let mut num_zeroes: usize = 0;

        r.byte_align();
        let ghost d = bits_bytes(r.remaining());
        proof {
            lemma_bytes_of_bits(r.remaining());
        }
        let ghost mut k: int = 0;
        proof {
            lemma_bits_bytes_of_bytes(d);
        }
        loop
            invariant
                r.wf(),
                0 <= k <= d.len(),
                d == bits_bytes(old(r).remaining().skip(old(r).remaining().len() as int % 8)),
                r.remaining() == bytes_bits(d.skip(k)),
                num_zeroes == (if zero_run(d, k) < 4 {
                    zero_run(d, k)
                } else {
                    4nat
                }),
                forall|j: int| 0 <= j < k ==> !is_start_at(d, j),
                r.at_end() == old(r).at_end(),
                r.stream() == old(r).stream(),
                old(r).byte_pos() <= r.byte_pos(),
            decreases d.len() - k,
        {
            match r.b() {
                Ok(byte) => {
                    proof {
                        assert(k < d.len()) by {
                            if k == d.len() {
                                assert(d.skip(k).len() == 0);
                            }
                        }
                        lemma_bits_bytes_of_bytes(d.skip(k));
                        assert(byte == d.skip(k)[0]);
                        assert(byte == d[k]);
                        lemma_bytes_bits_skip(d.skip(k), 1);
                        assert(d.skip(k).skip(1) =~= d.skip(k + 1));
                        lemma_zero_run_le(d, k);
                    }
                    if byte == 0x00 {
                        if num_zeroes < 4 {
                            num_zeroes = num_zeroes + 1;
                        }
                    } else if byte == 0x01 {
                        if num_zeroes == 2 || num_zeroes == 3 {
                            proof {
                                assert(is_start_at(d, k));
                                lemma_find_start_shift(d, 0, k);
                            }
                            return Ok(true);
                        }
                        num_zeroes = 0;
                    } else {
                        num_zeroes = 0;
                    }
                    proof {
                        k = k + 1;
                    }
                },
                Err(e) => {
                    proof {
                        assert(r.remaining().len() < 8);
                        assert(k == d.len()) by {
                            if k < d.len() {
                                assert(bytes_bits(d.skip(k)).len() == d.skip(k).len() * 8);
                            }
                        }
                        lemma_find_start_shift(d, 0, k);
                    }
                    match e {
                        ParserError::BitReaderEndOfStream() => {
                            return Ok(false);
                        },
                        _ => {
                            return Err(e);
                        },
                    }
                },
            }
        }
    }

    /// Parses one NAL unit whose header starts at the reader's current
    /// position, which must be a byte boundary right after a start
    /// code. Returns the decoded header and the RBSP bytes, leaving the
    /// reader right after the next start code (or at the end of data).
    pub fn parse(r: &mut BitReader) -> (res: Result<(NalUnit, Vec<u8>), ParserError>)
        requires
            old(r).wf(),
        ensures
            final(r).wf(),
            final(r).stream() == old(r).stream(),
            old(r).byte_pos() <= final(r).byte_pos(),
            ({
                let s = old(r).remaining();
                let d = bits_bytes(s);
                let body = d.skip(1);
                &&& s.len() % 8 != 0 ==> {
                    &&& res matches Err(e) && e is InvalidStream
                    &&& final(r).remaining() == s
                    &&& final(r).at_end() == old(r).at_end()
                }
                &&& s.len() % 8 == 0 && d.len() == 0 ==> {
                    &&& res matches Err(e) && e is BitReaderEndOfStream
                    &&& final(r).remaining().len() == 0
                    &&& final(r).at_end()
                }
                &&& s.len() % 8 == 0 && d.len() > 0 && d[0] >= 0x80 ==> {
                    &&& res matches Err(e) && e is InvalidStream
                    &&& final(r).remaining() == s.skip(1)
                    &&& final(r).at_end() == old(r).at_end()
                }
                &&& s.len() % 8 == 0 && d.len() > 0 && d[0] < 0x80 && is_ext_type(d[0] & 0x1f)
                    ==> {
                    &&& d.len() >= 2 ==> {
                        &&& res matches Err(e) && e is NotImplemented
                        &&& final(r).remaining() == s.skip(9)
                        &&& final(r).at_end() == old(r).at_end()
                    }
                    &&& d.len() < 2 ==> {
                        &&& res matches Err(e) && e is BitReaderEndOfStream
                        &&& final(r).remaining().len() == 0
                        &&& final(r).at_end()
                    }
                }
                &&& s.len() % 8 == 0 && d.len() > 0 && d[0] < 0x80 && !is_ext_type(d[0] & 0x1f)
                    ==> {
                    &&& res matches Ok(p)
                    &&& p.0.nal_ref_idc == (d[0] >> 5) & 0x03
                    &&& p.0.nal_unit_type == d[0] & 0x1f
                    &&& !p.0.svc_extension_flag
                    &&& !p.0.avc_3d_extension_flag
                    &&& match find_start_from(body, 0) {
                        Some(i) => {
                            &&& p.1@ == body.take(i - zero_run(body, i))
                            &&& final(r).remaining() == bytes_bits(body.skip(i + 1))
                            &&& final(r).at_end() == old(r).at_end()
                        },
                        None => {
                            &&& p.1@ == body
                            &&& final(r).remaining().len() == 0
                            &&& final(r).at_end()
                        },
                    }
                }
            }),
    {
        let ghost s = r.remaining();
        let ghost d = bits_bytes(s);
        let ghost body = d.skip(1);

        if !r.is_byte_aligned() {
            return Err(err("should be byte aligned at start of nal"));
        }
        proof {
            lemma_bytes_of_bits(s);
            if d.len() > 0 {
                lemma_bytes_bits_byte(d, 0);
                assert(byte_bits(d[0]) == s.subrange(0, 8));
                lemma_header_fields(d[0]);
                assert(s.take(1) =~= byte_bits(d[0]).subrange(0, 1));
                assert(s.skip(1).take(2) =~= byte_bits(d[0]).subrange(1, 3));
                assert(s.skip(1).skip(2) =~= s.skip(3));
                assert(s.skip(3).take(5) =~= byte_bits(d[0]).subrange(3, 8));
                assert(s.skip(3).skip(5) =~= s.skip(8));
                lemma_bytes_bits_skip(d, 1);
            }
        }

        let forbidden_zero_bit = match r.u64(1) {
            Ok(v) => v,
            Err(e) => {
                return Err(e);
            },
        };
        if forbidden_zero_bit != 0 {
            return Err(err("forbidden_zero_bit is not 0"));
        }

        let nal_ref_idc = match r.u8(2) {
            Ok(v) => v,
            Err(e) => return Err(e),
        };
        let nal_unit_type = match r.u8(5) {
            Ok(v) => v,
            Err(e) => return Err(e),
        };
        proof {
            assert(nal_ref_idc == (d[0] >> 5) & 0x03);
            assert(nal_unit_type == d[0] & 0x1f);
            assert(r.remaining() == bytes_bits(body));
        }

        let svc_extension_flag = false;
        let avc_3d_extension_flag = false;

        if nal_unit_type == 14 || nal_unit_type == 20 || nal_unit_type == 21 {
            let ext = if nal_unit_type != 21 {
                match r.flag() {
                    Ok(v) => v,
                    Err(e) => return Err(e),
                }
            } else {
                match r.flag() {
                    Ok(v) => v,
                    Err(e) => return Err(e),
                }
            };
            proof {
                assert(bytes_bits(body).skip(1) =~= s.skip(9));
            }
            if nal_unit_type == 21 {
                return Err(not_impl("avc 3d extension not implemented"));
            }
            if ext {
                return Err(not_impl("svc extension not implemented"));
            }
            return Err(not_impl("mvc extension not implemented"));
        }

        if !r.is_byte_aligned() {
            return Err(err("should be byte aligned at start of nal rbsp"));
        }

        let nal = NalUnit {
            nal_ref_idc,
            nal_unit_type,
            svc_extension_flag,
            avc_3d_extension_flag,
        };

        // Accumulate RBSP bytes until the next start code or the end
        // of the data; the run of zeros before the start code and the
        // 0x01 itself are not part of the RBSP.
        let mut rbsp: Vec<u8> = Vec::new();
        let mut num_zeroes: usize = 0;
        let ghost mut k: int = 0;
        proof {
            assert(rbsp@ =~= body.take(0));
        }
        loop
            invariant
                r.wf(),
                0 <= k <= body.len(),
                s == old(r).remaining(),
                s.len() % 8 == 0,
                d == bits_bytes(s),
                body == d.skip(1),
                d.len() > 0,
                d[0] < 0x80,
                !is_ext_type(d[0] & 0x1f),
                nal.nal_ref_idc == (d[0] >> 5) & 0x03,
                nal.nal_unit_type == d[0] & 0x1f,
                !nal.svc_extension_flag,
                !nal.avc_3d_extension_flag,
                r.remaining() == bytes_bits(body.skip(k)),
                rbsp@ == body.take(k),
                num_zeroes == (if zero_run(body, k) < 4 {
                    zero_run(body, k)
                } else {
                    4nat
                }),
                forall|j: int| 0 <= j < k ==> !is_start_at(body, j),
                r.at_end() == old(r).at_end(),
                r.stream() == old(r).stream(),
                old(r).byte_pos() <= r.byte_pos(),
            decreases body.len() - k,
        {
            match r.b() {
                Ok(byte) => {
                    proof {
                        assert(k < body.len()) by {
                            if k == body.len() {
                                assert(body.skip(k).len() == 0);
                            }
                        }
                        lemma_bits_bytes_of_bytes(body.skip(k));
                        assert(byte == body.skip(k)[0]);
                        assert(byte == body[k]);
                        lemma_bytes_bits_skip(body.skip(k), 1);
                        assert(body.skip(k).skip(1) =~= body.skip(k + 1));
                        lemma_zero_run_le(body, k);
                    }
                    if byte == 0x00 {
                        if num_zeroes < 4 {
                            num_zeroes = num_zeroes + 1;
                        }
                    } else if byte == 0x01 {
                        if num_zeroes == 2 || num_zeroes == 3 {
                            proof {
                                assert(is_start_at(body, k));
                                lemma_find_start_shift(body, 0, k);
                            }
                            let len = rbsp.len();
                            rbsp.truncate(len - num_zeroes);
                            proof {
                                assert(rbsp@ =~= body.take(k - zero_run(body, k)));
                            }
                            return Ok((nal, rbsp));
                        }
                        num_zeroes = 0;
                    } else {
                        num_zeroes = 0;
                    }
                    rbsp.push(byte);
                    proof {
                        assert(rbsp@ =~= body.take(k + 1));
                        k = k + 1;
                    }
                },
                Err(e) => {
                    proof {
                        assert(k == body.len()) by {
                            if k < body.len() {
                                assert(bytes_bits(body.skip(k)).len() == body.skip(k).len() * 8);
                            }
                        }
                        lemma_find_start_shift(body, 0, k);
                        assert(rbsp@ =~= body);
                    }
                    match e {
                        ParserError::BitReaderEndOfStream() => {
                            return Ok((nal, rbsp));
                        },
                        _ => {
                            return Err(e);
                        },
                    }
                },
            }
        }
    }
}

/// The NAL header fields of a byte: the forbidden bit, `nal_ref_idc`
/// and `nal_unit_type`, as values of its bit subranges.
proof fn lemma_header_fields(b: u8)
    ensures
        bits_value(byte_bits(b).subrange(0, 1)) == (if b >= 0x80 {
            1nat
        } else {
            0nat
        }),
        bits_value(byte_bits(b).subrange(1, 3)) == ((b >> 5) & 0x03) as nat,
        bits_value(byte_bits(b).subrange(3, 8)) == (b & 0x1f) as nat,
{
    lemma_byte_bits_sub(b, 0, 1);
    lemma_byte_bits_sub(b, 1, 3);
    lemma_byte_bits_sub(b, 3, 8);
    lemma2_to64();
    assert(((b as u32) >> 7) % 2 == (if b >= 0x80 {
        1u32
    } else {
        0u32
    })) by (bit_vector);
    assert(((b as u32) >> 5) % 4 == (((b >> 5) & 0x03) as u32)) by (bit_vector);
    assert(((b as u32) >> 0) % 32 == ((b & 0x1f) as u32)) by (bit_vector);
}

} // verus!
