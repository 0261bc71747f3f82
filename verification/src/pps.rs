//! The Picture Parameter Set parser: the fields of H.264 section
//! 7.3.2.2, with the conditional tail gated by `more_rbsp_data` and
//! closed by the RBSP trailing bits.
//!
//! The parser is specified through [`pps_parse`], a bit-level decoder
//! over the reader's remaining bits that fixes the decoded record, the
//! bits consumed and the error kind for every input.

use vstd::prelude::*;

use crate::ParserError;
use crate::ParserUnit;
use crate::ParserUnitError;
use crate::bitreader::BitReader;

verus! {

use crate::bits::bits_value;
use crate::bits::step_ue;
use crate::bits::step_se8;
use crate::bits::step_trailing;
use crate::bits::CodeStep;
use crate::bits::CodeStepI;
use crate::bits::TrailStep;
use crate::bits::is_rbsp_stop;

/// A decoded Picture Parameter Set. Slice-group maps are not decoded:
/// only `num_slice_groups_minus1 == 0` is supported.
#[derive(Debug)]
pub struct PictureParameterSet {
    pub pic_parameter_set_id: u8,
    pub seq_parameter_set_id: u8,
    pub entropy_coding_mode_flag: bool,
    pub bottom_field_pic_order_in_frame_present_flag: bool,
    pub num_slice_groups_minus1: u8,
    pub num_ref_idx_l0_default_active_minus1: u8,
    pub num_ref_idx_l1_default_active_minus1: u8,
    pub weighted_pred_flag: bool,
    pub weighted_bipred_idc: u8,
    pub pic_init_qp_minus26: i8,
    pub pic_init_qs_minus26: i8,
    pub chroma_qp_index_offset: i8,
    pub deblocking_filter_control_present_flag: bool,
    pub constrained_intra_pred_flag: bool,
    pub redundant_pic_cnt_present_flag: bool,
    pub transform_8x8_mode_flag: bool,
    pub pic_scaling_matrix_present_flag: bool,
    pub second_chroma_qp_index_offset: i8,
}

/// The mathematical value of a Picture Parameter Set.
#[verifier::ext_equal]
pub ghost struct PpsView {
    pub pic_parameter_set_id: u8,
    pub seq_parameter_set_id: u8,
    pub entropy_coding_mode_flag: bool,
    pub bottom_field_pic_order_in_frame_present_flag: bool,
    pub num_slice_groups_minus1: u8,
    pub num_ref_idx_l0_default_active_minus1: u8,
    pub num_ref_idx_l1_default_active_minus1: u8,
    pub weighted_pred_flag: bool,
    pub weighted_bipred_idc: u8,
    pub pic_init_qp_minus26: i8,
    pub pic_init_qs_minus26: i8,
    pub chroma_qp_index_offset: i8,
    pub deblocking_filter_control_present_flag: bool,
    pub constrained_intra_pred_flag: bool,
    pub redundant_pic_cnt_present_flag: bool,
    pub transform_8x8_mode_flag: bool,
    pub pic_scaling_matrix_present_flag: bool,
    pub second_chroma_qp_index_offset: i8,
}

impl View for PictureParameterSet {
    type V = PpsView;

    open spec fn view(&self) -> PpsView {
        PpsView {
            pic_parameter_set_id: self.pic_parameter_set_id,
            seq_parameter_set_id: self.seq_parameter_set_id,
            entropy_coding_mode_flag: self.entropy_coding_mode_flag,
            bottom_field_pic_order_in_frame_present_flag:
                self.bottom_field_pic_order_in_frame_present_flag,
            num_slice_groups_minus1: self.num_slice_groups_minus1,
            num_ref_idx_l0_default_active_minus1: self.num_ref_idx_l0_default_active_minus1,
            num_ref_idx_l1_default_active_minus1: self.num_ref_idx_l1_default_active_minus1,
            weighted_pred_flag: self.weighted_pred_flag,
            weighted_bipred_idc: self.weighted_bipred_idc,
            pic_init_qp_minus26: self.pic_init_qp_minus26,
            pic_init_qs_minus26: self.pic_init_qs_minus26,
            chroma_qp_index_offset: self.chroma_qp_index_offset,
            deblocking_filter_control_present_flag: self.deblocking_filter_control_present_flag,
            constrained_intra_pred_flag: self.constrained_intra_pred_flag,
            redundant_pic_cnt_present_flag: self.redundant_pic_cnt_present_flag,
            transform_8x8_mode_flag: self.transform_8x8_mode_flag,
            pic_scaling_matrix_present_flag: self.pic_scaling_matrix_present_flag,
            second_chroma_qp_index_offset: self.second_chroma_qp_index_offset,
        }
    }
}

/// The outcome of decoding a Picture Parameter Set from a bit
/// sequence: the record and the bits after it, or the kind of failure.
pub ghost enum PpsStep {
    Value(PpsView, Seq<bool>),
    EndOfStream,
    ReadError,
    Invalid,
    NotImplemented,
}

/// The record before any field is decoded: the defaults of the
/// conditional tail.
pub open spec fn pps_defaults() -> PpsView {
    PpsView {
        pic_parameter_set_id: 0,
        seq_parameter_set_id: 0,
        entropy_coding_mode_flag: false,
        bottom_field_pic_order_in_frame_present_flag: false,
        num_slice_groups_minus1: 0,
        num_ref_idx_l0_default_active_minus1: 0,
        num_ref_idx_l1_default_active_minus1: 0,
        weighted_pred_flag: false,
        weighted_bipred_idc: 0,
        pic_init_qp_minus26: 0,
        pic_init_qs_minus26: 0,
        chroma_qp_index_offset: 0,
        deblocking_filter_control_present_flag: false,
        constrained_intra_pred_flag: false,
        redundant_pic_cnt_present_flag: false,
        transform_8x8_mode_flag: false,
        pic_scaling_matrix_present_flag: false,
        second_chroma_qp_index_offset: 0,
    }
}

/// Decoding a PPS: the two parameter-set ids and the two leading
/// flags, then the slice-group count.
#[verifier::opaque]
pub open spec fn pps_parse(s: Seq<bool>) -> PpsStep {
    match step_ue(s, 255) {
        CodeStep::EndOfStream => PpsStep::EndOfStream,
        CodeStep::ReadError => PpsStep::ReadError,
        CodeStep::Value(pid, s1) => match step_ue(s1, 255) {
            CodeStep::EndOfStream => PpsStep::EndOfStream,
            CodeStep::ReadError => PpsStep::ReadError,
            CodeStep::Value(sid, s2) => {
                if s2.len() < 2 {
                    PpsStep::EndOfStream
                } else {
                    pps_groups(
                        PpsView {
                            pic_parameter_set_id: pid as u8,
                            seq_parameter_set_id: sid as u8,
                            entropy_coding_mode_flag: s2[0],
                            bottom_field_pic_order_in_frame_present_flag: s2[1],
                            ..pps_defaults()
                        },
                        s2.skip(2),
                    )
                }
            },
        },
    }
}

/// The slice-group count: only zero is decoded, anything larger is not
/// implemented.
#[verifier::opaque]
pub open spec fn pps_groups(v: PpsView, s: Seq<bool>) -> PpsStep {
    match step_ue(s, 255) {
        CodeStep::EndOfStream => PpsStep::EndOfStream,
        CodeStep::ReadError => PpsStep::ReadError,
        CodeStep::Value(n, s1) => {
            if n > 0 {
                PpsStep::NotImplemented
            } else {
                pps_refs(PpsView { num_slice_groups_minus1: 0, ..v }, s1)
            }
        },
    }
}

/// The reference-index defaults and the weighted-prediction fields.
#[verifier::opaque]
pub open spec fn pps_refs(v: PpsView, s: Seq<bool>) -> PpsStep {
    match step_ue(s, 255) {
        CodeStep::EndOfStream => PpsStep::EndOfStream,
        CodeStep::ReadError => PpsStep::ReadError,
        CodeStep::Value(l0, s1) => match step_ue(s1, 255) {
            CodeStep::EndOfStream => PpsStep::EndOfStream,
            CodeStep::ReadError => PpsStep::ReadError,
            CodeStep::Value(l1, s2) => {
                if s2.len() < 3 {
                    PpsStep::EndOfStream
                } else {
                    pps_qp(
                        PpsView {
                            num_ref_idx_l0_default_active_minus1: l0 as u8,
                            num_ref_idx_l1_default_active_minus1: l1 as u8,
                            weighted_pred_flag: s2[0],
                            weighted_bipred_idc: bits_value(s2.subrange(1, 3)) as u8,
                            ..v
                        },
                        s2.skip(3),
                    )
                }
            },
        },
    }
}

/// The three signed QP offsets and the three control flags.
#[verifier::opaque]
pub open spec fn pps_qp(v: PpsView, s: Seq<bool>) -> PpsStep {
    match step_se8(s) {
        CodeStepI::EndOfStream => PpsStep::EndOfStream,
        CodeStepI::ReadError => PpsStep::ReadError,
        CodeStepI::Value(qp, s1) => match step_se8(s1) {
            CodeStepI::EndOfStream => PpsStep::EndOfStream,
            CodeStepI::ReadError => PpsStep::ReadError,
            CodeStepI::Value(qs, s2) => match step_se8(s2) {
                CodeStepI::EndOfStream => PpsStep::EndOfStream,
                CodeStepI::ReadError => PpsStep::ReadError,
                CodeStepI::Value(co, s3) => {
                    if s3.len() < 3 {
                        PpsStep::EndOfStream
                    } else {
                        pps_tail(
                            PpsView {
                                pic_init_qp_minus26: qp as i8,
                                pic_init_qs_minus26: qs as i8,
                                chroma_qp_index_offset: co as i8,
                                deblocking_filter_control_present_flag: s3[0],
                                constrained_intra_pred_flag: s3[1],
                                redundant_pic_cnt_present_flag: s3[2],
                                ..v
                            },
                            s3.skip(3),
                        )
                    }
                },
            },
        },
    }
}

/// The conditional tail, present exactly when the remaining bits are
/// more than a stop bit and padding; a scaling matrix in the tail is
/// not implemented.
#[verifier::opaque]
pub open spec fn pps_tail(v: PpsView, s: Seq<bool>) -> PpsStep {
    if !is_rbsp_stop(s) {
        if s.len() < 2 {
            PpsStep::EndOfStream
        } else if s[1] {
            PpsStep::NotImplemented
        } else {
            match step_se8(s.skip(2)) {
                CodeStepI::EndOfStream => PpsStep::EndOfStream,
                CodeStepI::ReadError => PpsStep::ReadError,
                CodeStepI::Value(sc, s1) => pps_trail(
                    PpsView {
                        transform_8x8_mode_flag: s[0],
                        pic_scaling_matrix_present_flag: false,
                        second_chroma_qp_index_offset: sc as i8,
                        ..v
                    },
                    s1,
                ),
            }
        }
    } else {
        pps_trail(v, s)
    }
}

/// The closing RBSP trailing bits.
#[verifier::opaque]
pub open spec fn pps_trail(v: PpsView, s: Seq<bool>) -> PpsStep {
    match step_trailing(s) {
        TrailStep::Value(rest) => PpsStep::Value(v, rest),
        TrailStep::EndOfStream => PpsStep::EndOfStream,
        TrailStep::Invalid => PpsStep::Invalid,
    }
}

/// Builds the not-implemented error kind for the PPS.
fn not_impl(text: &'static str) -> (e: ParserError)
    ensures
        e is NotImplemented,
{
    ParserError::NotImplemented(ParserUnitError::new(ParserUnit::Pps(), text))
}

impl PictureParameterSet {
    /// Parses the QP offsets, the control flags, the conditional tail
    /// and the trailing bits, completing the record begun in `head`
    /// exactly as [`pps_qp`] decodes the remaining bits.
    #[verifier::rlimit(100)]
    fn parse_rest(r: &mut BitReader, head: PictureParameterSet) -> (res: Result<
        PictureParameterSet,
        ParserError,
    >)
        requires
            old(r).wf(),
        ensures
            final(r).wf(),
            final(r).stream() == old(r).stream(),
            old(r).byte_pos() <= final(r).byte_pos(),
            (match pps_qp(head@, old(r).remaining()) {
                PpsStep::Value(v, rest) => {
                    &&& res matches Ok(pps) && pps@ == v
                    &&& final(r).remaining() == rest
                    &&& final(r).at_end() == old(r).at_end()
                },
                PpsStep::EndOfStream => res matches Err(e) && e is BitReaderEndOfStream,
                PpsStep::ReadError => res matches Err(e) && e is BitReaderError,
                PpsStep::Invalid => res matches Err(e) && e is InvalidStream,
                PpsStep::NotImplemented => res matches Err(e) && e is NotImplemented,
            }),
    {
        let ghost s0 = r.remaining();
        proof {
            reveal(pps_qp);
            reveal(pps_tail);
            reveal(pps_trail);
        }
        let ghost mut vv = head@;
        let pic_init_qp_minus26 = match r.se8() {
            Ok(x) => x,
            Err(e) => return Err(e),
        };
        let pic_init_qs_minus26 = match r.se8() {
            Ok(x) => x,
            Err(e) => return Err(e),
        };
        let chroma_qp_index_offset = match r.se8() {
            Ok(x) => x,
            Err(e) => return Err(e),
        };
        let ghost s_c = r.remaining();
        let deblocking_filter_control_present_flag = match r.flag() {
            Ok(x) => x,
            Err(e) => return Err(e),
        };
        let constrained_intra_pred_flag = match r.flag() {
            Ok(x) => x,
            Err(e) => return Err(e),
        };
        let redundant_pic_cnt_present_flag = match r.flag() {
            Ok(x) => x,
            Err(e) => return Err(e),
        };
        proof {
            assert(s_c.skip(1).skip(1) =~= s_c.skip(2));
            assert(s_c.skip(2).skip(1) =~= s_c.skip(3));
            assert(s_c.skip(1)[0] == s_c[1]);
            assert(s_c.skip(2)[0] == s_c[2]);
            vv = PpsView {
                pic_init_qp_minus26: pic_init_qp_minus26,
                pic_init_qs_minus26: pic_init_qs_minus26,
                chroma_qp_index_offset: chroma_qp_index_offset,
                deblocking_filter_control_present_flag: deblocking_filter_control_present_flag,
                constrained_intra_pred_flag: constrained_intra_pred_flag,
                redundant_pic_cnt_present_flag: redundant_pic_cnt_present_flag,
                ..vv
            };
            assert(pps_qp(head@, s0) == pps_tail(vv, r.remaining()));
        }

        let mut transform_8x8_mode_flag = head.transform_8x8_mode_flag;
        let mut pic_scaling_matrix_present_flag = head.pic_scaling_matrix_present_flag;
        let mut second_chroma_qp_index_offset = head.second_chroma_qp_index_offset;

        let more_rbsp_data = match r.more_rbsp_data() {
            Ok(x) => x,
            Err(e) => return Err(e),
        };
        if more_rbsp_data {
            let ghost s_t = r.remaining();
            transform_8x8_mode_flag = match r.flag() {
                Ok(x) => x,
                Err(e) => return Err(e),
            };
            pic_scaling_matrix_present_flag = match r.flag() {
                Ok(x) => x,
                Err(e) => return Err(e),
            };
            if pic_scaling_matrix_present_flag {
                return Err(not_impl("scaling matrix not implemented"));
            }
            proof {
                assert(s_t.skip(1).skip(1) =~= s_t.skip(2));
                assert(s_t.skip(1)[0] == s_t[1]);
            }
            second_chroma_qp_index_offset = match r.se8() {
                Ok(x) => x,
                Err(e) => return Err(e),
            };
            proof {
                vv = PpsView {
                    transform_8x8_mode_flag: transform_8x8_mode_flag,
                    pic_scaling_matrix_present_flag: false,
                    second_chroma_qp_index_offset: second_chroma_qp_index_offset,
                    ..vv
                };
            }
        }
        proof {
            assert(pps_qp(head@, s0) == pps_trail(vv, r.remaining()));
        }

        match r.rbsp_trailing_bits() {
            Ok(()) => {},
            Err(e) => return Err(e),
        }

        let pps = PictureParameterSet {
            pic_init_qp_minus26,
            pic_init_qs_minus26,
            chroma_qp_index_offset,
            deblocking_filter_control_present_flag,
            constrained_intra_pred_flag,
            redundant_pic_cnt_present_flag,
            transform_8x8_mode_flag,
            pic_scaling_matrix_present_flag,
            second_chroma_qp_index_offset,
            ..head
        };
        proof {
            assert(pps@ =~= vv);
        }
        Ok(pps)
    }

    /// Parses a Picture Parameter Set from the reader's current
    /// position, exactly as [`pps_parse`] decodes the remaining bits.
    pub fn parse(r: &mut BitReader) -> (res: Result<PictureParameterSet, ParserError>)
        requires
            old(r).wf(),
        ensures
            final(r).wf(),
            final(r).stream() == old(r).stream(),
            old(r).byte_pos() <= final(r).byte_pos(),
            (match pps_parse(old(r).remaining()) {
                PpsStep::Value(v, rest) => {
                    &&& res matches Ok(pps) && pps@ == v
                    &&& final(r).remaining() == rest
                    &&& final(r).at_end() == old(r).at_end()
                },
                PpsStep::EndOfStream => res matches Err(e) && e is BitReaderEndOfStream,
                PpsStep::ReadError => res matches Err(e) && e is BitReaderError,
                PpsStep::Invalid => res matches Err(e) && e is InvalidStream,
                PpsStep::NotImplemented => res matches Err(e) && e is NotImplemented,
            }),
    {
        let ghost s0 = r.remaining();
        proof {
            reveal(pps_parse);
            reveal(pps_groups);
            reveal(pps_refs);
        }
        let pic_parameter_set_id = match r.ue8() {
            Ok(x) => x,
            Err(e) => return Err(e),
        };
        let seq_parameter_set_id = match r.ue8() {
            Ok(x) => x,
            Err(e) => return Err(e),
        };
        let ghost s_e = r.remaining();
        let entropy_coding_mode_flag = match r.flag() {
            Ok(x) => x,
            Err(e) => return Err(e),
        };
        let bottom_field_pic_order_in_frame_present_flag = match r.flag() {
            Ok(x) => x,
            Err(e) => return Err(e),
        };
        let ghost mut vv = (PpsView {
            pic_parameter_set_id: pic_parameter_set_id,
            seq_parameter_set_id: seq_parameter_set_id,
            entropy_coding_mode_flag: entropy_coding_mode_flag,
            bottom_field_pic_order_in_frame_present_flag:
                bottom_field_pic_order_in_frame_present_flag,
            ..pps_defaults()
        });
        proof {
            assert(s_e.skip(1).skip(1) =~= s_e.skip(2));
            assert(pps_parse(s0) == pps_groups(vv, r.remaining()));
        }

        let num_slice_groups_minus1 = match r.ue8() {
            Ok(x) => x,
            Err(e) => return Err(e),
        };
        if num_slice_groups_minus1 > 0 {
            return Err(not_impl("slice groups not implemented"));
        }
        proof {
            assert(pps_parse(s0) == pps_refs(vv, r.remaining()));
        }

        let num_ref_idx_l0_default_active_minus1 = match r.ue8() {
            Ok(x) => x,
            Err(e) => return Err(e),
        };
        let num_ref_idx_l1_default_active_minus1 = match r.ue8() {
            Ok(x) => x,
            Err(e) => return Err(e),
        };
        let ghost s_w = r.remaining();
        let weighted_pred_flag = match r.flag() {
            Ok(x) => x,
            Err(e) => return Err(e),
        };
        let weighted_bipred_idc = match r.u8(2) {
            Ok(x) => x,
            Err(e) => return Err(e),
        };
        proof {
            assert(s_w.skip(1).take(2) =~= s_w.subrange(1, 3));
            assert(s_w.skip(1).skip(2) =~= s_w.skip(3));
            crate::bits::lemma_bits_value_bound(s_w.subrange(1, 3));
            vstd::arithmetic::power2::lemma2_to64();
            vv = PpsView {
                num_ref_idx_l0_default_active_minus1: num_ref_idx_l0_default_active_minus1,
                num_ref_idx_l1_default_active_minus1: num_ref_idx_l1_default_active_minus1,
                weighted_pred_flag: weighted_pred_flag,
                weighted_bipred_idc: weighted_bipred_idc,
                ..vv
            };
            assert(pps_parse(s0) == pps_qp(vv, r.remaining()));
        }

        let head = PictureParameterSet {
            pic_parameter_set_id,
            seq_parameter_set_id,
            entropy_coding_mode_flag,
            bottom_field_pic_order_in_frame_present_flag,
            num_slice_groups_minus1,
            num_ref_idx_l0_default_active_minus1,
            num_ref_idx_l1_default_active_minus1,
            weighted_pred_flag,
            weighted_bipred_idc,
            pic_init_qp_minus26: 0,
            pic_init_qs_minus26: 0,
            chroma_qp_index_offset: 0,
            deblocking_filter_control_present_flag: false,
            constrained_intra_pred_flag: false,
            redundant_pic_cnt_present_flag: false,
            transform_8x8_mode_flag: false,
            pic_scaling_matrix_present_flag: false,
            second_chroma_qp_index_offset: 0,
        };
        proof {
            assert(head@ =~= vv);
        }
        Self::parse_rest(r, head)
    }
}

} // verus!
