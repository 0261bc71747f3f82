use h264parse::bitreader::BitReader;
use h264parse::pps::PictureParameterSet;

#[test]
fn pps_slice_groups_not_implemented() {
    /* pic_parameter_set_id ue(0), seq_parameter_set_id ue(0), two
     * clear flags, then num_slice_groups_minus1 ue(1): slice-group
     * maps are not decoded. */
    let buf = vec![0b11000100u8];
    let mut reader = BitReader::new(buf);

    let res = PictureParameterSet::parse(&mut reader);

    assert!(matches!(res, Err(h264parse::ParserError::NotImplemented(_))));
}

#[test]
fn pps_minimal_without_tail() {
    /* All code numbers zero, all flags clear, no tail: the stop bit
     * follows directly and the tail fields keep their defaults. */
    let buf = vec![0b11001110u8, 0b00111000, 0b10000000];
    let mut reader = BitReader::new(buf);

    let pps = PictureParameterSet::parse(&mut reader).unwrap();

    assert_eq!(pps.pic_parameter_set_id, 0);
    assert_eq!(pps.seq_parameter_set_id, 0);
    assert!(!pps.entropy_coding_mode_flag);
    assert_eq!(pps.num_slice_groups_minus1, 0);
    assert_eq!(pps.weighted_bipred_idc, 0);
    assert_eq!(pps.pic_init_qp_minus26, 0);
    assert!(!pps.transform_8x8_mode_flag);
    assert!(!pps.pic_scaling_matrix_present_flag);
    assert_eq!(pps.second_chroma_qp_index_offset, 0);
}

#[test]
fn pps_with_tail() {
    /* As above, but more data follows the flags: the tail carries
     * transform_8x8_mode_flag and second_chroma_qp_index_offset -1
     * (signed Exp-Golomb code number 2). */
    let buf = vec![0b11001110u8, 0b00111000, 0b10011100];
    let mut reader = BitReader::new(buf);

    let pps = PictureParameterSet::parse(&mut reader).unwrap();

    assert!(pps.transform_8x8_mode_flag);
    assert!(!pps.pic_scaling_matrix_present_flag);
    assert_eq!(pps.second_chroma_qp_index_offset, -1);
}

#[test]
fn pps_missing_stop_bit_is_invalid() {
    /* The trailing bits must start with a one bit: here the tail
     * carries a flag and a signed code and then only zeros. */
    let buf = vec![0b11001110u8, 0b00111000, 0b10010000];
    let mut reader = BitReader::new(buf);

    let res = PictureParameterSet::parse(&mut reader);

    assert!(matches!(res, Err(h264parse::ParserError::InvalidStream(_))));
}
