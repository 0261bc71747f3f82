use h264parse::bitreader::BitReader;

#[test]
fn u_8_8_8_8() {
    let buf = vec![0u8, 1, 2, 3];
    let mut reader = BitReader::new(buf);

    let n1 = reader.u64(8).unwrap();
    let n2 = reader.u64(8).unwrap();
    let n3 = reader.u64(8).unwrap();
    let n4 = reader.u64(8).unwrap();

    assert_eq!(n1, 0);
    assert_eq!(n2, 1);
    assert_eq!(n3, 2);
    assert_eq!(n4, 3);
}

#[test]
fn u_3_5_7_1() {
    let buf = vec![0b10010000u8, 0b10000001];
    let mut reader = BitReader::new(buf);

    let n1 = reader.u64(3).unwrap();
    let n2 = reader.u64(5).unwrap();
    let n3 = reader.u64(7).unwrap();
    let n4 = reader.u64(1).unwrap();

    assert_eq!(n1, 0b100);
    assert_eq!(n2, 0b10000);
    assert_eq!(n3, 0b1000000);
    assert_eq!(n4, 0b1);
}

#[test]
fn u_15_1() {
    let buf = vec![0b10000000u8, 0b00000011];
    let mut reader = BitReader::new(buf);

    let n1 = reader.u64(15).unwrap();
    let n2 = reader.u64(1).unwrap();

    assert_eq!(n1, 0b100000000000001);
    assert_eq!(n2, 0b1);
}

#[test]
fn ue_0() {
    let buf = vec![0b10000000u8];
    let mut reader = BitReader::new(buf);

    let ue = reader.ue64().unwrap();

    assert_eq!(ue, 0);
}

#[test]
fn ue_1() {
    let buf = vec![0b01000000u8];
    let mut reader = BitReader::new(buf);

    let ue = reader.ue64().unwrap();

    assert_eq!(ue, 1);
}

#[test]
fn ue_8() {
    let buf = vec![0b00010010u8];
    let mut reader = BitReader::new(buf);

    let ue = reader.ue64().unwrap();

    assert_eq!(ue, 8);
}

#[test]
fn se_0() {
    let buf = vec![0b10000000u8];
    let mut reader = BitReader::new(buf);

    let se = reader.se64().unwrap();

    assert_eq!(se, 0);
}

#[test]
fn se_1() {
    let buf = vec![0b01000000u8];
    let mut reader = BitReader::new(buf);

    let se = reader.se64().unwrap();

    assert_eq!(se, 1);
}

#[test]
fn se_neg_1() {
    let buf = vec![0b01100000u8];
    let mut reader = BitReader::new(buf);

    let se = reader.se64().unwrap();

    assert_eq!(se, -1);
}

#[test]
fn se_4() {
    let buf = vec![0b00010000u8];
    let mut reader = BitReader::new(buf);

    let se = reader.se64().unwrap();

    assert_eq!(se, 4);
}

#[test]
fn se_neg_4() {
    let buf = vec![0b00010010u8];
    let mut reader = BitReader::new(buf);

    let se = reader.se64().unwrap();

    assert_eq!(se, -4);
}

#[test]
fn is_byte_aligned_initially() {
    let buf = vec![0u8, 0];
    let reader = BitReader::new(buf);

    assert!(reader.is_byte_aligned());
}

#[test]
fn is_byte_aligned_1() {
    let buf = vec![0u8, 0];
    let mut reader = BitReader::new(buf);

    let _ = reader.u64(1).unwrap();

    assert!(!reader.is_byte_aligned());
}

#[test]
fn is_byte_aligned_8() {
    let buf = vec![0u8, 0];
    let mut reader = BitReader::new(buf);

    let _ = reader.b().unwrap();

    assert!(reader.is_byte_aligned());
}

#[test]
fn byte_align_initially() {
    let buf = vec![1u8, 2];
    let mut reader = BitReader::new(buf);

    reader.byte_align();
    /* Read to make sure we don't lose first byte */
    let n = reader.b().unwrap();

    assert!(reader.is_byte_aligned());
    assert_eq!(n, 1);
}

#[test]
fn byte_align_after_1() {
    let buf = vec![1u8, 2];
    let mut reader = BitReader::new(buf);

    let _n = reader.u64(1).unwrap();
    reader.byte_align();
    let was_byte_aligned = reader.is_byte_aligned();
    /* Read to make sure we get second byte */
    let n = reader.b().unwrap();

    assert!(was_byte_aligned);
    assert_eq!(n, 2);
}

#[test]
fn emulation_prevention_0x000000() {
    let buf = vec![0x00u8, 0x00, 0x03, 0x00];
    let mut reader = BitReader::new(buf);

    let n1 = reader.b().unwrap();
    let n2 = reader.b().unwrap();
    let n3 = reader.b().unwrap();

    assert_eq!(n1, 0x00);
    assert_eq!(n2, 0x00);
    assert_eq!(n3, 0x00);
}

#[test]
fn pos_is_increased_at_read() {
    let buf = vec![0x00u8, 0x00, 0x03, 0x00];
    let mut reader = BitReader::new(buf);

    assert_eq!(reader.pos, 0);
    reader.flag().unwrap();
    assert_eq!(reader.pos, 1);
    reader.flag().unwrap();
    assert_eq!(reader.pos, 1);
}

#[test]
fn rbsp_trailing_bits() {
    /* Check that we read past the trailing bits,
     * S - stop bit, T - trailing, N - next bits
     *                    STTTTTT     NNNNNNN */
    let buf = vec![0b10000000u8, 0b11111111];
    let mut reader = BitReader::new(buf);

    /* Read past stop bit and trailing bits */
    reader.rbsp_trailing_bits().unwrap();

    /* Should be all 1s now */
    let ones = reader.b().unwrap();

    assert_eq!(ones, 0xff);
}

#[test]
fn rbsp_trailing_bits_no_stop_bit() {
    let buf = vec![0b01000000u8];
    let mut reader = BitReader::new(buf);

    let res = reader.rbsp_trailing_bits();

    assert!(res.is_err());
}

#[test]
fn rbsp_trailing_bits_a_non_zero() {
    let buf = vec![0b10001000u8];
    let mut reader = BitReader::new(buf);

    let res = reader.rbsp_trailing_bits();

    assert!(res.is_err());
}

#[test]
fn more_rbsp_data_at_end() {
    let buf = vec![1u8];
    let mut reader = BitReader::new(buf);

    /* Read the one and only byte */
    reader.b().unwrap();

    let more_rbsp_data = reader.more_rbsp_data().unwrap();

    assert!(!more_rbsp_data);
}

#[test]
fn more_rbsp_data_at_a_zero() {
    let buf = vec![0u8];
    let mut reader = BitReader::new(buf);

    /* Read all but one bit, last one should be zero */
    reader.u64(7).unwrap();

    let more_rbsp_data = reader.more_rbsp_data().unwrap();

    /* The last bit should still be here ! */
    let last = reader.u64(1).unwrap();

    /* Since this bit is zero there could be more rbsp data */
    assert!(more_rbsp_data);
    assert!(last == 0);
}

#[test]
fn more_rbsp_data_with_rbsp_stop_bit() {
    let buf = vec![0b10000000u8];
    let mut reader = BitReader::new(buf);

    let more_rbsp_data = reader.more_rbsp_data().unwrap();

    /* The first bit should still be here ! */
    let first = reader.u64(1).unwrap();

    /* We were at the rbsp stop bit */
    assert!(!more_rbsp_data);
    assert!(first == 1);
}

#[test]
fn more_rbsp_data_with_rbsp_stop_bit_but_more_data() {
    let buf = vec![0b10000001u8];
    let mut reader = BitReader::new(buf);

    let more_rbsp_data = reader.more_rbsp_data().unwrap();

    /* The first bit should still be here ! */
    let first = reader.u64(1).unwrap();

    assert!(more_rbsp_data);
    assert!(first == 1);
}

#[test]
fn ue_64_bit_reader_reads_256() {
    /* Eight leading zeros, the stop bit, then the suffix 0b00000001:
     * code number 2^8 - 1 + 1 = 256. */
    let buf = vec![0x00u8, 0x80, 0x80];
    let mut reader = BitReader::new(buf);

    let ue = reader.ue64().unwrap();

    assert_eq!(ue, 256);
}

#[test]
fn ue_8_overflows_on_256() {
    let buf = vec![0x00u8, 0x80, 0x80];
    let mut reader = BitReader::new(buf);

    let res = reader.ue8();

    assert!(matches!(res, Err(h264parse::ParserError::BitReaderError(_))));
}
