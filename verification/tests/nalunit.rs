use h264parse::bitreader::BitReader;
use h264parse::nalunit::NalUnit;

#[test]
fn parse() {
    let buf = vec![
        /*<NAL      > <RBSP          > */
        0b01010000, 0x42, 0xff, 0x01,
    ];
    let mut reader = BitReader::new(buf);

    let (nal, rbsp) = NalUnit::parse(&mut reader).unwrap();

    assert_eq!(nal.nal_ref_idc, 0b10);
    assert_eq!(nal.nal_unit_type, 0b10000);
    assert_eq!(rbsp, [0x42, 0xff, 0x01]);
}

#[test]
fn parse_forbidden_zero_bit_is_1() {
    let buf = vec![
        /*<NAL      > <RBSP          > */
        /* First bit should be zero when valid */
        0b11010000, 0x42, 0xff, 0x01,
    ];
    let mut reader = BitReader::new(buf);

    let res = NalUnit::parse(&mut reader);

    assert!(res.is_err());
}

#[test]
fn parse_not_byte_aligned() {
    let buf = vec![
        /*<NAL> <RBSP          > */
        0x67, 0x42, 0xff, 0x01,
    ];
    let mut reader = BitReader::new(buf);
    /* Read one bit to make reader not aligned on byte */
    reader.u64(1).unwrap();

    let res = NalUnit::parse(&mut reader);

    assert!(res.is_err());
}

/* Verifies that position after parse is correct and that
 * parse can handle end of data correctly. */
#[test]
fn parse_sequence() {
    let buf = vec![
        /*<START CODE           > <NAL> <RBSP                 > */
        0x00, 0x00, 0x00, 0x01, 0x67, 0x42, 0xff, 0x01,
        0x00, 0x00, 0x00, 0x01, 0x67, 0x42, 0x01, 0x02, 0x03,
        0x00, 0x00, 0x00, 0x01, 0x67, 0x42,
    ];
    let mut reader = BitReader::new(buf);

    /* Position at start of nal, bypass start code ! */
    NalUnit::next(&mut reader).unwrap();

    let (_, rbsp1) = NalUnit::parse(&mut reader).unwrap();
    let (_, rbsp2) = NalUnit::parse(&mut reader).unwrap();
    let (_, rbsp3) = NalUnit::parse(&mut reader).unwrap();
    /* After third nal there should be read error */
    let end = NalUnit::parse(&mut reader);

    assert_eq!(rbsp1.len(), 3);
    assert_eq!(rbsp2.len(), 4);
    assert_eq!(rbsp3.len(), 1);
    assert!(end.is_err() && reader.reached_end_of_data());
}

#[test]
fn next() {
    let buf = vec![
        /* <crap    > <START CODE          >  <NAL> <RBSP          > */
        0x12, 0x13, 0x00, 0x00, 0x00, 0x01, 0x67, 0x42, 0xff, 0x01,
    ];
    let mut reader = BitReader::new(buf);

    let res = NalUnit::next(&mut reader);
    let (_, rbsp) = NalUnit::parse(&mut reader).unwrap();

    assert!(res.is_ok());
    assert_eq!(rbsp, [0x42, 0xff, 0x01]);
}

/* Verifies that result is ok but bitreader is at end of data */
#[test]
fn next_no_more_nals() {
    let buf = vec![
        0x12, 0x13, 0x00, 0x00, 0x00, 0x67, 0x42, 0xff, 0x01,
    ];
    let mut reader = BitReader::new(buf);

    let res = NalUnit::next(&mut reader);

    assert!(res.is_ok());
    assert!(reader.reached_end_of_data());
}

#[test]
fn parse_extension_type_is_not_implemented() {
    /* nal_ref_idc 1, nal_unit_type 14: the extension header is
     * recognised but not decoded. */
    let buf = vec![0x2eu8, 0x00];
    let mut reader = BitReader::new(buf);

    let res = NalUnit::parse(&mut reader);

    assert!(matches!(res, Err(h264parse::ParserError::NotImplemented(_))));
}
