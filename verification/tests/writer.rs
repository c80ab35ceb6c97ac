use acid_io::Read;
use deku_bits::bitbuf::BitBuf;
use deku_bits::container::Container;
use deku_bits::error::DekuError;
use deku_bits::writer::Writer;

fn bits(pattern: &str) -> BitBuf {
    let bools: Vec<bool> = pattern.chars().filter(|c| *c != ' ').map(|c| c == '1').collect();
    BitBuf::from_bools(&bools)
}

#[test]
fn test_writer() {
    let mut out_buf = vec![];
    let mut writer = Writer::new(&mut out_buf);

    let mut input = [0xaa_u8];
    writer.write_bytes(&mut input).unwrap();

    let mut bv = BitBuf::from_bytes(&[0xbb]);
    writer.write_bits(&mut bv).unwrap();

    let mut bv = bits("1111");
    writer.write_bits(&mut bv).unwrap();
    let mut bv = bits("0001");
    writer.write_bits(&mut bv).unwrap();

    let mut input = [0xaa_u8];
    writer.write_bytes(&mut input).unwrap();

    let mut bv = bits("0001");
    writer.write_bits(&mut bv).unwrap();
    let mut bv = bits("1111");
    writer.write_bits(&mut bv).unwrap();

    let mut bv = bits("0001");
    writer.write_bits(&mut bv).unwrap();

    let mut input = [0xaa_u8];
    writer.write_bytes(&mut input).unwrap();

    let mut bv = bits("1111");
    writer.write_bits(&mut bv).unwrap();

    assert_eq!(
        &mut out_buf,
        &mut vec![0xaa, 0xbb, 0xf1, 0xaa, 0x1f, 0x1a, 0xaf]
    );
}

#[test]
fn finalize_pads_with_zeros() {
    let mut out_buf: Vec<u8> = vec![];
    let mut writer = Writer::new(&mut out_buf);
    writer.write_bits(&bits("101")).unwrap();
    assert_eq!(writer.rest(), vec![true, false, true]);
    writer.finalize().unwrap();
    assert_eq!(writer.rest(), Vec::<bool>::new());
    assert_eq!(out_buf, vec![0xa0]);
}

#[test]
fn bytes_reach_the_stream_as_soon_as_they_are_full() {
    let mut writer = Writer::new(Vec::<u8>::new());
    writer.write_bits(&bits("1111 000")).unwrap();
    assert_eq!(writer.bits_written(), 0);
    writer.write_bits(&bits("0 1")).unwrap();
    assert_eq!(writer.bits_written(), 8);
    assert_eq!(writer.rest(), vec![true]);
    assert_eq!(writer.into_inner(), vec![0xf0]);
}

#[test]
fn stream_finalize_twice_writes_once() {
    let mut writer = Writer::new(Vec::<u8>::new());
    writer.write_bytes(&[7]).unwrap();
    writer.write_bits(&bits("11")).unwrap();
    writer.finalize().unwrap();
    writer.finalize().unwrap();
    assert_eq!(writer.bits_written(), 8);
    assert_eq!(writer.into_inner(), vec![7, 0xc0]);
}

#[test]
fn stream_bytes_off_the_boundary_are_written_as_bits() {
    let mut writer = Writer::new(Vec::<u8>::new());
    writer.write_bits(&bits("1111")).unwrap();
    writer.write_bytes(&[0x0f, 0xf0]).unwrap();
    assert_eq!(writer.bits_written(), 16);
    assert_eq!(writer.rest(), vec![false; 4]);
    assert_eq!(writer.into_inner(), vec![0xf0, 0xff]);
}

#[test]
fn full_sink_is_a_write_error() {
    let mut space = [0u8; 1];
    let mut writer = Writer::new(&mut space[..]);
    assert_eq!(writer.write_bytes(&[0x12]), Ok(()));
    assert_eq!(writer.write_bits(&bits("1010")), Ok(()));
    assert_eq!(writer.write_bits(&bits("1010")), Err(DekuError::WriteError));
}

#[test]
fn full_sink_fails_finalize() {
    let mut space = [0u8; 0];
    let mut writer = Writer::new(&mut space[..]);
    assert_eq!(writer.finalize(), Ok(()));
    assert_eq!(writer.write_bits(&bits("1")), Ok(()));
    assert_eq!(writer.finalize(), Err(DekuError::WriteError));
}

#[test]
fn full_sink_fails_a_byte_write() {
    let mut space = [0u8; 1];
    let mut writer = Writer::new(&mut space[..]);
    assert_eq!(writer.write_bytes(&[1, 2]), Err(DekuError::WriteError));
}

#[test]
fn stream_round_trip() {
    let input: Vec<u8> = vec![0xde, 0xad, 0xbe, 0xef, 0x01, 0x80];
    let mut container = Container::new(&input[..]);
    let mut writer = Writer::new(Vec::<u8>::new());
    for amt in [1usize, 2, 13, 8, 7, 16, 1] {
        let part = container.read_bits(amt).unwrap().unwrap();
        writer.write_bits(&part).unwrap();
    }
    assert!(container.end());
    let mut rest = container.inner();
    let mut left = vec![];
    rest.read_to_end(&mut left).unwrap();
    assert!(left.is_empty());
    writer.finalize().unwrap();
    assert_eq!(writer.into_inner(), input);
}
