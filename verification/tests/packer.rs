use deku_bits::bitbuf::BitBuf;
use deku_bits::queue::BitQueue;
use deku_bits::error::NeedSize;
use deku_bits::packer::BitPacker;

fn packer_bits(pattern: &str) -> BitBuf {
    let bools: Vec<bool> = pattern.chars().filter(|c| *c != ' ').map(|c| c == '1').collect();
    BitBuf::from_bools(&bools)
}

#[test]
fn packer_finalize_pads_with_zeros() {
    let mut packer = BitPacker::new(Vec::new());
    packer.write_bits(&packer_bits("101"));
    assert_eq!(packer.output(), &Vec::<u8>::new());
    assert_eq!(packer.rest(), vec![true, false, true]);
    packer.finalize();
    assert_eq!(packer.output(), &vec![0xa0]);
    assert_eq!(packer.rest(), Vec::<bool>::new());
}

#[test]
fn finalize_on_a_byte_boundary_writes_nothing() {
    let mut packer = BitPacker::new(Vec::new());
    packer.write_bytes(&[1, 2]);
    packer.finalize();
    packer.finalize();
    assert_eq!(packer.output(), &vec![1, 2]);
}

#[test]
fn finalize_leaves_the_flush_size() {
    let mut packer = BitPacker::new(Vec::new());
    packer.write_bits(&packer_bits("1111 0000 11"));
    assert_eq!(packer.bits_written(), 8);
    packer.finalize();
    assert_eq!(packer.bits_written(), 8);
    assert_eq!(packer.output(), &vec![0xf0, 0xc0]);
}

#[test]
fn flush_size_is_that_of_the_last_flush() {
    let mut packer = BitPacker::new(Vec::new());
    assert_eq!(packer.bits_written(), 0);
    packer.write_bytes(&[1, 2, 3]);
    assert_eq!(packer.bits_written(), 24);
    packer.write_bits(&packer_bits("101"));
    assert_eq!(packer.bits_written(), 24);
    packer.write_bits(&packer_bits("1 1111"));
    assert_eq!(packer.bits_written(), 8);
    assert_eq!(packer.output(), &vec![1, 2, 3, 0xbf]);
    packer.write_bits(&BitBuf::from_bytes(&[0, 0, 0]));
    assert_eq!(packer.bits_written(), 24);
    packer.write_bytes(&[]);
    assert_eq!(packer.bits_written(), 0);
}

#[test]
fn unaligned_bytes_are_written_as_bits() {
    let mut packer = BitPacker::new(Vec::new());
    packer.write_bits(&packer_bits("1111"));
    packer.write_bytes(&[0x0f, 0xf0]);
    assert_eq!(packer.output(), &vec![0xf0, 0xff]);
    assert_eq!(packer.rest(), vec![false; 4]);
    assert_eq!(packer.bits_written(), 16);
    packer.write_bytes(&[]);
    assert_eq!(packer.bits_written(), 16);
    packer.finalize();
    assert_eq!(packer.output(), &vec![0xf0, 0xff, 0x00]);
}

#[test]
fn packer_appends_to_what_the_output_holds() {
    let mut packer = BitPacker::new(vec![7]);
    packer.write_bits(&packer_bits("0000 0001 1"));
    packer.finalize();
    assert_eq!(packer.output(), &vec![7, 1, 0x80]);
}

#[test]
fn empty_write_changes_nothing() {
    let mut packer = BitPacker::new(Vec::new());
    packer.write_bits(&BitBuf::new());
    assert_eq!(packer.output(), &Vec::<u8>::new());
    assert_eq!(packer.rest(), Vec::<bool>::new());
    assert_eq!(packer.bits_written(), 0);
}

#[test]
fn writes_pack_the_bits_in_a_row() {
    let mut packer = BitPacker::new(Vec::new());
    let chunks = ["1", "0110", "", "1010 1010 111", "00"];
    for chunk in chunks {
        packer.write_bits(&packer_bits(chunk));
    }
    packer.finalize();
    // 10110101 01010111 00 and six zero bits
    assert_eq!(packer.output(), &vec![0b1011_0101, 0b0101_0111, 0b0000_0000]);
}

#[test]
fn round_trip_over_a_partition() {
    let input: Vec<u8> = vec![0xde, 0xad, 0xbe, 0xef, 0x01, 0x80];
    let mut queue = BitQueue::new(input.clone());
    let mut packer = BitPacker::new(Vec::new());
    for amt in [1usize, 2, 13, 8, 7, 16, 1] {
        let part = queue.read_bits(amt).unwrap().unwrap();
        packer.write_bits(&part);
    }
    assert!(queue.end());
    packer.finalize();
    assert_eq!(packer.output(), &input);
}

#[test]
fn round_trip_in_one_read() {
    let input: Vec<u8> = (100u8..116).collect();
    let mut queue = BitQueue::new(input.clone());
    let mut packer = BitPacker::new(Vec::new());
    let part = queue.read_bits(128).unwrap().unwrap();
    packer.write_bits(&part);
    packer.finalize();
    assert_eq!(packer.output(), &input);
}

#[test]
fn bit_vector_from_bytes_is_most_significant_first() {
    let got = BitBuf::from_bytes(&[0xa5, 0x01]);
    assert_eq!(
        got.to_bools(),
        vec![
            true, false, true, false, false, true, false, true, false, false, false, false,
            false, false, false, true
        ]
    );
    assert_eq!(got.len(), 16);
    assert!(!got.is_empty());
}

#[test]
fn bit_vector_bytes_come_back() {
    let got = BitBuf::from_bytes(&[0xa5, 0x3c]);
    assert_eq!(got.byte_at(0), 0xa5);
    assert_eq!(got.byte_at(1), 0x3c);
    let shifted = packer_bits("1 1010 0101 0011 1100");
    assert_eq!(shifted.byte_at(0), 0xd2);
    assert_eq!(shifted.byte_at(1), 0x9e);
}

#[test]
fn bit_vector_split_and_extend() {
    let mut front = packer_bits("1100 1");
    let back = front.split_off(2);
    assert_eq!(front, packer_bits("11"));
    assert_eq!(back, packer_bits("001"));
    front.extend_from(&back);
    front.extend_from(&back);
    assert_eq!(front.to_bools(), vec![true, true, false, false, true, false, false, true]);
    assert_eq!(front.len(), 8);
}

#[test]
fn bit_vector_new_and_repeat() {
    assert!(BitBuf::new().is_empty());
    assert_eq!(BitBuf::new().len(), 0);
    assert_eq!(BitBuf::repeat(true, 3).to_bools(), vec![true, true, true]);
    assert_eq!(BitBuf::repeat(false, 2), packer_bits("00"));
    assert_eq!(packer_bits("0110").to_bools(), vec![false, true, true, false]);
}

#[test]
fn need_size_holds_the_bits_asked_for() {
    assert_eq!(NeedSize::new(16).bit_size(), 16);
    assert_eq!(NeedSize::new(0).bit_size(), 0);
}

#[test]
fn bit_vector_byte_across_two_storage_bytes() {
    let mut front = packer_bits("000 1101 0010 1111 0");
    let back = front.split_off(3);
    assert_eq!(back.byte_at(0), 0xd2);
    assert_eq!(back.len(), 13);
}

#[test]
fn taking_the_output_starts_it_anew() {
    let mut packer = BitPacker::new(Vec::new());
    packer.write_bits(&packer_bits("1111 0000 101"));
    assert_eq!(packer.rest_len(), 3);
    assert_eq!(packer.take_output(), vec![0xf0]);
    assert_eq!(packer.output(), &Vec::<u8>::new());
    assert_eq!(packer.rest(), vec![true, false, true]);
    assert_eq!(packer.bits_written(), 8);
    packer.finalize();
    assert_eq!(packer.take_output(), vec![0xa0]);
}
