use deku_bits::bitbuf::BitBuf;
use deku_bits::container::{ContainerRet, MAX_BITS_AMT};
use deku_bits::queue::BitQueue;
use deku_bits::stream::ReadOutcome;
use deku_bits::error::{DekuError, NeedSize};

fn queue_bits(pattern: &str) -> BitBuf {
    let bools: Vec<bool> = pattern.chars().filter(|c| *c != ' ').map(|c| c == '1').collect();
    BitBuf::from_bools(&bools)
}

#[test]
fn queue_byte_read_fills_buffer_and_leaves_the_rest() {
    let mut queue = BitQueue::new(vec![0xaa, 0xbb, 0xcc]);
    let mut buf = [0u8; 1];
    let ret = queue.read_bytes(1, &mut buf);
    assert_eq!(ret, Ok(ContainerRet::Bytes));
    assert_eq!(buf[0], 0xaa);
    assert_eq!(queue.bits_read(), 8);
    assert_eq!(queue.inner(), vec![0xbb, 0xcc]);
}

#[test]
fn queue_end_with_partial_consumption() {
    let mut queue = BitQueue::new(vec![0xaa]);
    assert!(!queue.end());
    assert_eq!(queue.read_bits(4), Ok(Some(queue_bits("1010"))));
    assert!(!queue.end());
    assert_eq!(queue.read_bits(4), Ok(Some(queue_bits("1010"))));
    assert!(queue.end());
}

#[test]
fn queue_straddling_read() {
    let mut queue = BitQueue::new(vec![0xa5, 0x5a]);
    assert_eq!(queue.read_bits(4), Ok(Some(queue_bits("1010"))));
    assert_eq!(queue.read_bits(8), Ok(Some(queue_bits("0101 0101"))));
    assert_eq!(queue.read_bits(4), Ok(Some(queue_bits("1010"))));
    assert_eq!(queue.bits_read(), 16);
    assert!(queue.end());
}

#[test]
fn queue_incomplete_on_short_input() {
    let mut queue = BitQueue::new(vec![0xaa]);
    assert_eq!(queue.read_bits(12), Err(DekuError::Incomplete(NeedSize::new(12))));
}

#[test]
fn incomplete_carries_the_requested_size() {
    let mut queue = BitQueue::new(vec![0xff, 0x00]);
    assert_eq!(queue.read_bits(15), Ok(Some(queue_bits("1111 1111 0000 000"))));
    match queue.read_bits(2) {
        Err(DekuError::Incomplete(need)) => {
            assert_eq!(need.bit_size(), 2);
        }
        other => panic!("unexpected {:?}", other),
    }
}

#[test]
fn zero_bit_read_changes_nothing() {
    let mut queue = BitQueue::new(vec![0x12, 0x34]);
    assert_eq!(queue.read_bits(3), Ok(Some(queue_bits("000"))));
    assert_eq!(queue.read_bits(0), Ok(None));
    assert_eq!(queue.bits_read(), 3);
    assert_eq!(queue.read_bits(5), Ok(Some(queue_bits("10010"))));
    assert_eq!(queue.inner(), vec![0x34]);
}

#[test]
fn zero_bit_read_on_empty_input() {
    let mut queue = BitQueue::new(Vec::new());
    assert_eq!(queue.read_bits(0), Ok(None));
    assert_eq!(queue.bits_read(), 0);
    assert!(queue.end());
}

#[test]
fn read_after_end_is_incomplete() {
    let mut queue = BitQueue::new(vec![0x01]);
    assert_eq!(queue.read_bits(8), Ok(Some(queue_bits("0000 0001"))));
    assert!(queue.end());
    assert_eq!(queue.read_bits(1), Err(DekuError::Incomplete(NeedSize::new(1))));
}

#[test]
fn counter_grows_by_what_was_read() {
    let mut queue = BitQueue::new(vec![0xde, 0xad, 0xbe, 0xef]);
    assert_eq!(queue.bits_read(), 0);
    let _ = queue.read_bits(3).unwrap();
    assert_eq!(queue.bits_read(), 3);
    let _ = queue.read_bits(13).unwrap();
    assert_eq!(queue.bits_read(), 16);
    let mut buf = [0u8; 2];
    assert_eq!(queue.read_bytes(2, &mut buf), Ok(ContainerRet::Bytes));
    assert_eq!(buf, [0xbe, 0xef]);
    assert_eq!(queue.bits_read(), 32);
}

#[test]
fn skip_bits_resets_the_counter() {
    let mut queue = BitQueue::new(vec![0xa5, 0x5a]);
    assert_eq!(queue.skip_bits(4), Ok(()));
    assert_eq!(queue.bits_read(), 0);
    assert_eq!(queue.read_bits(8), Ok(Some(queue_bits("0101 0101"))));
    assert_eq!(queue.bits_read(), 8);
}

#[test]
fn skip_bits_beyond_the_input_is_incomplete() {
    let mut queue = BitQueue::new(vec![0xa5]);
    assert_eq!(queue.skip_bits(9), Err(DekuError::Incomplete(NeedSize::new(9))));
}

#[test]
fn reads_in_a_row_are_the_front_of_the_input() {
    let input = vec![0x12, 0x34, 0x56, 0x78, 0x9a];
    let mut queue = BitQueue::new(input.clone());
    let mut seen: Vec<bool> = Vec::new();
    for amt in [1usize, 7, 9, 3, 12] {
        let part = queue.read_bits(amt).unwrap().unwrap();
        assert_eq!(part.len(), amt);
        seen.extend(part.to_bools());
    }
    let all = BitBuf::from_bytes(&input).to_bools();
    assert_eq!(seen, all[..32].to_vec());
    assert_eq!(queue.bits_read(), 32);
}

#[test]
fn read_of_the_most_bits() {
    let input: Vec<u8> = (0u8..17).collect();
    let mut queue = BitQueue::new(input.clone());
    let got = queue.read_bits(MAX_BITS_AMT).unwrap().unwrap();
    assert_eq!(got, BitBuf::from_bytes(&input[..16]));
    assert_eq!(queue.inner(), vec![16]);
}

#[test]
fn unaligned_byte_read_returns_bits() {
    let mut queue = BitQueue::new(vec![0xa5, 0x5a, 0xff]);
    let _ = queue.read_bits(4).unwrap();
    let mut buf = [0x77u8; 1];
    let ret = queue.read_bytes(1, &mut buf);
    assert_eq!(ret, Ok(ContainerRet::Bits(Some(queue_bits("0101 0101")))));
    assert_eq!(buf, [0x77]);
    assert_eq!(queue.bits_read(), 12);
}

#[test]
fn byte_read_after_end_check_takes_the_bit_path() {
    let mut queue = BitQueue::new(vec![0xaa, 0xbb]);
    assert!(!queue.end());
    let mut buf = [0u8; 1];
    let ret = queue.read_bytes(1, &mut buf);
    assert_eq!(ret, Ok(ContainerRet::Bits(Some(queue_bits("1010 1010")))));
    assert_eq!(buf, [0]);
    assert_eq!(queue.inner(), vec![0xbb]);
}

#[test]
fn byte_read_into_short_buffer_is_rejected() {
    let mut queue = BitQueue::new(vec![0xaa, 0xbb]);
    let mut buf = [0u8; 1];
    assert_eq!(
        queue.read_bytes(2, &mut buf),
        Err(DekuError::Incomplete(NeedSize::new(16)))
    );
}

#[test]
fn byte_read_beyond_the_input_is_incomplete() {
    let mut queue = BitQueue::new(vec![0xaa]);
    let mut buf = [0u8; 4];
    assert_eq!(
        queue.read_bytes(2, &mut buf),
        Err(DekuError::Incomplete(NeedSize::new(16)))
    );
}

#[test]
fn byte_read_keeps_the_back_of_the_buffer() {
    let mut queue = BitQueue::new(vec![1, 2, 3]);
    let mut buf = [9u8; 4];
    assert_eq!(queue.read_bytes(2, &mut buf), Ok(ContainerRet::Bytes));
    assert_eq!(buf, [1, 2, 9, 9]);
}

#[test]
fn feeding_input_makes_a_read_possible() {
    let mut queue = BitQueue::new(vec![0xf0]);
    assert_eq!(queue.read_bits(4), Ok(Some(queue_bits("1111"))));
    assert!(!queue.is_aligned());
    assert_eq!(queue.missing_bytes(4), 0);
    assert_eq!(queue.missing_bytes(5), 1);
    assert_eq!(queue.missing_bytes(13), 2);
    queue.feed(&[0xff, 0x0f]);
    assert_eq!(queue.missing_bytes(13), 0);
    assert_eq!(queue.read_bits(13), Ok(Some(queue_bits("0000 1111 1111 0"))));
    assert_eq!(queue.bits_read(), 17);
}

#[test]
fn end_of_stream_supplies_nothing() {
    let mut queue = BitQueue::new(Vec::new());
    assert!(!queue.supply(ReadOutcome::EndOfStream, &[0]));
    assert!(queue.end());
    assert_eq!(queue.read_bits(1), Err(DekuError::Incomplete(NeedSize::new(1))));
}

#[test]
fn filled_buffer_is_supplied() {
    let mut queue = BitQueue::new(Vec::new());
    assert!(queue.supply(ReadOutcome::Filled, &[0x80]));
    assert!(!queue.end());
    assert_eq!(queue.read_bits(1), Ok(Some(queue_bits("1"))));
}

#[test]
fn failed_source_supplies_nothing() {
    let mut queue = BitQueue::new(Vec::new());
    assert!(!queue.supply(ReadOutcome::Failed, &[0]));
    assert_eq!(queue.missing_bytes(8), 1);
    assert_eq!(queue.read_bits(8), Err(DekuError::Incomplete(NeedSize::new(8))));
    assert_eq!(queue.bits_read(), 0);
}

#[test]
fn feeding_after_all_was_read_starts_the_input_anew() {
    let mut queue = BitQueue::new(vec![0xff]);
    assert_eq!(queue.read_bits(8), Ok(Some(queue_bits("1111 1111"))));
    queue.feed(&[0x0f, 0xf0]);
    assert_eq!(queue.read_bits(4), Ok(Some(queue_bits("0000"))));
    queue.feed(&[0xaa]);
    assert_eq!(queue.read_bits(4), Ok(Some(queue_bits("1111"))));
    assert_eq!(queue.inner(), vec![0xf0, 0xaa]);
}
