use std::io::BufRead;

use atlas4d::segment::{
    append_bytes, encode_segment, read_segment, starts_with_magic, SegmentData, SegmentError,
};

const MAGIC: [u8; 5] = [b'A', b'4', b'D', b'1', 1];

fn payloads(items: &[&[u8]]) -> Vec<Vec<u8>> {
    items.iter().map(|p| p.to_vec()).collect()
}

#[test]
fn empty_segment_is_the_magic_alone() {
    assert_eq!(encode_segment(&Vec::new()), Ok(MAGIC.to_vec()));
}

#[test]
fn record_is_length_then_payload() {
    let bytes = encode_segment(&payloads(&[b"abc"])).unwrap();
    assert_eq!(bytes, vec![b'A', b'4', b'D', b'1', 1, 3, 0, 0, 0, b'a', b'b', b'c']);
}

#[test]
fn length_is_little_endian() {
    let long = vec![7u8; 0x0001_0203];
    let bytes = encode_segment(&vec![long.clone()]).unwrap();
    assert_eq!(&bytes[5..9], &[0x03, 0x02, 0x01, 0x00]);
    assert_eq!(&bytes[9..], &long[..]);
}

#[test]
fn empty_payload_is_a_record_of_four_bytes() {
    let bytes = encode_segment(&payloads(&[b"", b"x"])).unwrap();
    assert_eq!(bytes, vec![b'A', b'4', b'D', b'1', 1, 0, 0, 0, 0, 1, 0, 0, 0, b'x']);
}

#[test]
fn append_to_a_new_file_starts_with_the_magic() {
    let bytes = append_bytes(0, &payloads(&[b"hi"])).unwrap();
    assert_eq!(bytes, vec![b'A', b'4', b'D', b'1', 1, 2, 0, 0, 0, b'h', b'i']);
}

#[test]
fn append_to_a_file_with_content_has_no_magic() {
    let bytes = append_bytes(11, &payloads(&[b"yo"])).unwrap();
    assert_eq!(bytes, vec![2, 0, 0, 0, b'y', b'o']);
}

#[test]
fn written_segment_reads_back() {
    let items = payloads(&[b"first", b"", b"third record"]);
    let bytes = encode_segment(&items).unwrap();
    assert_eq!(read_segment(&bytes), Ok(SegmentData::Binary(items)));
}

#[test]
fn appended_segment_reads_back_in_append_order() {
    let mut file = append_bytes(0, &payloads(&[b"a", b"bb"])).unwrap();
    let more = append_bytes(file.len() as u64, &payloads(&[b"ccc"])).unwrap();
    file.extend_from_slice(&more);
    assert_eq!(read_segment(&file), Ok(SegmentData::Binary(payloads(&[b"a", b"bb", b"ccc"]))));
}

#[test]
fn magic_alone_holds_no_record() {
    assert_eq!(read_segment(&MAGIC), Ok(SegmentData::Binary(Vec::new())));
}

#[test]
fn fewer_than_four_trailing_bytes_end_the_file() {
    let mut bytes = encode_segment(&payloads(&[b"abc"])).unwrap();
    bytes.extend_from_slice(&[9, 9, 9]);
    assert_eq!(read_segment(&bytes), Ok(SegmentData::Binary(payloads(&[b"abc"]))));
}

#[test]
fn record_cut_short_fails_the_whole_read() {
    let mut bytes = encode_segment(&payloads(&[b"abc", b"defgh"])).unwrap();
    bytes.pop();
    assert_eq!(read_segment(&bytes), Err(SegmentError::Truncated));
}

#[test]
fn length_beyond_the_file_fails_the_read() {
    let bytes = vec![b'A', b'4', b'D', b'1', 1, 0xff, 0xff, 0xff, 0xff, 1, 2, 3];
    assert_eq!(read_segment(&bytes), Err(SegmentError::Truncated));
}

#[test]
fn magic_is_told_from_other_starts() {
    assert!(starts_with_magic(&MAGIC));
    assert!(starts_with_magic(&[b'A', b'4', b'D', b'1', 1, 0]));
    assert!(!starts_with_magic(&[b'A', b'4', b'D', b'1']));
    assert!(!starts_with_magic(&[b'A', b'4', b'D', b'1', 2]));
    assert!(!starts_with_magic(&[b'A', b'4', b'D', b'2', 1]));
    assert!(!starts_with_magic(&[]));
}

#[test]
fn file_without_magic_is_read_as_lines() {
    let text = b"{\"a\":1}\n{\"b\":2}\n";
    assert_eq!(read_segment(text), Ok(SegmentData::Legacy(payloads(&[b"{\"a\":1}", b"{\"b\":2}"]))));
}

#[test]
fn last_line_needs_no_line_feed() {
    let text = b"one\ntwo";
    assert_eq!(read_segment(text), Ok(SegmentData::Legacy(payloads(&[b"one", b"two"]))));
}

#[test]
fn carriage_return_before_line_feed_is_dropped() {
    let text = b"one\r\ntwo\r\n\r\nthree\r";
    assert_eq!(
        read_segment(text),
        Ok(SegmentData::Legacy(payloads(&[b"one", b"two", b"", b"three\r"])))
    );
}

#[test]
fn empty_lines_are_lines() {
    let text = b"\n\nx\n";
    assert_eq!(read_segment(text), Ok(SegmentData::Legacy(payloads(&[b"", b"", b"x"]))));
}

#[test]
fn empty_file_has_no_line() {
    assert_eq!(read_segment(&[]), Ok(SegmentData::Legacy(Vec::new())));
}

#[test]
fn lines_agree_with_the_standard_reader() {
    let texts: Vec<&[u8]> =
        vec![b"", b"\n", b"a", b"a\n", b"a\nb", b"a\r\nb\r\n", b"\r", b"\r\n", b"a\r", b"\n\n", b"x\n\ny\n"];
    for text in texts {
        let expected: Vec<Vec<u8>> =
            std::io::BufReader::new(text).lines().map(|l| l.unwrap().into_bytes()).collect();
        assert_eq!(read_segment(text), Ok(SegmentData::Legacy(expected)));
    }
}
