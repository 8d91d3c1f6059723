use dui::codec::{decode, encode, find_invalid_name, read_entry, write_entry, EncodeError};
use dui::format::DecodeError;
use dui::item::Item;

fn file(name: &str, size: u64) -> Item {
    Item::file(name, size)
}

fn dir(name: &str, children: Vec<Item>) -> Item {
    Item::directory(name, children)
}

fn example() -> Item {
    let sub = dir("sub", vec![file("b.txt", 50), file("c.txt", 150)]);
    dir("root", vec![file("a.txt", 100), sub])
}

#[test]
fn file_is_written_as_name_separator_size() {
    let mut out = vec![0xAA];
    assert_eq!(write_entry(&mut out, &file("ab", 0x0102030405060708)), Ok(()));
    assert_eq!(out, vec![0xAA, b'a', b'b', 0, 1, 2, 3, 4, 5, 6, 7, 8]);
}

#[test]
fn directory_is_written_with_marker_children_and_two_separators() {
    let d = dir("d", vec![file("x", 2), file("y", 1)]);
    let mut out = Vec::new();
    assert_eq!(write_entry(&mut out, &d), Ok(()));
    let mut expected = Vec::new();
    expected.extend_from_slice(b"d/");
    expected.extend_from_slice(b"x\0");
    expected.extend_from_slice(&2u64.to_be_bytes());
    expected.extend_from_slice(b"y\0");
    expected.extend_from_slice(&1u64.to_be_bytes());
    expected.push(0);
    expected.push(0);
    expected.extend_from_slice(&0u64.to_be_bytes());
    assert_eq!(out, expected);
}

#[test]
fn stream_starts_with_signature_version_and_base_path() {
    let bytes = encode("/home/u", &file("f", 258)).unwrap();
    let mut expected = Vec::new();
    expected.extend_from_slice(b"DUI");
    expected.push(1);
    expected.extend_from_slice(b"/home/u");
    expected.push(0);
    expected.extend_from_slice(b"f\0");
    expected.extend_from_slice(&[0, 0, 0, 0, 0, 0, 1, 2]);
    assert_eq!(bytes, expected);
}

#[test]
fn size_is_written_big_endian_up_to_the_largest() {
    let bytes = encode("", &file("m", u64::MAX)).unwrap();
    assert_eq!(&bytes[bytes.len() - 8..], &[0xFF; 8]);
    let (_, back) = decode(&bytes).unwrap();
    assert_eq!(back.own_size(), u64::MAX);
}

#[test]
fn decode_undoes_encode() {
    let tree = example();
    let bytes = encode("/some/base path", &tree).unwrap();
    let (base, back) = decode(&bytes).unwrap();
    assert_eq!(base, b"/some/base path".to_vec());
    assert_eq!(back, tree);
    assert_eq!(back.total(), 300);
    assert_eq!(back.children()[0].name().as_slice(), b"sub");
    assert_eq!(back.children()[0].children()[0].name().as_slice(), b"c.txt");
}

#[test]
fn decode_undoes_encode_for_a_root_without_a_name() {
    let tree = dir("", vec![dir("", vec![file("x", 1)]), dir("e", Vec::new())]);
    let bytes = encode("/", &tree).unwrap();
    assert_eq!(decode(&bytes), Ok((b"/".to_vec(), tree)));
}

#[test]
fn decode_undoes_encode_for_names_beyond_ascii() {
    let tree = dir("r\u{e9}sum\u{e9}", vec![file("\u{65e5}\u{672c}\u{8a9e}.txt", 9), file("\u{1f600}", 1)]);
    let bytes = encode("/h\u{f6}me", &tree).unwrap();
    assert_eq!(decode(&bytes), Ok(("/h\u{f6}me".as_bytes().to_vec(), tree)));
}

#[test]
fn name_that_is_no_text_is_an_encoding_error() {
    let bytes = [0xff, 0, 0, 0, 0, 0, 0, 0, 0, 0];
    assert_eq!(read_entry(&bytes, 0), Err(DecodeError::Encoding { offset: 0 }));
    let mut stream = b"DUI\x01base\0".to_vec();
    stream.extend_from_slice(&bytes);
    assert_eq!(decode(&stream), Err(DecodeError::Encoding { offset: 9 }));
}

#[test]
fn base_path_that_is_no_text_is_an_encoding_error() {
    let mut stream = b"DUI\x01".to_vec();
    stream.extend_from_slice(&[b'/', 0xc0, 0xaf, 0]);
    stream.extend_from_slice(b"f\0");
    stream.extend_from_slice(&1u64.to_be_bytes());
    assert_eq!(decode(&stream), Err(DecodeError::Encoding { offset: 4 }));
}

#[test]
fn name_of_a_child_that_is_no_text_is_reported_at_the_child() {
    let mut stream = b"DUI\x01b\0".to_vec();
    stream.extend_from_slice(b"d/");
    stream.extend_from_slice(b"ok\0");
    stream.extend_from_slice(&1u64.to_be_bytes());
    stream.extend_from_slice(&[0xed, 0xa0, 0x80, 0]);
    stream.extend_from_slice(&2u64.to_be_bytes());
    stream.push(0);
    stream.push(0);
    stream.extend_from_slice(&0u64.to_be_bytes());
    assert_eq!(decode(&stream), Err(DecodeError::Encoding { offset: 19 }));
}

#[test]
fn name_of_a_directory_is_looked_at_after_its_children() {
    let mut stream = b"DUI\x01b\0".to_vec();
    stream.extend_from_slice(&[0xff, b'/']);
    stream.extend_from_slice(&[0xfe, 0]);
    stream.extend_from_slice(&1u64.to_be_bytes());
    stream.push(0);
    stream.push(0);
    stream.extend_from_slice(&0u64.to_be_bytes());
    assert_eq!(decode(&stream), Err(DecodeError::Encoding { offset: 8 }));
    let mut stream = b"DUI\x01b\0".to_vec();
    stream.extend_from_slice(&[0xff, b'/']);
    stream.extend_from_slice(b"ok\0");
    stream.extend_from_slice(&1u64.to_be_bytes());
    stream.push(0);
    stream.push(0);
    stream.extend_from_slice(&0u64.to_be_bytes());
    assert_eq!(decode(&stream), Err(DecodeError::Encoding { offset: 6 }));
}

#[test]
fn entry_that_is_cut_short_is_truncated_whatever_its_name() {
    let bytes = [0xff, 0, 0, 0, 0];
    assert_eq!(read_entry(&bytes, 0), Err(DecodeError::Truncated { offset: 2, needed: 8 }));
    assert_eq!(decode(b"DUI\x01\xff\xfe"), Err(DecodeError::Truncated { offset: 6, needed: 1 }));
}

#[test]
fn every_proper_prefix_of_a_stream_beyond_ascii_is_truncated() {
    let tree = dir("r\u{e9}", vec![file("\u{65e5}\u{672c}", 9), dir("\u{1f600}", Vec::new())]);
    let bytes = encode("/h\u{f6}me", &tree).unwrap();
    for k in 0..bytes.len() {
        match decode(&bytes[..k]) {
            Err(DecodeError::Truncated { .. }) => {}
            other => panic!("prefix of {} bytes gave {:?}", k, other),
        }
    }
    assert!(decode(&bytes).is_ok());
}

#[test]
fn decode_keeps_the_order_and_sizes_that_the_stream_holds() {
    let mut bytes = Vec::new();
    bytes.extend_from_slice(b"DUI\x01base\0");
    bytes.extend_from_slice(b"r/");
    bytes.extend_from_slice(b"small\0");
    bytes.extend_from_slice(&1u64.to_be_bytes());
    bytes.extend_from_slice(b"large\0");
    bytes.extend_from_slice(&9u64.to_be_bytes());
    bytes.push(0);
    bytes.push(0);
    bytes.extend_from_slice(&4096u64.to_be_bytes());
    let (base, root) = decode(&bytes).unwrap();
    assert_eq!(base, b"base".to_vec());
    assert!(root.is_directory());
    assert_eq!(root.own_size(), 4096);
    assert_eq!(root.children()[0].name().as_slice(), b"small");
    assert_eq!(root.children()[1].name().as_slice(), b"large");
    assert_eq!(root.total(), 4106);
    assert_eq!(encode("base", &root).unwrap(), bytes);
}

#[test]
fn bytes_after_the_root_entry_are_not_read() {
    let mut bytes = encode("p", &example()).unwrap();
    bytes.extend_from_slice(b"trailing");
    assert_eq!(decode(&bytes), Ok((b"p".to_vec(), example())));
}

#[test]
fn empty_directory_reads_back_as_a_directory() {
    let bytes = encode("", &dir("empty", Vec::new())).unwrap();
    let (_, back) = decode(&bytes).unwrap();
    assert!(back.is_directory());
    assert!(back.children().is_empty());
    assert_eq!(back.own_size(), 0);
}

#[test]
fn name_with_a_slash_is_rejected() {
    let tree = dir("root", vec![file("ok", 3), file("a/b", 2), file("c\0d", 1)]);
    assert_eq!(
        encode("base", &tree),
        Err(EncodeError::ReservedByte { name: b"a/b".to_vec() })
    );
    assert_eq!(find_invalid_name(&tree), Some(&b"a/b".to_vec()));
}

#[test]
fn name_with_a_nul_is_rejected_and_nothing_is_written() {
    let tree = dir("root", vec![dir("sub", vec![file("c\0d", 3)])]);
    let mut out = vec![1, 2, 3];
    assert_eq!(
        write_entry(&mut out, &tree),
        Err(EncodeError::ReservedByte { name: b"c\0d".to_vec() })
    );
    assert_eq!(out, vec![1, 2, 3]);
}

#[test]
fn root_name_is_checked_before_the_names_below() {
    let tree = dir("r/", vec![file("a/b", 2)]);
    assert_eq!(encode("", &tree), Err(EncodeError::ReservedByte { name: b"r/".to_vec() }));
}

#[test]
fn valid_names_are_found_valid() {
    assert_eq!(find_invalid_name(&example()), None);
}

#[test]
fn wrong_signature_is_a_format_error_at_the_first_wrong_byte() {
    let mut bytes = encode("p", &example()).unwrap();
    bytes[1] = b'X';
    assert_eq!(
        decode(&bytes),
        Err(DecodeError::Format { offset: 1, expected: b'U', found: b'X' })
    );
    assert_eq!(
        decode(b"XYZ"),
        Err(DecodeError::Format { offset: 0, expected: b'D', found: b'X' })
    );
    assert_eq!(
        decode(b"DX"),
        Err(DecodeError::Format { offset: 1, expected: b'U', found: b'X' })
    );
}

#[test]
fn unknown_version_is_a_format_error() {
    let mut bytes = encode("p", &example()).unwrap();
    bytes[3] = 2;
    assert_eq!(decode(&bytes), Err(DecodeError::Format { offset: 3, expected: 1, found: 2 }));
    bytes[3] = 0;
    assert_eq!(decode(&bytes), Err(DecodeError::Format { offset: 3, expected: 1, found: 0 }));
}

#[test]
fn stream_that_ends_in_the_header_is_truncated() {
    assert_eq!(decode(b""), Err(DecodeError::Truncated { offset: 0, needed: 1 }));
    assert_eq!(decode(b"DU"), Err(DecodeError::Truncated { offset: 2, needed: 1 }));
    assert_eq!(decode(b"DUI"), Err(DecodeError::Truncated { offset: 3, needed: 1 }));
}

#[test]
fn stream_that_ends_in_the_base_path_is_truncated() {
    assert_eq!(decode(b"DUI\x01/base"), Err(DecodeError::Truncated { offset: 9, needed: 1 }));
}

#[test]
fn stream_that_ends_in_a_name_is_truncated() {
    assert_eq!(decode(b"DUI\x01b\0na"), Err(DecodeError::Truncated { offset: 8, needed: 1 }));
}

#[test]
fn stream_that_ends_in_the_size_field_is_truncated() {
    let mut bytes = Vec::new();
    bytes.extend_from_slice(b"DUI\x01b\0f\0");
    bytes.extend_from_slice(&[0, 0, 0]);
    assert_eq!(decode(&bytes), Err(DecodeError::Truncated { offset: 8, needed: 8 }));
}

#[test]
fn stream_that_ends_in_a_list_of_children_is_truncated() {
    let mut bytes = Vec::new();
    bytes.extend_from_slice(b"DUI\x01b\0d/f\0");
    bytes.extend_from_slice(&7u64.to_be_bytes());
    assert_eq!(decode(&bytes), Err(DecodeError::Truncated { offset: 18, needed: 1 }));
}

#[test]
fn every_proper_prefix_of_a_stream_is_truncated() {
    let bytes = encode("/base", &example()).unwrap();
    for k in 0..bytes.len() {
        match decode(&bytes[..k]) {
            Err(DecodeError::Truncated { .. }) => {}
            other => panic!("prefix of {} bytes gave {:?}", k, other),
        }
    }
    assert!(decode(&bytes).is_ok());
}

#[test]
fn read_entry_reads_one_entry_and_says_where_it_ends() {
    let mut bytes = vec![9, 9];
    bytes.extend_from_slice(b"f\0");
    bytes.extend_from_slice(&5u64.to_be_bytes());
    bytes.extend_from_slice(b"rest");
    assert_eq!(read_entry(&bytes, 2), Ok((file("f", 5), 12)));
    assert_eq!(
        read_entry(&bytes, 12),
        Err(DecodeError::Truncated { offset: 16, needed: 1 })
    );
}

#[test]
fn file_without_a_name_below_the_root_does_not_read_back() {
    let tree = dir("root", vec![file("", 5)]);
    let bytes = encode("p", &tree).unwrap();
    assert!(decode(&bytes) != Ok((b"p".to_vec(), tree)));
}

#[test]
fn empty_directory_is_written_in_sixteen_bytes() {
    let mut out = Vec::new();
    assert_eq!(write_entry(&mut out, &dir("empty", Vec::new())), Ok(()));
    let mut expected = b"empty/".to_vec();
    expected.push(0);
    expected.push(0);
    expected.extend_from_slice(&[0; 8]);
    assert_eq!(out.len(), 16);
    assert_eq!(out, expected);
}

#[test]
fn directory_is_read_with_a_separator_before_its_size() {
    let bytes = [b'd', b'/', 0, 0, 0, 0, 0, 0, 0, 0, 0, 5];
    let (item, next) = read_entry(&bytes, 0).unwrap();
    assert_eq!(next, 12);
    assert!(item.is_directory());
    assert!(item.children().is_empty());
    assert_eq!(item.own_size(), 5);
    assert_eq!(item.name().as_slice(), b"d");
}

#[test]
fn directory_that_does_not_end_with_a_separator_is_a_format_error() {
    let bytes = [b'd', b'/', 0, 7, 0, 0, 0, 0, 0, 0, 0, 5];
    assert_eq!(
        read_entry(&bytes, 0),
        Err(DecodeError::Format { offset: 3, expected: 0, found: 7 })
    );
    let mut stream = b"DUI\x01b\0".to_vec();
    stream.extend_from_slice(b"d/");
    stream.extend_from_slice(b"f\0");
    stream.extend_from_slice(&1u64.to_be_bytes());
    stream.push(0);
    stream.extend_from_slice(b"x");
    stream.extend_from_slice(&0u64.to_be_bytes());
    assert_eq!(
        decode(&stream),
        Err(DecodeError::Format { offset: 19, expected: 0, found: b'x' })
    );
}

#[test]
fn directory_that_is_cut_after_its_children_is_truncated() {
    let bytes = [b'd', b'/', 0];
    assert_eq!(read_entry(&bytes, 0), Err(DecodeError::Truncated { offset: 3, needed: 1 }));
    let bytes = [b'd', b'/', 0, 0, 0, 0];
    assert_eq!(read_entry(&bytes, 0), Err(DecodeError::Truncated { offset: 4, needed: 8 }));
}
