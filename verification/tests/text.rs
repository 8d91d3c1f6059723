use dui::text::is_text;

#[test]
fn plain_and_accented_text_is_text() {
    assert!(is_text(b""));
    assert!(is_text(b"a.txt"));
    assert!(is_text("r\u{e9}sum\u{e9}".as_bytes()));
    assert!(is_text("\u{65e5}\u{672c}\u{8a9e}".as_bytes()));
    assert!(is_text("\u{1f600}".as_bytes()));
    assert!(is_text("\u{7f}\u{80}\u{7ff}\u{800}\u{ffff}\u{10000}\u{10ffff}".as_bytes()));
    assert!(is_text("\u{d7ff}\u{e000}".as_bytes()));
}

#[test]
fn stray_and_missing_continuation_bytes_are_no_text() {
    assert!(!is_text(&[0xff]));
    assert!(!is_text(&[0x80]));
    assert!(!is_text(&[0xbf, b'a']));
    assert!(!is_text(&[b'a', 0xc3]));
    assert!(!is_text(&[0xc3, b'a']));
    assert!(!is_text(&[0xe6, 0x97]));
    assert!(!is_text(&[0xe6, 0x97, b'a']));
    assert!(!is_text(&[0xf0, 0x9f, 0x98]));
    assert!(!is_text(&[0xf8, 0x88, 0x80, 0x80, 0x80]));
}

#[test]
fn encodings_longer_than_need_be_are_no_text() {
    assert!(!is_text(&[0xc0, 0xaf]));
    assert!(!is_text(&[0xc1, 0xbf]));
    assert!(!is_text(&[0xe0, 0x9f, 0xbf]));
    assert!(!is_text(&[0xf0, 0x8f, 0xbf, 0xbf]));
}

#[test]
fn surrogates_and_scalars_beyond_the_last_are_no_text() {
    assert!(!is_text(&[0xed, 0xa0, 0x80]));
    assert!(!is_text(&[0xed, 0xbf, 0xbf]));
    assert!(!is_text(&[0xf4, 0x90, 0x80, 0x80]));
    assert!(!is_text(&[0xf5, 0x80, 0x80, 0x80]));
}

#[test]
fn every_sequence_of_up_to_two_bytes_is_judged_as_the_standard_library_judges_it() {
    assert_eq!(is_text(&[]), std::str::from_utf8(&[]).is_ok());
    for a in 0..=255u8 {
        assert_eq!(is_text(&[a]), std::str::from_utf8(&[a]).is_ok());
        for b in 0..=255u8 {
            assert_eq!(is_text(&[a, b]), std::str::from_utf8(&[a, b]).is_ok(), "{:x} {:x}", a, b);
        }
    }
}

#[test]
fn longer_sequences_are_judged_as_the_standard_library_judges_them() {
    let edge = [0x00u8, 0x7f, 0x80, 0x8f, 0x90, 0x9f, 0xa0, 0xbf, 0xc0, 0xc2, 0xdf, 0xff];
    for a in 0xe0..=0xf7u8 {
        for b in edge {
            for c in edge {
                assert_eq!(is_text(&[a, b, c]), std::str::from_utf8(&[a, b, c]).is_ok());
                for d in edge {
                    let bytes = [a, b, c, d];
                    assert_eq!(is_text(&bytes), std::str::from_utf8(&bytes).is_ok(), "{:x?}", bytes);
                    let bytes = [b'x', a, b, c, d, b'y'];
                    assert_eq!(is_text(&bytes), std::str::from_utf8(&bytes).is_ok(), "{:x?}", bytes);
                }
            }
        }
    }
}
