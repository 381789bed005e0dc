use ruplicity::manifest::{quote_and_escape, unescape, Manifest, ParseError};

// A manifest in the shape of a real incremental one: 28 volumes whose path
// ranges are ordered, laid out so that the three lookups below land in
// volumes 1, 18 and 28.
fn inc1_manifest_text() -> String {
    let mut bounds: Vec<(String, String)> = Vec::new();
    bounds.push((
        "a".to_owned(),
        "home/michele/Documenti/Scuola/T".to_owned(),
    ));
    let letters = [
        "a", "b", "c", "d", "e", "f", "g", "h", "i", "j", "k", "l", "m", "n", "o", "p", "q", "r",
        "s", "t", "u", "v", "w", "x", "y", "z",
    ];
    for i in 0..16 {
        let s = format!("home/michele/Documenti/Scuola/T{}0", letters[i]);
        let e = format!("home/michele/Documenti/Scuola/T{}1", letters[i]);
        bounds.push((s, e));
    }
    bounds.push((
        "home/michele/Documenti/Scuola/U".to_owned(),
        "home/michele/Documenti/Scuola/V".to_owned(),
    ));
    for i in 0..9 {
        let s = format!("home/michele/Documenti/Scuola/W{}0", letters[i]);
        let e = format!("home/michele/Documenti/Scuola/W{}1", letters[i]);
        bounds.push((s, e));
    }
    bounds.push(("home/michele/I".to_owned(), "home/michele/J".to_owned()));
    assert_eq!(bounds.len(), 28);
    let mut text = String::new();
    text.push_str("Hostname dellxps\n");
    text.push_str("Localdir .\n");
    for (i, (s, e)) in bounds.iter().enumerate() {
        text.push_str(&format!("Volume {}:\n", i + 1));
        text.push_str(&format!(" StartingPath {}\n", s));
        text.push_str(&format!(" EndingPath {}\n", e));
        text.push_str(" Hash SHA1 0123456789abcdef\n");
    }
    text
}

fn inc1_manifest() -> Result<Manifest, ParseError> {
    Manifest::parse(inc1_manifest_text().as_bytes())
}

#[test]
fn first_volume_of_path() {
    let manifest = inc1_manifest().unwrap();
    assert!(manifest.check_well_formed());
    assert_eq!(
        manifest
            .first_volume_of_path(b"home/michele/Immagini/Foto/albumfiles.txt")
            .unwrap(),
        28
    );
    assert_eq!(
        manifest
            .first_volume_of_path(
                b"home/michele/Documenti/Scuola/Open Class/Epfl/Principles of Reactive \
                  Programming/lectures/week7/lecture_slides_week7-1-annotated.pdf"
            )
            .unwrap(),
        1
    );
    assert_eq!(
        manifest
            .first_volume_of_path(
                b"home/michele/Documenti/Scuola/Uni/Calcolo Numerico/octave docs/tutorial.pdf"
            )
            .unwrap(),
        18
    );
}

#[test]
fn parse_no_err_inc() {
    inc1_manifest().unwrap();
}

#[test]
fn parse_no_err_full() {
    let text = "Hostname dellxps\nLocaldir .\nVolume 1:\n StartingPath aaa\n EndingPath mmm\n Hash SHA1 00ff\nVolume 2:\n StartingPath nnn\n EndingPath zzz\n Hash SHA1 11ee\n";
    Manifest::parse(text.as_bytes()).unwrap();
}

#[test]
fn unordered_volumes_are_not_well_formed() {
    let text = b"Hostname h\nLocaldir d\nVolume 1:\n StartingPath nnn\n EndingPath zzz\n Hash SHA1 00\nVolume 2:\n StartingPath aaa\n EndingPath mmm\n Hash SHA1 00\n";
    let m = Manifest::parse(text).unwrap();
    assert!(!m.check_well_formed());
}

#[test]
fn empty_manifest_has_no_volumes() {
    let m = Manifest::parse(b"Hostname myhost\nLocaldir /home/me\n").unwrap();
    assert_eq!(m.hostname(), Some("myhost"));
    assert_eq!(m.local_dir().as_bytes(), b"/home/me");
    assert_eq!(m.max_vol_num(), 0);
    assert!(m.volume(0).is_none());
    assert!(m.volume(1).is_none());
}

#[test]
fn single_volume_bounds() {
    let text = b"Hostname h\nLocaldir d\nVolume 1:\n StartingPath bbb\n EndingPath ddd\n Hash SHA1 00ff\n";
    let m = Manifest::parse(text).unwrap();
    assert!(m.check_well_formed());
    assert_eq!(m.max_vol_num(), 1);
    // any path within [start, end] is in volume 1, none otherwise
    assert_eq!(m.first_volume_of_path(b"bbb"), Some(1));
    assert_eq!(m.first_volume_of_path(b"ccc"), Some(1));
    assert_eq!(m.first_volume_of_path(b"ddd"), Some(1));
    assert_eq!(m.first_volume_of_path(b"aaa"), None);
    assert_eq!(m.first_volume_of_path(b"eee"), None);
    let v = m.volume(1).unwrap();
    assert_eq!(v.start_path_bytes(), b"bbb");
    assert_eq!(v.end_path_bytes(), b"ddd");
    assert_eq!(v.start_block(), None);
    assert_eq!(v.end_block(), None);
    assert_eq!(v.hash_type(), "SHA1");
    assert_eq!(v.hash(), &[0x00, 0xff][..]);
}

#[test]
fn mid_path_volume_start_defers_to_earlier_volume() {
    // volume 2 starts in the middle of path "mmm", whose head lies in volume 1
    let text = b"Hostname h\nLocaldir d\nVolume 1:\n StartingPath aaa\n EndingPath mmm 5\n Hash SHA1 00\nVolume 2:\n StartingPath mmm 6\n EndingPath zzz\n Hash SHA1 00\n";
    let m = Manifest::parse(text).unwrap();
    assert!(m.check_well_formed());
    assert_eq!(m.first_volume_of_path(b"mmm"), Some(1));
    assert_eq!(m.first_volume_of_path(b"nnn"), Some(2));
    assert_eq!(m.volume(1).unwrap().end_block(), Some(5));
    assert_eq!(m.volume(2).unwrap().start_block(), Some(6));
}

#[test]
fn volume_of_block_picks_by_block() {
    let text = b"Hostname h\nLocaldir d\nVolume 1:\n StartingPath aaa\n EndingPath mmm 5\n Hash SHA1 00\nVolume 2:\n StartingPath mmm 6\n EndingPath zzz\n Hash SHA1 00\n";
    let m = Manifest::parse(text).unwrap();
    assert_eq!(m.volume_of_block(b"mmm", 3), Some(1));
    assert_eq!(m.volume_of_block(b"mmm", 5), Some(1));
    assert_eq!(m.volume_of_block(b"mmm", 6), Some(2));
    assert_eq!(m.volume_of_block(b"mmm", 9), Some(2));
    assert_eq!(m.volume_of_block(b"zzz", 0), Some(2));
    assert_eq!(m.volume_of_block(b"zzzz", 0), None);
}

#[test]
fn quoted_and_escaped_words() {
    let text = b"Hostname h\nLocaldir \"with\\x20space\"\n";
    let m = Manifest::parse(text).unwrap();
    assert_eq!(m.local_dir().as_bytes(), b"with space");
}

#[test]
fn unescape_handles_hex_letters() {
    assert_eq!(unescape(b"a\\x2fb"), b"a/b".to_vec());
    assert_eq!(unescape(b"\\x41\\x61"), b"Aa".to_vec());
    assert_eq!(unescape(b"\"quoted\""), b"quoted".to_vec());
    // a backslash starting no valid escape is dropped
    assert_eq!(unescape(b"a\\b"), b"ab".to_vec());
}

#[test]
fn quote_unescape_round_trip() {
    let cases: Vec<Vec<u8>> = vec![
        b"".to_vec(),
        b"plain_word".to_vec(),
        b"with space and \"quote\"".to_vec(),
        vec![0, 1, 2, 92, 255, 34, 10, 13],
        b"home/michele/Documenti".to_vec(),
    ];
    for c in cases {
        let q = quote_and_escape(&c);
        assert_eq!(q[0], b'"');
        assert_eq!(q[q.len() - 1], b'"');
        assert_eq!(unescape(&q), c);
    }
}

#[test]
fn error_unexpected_end() {
    assert!(matches!(Manifest::parse(b""), Err(ParseError::Io)));
    assert!(matches!(
        Manifest::parse(b"Hostname h\n"),
        Err(ParseError::Io)
    ));
    assert!(matches!(
        Manifest::parse(b"Hostname h\nLocaldir d\nVolume 1:\n StartingPath a\n"),
        Err(ParseError::Io)
    ));
}

#[test]
fn error_missing_keyword() {
    match Manifest::parse(b"Foo h\nLocaldir d\n") {
        Err(ParseError::MissingKeyword(k)) => assert_eq!(k, "Hostname"),
        other => panic!("unexpected result: {:?}", other.map(|_| ())),
    }
    match Manifest::parse(b"Hostname h\nLocaldir d\nVolume 1:\n Starting a\n") {
        Err(ParseError::MissingKeyword(k)) => assert_eq!(k, "StartingPath"),
        other => panic!("unexpected result: {:?}", other.map(|_| ())),
    }
}

#[test]
fn error_missing_path_and_hash() {
    assert!(matches!(
        Manifest::parse(b"Hostname h\nLocaldir d\nVolume 1:\n StartingPath\n"),
        Err(ParseError::MissingPath)
    ));
    assert!(matches!(
        Manifest::parse(
            b"Hostname h\nLocaldir d\nVolume 1:\n StartingPath a\n EndingPath b\n Hash\n"
        ),
        Err(ParseError::MissingHashType)
    ));
    assert!(matches!(
        Manifest::parse(
            b"Hostname h\nLocaldir d\nVolume 1:\n StartingPath a\n EndingPath b\n Hash SHA1\n"
        ),
        Err(ParseError::MissingHash)
    ));
    assert!(matches!(
        Manifest::parse(
            b"Hostname h\nLocaldir d\nVolume 1:\n StartingPath a\n EndingPath b\n Hash SHA1 xyz\n"
        ),
        Err(ParseError::InvalidHash)
    ));
}

#[test]
fn error_out_of_order_volume() {
    assert!(matches!(
        Manifest::parse(b"Hostname h\nLocaldir d\nVolume 2:\n StartingPath a\n EndingPath b\n Hash SHA1 00\n"),
        Err(ParseError::OutOfOrderVolume(2))
    ));
}

#[test]
fn error_parse_int() {
    assert!(matches!(
        Manifest::parse(b"Hostname h\nLocaldir d\nVolume x:\n StartingPath a\n EndingPath b\n Hash SHA1 00\n"),
        Err(ParseError::ParseInt)
    ));
    assert!(matches!(
        Manifest::parse(b"Hostname h\nLocaldir d\nVolume 1:\n StartingPath a bad\n EndingPath b\n Hash SHA1 00\n"),
        Err(ParseError::ParseInt)
    ));
}

#[test]
fn error_bad_hostname_utf8() {
    let text = vec![
        b'H', b'o', b's', b't', b'n', b'a', b'm', b'e', b' ', 0xff, 0xfe, b'\n', b'L', b'o', b'c',
        b'a', b'l', b'd', b'i', b'r', b' ', b'd', b'\n',
    ];
    assert!(matches!(Manifest::parse(&text), Err(ParseError::Utf8)));
}

#[test]
fn crlf_lines_accepted() {
    let m = Manifest::parse(b"Hostname myhost\r\nLocaldir d\r\n").unwrap();
    assert_eq!(m.hostname(), Some("myhost"));
    assert_eq!(m.max_vol_num(), 0);
}

#[test]
fn error_descriptions() {
    assert_eq!(ParseError::MissingPath.description(), "missing required path");
    assert_eq!(ParseError::Io.description(), "file ends unexpectedly");
    assert_eq!(
        ParseError::OutOfOrderVolume(3).description(),
        "a volume is missing or volumes are unsorted"
    );
}
