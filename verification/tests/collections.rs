use ruplicity::collections::{BackupChain, FileName, FileNameParser, FileType};

#[test]
fn parser_test() {
    let parser = FileNameParser::new();
    assert_eq!(parser.parse("invalid"), None);
    assert_eq!(
        parser.parse("duplicity-full.20150617T182545Z.vol1.difftar.gz"),
        Some(FileName {
            file_type: FileType::Full,
            manifest: false,
            volume_number: 1,
            time: "20150617t182545z".to_owned(),
            compressed: true,
            encrypted: false,
            partial: false,
        })
    );
}

#[test]
fn parser_manifest_name() {
    let parser = FileNameParser::new();
    let f = parser
        .parse("duplicity-full.20150617T182545Z.manifest")
        .unwrap();
    assert!(f.manifest);
    assert_eq!(f.volume_number, 0);
    assert_eq!(f.time, "20150617t182545z");
    assert!(!f.compressed);
    assert!(!f.encrypted);
    assert!(!f.partial);
}

#[test]
fn parser_partial_manifest() {
    let parser = FileNameParser::new();
    let f = parser
        .parse("duplicity-full.20150617T182545Z.manifest.part")
        .unwrap();
    assert!(f.manifest);
    assert!(f.partial);
}

#[test]
fn parser_encrypted_volume() {
    let parser = FileNameParser::new();
    let f = parser
        .parse("duplicity-full.20150617T182545Z.vol7.difftar.gpg")
        .unwrap();
    assert!(!f.manifest);
    assert_eq!(f.volume_number, 7);
    assert!(f.encrypted);
    assert!(!f.compressed);
}

#[test]
fn parser_compressed_and_encrypted_marks() {
    // the marks come from the suffix alone, case-insensitively
    let parser = FileNameParser::new();
    let f = parser
        .parse("duplicity-full.20150617T182545Z.vol1.difftar.GZ")
        .unwrap();
    assert!(f.compressed);
    assert!(!f.encrypted);
    let g = parser
        .parse("duplicity-full.20150617T182545Z.vol1.difftar.z")
        .unwrap();
    assert!(g.compressed);
}

#[test]
fn parser_volume_number_overflow() {
    let parser = FileNameParser::new();
    // volume number beyond i32 range is rejected
    assert_eq!(
        parser.parse("duplicity-full.t.vol99999999999.difftar"),
        None
    );
}

#[test]
fn chain_orders_sets_by_time() {
    let names = vec![
        "duplicity-full.20150620T000000Z.vol1.difftar.gz".to_owned(),
        "duplicity-full.20150610T000000Z.vol1.difftar.gz".to_owned(),
        "duplicity-full.20150610T000000Z.vol2.difftar.gz".to_owned(),
        "duplicity-full.20150610T000000Z.manifest".to_owned(),
        "not-a-backup-file".to_owned(),
    ];
    let chain = BackupChain::build(&names);
    assert_eq!(chain.num_sets(), 2);
    let first = chain.nth_set(0).unwrap();
    let second = chain.nth_set(1).unwrap();
    assert_eq!(first.time, "20150610t000000z");
    assert_eq!(second.time, "20150620t000000z");
    assert!(chain.nth_set(2).is_none());
    assert_eq!(
        first.volume_path(1).unwrap(),
        "duplicity-full.20150610T000000Z.vol1.difftar.gz"
    );
    assert_eq!(
        first.volume_path(2).unwrap(),
        "duplicity-full.20150610T000000Z.vol2.difftar.gz"
    );
    assert!(first.volume_path(3).is_none());
    assert!(first.is_compressed());
    assert!(!first.is_encrypted());
    assert!(first.is_complete());
    // the later set has no manifest, so it is incomplete
    assert!(!second.is_complete());
}

#[test]
fn chain_incomplete_with_missing_volume() {
    let names = vec![
        "duplicity-full.20150610T000000Z.vol1.difftar".to_owned(),
        "duplicity-full.20150610T000000Z.vol3.difftar".to_owned(),
        "duplicity-full.20150610T000000Z.manifest".to_owned(),
    ];
    let chain = BackupChain::build(&names);
    let set = chain.nth_set(0).unwrap();
    assert!(!set.is_complete());
}

#[test]
fn parser_partial_volume() {
    let parser = FileNameParser::new();
    let f = parser
        .parse("duplicity-full.20150617T182545Z.vol2.difftar.part")
        .unwrap();
    assert!(!f.manifest);
    assert_eq!(f.volume_number, 2);
    assert!(f.partial);
    let g = parser
        .parse("duplicity-full.20150617T182545Z.vol2.difftar.part.gz")
        .unwrap();
    assert!(g.partial);
    assert!(g.compressed);
}

#[test]
fn chain_incomplete_with_partial_volume() {
    let names = vec![
        "duplicity-full.20150610T000000Z.vol1.difftar.part".to_owned(),
        "duplicity-full.20150610T000000Z.manifest".to_owned(),
    ];
    let chain = BackupChain::build(&names);
    let set = chain.nth_set(0).unwrap();
    assert!(!set.is_complete());
}
