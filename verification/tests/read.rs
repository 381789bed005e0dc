use ruplicity::collections::BackupChain;
use ruplicity::manifest::ManifestChain;
use ruplicity::rawpath::RawPath;
use ruplicity::read::cache::BlockCache;
use ruplicity::read::{BlockProvider, Chain, ChainEntry, DiffType, ProviderError};

fn chain_with(id: (usize, usize), dt: DiffType, path: &[u8]) -> Chain {
    let mut chain = Chain::new();
    chain.add(ChainEntry {
        id,
        diff_type: dt,
        path: RawPath::from_bytes(path.to_vec()),
    });
    chain
}

#[test]
fn entry_reads_cached_blocks_in_order() {
    let chain = chain_with((1, 0), DiffType::Snapshot, b"some/file");
    let provider: BlockProvider<()> =
        BlockProvider::new(ManifestChain::new(), BackupChain::build(&vec![]), chain, (), 10);
    let mut entry = provider.read((1, 0)).unwrap();

    let mut cache = BlockCache::new(4);
    assert_eq!(cache.write(((1, 0), 0), b"hello "), Some(6));
    assert_eq!(cache.write(((1, 0), 1), b"world"), Some(5));
    let bytes = entry.read_to_end(&mut cache);
    assert_eq!(bytes, b"hello world".to_vec());
}

#[test]
fn entry_unknown_id_gives_nothing() {
    let chain = chain_with((1, 0), DiffType::Snapshot, b"some/file");
    let provider: BlockProvider<()> =
        BlockProvider::new(ManifestChain::new(), BackupChain::build(&vec![]), chain, (), 10);
    assert!(provider.read((2, 0)).is_none());
}

#[test]
fn entry_empty_without_blocks() {
    let chain = chain_with((1, 0), DiffType::Deleted, b"gone/file");
    let provider: BlockProvider<()> =
        BlockProvider::new(ManifestChain::new(), BackupChain::build(&vec![]), chain, (), 10);
    let mut entry = provider.read((1, 0)).unwrap();
    let mut cache = BlockCache::new(4);
    let bytes = entry.read_to_end(&mut cache);
    assert!(bytes.is_empty());
}

#[test]
fn entry_accepts_streamed_blocks() {
    let chain = chain_with((3, 0), DiffType::Snapshot, b"a/b");
    let provider: BlockProvider<()> =
        BlockProvider::new(ManifestChain::new(), BackupChain::build(&vec![]), chain, (), 10);
    let mut entry = provider.read((3, 0)).unwrap();
    let mut cache = BlockCache::new(4);

    // a miss: nothing cached yet
    let mut out = vec![0; 16];
    assert_eq!(entry.read(&mut cache, &mut out), 0);

    // the stream hands the entry its block, as a volume reader would
    entry.accept_block(b"streamed");
    assert_eq!(entry.read(&mut cache, &mut out), 8);
    assert_eq!(&out[..8], &b"streamed"[..]);
}

#[test]
fn provider_locates_volumes() {
    let names = vec![
        "duplicity-full.20150617T182545Z.vol1.difftar.gz".to_owned(),
        "duplicity-full.20150617T182545Z.manifest".to_owned(),
    ];
    let back = BackupChain::build(&names);
    let chain = chain_with((1, 0), DiffType::Snapshot, b"some/file");
    let mut provider: BlockProvider<()> =
        BlockProvider::new(ManifestChain::new(), back, chain, (), 10);

    let (name, gz) = provider.volume_location(0, 1).unwrap();
    assert_eq!(name, "duplicity-full.20150617T182545Z.vol1.difftar.gz");
    assert!(gz);

    assert!(matches!(
        provider.volume_location(0, 2),
        Err(ProviderError::VolumeNotFound(2))
    ));
    assert!(matches!(
        provider.volume_location(1, 1),
        Err(ProviderError::SetNotFound(1))
    ));

    // storing and reading a block through the provider's snapshot cache
    assert_eq!(provider.store_block(((1, 0), 0), b"data"), Some(4));
    let mut entry = provider.read((1, 0)).unwrap();
    let mut out = vec![0; 8];
    assert_eq!(provider.read_block(&mut entry, &mut out), 4);
    assert_eq!(&out[..4], &b"data"[..]);
}

#[test]
fn provider_refuses_encrypted_volumes() {
    let names = vec![
        "duplicity-full.20150617T182545Z.vol1.difftar.gpg".to_owned(),
        "duplicity-full.20150617T182545Z.manifest.gpg".to_owned(),
    ];
    let back = BackupChain::build(&names);
    let chain = chain_with((1, 0), DiffType::Snapshot, b"some/file");
    let provider: BlockProvider<()> =
        BlockProvider::new(ManifestChain::new(), back, chain, (), 10);
    assert!(matches!(
        provider.volume_location(0, 1),
        Err(ProviderError::Encrypted)
    ));
}

#[test]
fn signature_chain_is_kept() {
    let chain = chain_with((9, 2), DiffType::Signature, b"x");
    let provider: BlockProvider<()> =
        BlockProvider::new(ManifestChain::new(), BackupChain::build(&vec![]), chain, (), 10);
    let e = provider.signature_chain().entry((9, 2)).unwrap();
    assert_eq!(e.diff_type(), DiffType::Signature);
    assert_eq!(e.path_bytes(), b"x");
}

#[test]
fn fill_buf_and_consume() {
    let chain = chain_with((5, 0), DiffType::Snapshot, b"f");
    let provider: BlockProvider<()> =
        BlockProvider::new(ManifestChain::new(), BackupChain::build(&vec![]), chain, (), 10);
    let mut entry = provider.read((5, 0)).unwrap();
    let mut cache = BlockCache::new(2);
    assert_eq!(cache.write(((5, 0), 0), b"abcdef"), Some(6));

    assert_eq!(entry.fill_buf(&mut cache), b"abcdef");
    entry.consume(4);
    assert_eq!(entry.fill_buf(&mut cache), b"ef");
    entry.consume(10);
    assert_eq!(entry.fill_buf(&mut cache), b"abcdef");
}
