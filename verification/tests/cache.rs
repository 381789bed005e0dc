use ruplicity::read::cache::BlockCache;

fn is_send<T: Send>(_: T) {}

fn is_sync<T: Sync>(_: T) {}

#[test]
fn write_read() {
    let mut cache = BlockCache::new(2);
    let id = ((0, 0), 0);
    let mut buf = vec![0; 5];

    assert_eq!(cache.read(id, &mut buf), None);
    assert_eq!(cache.write(id, b"pippo"), Some(5));
    assert_eq!(cache.read(id, &mut buf), Some(5));
    assert_eq!(&buf[..], &b"pippo"[..]);
}

#[test]
fn max_blocks() {
    let mut cache = BlockCache::new(2);
    let id0 = ((0, 0), 0);
    let id1 = ((0, 0), 1);
    let mut buf = vec![0; 3];

    assert_eq!(cache.write(id0, b"id0"), Some(3));
    assert_eq!(cache.write(id1, b"id1"), Some(3));
    assert_eq!(cache.read(id0, &mut buf), Some(3));
    assert_eq!(&buf[..], &b"id0"[..]);
    assert_eq!(cache.read(id1, &mut buf), Some(3));
    assert_eq!(&buf[..], &b"id1"[..]);
}

#[test]
fn full_cache() {
    let mut cache = BlockCache::new(2);
    let id0 = ((0, 0), 0);
    let id1 = ((0, 0), 1);
    let id2 = ((0, 0), 2);
    let mut buf = vec![0; 3];

    assert_eq!(cache.write(id0, b"id0"), Some(3));
    assert_eq!(cache.write(id1, b"id1"), Some(3));
    assert_eq!(cache.write(id2, b"id2"), Some(3));
    // id0 disappeared
    assert_eq!(cache.read(id0, &mut buf), None);
    // id1 and id2 are there
    assert_eq!(cache.read(id1, &mut buf), Some(3));
    assert_eq!(&buf[..], &b"id1"[..]);
    assert_eq!(cache.read(id2, &mut buf), Some(3));
    assert_eq!(&buf[..], &b"id2"[..]);
}

#[test]
fn read_refresh_usage() {
    let mut cache = BlockCache::new(2);
    let id0 = ((0, 0), 0);
    let id1 = ((0, 0), 1);
    let id2 = ((0, 0), 2);
    let mut buf = vec![0; 3];

    assert_eq!(cache.write(id0, b"id0"), Some(3));
    assert_eq!(cache.write(id1, b"id1"), Some(3));
    // refresh id0, so id1 becomes less used
    assert_eq!(cache.read(id0, &mut buf), Some(3));
    // write another
    assert_eq!(cache.write(id2, b"id2"), Some(3));
    // id1 disappeared
    assert_eq!(cache.read(id1, &mut buf), None);
    // id0 and id2 are there
    assert_eq!(cache.read(id0, &mut buf), Some(3));
    assert_eq!(&buf[..], &b"id0"[..]);
    assert_eq!(cache.read(id2, &mut buf), Some(3));
    assert_eq!(&buf[..], &b"id2"[..]);
}

#[test]
fn send_sync() {
    let cache = BlockCache::new(1);
    is_sync(&cache);
    is_send(&cache);
    is_send(cache);
}

#[test]
fn zero_capacity_cache() {
    let mut cache = BlockCache::new(0);
    let id = ((0, 0), 0);
    let mut buf = vec![0; 3];

    assert_eq!(cache.write(id, b"abc"), None);
    assert_eq!(cache.read(id, &mut buf), None);
    assert_eq!(&buf[..], &b"\0\0\0"[..]);
}

#[test]
fn rewrite_preserves_bytes() {
    let mut cache = BlockCache::new(2);
    let id = ((7, 1), 3);
    let mut buf = vec![0; 3];

    assert_eq!(cache.write(id, b"one"), Some(3));
    // a second write of the same id changes nothing
    assert_eq!(cache.write(id, b"two"), None);
    assert_eq!(cache.read(id, &mut buf), Some(3));
    assert_eq!(&buf[..], &b"one"[..]);
}

#[test]
fn short_buffer_read() {
    let mut cache = BlockCache::new(1);
    let id = ((0, 0), 0);
    let mut buf = vec![0; 3];

    assert_eq!(cache.write(id, b"pippo"), Some(5));
    // only as many bytes as the buffer holds are copied
    assert_eq!(cache.read(id, &mut buf), Some(3));
    assert_eq!(&buf[..], &b"pip"[..]);
}

#[test]
fn clear_empties() {
    let mut cache = BlockCache::new(2);
    let id = ((0, 0), 0);
    let mut buf = vec![0; 3];

    assert_eq!(cache.write(id, b"abc"), Some(3));
    cache.clear();
    assert_eq!(cache.read(id, &mut buf), None);
}
