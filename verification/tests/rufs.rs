use rugus::block::{BlockDevice, MockError, RamFlash};
use rugus::crc::crc32;
use rugus::rufs::{Error, Rufs};

const SEC: usize = 4096;
const PG: usize = 256;

fn fresh(sectors: usize) -> Rufs<RamFlash, 32> {
    Rufs::mount(RamFlash::new(sectors, SEC, PG)).unwrap()
}

#[test]
fn set_get_basic() {
    let mut fs = fresh(8);
    fs.set(b"hostname", b"rugus-f769").unwrap();
    let mut buf = [0u8; 64];
    let n = fs.get(b"hostname", &mut buf).unwrap();
    assert_eq!(&buf[..n], b"rugus-f769");
    assert!(fs.contains(b"hostname"));
    assert_eq!(fs.len(), 1);
}

#[test]
fn overwrite_latest_wins() {
    let mut fs = fresh(8);
    fs.set(b"k", b"v1").unwrap();
    fs.set(b"k", b"v2-longer").unwrap();
    let mut buf = [0u8; 64];
    let n = fs.get(b"k", &mut buf).unwrap();
    assert_eq!(&buf[..n], b"v2-longer");
    assert_eq!(fs.len(), 1);
}

#[test]
fn delete_then_missing() {
    let mut fs = fresh(8);
    fs.set(b"k", b"v").unwrap();
    fs.delete(b"k").unwrap();
    let mut buf = [0u8; 8];
    assert_eq!(fs.get(b"k", &mut buf), Err(Error::NotFound));
    assert!(!fs.contains(b"k"));
    assert_eq!(fs.len(), 0);
}

#[test]
fn remount_persists() {
    let dev = RamFlash::new(8, SEC, PG);
    let mut fs = Rufs::<_, 32>::mount(dev).unwrap();
    fs.set(b"a", b"1").unwrap();
    fs.set(b"b", b"2").unwrap();
    fs.set(b"a", b"3").unwrap();
    fs.delete(b"b").unwrap();
    let dev = fs.into_device();
    let mut fs2 = Rufs::<_, 32>::mount(dev).unwrap();
    let mut buf = [0u8; 16];
    let n = fs2.get(b"a", &mut buf).unwrap();
    assert_eq!(&buf[..n], b"3");
    assert_eq!(fs2.get(b"b", &mut buf), Err(Error::NotFound));
    assert_eq!(fs2.len(), 1);
}

#[test]
fn power_fail_mid_write_is_ignored() {
    let dev = RamFlash::new(8, SEC, PG);
    let mut fs = Rufs::<_, 32>::mount(dev).unwrap();
    fs.set(b"good", b"value").unwrap();
    let mut dev = fs.into_device();

    dev.set_power_fail_after(100);
    let mut fs = Rufs::<_, 32>::mount(dev).unwrap();
    let r = fs.set(b"torn", &[0xAB; 200]);
    assert!(r.is_err());
    let dev = fs.into_device();

    let mut fs2 = Rufs::<_, 32>::mount(dev).unwrap();
    let mut buf = [0u8; 16];
    let n = fs2.get(b"good", &mut buf).unwrap();
    assert_eq!(&buf[..n], b"value");
    assert_eq!(fs2.get(b"torn", &mut buf), Err(Error::NotFound));
}

#[test]
fn wrap_and_compaction() {
    let mut fs = fresh(4);
    for i in 0..500u32 {
        fs.set(b"counter", &i.to_le_bytes()).unwrap();
    }
    let mut buf = [0u8; 4];
    let n = fs.get(b"counter", &mut buf).unwrap();
    assert_eq!(u32::from_le_bytes(buf[..n].try_into().unwrap()), 499);
    assert_eq!(fs.len(), 1);
    let dev = fs.into_device();
    let mut fs2 = Rufs::<_, 32>::mount(dev).unwrap();
    let n = fs2.get(b"counter", &mut buf).unwrap();
    assert_eq!(u32::from_le_bytes(buf[..n].try_into().unwrap()), 499);
}

#[test]
fn many_keys_survive_compaction() {
    let mut fs = fresh(6);
    for k in 0..20u8 {
        let key = [b'k', k];
        fs.set(&key, &[k; 100]).unwrap();
    }
    for _ in 0..30 {
        for k in 0..20u8 {
            let key = [b'k', k];
            fs.set(&key, &[k.wrapping_add(1); 120]).unwrap();
        }
    }
    let dev = fs.into_device();
    let mut fs2 = Rufs::<_, 32>::mount(dev).unwrap();
    assert_eq!(fs2.len(), 20);
    for k in 0..20u8 {
        let key = [b'k', k];
        let mut buf = [0u8; 128];
        let n = fs2.get(&key, &mut buf).unwrap();
        assert!(buf[..n].iter().all(|&b| b == k.wrapping_add(1)));
    }
}

#[test]
fn mount_rejects_too_few_sectors() {
    let r = Rufs::<_, 32>::mount(RamFlash::new(2, SEC, PG));
    assert!(matches!(r, Err(Error::BadGeometry)));
}

#[test]
fn mount_rejects_small_program_unit() {
    let r = Rufs::<_, 32>::mount(RamFlash::new(4, SEC, 16));
    assert!(matches!(r, Err(Error::BadGeometry)));
}

#[test]
fn empty_key_and_oversized_value_are_too_large() {
    let mut fs = fresh(4);
    assert_eq!(fs.set(b"", b"x"), Err(Error::TooLarge));
    assert_eq!(fs.set(&[b'a'; 33], b"x"), Err(Error::TooLarge));
    assert_eq!(fs.set(b"k", &[0u8; 513]), Err(Error::TooLarge));
    assert!(fs.is_empty());
}

#[test]
fn small_buffer_is_reported() {
    let mut fs = fresh(4);
    fs.set(b"k", b"0123456789").unwrap();
    let mut buf = [0u8; 4];
    assert_eq!(fs.get(b"k", &mut buf), Err(Error::BufferTooSmall));
}

#[test]
fn delete_of_missing_key_writes_tombstone() {
    let mut fs = fresh(4);
    assert_eq!(fs.delete(b"nope"), Ok(()));
    assert!(!fs.contains(b"nope"));
    assert_eq!(fs.len(), 0);
    assert_eq!(fs.delete(b""), Err(Error::TooLarge));
}

#[test]
fn index_full_after_capacity_keys() {
    let mut fs = Rufs::<_, 2>::mount(RamFlash::new(4, SEC, PG)).unwrap();
    fs.set(b"a", b"1").unwrap();
    fs.set(b"b", b"2").unwrap();
    assert_eq!(fs.set(b"c", b"3"), Err(Error::IndexFull));
    let mut keys = fs.keys();
    keys.sort();
    assert_eq!(keys, vec![b"a".to_vec(), b"b".to_vec()]);
}

#[test]
fn device_error_is_wrapped() {
    let mut dev = RamFlash::new(4, SEC, PG);
    dev.set_power_fail_after(10);
    let mut fs = Rufs::<_, 8>::mount(dev).unwrap();
    assert_eq!(fs.set(b"k", b"v"), Err(Error::Device(MockError::PowerFail)));
}

#[test]
fn compaction_keeps_every_value() {
    // Three 256-byte sectors: the last write finds no free sector and
    // compacts the one holding only `b`, whose record fits with the new one.
    let mut fs = Rufs::<RamFlash, 8>::mount(RamFlash::new(3, 256, 32)).unwrap();
    fs.set(b"b", &[1u8; 72]).unwrap();
    fs.set(b"b", &[2u8; 40]).unwrap();
    fs.set(b"c", &[3u8; 40]).unwrap();
    fs.set(b"a", &[4u8; 40]).unwrap();
    fs.set(b"a", &[5u8; 8]).unwrap();
    fs.set(b"a", &[6u8; 40]).unwrap();
    let mut buf = [0u8; 64];
    let n = fs.get(b"a", &mut buf).unwrap();
    assert_eq!(&buf[..n], &[6u8; 40][..]);
    let n = fs.get(b"b", &mut buf).unwrap();
    assert_eq!(&buf[..n], &[2u8; 40][..]);
    let n = fs.get(b"c", &mut buf).unwrap();
    assert_eq!(&buf[..n], &[3u8; 40][..]);
    let mut fs2 = Rufs::<RamFlash, 8>::mount(fs.into_device()).unwrap();
    let n = fs2.get(b"a", &mut buf).unwrap();
    assert_eq!(&buf[..n], &[6u8; 40][..]);
    let n = fs2.get(b"b", &mut buf).unwrap();
    assert_eq!(&buf[..n], &[2u8; 40][..]);
    let n = fs2.get(b"c", &mut buf).unwrap();
    assert_eq!(&buf[..n], &[3u8; 40][..]);
    assert_eq!(fs2.len(), 3);
}

#[test]
fn power_fail_during_compaction_keeps_every_value() {
    // Three 256-byte sectors: `b` and `c` fill the first, `a` moves the log
    // to the second; the next write of `a` moves to the third and compacts
    // the second, and the copy of `a` is cut short.
    for cut in [0usize, 3, 4, 20, 24, 40, 64, 95] {
        let mut fs = Rufs::<RamFlash, 8>::mount(RamFlash::new(3, 256, 32)).unwrap();
        fs.set(b"b", &[1u8; 72]).unwrap();
        fs.set(b"c", &[2u8; 72]).unwrap();
        fs.set(b"a", &[4u8; 40]).unwrap();
        let mut dev = fs.into_device();
        dev.set_power_fail_after(cut);
        let mut fs = Rufs::<RamFlash, 8>::mount(dev).unwrap();
        assert_eq!(fs.set(b"a", &[6u8; 104]), Err(Error::Device(MockError::PowerFail)), "cut {cut}");
        let mut buf = [0u8; 128];
        let expected = [(&b"a"[..], &[4u8; 40][..]), (&b"b"[..], &[1u8; 72][..]), (&b"c"[..], &[2u8; 72][..])];
        for (k, v) in expected {
            let n = fs.get(k, &mut buf).unwrap();
            assert_eq!(&buf[..n], v, "cut {cut}");
        }
        let mut fs2 = Rufs::<RamFlash, 8>::mount(fs.into_device()).unwrap();
        for (k, v) in expected {
            let n = fs2.get(k, &mut buf).unwrap();
            assert_eq!(&buf[..n], v, "cut {cut} after remount");
        }
        assert_eq!(fs2.len(), 3);
    }
}

/// A record image as the store lays it out, padded with 0xFF to `len`.
fn record_image(key: &[u8], value: &[u8], seq: u32, len: usize) -> Vec<u8> {
    let mut h = Vec::new();
    h.extend_from_slice(&0x5246_5331u32.to_le_bytes());
    h.extend_from_slice(&seq.to_le_bytes());
    h.extend_from_slice(&(key.len() as u16).to_le_bytes());
    h.extend_from_slice(&(value.len() as u16).to_le_bytes());
    h.extend_from_slice(&0u16.to_le_bytes());
    h.extend_from_slice(&[0xFF, 0xFF]);
    let hc = crc32(&h);
    h.extend_from_slice(&hc.to_le_bytes());
    let mut payload = key.to_vec();
    payload.extend_from_slice(value);
    h.extend_from_slice(&crc32(&payload).to_le_bytes());
    h.extend_from_slice(&payload);
    h.resize(len, 0xFF);
    h
}

#[test]
fn remount_that_compacts_keeps_every_value() {
    // Four 256-byte sectors: `p`, `q` and `r` end up in three sectors and
    // the fourth, the reserve, receives a record written by another hand,
    // newer than the others. Remounting finds no free sector besides the one
    // the log continues in, so it compacts the sector holding `q`, whose
    // record fits after the head.
    let mut fs = Rufs::<RamFlash, 8>::mount(RamFlash::new(4, 256, 32)).unwrap();
    fs.set(b"p", &[1u8; 200]).unwrap();
    fs.set(b"q", &[2u8; 8]).unwrap();
    fs.set(b"r", &[3u8; 200]).unwrap();
    let mut dev = fs.into_device();
    let img = record_image(b"k", &[4u8; 8], 4, 64);
    dev.program(768, &img).unwrap();
    let mut fs2 = Rufs::<RamFlash, 8>::mount(dev).unwrap();
    let mut buf = [0u8; 256];
    let expected = [(&b"p"[..], &[1u8; 200][..]), (&b"q"[..], &[2u8; 8][..]), (&b"r"[..], &[3u8; 200][..]), (&b"k"[..], &[4u8; 8][..])];
    for (k, v) in expected {
        let n = fs2.get(k, &mut buf).unwrap();
        assert_eq!(&buf[..n], v);
    }
    assert_eq!(fs2.len(), 4);
    // The compaction moved `q` next to `k` and freed its sector.
    assert!(fs2.into_device().raw()[..256].iter().all(|b| *b == 0xFF));
}
