use rugus::block::RamFlash;
use rugus::faultlog::{FaultLog, FaultRecord, RECORD_LEN};
use rugus::rufs::Rufs;

fn store() -> Rufs<RamFlash, 32> {
    Rufs::mount(RamFlash::new(4, 4096, 256)).unwrap()
}

#[test]
fn record_bytes_roundtrip() {
    let r = FaultRecord { seq: 7, kind: 2, arg: 0xDEAD_BEEF };
    let b = r.to_bytes();
    assert_eq!(b.len(), RECORD_LEN);
    assert_eq!(b, vec![7, 0, 0, 0, 2, 0, 0, 0, 0xEF, 0xBE, 0xAD, 0xDE]);
    assert_eq!(FaultRecord::from_bytes(&b), Some(r));
    assert_eq!(FaultRecord::from_bytes(&b[..11]), None);
    assert_eq!(FaultRecord::default(), FaultRecord { seq: 0, kind: 0, arg: 0 });
}

#[test]
fn fault_log_keeps_last_entries_in_order() {
    let mut fs = store();
    let mut log = FaultLog::<3>::open(&mut fs).unwrap();
    assert_eq!(log.total(), 0);
    for i in 0..5u32 {
        assert_eq!(log.record(&mut fs, 1, 100 + i), Ok(i));
    }
    assert_eq!(log.total(), 5);
    assert_eq!(log.stored(), 3);
    let recs = log.records(&mut fs).unwrap();
    let seqs: Vec<u32> = recs.iter().map(|r| r.seq).collect();
    assert_eq!(seqs, vec![2, 3, 4]);
    assert_eq!(recs[2].arg, 104);
}

#[test]
fn fault_log_survives_reopen() {
    let mut fs = store();
    let mut log = FaultLog::<4>::open(&mut fs).unwrap();
    log.record(&mut fs, 3, 9).unwrap();
    log.record(&mut fs, 3, 10).unwrap();
    let mut fs2 = Rufs::<_, 32>::mount(fs.into_device()).unwrap();
    let log2 = FaultLog::<4>::open(&mut fs2).unwrap();
    assert_eq!(log2.total(), 2);
    let recs = log2.records(&mut fs2).unwrap();
    assert_eq!(recs.len(), 2);
    assert_eq!(recs[1], FaultRecord { seq: 1, kind: 3, arg: 10 });
}
