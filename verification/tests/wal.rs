use vektordb::io::Target;
use vektordb::wal::{SyncPolicy, Wal, WalOp};
use vektordb::Error;

fn op(id: u64) -> WalOp {
    WalOp::Insert { id, vector: vec![(id as f32).to_bits(); 8] }
}

fn perform(log: &mut Vec<u8>, plan: &[(Target, Vec<u8>)]) {
    for (target, bytes) in plan {
        match target {
            Target::WalFrame { .. } => log.extend_from_slice(bytes),
            Target::WalReset => log.clear(),
            Target::WalSync => {}
            _ => panic!("not for the log"),
        }
    }
}

fn append(wal: &mut Wal, log: &mut Vec<u8>, op: &WalOp) -> u64 {
    let plan = wal.append_writes(op).unwrap();
    perform(log, &plan);
    wal.append(op, Ok(())).unwrap()
}

fn log_of_ten() -> Vec<u8> {
    let mut log = Vec::new();
    let (mut wal, _) = Wal::open(&[], SyncPolicy::Never).unwrap();
    for i in 0..10 {
        append(&mut wal, &mut log, &op(i));
    }
    perform(&mut log, &wal.sync());
    log
}

fn crc(bytes: &[u8]) -> u32 {
    crc32fast::hash(bytes)
}

fn frame(payload: &[u8]) -> Vec<u8> {
    let mut out = Vec::new();
    out.extend_from_slice(&(payload.len() as u32).to_le_bytes());
    out.extend_from_slice(&crc(payload).to_le_bytes());
    out.extend_from_slice(payload);
    out
}

#[test]
fn append_reopen_replay() {
    let mut log = Vec::new();
    {
        let (mut wal, recs) = Wal::open(&[], SyncPolicy::Always).unwrap();
        assert!(recs.is_empty());
        for i in 0..50 {
            assert_eq!(append(&mut wal, &mut log, &op(i)), i);
        }
    }
    let (wal, recs) = Wal::open(&log, SyncPolicy::Always).unwrap();
    assert_eq!(recs.len(), 50);
    assert_eq!(wal.next_lsn(), 50);
    for (i, (lsn, o)) in recs.iter().enumerate() {
        assert_eq!(*lsn, i as u64);
        assert_eq!(*o, op(i as u64));
    }
}

#[test]
fn torn_tail_is_truncated() {
    let mut bytes = log_of_ten();
    let full = bytes.len();
    bytes.truncate(full - 7);

    let (mut wal, recs) = Wal::open(&bytes, SyncPolicy::Always).unwrap();
    assert_eq!(recs.len(), 9, "torn record must be dropped");
    assert_eq!(wal.next_lsn(), 9);
    bytes.truncate(wal.intact_len() as usize);
    append(&mut wal, &mut bytes, &op(99));
    let (_, recs) = Wal::open(&bytes, SyncPolicy::Always).unwrap();
    assert_eq!(recs.len(), 10);
}

#[test]
fn corrupted_middle_is_an_error_not_silent_truncation() {
    let mut bytes = log_of_ten();
    let rec_size = bytes.len() / 10;
    bytes[5 * rec_size + 12] ^= 0xFF;
    let before = bytes.clone();

    let msg = match Wal::open(&bytes, SyncPolicy::Always) {
        Err(e) => e.message(),
        Ok(_) => panic!("mid-log corruption must not be reported as success"),
    };
    assert!(msg.contains("checksum mismatch"), "unhelpful error: {msg}");
    assert!(msg.contains("Refusing to truncate"), "unhelpful error: {msg}");
    assert_eq!(bytes.len(), before.len(), "a failed recovery must not truncate anything");
}

#[test]
fn corrupt_last_record_is_treated_as_a_torn_tail() {
    let mut bytes = log_of_ten();
    let rec_size = bytes.len() / 10;
    let last = 9 * rec_size;
    bytes[last + 12] ^= 0xFF;

    let (mut wal, recs) = Wal::open(&bytes, SyncPolicy::Always).unwrap();
    assert_eq!(recs.len(), 9, "torn tail dropped, earlier records kept");
    assert_eq!(wal.next_lsn(), 9);
    bytes.truncate(wal.intact_len() as usize);
    append(&mut wal, &mut bytes, &op(99));
    assert_eq!(Wal::open(&bytes, SyncPolicy::Always).unwrap().1.len(), 10);
}

#[test]
fn reset_clears_but_lsn_advances() {
    let mut log = Vec::new();
    {
        let (mut wal, _) = Wal::open(&[], SyncPolicy::Always).unwrap();
        for i in 0..5 {
            append(&mut wal, &mut log, &op(i));
        }
        perform(&mut log, &wal.reset());
        assert_eq!(append(&mut wal, &mut log, &op(100)), 5, "LSNs continue after reset");
    }
    let (_, recs) = Wal::open(&log, SyncPolicy::Always).unwrap();
    assert_eq!(recs.len(), 1);
    assert_eq!(recs[0].0, 5);
}

#[test]
fn frames_have_the_documented_layout() {
    let (mut wal, _) = Wal::open(&[], SyncPolicy::Always).unwrap();
    wal.ensure_lsn_at_least(7);
    let record = WalOp::Insert { id: 3, vector: vec![1.5f32.to_bits(), (-2.0f32).to_bits()] };
    let plan = wal.append_writes(&record).unwrap();
    assert_eq!(wal.append(&record, Ok(())).unwrap(), 7);
    let mut payload = Vec::new();
    payload.extend_from_slice(&7u64.to_le_bytes());
    payload.push(1);
    payload.extend_from_slice(&3u64.to_le_bytes());
    payload.extend_from_slice(&2u32.to_le_bytes());
    payload.extend_from_slice(&1.5f32.to_le_bytes());
    payload.extend_from_slice(&(-2.0f32).to_le_bytes());
    assert_eq!(plan, vec![(Target::WalFrame { sync: true }, frame(&payload))]);
}

#[test]
fn sync_policy_is_passed_on() {
    let (wal, _) = Wal::open(&[], SyncPolicy::Never).unwrap();
    let plan = wal.append_writes(&op(0)).unwrap();
    assert_eq!(plan.len(), 1);
    assert_eq!(plan[0].0, Target::WalFrame { sync: false });
    assert_eq!(wal.sync(), vec![(Target::WalSync, Vec::new())]);
    assert_eq!(wal.reset(), vec![(Target::WalReset, Vec::new())]);
}

#[test]
fn a_refused_frame_does_not_use_up_its_number() {
    let (mut wal, _) = Wal::open(&[], SyncPolicy::Always).unwrap();
    let first = wal.append_writes(&op(0)).unwrap();
    let e = wal.append(&op(0), Err(Error::Io("disk full".to_string()))).unwrap_err();
    assert_eq!(e.message(), "io error: disk full");
    assert_eq!(wal.next_lsn(), 0);
    assert_eq!(wal.append_writes(&op(0)).unwrap(), first);
}

#[test]
fn a_lost_insert_after_a_torn_one_keeps_all_before() {
    let whole = log_of_ten();
    let rec_size = whole.len() / 10;
    for left in 0..rec_size {
        let log = &whole[..9 * rec_size + left];
        let (wal, recs) = Wal::open(log, SyncPolicy::Always).unwrap();
        assert_eq!(recs.len(), 9);
        assert_eq!(wal.intact_len() as usize, 9 * rec_size);
    }
}

#[test]
fn damaged_records_before_the_tail_are_refused_by_kind() {
    let mut good = Vec::new();
    good.extend_from_slice(&1u64.to_le_bytes());
    good.push(1);
    good.extend_from_slice(&0u64.to_le_bytes());
    good.extend_from_slice(&0u32.to_le_bytes());

    let mut unknown = good.clone();
    unknown[8] = 9;
    let mut log = frame(&unknown);
    log.extend_from_slice(&frame(&good));
    let msg = Wal::open(&log, SyncPolicy::Always).err().unwrap().message();
    assert!(msg.contains("unknown op tag"), "{msg}");

    let mut wrong = good.clone();
    wrong[17] = 5;
    let mut log = frame(&wrong);
    log.extend_from_slice(&frame(&good));
    let msg = Wal::open(&log, SyncPolicy::Always).err().unwrap().message();
    assert!(msg.contains("insert record length disagrees with its dim"), "{msg}");
}

#[test]
fn the_floor_is_never_lowered() {
    let (mut wal, _) = Wal::open(&log_of_ten(), SyncPolicy::Always).unwrap();
    assert_eq!(wal.next_lsn(), 10);
    wal.ensure_lsn_at_least(4);
    assert_eq!(wal.next_lsn(), 10);
    wal.ensure_lsn_at_least(300);
    assert_eq!(wal.next_lsn(), 300);
}

#[test]
fn a_damaged_length_field_is_refused_and_nothing_is_cut() {
    let good = log_of_ten();
    assert_eq!(good.len(), 10 * 61);
    for record in 0..10 {
        let at = record * 61;
        let to_the_end = (good.len() - at - 8) as u32;
        let lengths =
            [u32::MAX, u32::MAX - 1, 10_000, 1 << 31, 306, to_the_end, to_the_end + 1, 57, 49, 8, 0];
        for len in lengths {
            let mut bytes = good.clone();
            bytes[at..at + 4].copy_from_slice(&len.to_le_bytes());
            match Wal::open(&bytes, SyncPolicy::Always) {
                Err(Error::Corrupt(text)) => {
                    // Records lie behind it, or its payload behind a header
                    // that cannot be one.
                    assert!(record < 9 || len < 53, "length {len} at {at}");
                    assert!(text.contains("Refusing to truncate"), "{text}");
                }
                Err(_) => panic!("wrong error"),
                Ok((wal, recs)) if record == 9 => {
                    assert!(len >= 53);
                    let kept = if len == 53 { 10 } else { 9 };
                    assert_eq!((recs.len(), wal.intact_len()), (kept, 61 * kept as u64));
                }
                Ok((_, recs)) => panic!("length {len} at {at}: only {} records", recs.len()),
            }
        }
    }
    // The same field, damaged in the middle of the log.
    let mut bytes = good.clone();
    bytes[305..309].copy_from_slice(&[0xFF; 4]);
    assert!(Wal::open(&bytes, SyncPolicy::Always).is_err());
}

#[test]
fn garbage_at_the_end_is_cut_off() {
    // A header that promises 53 bytes, and fewer, all of them zero.
    let mut tail = vec![0u8; 38];
    tail[0] = 53;
    let (wal, recs) = Wal::open(&tail, SyncPolicy::Always).unwrap();
    assert_eq!((recs.len(), wal.intact_len()), (0, 0));
    let good = log_of_ten();
    for left in 0..38 {
        let mut bytes = good.clone();
        bytes.extend_from_slice(&tail[..left]);
        let (wal, recs) = Wal::open(&bytes, SyncPolicy::Always).unwrap();
        assert_eq!((recs.len(), wal.intact_len()), (10, 610));
    }
    // One record with nothing behind it, its length written over.
    let mut one = good[..61].to_vec();
    one[..4].copy_from_slice(&1000u32.to_le_bytes());
    let (wal, recs) = Wal::open(&one, SyncPolicy::Always).unwrap();
    assert_eq!((recs.len(), wal.intact_len()), (0, 0));
    // With a whole record behind it, it is no torn tail.
    one.extend_from_slice(&good[61..122]);
    assert!(Wal::open(&one, SyncPolicy::Always).is_err());
    one.truncate(121);
    assert_eq!(Wal::open(&one, SyncPolicy::Always).unwrap().1.len(), 0);
}

#[test]
fn one_changed_byte_of_a_record_is_noticed() {
    let good = log_of_ten();
    for record in 0..10 {
        for at in record * 61 + 4..(record + 1) * 61 {
            for flip in [0x01, 0x80, 0xFF] {
                let mut bytes = good.clone();
                bytes[at] ^= flip;
                match Wal::open(&bytes, SyncPolicy::Always) {
                    Err(e) => {
                        assert!(record < 9, "byte {at}");
                        assert!(e.message().contains("checksum mismatch at byte offset"));
                    }
                    Ok((wal, recs)) => {
                        assert_eq!((record, recs.len()), (9, 9), "byte {at}");
                        assert_eq!(wal.intact_len(), 9 * 61);
                    }
                }
            }
        }
    }
}
