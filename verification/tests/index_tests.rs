use logsearch::ByteOffset;
use logsearch::MsgOffsets;
use logsearch::SeqNum;

fn push_frame(log: &mut Vec<u8>, body: &[u8]) {
    let len = body.len() as u64 + 8;
    log.extend_from_slice(&len.to_be_bytes());
    log.extend_from_slice(body);
}

fn entry_bytes(entries: &[u64]) -> Vec<u8> {
    let mut out = Vec::new();
    for e in entries {
        out.extend_from_slice(&e.to_be_bytes());
    }
    out
}

#[test]
fn build_correctness() {
    // Three frames with body lengths 3, 0 and 10: frame lengths 11, 8, 18,
    // so the end offsets are 11, 19 and 37.
    let mut log = Vec::new();
    push_frame(&mut log, &[1, 2, 3]);
    push_frame(&mut log, &[]);
    push_frame(&mut log, &[9; 10]);
    assert_eq!(log.len(), 37);

    let (idx, bytes) = MsgOffsets::load(&log, &[]);
    assert_eq!(bytes, entry_bytes(&[11, 19, 37]));
    assert_eq!(idx.last(), Some(SeqNum(2)));
    assert_eq!(idx.lookup(SeqNum(0)), Some(ByteOffset(11)));
    assert_eq!(idx.lookup(SeqNum(1)), Some(ByteOffset(19)));
    assert_eq!(idx.lookup(SeqNum(2)), Some(ByteOffset(37)));
    assert_eq!(idx.lookup(SeqNum(3)), None);
}

#[test]
fn idempotence() {
    let mut log = Vec::new();
    push_frame(&mut log, &[5; 20]);
    push_frame(&mut log, &[6; 4]);

    let (_, first) = MsgOffsets::load(&log, &[]);
    let (idx, second) = MsgOffsets::load(&log, &first);
    assert_eq!(second, first);
    let (_, third) = MsgOffsets::load(&log, &second);
    assert_eq!(third, first);
    assert_eq!(idx.last(), Some(SeqNum(1)));
}

#[test]
fn incremental_extension() {
    let mut log = Vec::new();
    push_frame(&mut log, &[1; 8]);
    push_frame(&mut log, &[2; 16]);
    let (idx, old_bytes) = MsgOffsets::load(&log, &[]);
    assert_eq!(idx.last(), Some(SeqNum(1)));
    assert_eq!(old_bytes, entry_bytes(&[16, 40]));

    push_frame(&mut log, &[3; 2]);
    push_frame(&mut log, &[4; 5]);
    push_frame(&mut log, &[5; 0]);
    let (idx2, new_bytes) = MsgOffsets::load(&log, &old_bytes);
    assert_eq!(idx2.last(), Some(SeqNum(4)));
    // The old entries stand unchanged; one new entry per appended frame.
    assert_eq!(&new_bytes[..old_bytes.len()], &old_bytes[..]);
    assert_eq!(new_bytes, entry_bytes(&[16, 40, 50, 63, 71]));
    assert_eq!(idx2.lookup(SeqNum(2)), Some(ByteOffset(50)));
    assert_eq!(idx2.lookup(SeqNum(4)), Some(ByteOffset(71)));
}

#[test]
fn truncated_tail() {
    let mut log = Vec::new();
    push_frame(&mut log, &[7; 12]);
    push_frame(&mut log, &[8; 12]);
    // A trailing frame that declares 32 bytes but has only 10 of them yet.
    log.extend_from_slice(&32u64.to_be_bytes());
    log.extend_from_slice(&[9; 2]);

    let (idx, bytes) = MsgOffsets::load(&log, &[]);
    assert_eq!(idx.last(), Some(SeqNum(1)));
    assert_eq!(bytes, entry_bytes(&[20, 40]));

    // Complete the tail: the next load indexes it without touching the rest.
    log.extend_from_slice(&[9; 22]);
    let (idx2, bytes2) = MsgOffsets::load(&log, &bytes);
    assert_eq!(idx2.last(), Some(SeqNum(2)));
    assert_eq!(bytes2, entry_bytes(&[20, 40, 72]));
    assert_eq!(idx2.lookup(SeqNum(2)), Some(ByteOffset(72)));
}

#[test]
fn truncated_tail_short_length_field() {
    let mut log = Vec::new();
    push_frame(&mut log, &[1; 4]);
    // Fewer than 8 trailing bytes: not even a length field yet.
    log.extend_from_slice(&[0, 0, 0]);
    let (idx, bytes) = MsgOffsets::load(&log, &[]);
    assert_eq!(idx.last(), Some(SeqNum(0)));
    assert_eq!(bytes, entry_bytes(&[12]));
}

#[test]
fn malformed_length_stops_scan() {
    let mut log = Vec::new();
    push_frame(&mut log, &[1; 4]);
    // A frame cannot be shorter than its own length field; the scan stops.
    log.extend_from_slice(&3u64.to_be_bytes());
    log.extend_from_slice(&[0; 16]);
    let (idx, bytes) = MsgOffsets::load(&log, &[]);
    assert_eq!(idx.last(), Some(SeqNum(0)));
    assert_eq!(bytes, entry_bytes(&[12]));
}

#[test]
fn lookup_bounds() {
    // An empty log over an empty index: no valid sequence numbers at all.
    let (idx, bytes) = MsgOffsets::load(&[], &[]);
    assert_eq!(idx.last(), None);
    assert_eq!(idx.lookup(SeqNum(0)), None);
    assert!(bytes.is_empty());

    let mut log = Vec::new();
    push_frame(&mut log, &[0; 1]);
    push_frame(&mut log, &[0; 2]);
    push_frame(&mut log, &[0; 3]);
    let (idx, _) = MsgOffsets::load(&log, &[]);
    assert_eq!(idx.last(), Some(SeqNum(2)));
    for s in 0..3 {
        assert!(idx.lookup(SeqNum(s)).is_some());
    }
    assert_eq!(idx.lookup(SeqNum(3)), None);
    assert_eq!(idx.lookup(SeqNum(u64::MAX)), None);
}

#[test]
fn random_logs_index_fully() {
    // Frames of random body lengths: the index always ends at the log's end
    // and its entries grow strictly.
    for _ in 0..16 {
        let mut log = Vec::new();
        let frames = 1 + rand::random::<u64>() % 40;
        for _ in 0..frames {
            let body_len = (rand::random::<u64>() % 200) as usize;
            let body: Vec<u8> = (0..body_len).map(|_| rand::random::<u8>()).collect();
            push_frame(&mut log, &body);
        }
        let (idx, bytes) = MsgOffsets::load(&log, &[]);
        assert_eq!(bytes.len(), 8 * frames as usize);
        assert_eq!(idx.last(), Some(SeqNum(frames - 1)));
        assert_eq!(idx.lookup(SeqNum(frames - 1)), Some(ByteOffset(log.len() as u64)));
        let mut prev = 0u64;
        for s in 0..frames {
            let ByteOffset(off) = idx.lookup(SeqNum(s)).unwrap();
            assert!(off > prev);
            prev = off;
        }
    }
}
