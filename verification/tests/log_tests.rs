use seneca::codec::encode_frame;
use seneca::storage::{segment_file_name, Log, Segment, MAX_SEGMENT_SIZE};

/// Drive one append the way a caller with the real file does: roll over if
/// needed (handing the new, empty file to the log), write the frame, then
/// record it. Returns the offset and whether a new segment file was started.
fn append_to(log: &mut Log, file: &mut Vec<u8>, msg: &[u8]) -> (u64, bool) {
    assert!(msg.len() as u64 <= 0xFFFF_FFFF);
    let rolled = log.needs_rollover(msg);
    if rolled {
        log.install_segment(0);
        file.clear();
    }
    file.extend_from_slice(&encode_frame(msg));
    (log.append(msg), rolled)
}

#[test]
fn test_log_append_and_read() {
    let mut log = Log::open(0);
    let mut file: Vec<u8> = Vec::new();

    append_to(&mut log, &mut file, b"message-1");
    append_to(&mut log, &mut file, b"message-2");

    let messages = log.read_all(&file);
    assert_eq!(messages.len(), 2);
    assert_eq!(messages[0], b"message-1");
    assert_eq!(messages[1], b"message-2");
}

#[test]
fn concrete_scenario() {
    let mut log = Log::open(0);
    let mut file: Vec<u8> = Vec::new();

    let (off_a, _) = append_to(&mut log, &mut file, b"a");
    assert_eq!(off_a, 0);
    let (off_bb, _) = append_to(&mut log, &mut file, b"bb");
    assert_eq!(off_bb, 5);

    let messages = log.read_all(&file);
    assert_eq!(messages.len(), 2);
    assert_eq!(messages[0], b"a");
    assert_eq!(messages[1], b"bb");
}

#[test]
fn offsets_accumulate() {
    let mut log = Log::open(0);
    let mut file: Vec<u8> = Vec::new();
    let payloads: [&[u8]; 4] = [b"x", b"four", b"", b"seven77"];

    let mut expected: u64 = 0;
    for payload in payloads {
        let (off, rolled) = append_to(&mut log, &mut file, payload);
        assert!(!rolled);
        assert_eq!(off, expected);
        expected += 4 + payload.len() as u64;
    }
    assert_eq!(log.active.size, expected);
}

#[test]
fn rollover_strictly_past_bound() {
    // Nine 1 MiB messages fit; the tenth would pass the bound and must open
    // segment 1, landing at offset 0 of the new, empty file.
    let msg = vec![7u8; 1024 * 1024];
    let mut log = Log::open(0);
    let mut file: Vec<u8> = Vec::new();

    for _ in 0..9 {
        let (_, rolled) = append_to(&mut log, &mut file, &msg);
        assert!(!rolled);
    }
    assert_eq!(log.active.index, 0);
    let old_file = file.clone();

    let (off, rolled) = append_to(&mut log, &mut file, &msg);
    assert!(rolled);
    assert_eq!(off, 0);
    assert_eq!(log.active.index, 1);
    assert_eq!(segment_file_name(log.active.index), "segment-0001.log");

    // The old segment's bytes are untouched and still decode in full.
    let old_messages = log.read_all(&old_file);
    assert_eq!(old_messages.len(), 9);
    assert!(old_messages.iter().all(|m| m[..] == msg[..]));

    let new_messages = log.read_all(&file);
    assert_eq!(new_messages.len(), 1);
    assert_eq!(new_messages[0], msg);
}

#[test]
fn no_rollover_exactly_at_bound() {
    // A frame that lands exactly on the bound stays in the same segment.
    let mut log = Log::open(MAX_SEGMENT_SIZE - 6);
    assert!(!log.needs_rollover(b"ab"));
    let off = log.append(b"ab");
    assert_eq!(off, MAX_SEGMENT_SIZE - 6);
    assert_eq!(log.active.size, MAX_SEGMENT_SIZE);
    assert_eq!(log.active.index, 0);

    // One byte more and the decision flips.
    let mut log = Log::open(MAX_SEGMENT_SIZE - 5);
    assert!(log.needs_rollover(b"ab"));
}

#[test]
fn restart_durability() {
    let mut log = Log::open(0);
    let mut file: Vec<u8> = Vec::new();
    for payload in [b"one".as_slice(), b"two", b"three"] {
        append_to(&mut log, &mut file, payload);
    }
    let size_before = file.len() as u64;
    assert_eq!(log.active.size, size_before);

    // A new process opens the same directory: segment 0 keeps its size.
    let mut reopened = Log::open(size_before);
    assert_eq!(reopened.active.index, 0);
    assert_eq!(reopened.active.size, size_before);

    let before = file.clone();
    let (off, _) = append_to(&mut reopened, &mut file, b"four");
    assert_eq!(off, size_before);
    assert_eq!(file.len() as u64, size_before + 4 + 4);
    assert_eq!(&file[..size_before as usize], &before[..]);

    let messages = reopened.read_all(&file);
    assert_eq!(messages.len(), 4);
    assert_eq!(messages[0], b"one");
    assert_eq!(messages[1], b"two");
    assert_eq!(messages[2], b"three");
    assert_eq!(messages[3], b"four");
}

#[test]
fn partial_tail_is_dropped() {
    let mut file: Vec<u8> = Vec::new();
    file.extend_from_slice(&encode_frame(b"whole"));
    file.extend_from_slice(&encode_frame(b"frames"));
    // A well-formed header that promises ten bytes, with only three present.
    file.extend_from_slice(&[0, 0, 0, 10]);
    file.extend_from_slice(&[1, 2, 3]);

    let log = Log::open(file.len() as u64);
    let messages = log.read_all(&file);
    assert_eq!(messages.len(), 2);
    assert_eq!(messages[0], b"whole");
    assert_eq!(messages[1], b"frames");
}

#[test]
fn cut_header_is_dropped() {
    let mut file: Vec<u8> = Vec::new();
    file.extend_from_slice(&encode_frame(b"kept"));
    // Only two bytes of the next length prefix made it to disk.
    file.extend_from_slice(&[0, 0]);

    let log = Log::open(file.len() as u64);
    let messages = log.read_all(&file);
    assert_eq!(messages.len(), 1);
    assert_eq!(messages[0], b"kept");
}

#[test]
fn read_empty_segment() {
    let log = Log::open(0);
    let messages = log.read_all(&[]);
    assert_eq!(messages.len(), 0);
}

#[test]
fn frame_bytes_are_exact() {
    assert_eq!(encode_frame(b"a"), vec![0, 0, 0, 1, b'a']);
    assert_eq!(encode_frame(b""), vec![0, 0, 0, 0]);

    let payload = vec![9u8; 300];
    let framed = encode_frame(&payload);
    assert_eq!(&framed[..4], &[0, 0, 1, 44]);
    assert_eq!(&framed[4..], &payload[..]);
}

#[test]
fn segment_file_names_are_zero_padded() {
    assert_eq!(segment_file_name(0), "segment-0000.log");
    assert_eq!(segment_file_name(7), "segment-0007.log");
    assert_eq!(segment_file_name(42), "segment-0042.log");
    assert_eq!(segment_file_name(123), "segment-0123.log");
    assert_eq!(segment_file_name(1234), "segment-1234.log");
    assert_eq!(segment_file_name(56789), "segment-56789.log");
}

#[test]
fn segment_resumes_at_existing_size() {
    let mut segment = Segment::new(3, 100);
    assert_eq!(segment.index, 3);
    assert_eq!(segment.size, 100);
    let off = segment.append(b"resume");
    assert_eq!(off, 100);
    assert_eq!(segment.size, 110);
}

#[test]
fn default_config_listens_locally() {
    let config = seneca::config::load_config();
    assert_eq!(config.listen_addr, "127.0.0.1:9092");
}
