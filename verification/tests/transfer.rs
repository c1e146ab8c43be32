use p2p_ft::transfer::{
    encode_metadata, is_metadata_ack, metadata_ack, parse_metadata, ReceiveProgress,
};

#[test]
fn metadata_text() {
    assert_eq!(encode_metadata(b"photo.jpg", 1024), b"name/photo.jpg/size/1024".to_vec());
    assert_eq!(encode_metadata(b"", 0), b"name//size/0".to_vec());
}

#[test]
fn metadata_roundtrip() {
    for (name, size) in [("a.txt", 0u64), ("report.pdf", 123456), ("x", u64::MAX)] {
        let message = encode_metadata(name.as_bytes(), size);
        let m = parse_metadata(&message).unwrap();
        assert_eq!(m.file_name, name.as_bytes().to_vec());
        assert_eq!(m.file_size, size);
    }
}

#[test]
fn metadata_extra_fields_ignored() {
    let m = parse_metadata(b"name/f/size/10/extra").unwrap();
    assert_eq!(m.file_name, b"f".to_vec());
    assert_eq!(m.file_size, 10);
}

#[test]
fn metadata_refused() {
    assert!(parse_metadata(b"").is_none());
    assert!(parse_metadata(b"name/f/size").is_none());
    assert!(parse_metadata(b"nome/f/size/10").is_none());
    assert!(parse_metadata(b"name/f/sise/10").is_none());
    assert!(parse_metadata(b"name/f/size/ten").is_none());
    assert!(parse_metadata(b"name/f/size/-1").is_none());
    assert!(parse_metadata(b"name/f/size/18446744073709551616").is_none());
}

#[test]
fn ack_is_recognised_exactly() {
    assert_eq!(metadata_ack(), b"ACK_META".to_vec());
    assert!(is_metadata_ack(&metadata_ack()));
    assert!(!is_metadata_ack(b"ACK_META\n"));
    assert!(!is_metadata_ack(b"ack_meta"));
    assert!(!is_metadata_ack(b""));
}

#[test]
fn receive_completes_when_sizes_add_up() {
    let mut progress = ReceiveProgress::new(10);
    assert!(!progress.is_complete());
    assert!(!progress.record(4));
    assert!(!progress.record(0));
    assert_eq!(progress.received, 4);
    assert!(progress.record(6));
    assert_eq!(progress.received, 10);
    assert!(progress.is_complete());
}

#[test]
fn receive_overshoot_never_completes() {
    let mut progress = ReceiveProgress::new(5);
    assert!(!progress.record(8));
    assert!(!progress.record(1));
    assert_eq!(progress.received, 9);
    assert!(!progress.is_complete());
}

#[test]
fn empty_file_is_complete_before_any_chunk() {
    let mut progress = ReceiveProgress::new(0);
    assert!(progress.is_complete());
    assert!(progress.record(0));
    assert_eq!(progress.received, 0);
}
