//! Wire codec and frame assembler behavior.
use puppydrive::protocol::Introduce;
use puppydrive::protocol::PeerCmd;
use puppydrive::protocol::PupynetProtocol;
use puppydrive::protocol::ByteEater;

fn intro(id: &str, name: &str, owner: &str) -> PeerCmd {
    PeerCmd::Introduce(Introduce {
        id: id.to_string(),
        name: name.to_string(),
        owner: owner.to_string(),
    })
}

fn expect_introduce(cmd: PeerCmd) -> (String, String, String) {
    match cmd {
        PeerCmd::Introduce(i) => (i.id, i.name, i.owner),
        other => panic!("expected Introduce, got {:?}", other),
    }
}

#[test]
fn serialize_exact_bytes() {
    let bytes = intro("a", "bb", "").serialize();
    let expected: Vec<u8> = vec![
        1, 0, // tag
        9, 0, 0, 0, // payload length
        1, 0, 97, // id "a"
        2, 0, 98, 98, // name "bb"
        0, 0, // owner ""
    ];
    assert_eq!(bytes, expected);
}

#[test]
fn try_serialize_matches_serialize() {
    let cmd = intro("node-1", "pup", "me");
    assert_eq!(cmd.try_serialize().unwrap(), cmd.serialize());
}

#[test]
fn try_serialize_rejects_commands_without_encoding() {
    assert!(PeerCmd::Hello.try_serialize().is_none());
    let cmd = PeerCmd::ReadFile {
        node_id: "n".to_string(),
        path: "/tmp/x".to_string(),
        offset: 0,
        length: 8,
    };
    assert!(cmd.try_serialize().is_none());
}

#[test]
fn try_serialize_rejects_oversized_strings() {
    let long = "x".repeat(0x1_0000);
    assert!(intro(&long, "n", "o").try_serialize().is_none());
    let limit = "y".repeat(0xFFFF);
    assert!(intro(&limit, "n", "o").try_serialize().is_some());
}

#[test]
fn round_trip_single_feed() {
    let bytes = intro("id-1", "name-1", "owner-1").serialize();
    let mut proto = PupynetProtocol::new();
    proto.parse(&bytes);
    let (id, name, owner) = expect_introduce(proto.next().unwrap());
    assert_eq!(id, "id-1");
    assert_eq!(name, "name-1");
    assert_eq!(owner, "owner-1");
    assert!(proto.next().is_none());
}

#[test]
fn round_trip_unicode_strings() {
    let bytes = intro("höund", "ぱぴぃ", "žluťoučký").serialize();
    let mut proto = PupynetProtocol::new();
    proto.parse(&bytes);
    let (id, name, owner) = expect_introduce(proto.next().unwrap());
    assert_eq!(id, "höund");
    assert_eq!(name, "ぱぴぃ");
    assert_eq!(owner, "žluťoučký");
}

#[test]
fn round_trip_empty_strings() {
    let bytes = intro("", "", "").serialize();
    let mut proto = PupynetProtocol::new();
    proto.parse(&bytes);
    let (id, name, owner) = expect_introduce(proto.next().unwrap());
    assert_eq!(id, "");
    assert_eq!(name, "");
    assert_eq!(owner, "");
}

#[test]
fn one_byte_at_a_time_yields_same_commands() {
    let bytes = intro("id-1", "name-1", "owner-1").serialize();
    let mut proto = PupynetProtocol::new();
    for b in &bytes {
        proto.parse(std::slice::from_ref(b));
    }
    let (id, name, owner) = expect_introduce(proto.next().unwrap());
    assert_eq!(id, "id-1");
    assert_eq!(name, "name-1");
    assert_eq!(owner, "owner-1");
    assert!(proto.next().is_none());
}

#[test]
fn two_frames_in_one_feed() {
    let mut bytes = intro("first", "f", "").serialize();
    bytes.extend_from_slice(&intro("second", "s", "").serialize());
    let mut proto = PupynetProtocol::new();
    proto.parse(&bytes);
    let (id1, _, _) = expect_introduce(proto.next().unwrap());
    let (id2, _, _) = expect_introduce(proto.next().unwrap());
    assert_eq!(id1, "first");
    assert_eq!(id2, "second");
    assert!(proto.next().is_none());
}

#[test]
fn frame_split_across_feeds() {
    let bytes = intro("split", "in", "two").serialize();
    let (left, right) = bytes.split_at(7);
    let mut proto = PupynetProtocol::new();
    proto.parse(left);
    assert!(proto.next().is_none());
    proto.parse(right);
    let (id, _, _) = expect_introduce(proto.next().unwrap());
    assert_eq!(id, "split");
}

#[test]
fn short_header_stays_buffered() {
    let mut proto = PupynetProtocol::new();
    proto.parse(&[1, 0, 3]);
    assert!(proto.next().is_none());
}

#[test]
fn unknown_tag_is_dropped_and_stream_continues() {
    let mut bytes: Vec<u8> = vec![9, 0, 2, 0, 0, 0, 0xAA, 0xBB];
    bytes.extend_from_slice(&intro("after", "a", "b").serialize());
    let mut proto = PupynetProtocol::new();
    proto.parse(&bytes);
    let (id, _, _) = expect_introduce(proto.next().unwrap());
    assert_eq!(id, "after");
    assert!(proto.next().is_none());
}

#[test]
fn overrunning_string_length_is_dropped_cleanly() {
    // Payload declares a 200-byte id inside a 5-byte payload.
    let bytes: Vec<u8> = vec![1, 0, 5, 0, 0, 0, 200, 0, 97, 98, 99];
    let mut proto = PupynetProtocol::new();
    proto.parse(&bytes);
    assert!(proto.next().is_none());
    // The connection keeps working afterwards.
    proto.parse(&intro("ok", "", "").serialize());
    let (id, _, _) = expect_introduce(proto.next().unwrap());
    assert_eq!(id, "ok");
}

#[test]
fn trailing_payload_bytes_are_a_framing_error() {
    // A valid three-string payload with one stray byte inside the
    // declared payload length.
    let bytes: Vec<u8> = vec![1, 0, 8, 0, 0, 0, 1, 0, 97, 0, 0, 0, 0, 0xFF];
    let mut proto = PupynetProtocol::new();
    proto.parse(&bytes);
    assert!(proto.next().is_none());
}

#[test]
fn invalid_utf8_is_dropped_cleanly() {
    // id is one byte 0xFF, which is not valid UTF-8.
    let bytes: Vec<u8> = vec![1, 0, 7, 0, 0, 0, 1, 0, 0xFF, 0, 0, 0, 0];
    let mut proto = PupynetProtocol::new();
    proto.parse(&bytes);
    assert!(proto.next().is_none());
}

#[test]
fn byte_eater_peeks_little_endian_u16() {
    let buf = [0x34u8, 0x12, 7];
    let mut eater = ByteEater::new(&buf);
    assert_eq!(eater.get_u16(), Some(0x1234));
    // Reading does not consume; a second read sees the same bytes.
    assert_eq!(eater.remaining_len(), 3);
    assert_eq!(eater.get_u16(), Some(0x1234));
}

#[test]
fn byte_eater_short_u16_is_none() {
    let buf = [9u8];
    let mut eater = ByteEater::new(&buf);
    assert_eq!(eater.get_u16(), None);
    assert_eq!(eater.remaining_len(), 1);
}

#[test]
fn byte_eater_reads_prefixed_string() {
    let buf = [2u8, 0, 104, 105, 1, 0, 33];
    let mut eater = ByteEater::new(&buf);
    assert_eq!(eater.get_string().unwrap(), "hi");
    assert_eq!(eater.get_string().unwrap(), "!");
    assert_eq!(eater.remaining_len(), 0);
}

#[test]
fn byte_eater_overrun_consumes_nothing() {
    let buf = [9u8, 0, 104];
    let mut eater = ByteEater::new(&buf);
    assert_eq!(eater.get_string(), None);
    assert_eq!(eater.remaining_len(), 3);
}
