use peer_mesh::codec::{decode, encode_request, encode_response};
use peer_mesh::message::{ListMode, ListRequest, ListResponse, Message};

fn one(id: &str) -> ListMode {
    ListMode::One(id.as_bytes().to_vec())
}

fn response(mode: ListMode, data: &[u8], receiver: &str) -> ListResponse {
    ListResponse { mode, data: data.to_vec(), receiver: receiver.as_bytes().to_vec() }
}

fn same_mode(a: &ListMode, b: &ListMode) -> bool {
    match (a, b) {
        (ListMode::All, ListMode::All) => true,
        (ListMode::One(x), ListMode::One(y)) => x == y,
        _ => false,
    }
}

#[test]
fn request_all_wire_form() {
    let q = ListRequest { mode: ListMode::All };
    assert_eq!(encode_request(&q), br#"{"mode":"All"}"#.to_vec());
}

#[test]
fn request_one_wire_form() {
    let q = ListRequest { mode: one("QmPeerB") };
    assert_eq!(encode_request(&q), br#"{"mode":{"One":"QmPeerB"}}"#.to_vec());
}

#[test]
fn response_wire_form() {
    let r = response(ListMode::All, b"hi", "B");
    assert_eq!(encode_response(&r), br#"{"mode":"All","data":"hi","receiver":"B"}"#.to_vec());
}

#[test]
fn escapes_in_wire_form() {
    let r = response(one("x\"y"), b"a\"b\\c\n\x1f", "r");
    assert_eq!(
        encode_response(&r),
        br#"{"mode":{"One":"x\"y"},"data":"a\"b\\c\u000a\u001f","receiver":"r"}"#.to_vec()
    );
}

#[test]
fn request_round_trip() {
    for mode in [ListMode::All, one("QmPeerB"), one(""), one("a\\\"\u{1}é")] {
        let q = ListRequest { mode: mode.clone() };
        match decode(&encode_request(&q)) {
            Some(Message::Request(back)) => assert!(same_mode(&back.mode, &mode)),
            _ => panic!("request did not read back as a request"),
        }
    }
}

#[test]
fn response_round_trip() {
    let r = response(one("QmQ"), b"line one\nline \"two\" \\ \x00 \xff", "QmP");
    match decode(&encode_response(&r)) {
        Some(Message::Response(back)) => {
            assert!(same_mode(&back.mode, &r.mode));
            assert_eq!(back.data, r.data);
            assert_eq!(back.receiver, r.receiver);
        },
        _ => panic!("response did not read back as a response"),
    }
}

#[test]
fn empty_fields_round_trip() {
    let r = response(ListMode::All, b"", "");
    match decode(&encode_response(&r)) {
        Some(Message::Response(back)) => {
            assert!(back.data.is_empty());
            assert!(back.receiver.is_empty());
        },
        _ => panic!("empty response lost"),
    }
}

#[test]
fn request_is_not_read_as_response() {
    let q = ListRequest { mode: one("QmPeerB") };
    assert!(matches!(decode(&encode_request(&q)), Some(Message::Request(_))));
}

#[test]
fn response_is_not_read_as_request() {
    let r = response(ListMode::All, b"x", "QmPeerB");
    assert!(matches!(decode(&encode_response(&r)), Some(Message::Response(_))));
}

#[test]
fn foreign_payloads_are_dropped() {
    let payloads: [&[u8]; 9] = [
        b"",
        b"hello",
        br#"{"mode":"All"} "#,
        br#"{"mode":"ALL"}"#,
        br#"{"mode":{"One":"a\x"}}"#,
        br#"{"mode":"All","data":"d"}"#,
        br#"{"mode":"All","data":"d","receiver":"r""#,
        b"{\"mode\":{\"One\":\"a\nb\"}}",
        br#"{"mode":{"one":"A"}}"#,
    ];
    for p in payloads {
        assert!(decode(p).is_none());
    }
}
