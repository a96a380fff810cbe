use clipboard_relay::clip::Clip;
use clipboard_relay::codec::{decode_payload, encode_payload};
use clipboard_relay::payload::Payload;

fn clip_payload(text: &str, timestamp: u64) -> Payload {
    Payload::Clip(Clip { text: String::from(text), timestamp })
}

#[test]
fn encode_clip_exact() {
    let s = encode_payload(&clip_payload("hello", 100));
    assert_eq!(s, "{\"text\":\"hello\",\"timestamp\":100}");
}

#[test]
fn encode_auth_exact() {
    let p = Payload::auth(String::from("alice"), String::from("s3cr3t"));
    let s = encode_payload(&p);
    assert_eq!(s, "{\"type\":\"auth\",\"name\":\"alice\",\"token\":\"s3cr3t\"}");
}

#[test]
fn encode_auth_result_exact() {
    assert_eq!(encode_payload(&Payload::auth_result(true)), "{\"success\":true}");
    assert_eq!(encode_payload(&Payload::auth_result(false)), "{\"success\":false}");
}

#[test]
fn encode_escapes_quotes_backslashes_and_controls() {
    let s = encode_payload(&clip_payload("a\"b\\c\nd\te", 7));
    assert_eq!(s, "{\"text\":\"a\\\"b\\\\c\\u000ad\\u0009e\",\"timestamp\":7}");
}

#[test]
fn decode_clip_round_trip() {
    let original = clip_payload("weird \"text\" with \\ and \u{1F600} and \r\n", 18446744073709551615);
    let wire = encode_payload(&original);
    match decode_payload(&wire) {
        Ok(Payload::Clip(c)) => {
            assert_eq!(c.text, "weird \"text\" with \\ and \u{1F600} and \r\n");
            assert_eq!(c.timestamp, u64::MAX);
        }
        other => panic!("expected a clip, got {:?}", other.is_ok()),
    }
}

#[test]
fn decode_auth_round_trip() {
    let original = Payload::auth(String::from("bob\u{00e9}"), String::from("t\"k"));
    let wire = encode_payload(&original);
    match decode_payload(&wire) {
        Ok(Payload::Auth { name, token }) => {
            assert_eq!(name, "bob\u{00e9}");
            assert_eq!(token, "t\"k");
        }
        _ => panic!("expected an auth request"),
    }
}

#[test]
fn decode_auth_result_round_trip() {
    for success in [true, false] {
        let wire = encode_payload(&Payload::auth_result(success));
        match decode_payload(&wire) {
            Ok(Payload::AuthResult { success: got }) => assert_eq!(got, success),
            _ => panic!("expected an auth result"),
        }
    }
}

#[test]
fn decode_plain_clip() {
    match decode_payload("{\"text\":\"hi\",\"timestamp\":0}") {
        Ok(Payload::Clip(c)) => {
            assert_eq!(c.text, "hi");
            assert_eq!(c.timestamp, 0);
        }
        _ => panic!("expected a clip"),
    }
}

#[test]
fn decode_rejects_noncanonical_numbers() {
    assert!(decode_payload("{\"text\":\"a\",\"timestamp\":01}").is_err());
    assert!(decode_payload("{\"text\":\"a\",\"timestamp\":00}").is_err());
    assert!(decode_payload("{\"text\":\"a\",\"timestamp\":-1}").is_err());
    // one past the largest sixty-four-bit value
    assert!(decode_payload("{\"text\":\"a\",\"timestamp\":18446744073709551616}").is_err());
    // the largest value itself is fine
    assert!(decode_payload("{\"text\":\"a\",\"timestamp\":18446744073709551615}").is_ok());
}

#[test]
fn decode_rejects_malformed_frames() {
    assert!(decode_payload("").is_err());
    assert!(decode_payload("{}").is_err());
    assert!(decode_payload("not json at all").is_err());
    assert!(decode_payload("{\"text\":\"a\"}").is_err());
    assert!(decode_payload("{\"text\":\"a\",\"timestamp\":1} ").is_err());
    assert!(decode_payload("{\"text\":\"a\",\"timestamp\":1}}").is_err());
    assert!(decode_payload("{\"text\":\"unterminated,\"timestamp\":1}").is_err());
    assert!(decode_payload("{\"success\":maybe}").is_err());
    assert!(decode_payload("{\"success\":true} ").is_err());
    assert!(decode_payload("{\"type\":\"auth\",\"name\":\"a\"}").is_err());
}

#[test]
fn decode_rejects_unknown_escapes_and_bare_controls() {
    assert!(decode_payload("{\"text\":\"a\\qb\",\"timestamp\":1}").is_err());
    assert!(decode_payload("{\"text\":\"a\nb\",\"timestamp\":1}").is_err());
    // an escape that spells a printable character is not canonical
    assert!(decode_payload("{\"text\":\"\\u0041\",\"timestamp\":1}").is_err());
    // uppercase hexadecimal is not canonical
    assert!(decode_payload("{\"text\":\"\\u000A\",\"timestamp\":1}").is_err());
    // the canonical control spelling is accepted
    match decode_payload("{\"text\":\"\\u000a\",\"timestamp\":1}") {
        Ok(Payload::Clip(c)) => assert_eq!(c.text, "\n"),
        _ => panic!("expected a clip"),
    }
}

#[test]
fn decode_rejects_shuffled_fields() {
    assert!(decode_payload("{\"timestamp\":1,\"text\":\"a\"}").is_err());
    assert!(decode_payload("{\"token\":\"t\",\"type\":\"auth\",\"name\":\"a\"}").is_err());
}

#[test]
fn empty_text_round_trips() {
    let wire = encode_payload(&clip_payload("", 0));
    assert_eq!(wire, "{\"text\":\"\",\"timestamp\":0}");
    match decode_payload(&wire) {
        Ok(Payload::Clip(c)) => {
            assert_eq!(c.text, "");
            assert_eq!(c.timestamp, 0);
        }
        _ => panic!("expected a clip"),
    }
}

#[test]
fn empty_name_and_token_round_trip() {
    let wire = encode_payload(&Payload::auth(String::new(), String::new()));
    assert_eq!(wire, "{\"type\":\"auth\",\"name\":\"\",\"token\":\"\"}");
    match decode_payload(&wire) {
        Ok(Payload::Auth { name, token }) => {
            assert_eq!(name, "");
            assert_eq!(token, "");
        }
        _ => panic!("expected an auth request"),
    }
}
