use clipboard_relay::auth::{Request, Response};
use clipboard_relay::codec::encode_payload;
use clipboard_relay::config::Config;
use clipboard_relay::name::Name;
use clipboard_relay::payload::Payload;

#[test]
fn name_within_cap_is_accepted() {
    let name = Name::new("x".repeat(64)).unwrap();
    assert_eq!(name.as_str().len(), 64);
    let copy = name.duplicate();
    assert!(copy == name);
}

#[test]
fn name_over_cap_is_rejected() {
    assert!(Name::new("x".repeat(65)).is_err());
}

#[test]
fn name_cap_counts_bytes_not_characters() {
    // thirty-three two-byte characters: sixty-six bytes, thirty-three characters
    let wide = "\u{00e9}".repeat(33);
    assert_eq!(wide.chars().count(), 33);
    assert!(Name::new(wide).is_err());
    // thirty-two of them fit
    assert!(Name::new("\u{00e9}".repeat(32)).is_ok());
}

#[test]
fn name_equality_is_by_value() {
    let a = Name::new(String::from("alice")).unwrap();
    let b = Name::new(String::from("alice")).unwrap();
    let c = Name::new(String::from("carol")).unwrap();
    assert!(a == b);
    assert!(a != c);
}

#[test]
fn request_carries_its_fields() {
    let r = Request::new(String::from("alice"), String::from("tok"));
    assert_eq!(r.name, "alice");
    assert_eq!(r.token, "tok");
    let wire = encode_payload(&r.into_payload());
    assert_eq!(wire, "{\"type\":\"auth\",\"name\":\"alice\",\"token\":\"tok\"}");
}

#[test]
fn response_carries_its_verdict() {
    let yes = Response::new(true);
    assert!(yes.success);
    let wire = encode_payload(&yes.into_payload());
    assert_eq!(wire, "{\"success\":true}");
    let no = Response::new(false);
    assert!(!no.success);
}

#[test]
fn payload_constructors() {
    match Payload::auth(String::from("n"), String::from("t")) {
        Payload::Auth { name, token } => {
            assert_eq!(name, "n");
            assert_eq!(token, "t");
        }
        _ => panic!("expected an auth payload"),
    }
    match Payload::auth_result(true) {
        Payload::AuthResult { success } => assert!(success),
        _ => panic!("expected an auth result"),
    }
    match Payload::clip(String::from("body")) {
        Payload::Clip(c) => assert_eq!(c.text, "body"),
        _ => panic!("expected a clip"),
    }
}

#[test]
fn config_holds_its_fields() {
    let c = Config::new(String::from("0.0.0.0"), 9999, String::from("tok"));
    assert_eq!(c.hostname, "0.0.0.0");
    assert_eq!(c.port, 9999);
    assert_eq!(c.token, "tok");
}
