use comlink::rpc::{classify_event, Incoming};
use comlink::{is_allowed_origin, Envelope, Message, Origin, Value, WireValue};

type Test = fn(&str) -> bool;

/// `[/^http:\/\/localhost(:[0-9]+)?\/?$/]`
fn localhost(origin: &str) -> bool {
    let rest = match origin.strip_prefix("http://localhost") {
        Some(rest) => rest,
        None => return false,
    };
    let rest = rest.strip_suffix('/').unwrap_or(rest);
    rest.is_empty() || (rest.starts_with(':') && rest[1..].chars().all(|c| c.is_ascii_digit()))
}

fn localhost_only() -> Vec<Origin<Test>> {
    vec![Origin::predicate(localhost as Test)]
}

fn attack() -> Envelope {
    Envelope::Request(Message::Assign {
        id: "attack".to_string(),
        path: vec!["foo".to_string()],
        value: WireValue::Raw {
            value: Value::string("x"),
        },
    })
}

#[test]
fn rejects_messages_from_unknown_origin() {
    assert!(!is_allowed_origin(&localhost_only(), "null"));
    assert_eq!(classify_event(&localhost_only(), &attack(), "null"), Incoming::Refused);
    // The exposed side writes only what it was asked by an allowed origin.
    let mut exposed = Value::object(vec![("foo", Value::string("bar"))]);
    if classify_event(&localhost_only(), &attack(), "null") == Incoming::Request {
        exposed.set_path(&["foo".to_string()], Value::string("x"));
    }
    assert_eq!(exposed.path(&["foo".to_string()]), Some(&Value::string("bar")));
}

#[test]
fn accepts_messages_from_matching_origin() {
    assert!(is_allowed_origin(&localhost_only(), "http://localhost:9876"));
    assert_eq!(
        classify_event(&localhost_only(), &attack(), "http://localhost:9876"),
        Incoming::Request
    );
}

#[test]
fn default_allows_every_origin() {
    let any: Vec<Origin<Test>> = vec![Origin::Any];
    assert!(is_allowed_origin(&any, "https://example.invalid"));
    let star: Vec<Origin<Test>> = vec![Origin::Exact("*".to_string())];
    assert!(is_allowed_origin(&star, "https://example.invalid"));
}

#[test]
fn exact_origins_match_exactly() {
    let list: Vec<Origin<Test>> = vec![Origin::Exact("https://a.example".to_string())];
    assert!(is_allowed_origin(&list, "https://a.example"));
    assert!(!is_allowed_origin(&list, "https://b.example"));
    let empty: Vec<Origin<Test>> = vec![];
    assert!(!is_allowed_origin(&empty, ""));
}

#[test]
fn unknown_message_types_are_ignored() {
    let any: Vec<Origin<Test>> = vec![Origin::Any];
    let response = Envelope::Response {
        id: "nobody".to_string(),
        value: WireValue::Raw {
            value: Value::Undefined,
        },
    };
    assert_eq!(classify_event(&any, &response, ""), Incoming::Ignored);
    assert_eq!(classify_event(&any, &Envelope::Data(Value::Null), ""), Incoming::Ignored);
}
