use comlink::MessageType;
use comlink::rpc::{
    answer, Answer,
    ProxyCount,
    after_answer, answer_shape, plan_request, AnswerShape, RequestStep, Teardown,
    cannot_set, extend_path, format_message_id, join_path, not_a_constructor, not_a_function,
    plan_apply, plan_construct, plan_get, plan_set, released_error, unbound_path,
    unknown_handler_error, unserializable_error, CallStep, EntryKind, GetStep, SetStep,
};

fn path(p: &[&str]) -> Vec<String> {
    p.iter().map(|s| s.to_string()).collect()
}

#[test]
fn paths_join_with_dots() {
    assert_eq!(join_path(&path(&[])), "");
    assert_eq!(join_path(&path(&["a"])), "a");
    assert_eq!(join_path(&path(&["a", "b", "c"])), "a.b.c");
}

#[test]
fn getting_a_property_extends_the_path() {
    assert_eq!(extend_path(&path(&[]), "a"), path(&["a"]));
    assert_eq!(extend_path(&path(&["a"]), "b"), path(&["a", "b"]));
}

#[test]
fn a_trailing_bind_is_dropped() {
    assert_eq!(unbound_path(&path(&["inc", "bind"])), Some(path(&["inc"])));
    assert_eq!(unbound_path(&path(&["bind"])), Some(path(&[])));
    assert_eq!(unbound_path(&path(&["bind", "inc"])), None);
    assert_eq!(unbound_path(&path(&[])), None);
}

#[test]
fn failures_say_what_went_wrong() {
    let f = not_a_function(&path(&["a", "f"]));
    assert_eq!(f.message(), Some("a.f is not a function"));
    assert_eq!(f.name(), Some("TypeError"));
    assert_eq!(
        not_a_constructor(&path(&["C"])).message(),
        Some("C is not a constructor")
    );
    assert_eq!(cannot_set(&path(&["a", "b"])).message(), Some("cannot set a.b"));
    let r = released_error();
    assert_eq!(r.message(), Some("Proxy has been released and is not useable"));
    assert_eq!(r.name(), Some("Error"));
    assert_eq!(
        unserializable_error().message(),
        Some("Unserializable return value")
    );
    let u = unknown_handler_error("blob");
    assert_eq!(u.message(), Some("no transfer handler registered under 'blob'"));
    assert_eq!(u.name(), Some("TypeError"));
}

#[test]
fn reading_an_object_follows_its_entries() {
    assert_eq!(plan_get(None, 0), GetStep::Snapshot);
    assert_eq!(plan_get(None, 1), GetStep::Undefined);
    assert_eq!(plan_get(Some(EntryKind::Data), 1), GetStep::Stored);
    assert_eq!(plan_get(Some(EntryKind::Method), 1), GetStep::Unserializable);
    assert_eq!(plan_get(Some(EntryKind::Class), 1), GetStep::Unserializable);
    assert_eq!(plan_get(Some(EntryKind::Child), 1), GetStep::WholeChild);
    assert_eq!(plan_get(Some(EntryKind::Proxied), 1), GetStep::ProxyChild);
    assert_eq!(
        plan_get(Some(EntryKind::Accessor { get: true, set: false }), 1),
        GetStep::CallGetter
    );
    assert_eq!(
        plan_get(Some(EntryKind::Accessor { get: false, set: true }), 1),
        GetStep::Undefined
    );
    assert_eq!(plan_get(Some(EntryKind::Data), 2), GetStep::WalkStored);
    assert_eq!(plan_get(Some(EntryKind::Held), 2), GetStep::Undefined);
    assert_eq!(plan_get(Some(EntryKind::Class), 3), GetStep::Delegate);
    assert_eq!(
        plan_get(Some(EntryKind::Accessor { get: true, set: true }), 2),
        GetStep::WalkGotten
    );
}

#[test]
fn assigning_to_an_object_follows_its_entries() {
    assert_eq!(plan_set(None, 0), SetStep::AssignRoot);
    assert_eq!(plan_set(None, 1), SetStep::Store);
    assert_eq!(
        plan_set(Some(EntryKind::Accessor { get: true, set: true }), 1),
        SetStep::CallSetter
    );
    assert_eq!(
        plan_set(Some(EntryKind::Accessor { get: true, set: false }), 1),
        SetStep::Store
    );
    assert_eq!(plan_set(Some(EntryKind::Data), 2), SetStep::WriteInto);
    assert_eq!(plan_set(Some(EntryKind::Child), 2), SetStep::Delegate);
    assert_eq!(plan_set(Some(EntryKind::Method), 2), SetStep::CannotSet);
    assert_eq!(plan_set(None, 2), SetStep::CannotSet);
}

#[test]
fn calling_and_constructing_follow_the_entries() {
    assert_eq!(plan_apply(None, 0), CallStep::Root);
    assert_eq!(plan_apply(Some(EntryKind::Method), 1), CallStep::Invoke);
    assert_eq!(plan_apply(Some(EntryKind::Data), 1), CallStep::NotCallable);
    assert_eq!(plan_apply(None, 1), CallStep::NotCallable);
    assert_eq!(plan_apply(Some(EntryKind::Class), 2), CallStep::Delegate);
    assert_eq!(plan_construct(None, 0), CallStep::Root);
    assert_eq!(plan_construct(Some(EntryKind::Class), 1), CallStep::Delegate);
    assert_eq!(plan_construct(Some(EntryKind::Method), 1), CallStep::NotCallable);
}

#[test]
fn message_ids_are_four_hex_chunks() {
    assert_eq!(format_message_id(0, 0, ""), "0-0-0-0");
    // 'a' is 97 = 0x61; (97 * 31 + 98) = 3105 = 0xc21 for "ab".
    assert_eq!(format_message_id(0x1_0000_0000_00ff, 1, "ab"), "ff-1-c21-0");
    assert_eq!(format_message_id(255, 16, "a"), "ff-10-61-10");
}

#[test]
fn each_request_kind_has_its_operation_and_answer() {
    assert_eq!(plan_request(MessageType::Get), RequestStep::Read);
    assert_eq!(plan_request(MessageType::Assign), RequestStep::Assign);
    assert_eq!(plan_request(MessageType::Apply), RequestStep::Call);
    assert_eq!(plan_request(MessageType::Construct), RequestStep::Construct);
    assert_eq!(plan_request(MessageType::Endpoint), RequestStep::NewEndpoint);
    assert_eq!(plan_request(MessageType::Release), RequestStep::Release);
    assert_eq!(answer_shape(MessageType::Get), AnswerShape::AsReturned);
    assert_eq!(answer_shape(MessageType::Apply), AnswerShape::AsReturned);
    assert_eq!(answer_shape(MessageType::Assign), AnswerShape::True);
    assert_eq!(answer_shape(MessageType::Construct), AnswerShape::Proxied);
    assert_eq!(answer_shape(MessageType::Endpoint), AnswerShape::NewPort);
    assert_eq!(answer_shape(MessageType::Release), AnswerShape::Undefined);
}

#[test]
fn only_a_release_tears_down_and_only_a_port_is_closed() {
    let all = Teardown { stop_listening: true, close: true, finalize: true };
    let keep_open = Teardown { stop_listening: true, close: false, finalize: true };
    let nothing = Teardown { stop_listening: false, close: false, finalize: false };
    assert_eq!(after_answer(MessageType::Release, true), all);
    assert_eq!(after_answer(MessageType::Release, false), keep_open);
    assert_eq!(after_answer(MessageType::Get, true), nothing);
    assert_eq!(after_answer(MessageType::Assign, false), nothing);
}

#[test]
fn the_last_proxy_releases_once() {
    let mut c = ProxyCount::new();
    c.add();
    assert!(!c.drop_one());
    assert!(!c.is_released());
    assert!(c.drop_one());
    assert!(c.is_released());
    let mut d = ProxyCount::new();
    assert!(d.release());
    assert!(!d.release());
    assert!(!d.drop_one());
    assert_eq!(d.live_count(), 0);
}

#[test]
fn an_answer_is_shaped_by_the_request_and_failures_travel_as_thrown() {
    assert!(matches!(answer(MessageType::Get, Ok::<u8, _>(7)), Answer::Returned(7)));
    assert!(matches!(answer(MessageType::Apply, Ok::<u8, _>(7)), Answer::Returned(7)));
    assert!(matches!(answer(MessageType::Assign, Ok::<u8, _>(7)), Answer::True));
    assert!(matches!(answer(MessageType::Construct, Ok::<u8, _>(7)), Answer::Proxied(7)));
    assert!(matches!(answer(MessageType::Endpoint, Ok::<u8, _>(7)), Answer::NewPort(7)));
    assert!(matches!(answer(MessageType::Release, Ok::<u8, _>(7)), Answer::Undefined));
    match answer::<u8>(MessageType::Assign, Err(cannot_set(&path(&["a"])))) {
        Answer::Thrown(t) => assert_eq!(t.message(), Some("cannot set a")),
        _ => panic!("a failure must travel as thrown"),
    }
}
