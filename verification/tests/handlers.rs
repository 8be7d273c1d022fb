use comlink::{remove_transfer_handler, set_transfer_handler, HandlerTable};

fn names(t: &HandlerTable<u32>) -> Vec<(String, u32)> {
    t.entries().to_vec()
}

#[test]
fn handlers_are_found_by_name() {
    let mut t: HandlerTable<u32> = HandlerTable::new();
    set_transfer_handler(&mut t, "proxy", 1);
    set_transfer_handler(&mut t, "throw", 2);
    assert_eq!(t.get("proxy"), Some(&1));
    assert_eq!(t.get("throw"), Some(&2));
    assert_eq!(t.get("event"), None);
}

#[test]
fn replacing_a_handler_keeps_its_place() {
    let mut t: HandlerTable<u32> = HandlerTable::new();
    set_transfer_handler(&mut t, "proxy", 1);
    set_transfer_handler(&mut t, "throw", 2);
    set_transfer_handler(&mut t, "proxy", 3);
    assert_eq!(
        names(&t),
        vec![("proxy".to_string(), 3), ("throw".to_string(), 2)]
    );
}

#[test]
fn removed_handlers_are_gone_and_the_rest_stay_in_order() {
    let mut t: HandlerTable<u32> = HandlerTable::new();
    set_transfer_handler(&mut t, "proxy", 1);
    set_transfer_handler(&mut t, "event", 5);
    set_transfer_handler(&mut t, "throw", 2);
    remove_transfer_handler(&mut t, "event");
    assert_eq!(t.get("event"), None);
    assert_eq!(
        names(&t),
        vec![("proxy".to_string(), 1), ("throw".to_string(), 2)]
    );
    remove_transfer_handler(&mut t, "missing");
    assert_eq!(names(&t).len(), 2);
}

#[test]
fn setting_then_removing_a_new_handler_gives_the_table_back() {
    let mut t: HandlerTable<u32> = HandlerTable::new();
    set_transfer_handler(&mut t, "proxy", 1);
    set_transfer_handler(&mut t, "throw", 2);
    let before = names(&t);
    set_transfer_handler(&mut t, "event", 3);
    remove_transfer_handler(&mut t, "event");
    assert_eq!(names(&t), before);
    remove_transfer_handler(&mut t, "event");
    assert_eq!(names(&t), before);
}

