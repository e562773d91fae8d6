use coap_hal_server::message::{Packet, METHOD_GET, METHOD_PUT, OPTION_OBSERVE};
use coap_hal_server::observe::{
    observe_action, parse_watch_path, AttributeSelection, ObserveAction, Observer, ObserversHolder, WatchPathError,
};

fn observer(endpoint: u8, token: u8, path: &str) -> Observer {
    Observer { endpoint: vec![endpoint], token: vec![token], relative_path: path.to_owned() }
}

#[test]
fn attach_notify_detach() {
    let mut holder = ObserversHolder::new();
    assert!(holder.attach(observer(1, 1, "ev3-ports:in1/attributes")));
    assert!(!holder.attach(observer(2, 7, "ev3-ports:in2/attributes")));
    let all = holder.notify_change();
    assert_eq!(all.len(), 2);
    assert_eq!(all[0].sequence, 0);
    let some = holder.notify_change_for_path("ev3-ports:in2/attributes");
    assert_eq!(some.len(), 1);
    assert_eq!(some[0].endpoint, vec![2]);
    assert_eq!(some[0].token, vec![7]);
    assert_eq!(some[0].sequence, 1);
    assert!(!holder.detach(&vec![1], &vec![1]));
    assert!(holder.detach(&vec![2], &vec![7]));
}

#[test]
fn watch_paths() {
    assert!(matches!(parse_watch_path(&vec![]), Err(WatchPathError::MissingAddress)));
    assert!(matches!(parse_watch_path(&vec!["a".to_owned()]), Err(WatchPathError::MissingAttributes)));
    match parse_watch_path(&vec!["a".to_owned(), "attributes".to_owned()]) {
        Ok((address, AttributeSelection::All)) => assert_eq!(address, "a"),
        _ => panic!("expected all attributes"),
    }
    match parse_watch_path(&vec!["a".to_owned(), "attributes".to_owned(), "x,y".to_owned()]) {
        Ok((_, AttributeSelection::Named(names))) => assert_eq!(names, vec!["x".to_owned(), "y".to_owned()]),
        _ => panic!("expected named attributes"),
    }
}

#[test]
fn observed_paths() {
    let mut holder = ObserversHolder::new();
    holder.attach(observer(1, 1, "a/attributes"));
    assert!(holder.observes_path("a/attributes"));
    assert!(!holder.observes_path("b/attributes"));
    holder.detach(&vec![1], &vec![1]);
    assert!(!holder.observes_path("a/attributes"));
}

fn with_observe(method: u8, value: Option<Vec<u8>>) -> Packet {
    let mut p = Packet::new();
    p.code = method;
    if let Some(v) = value {
        p.add_option(OPTION_OBSERVE, v);
    }
    p
}

#[test]
fn observe_actions() {
    assert_eq!(observe_action(&with_observe(METHOD_GET, Some(vec![]))), Some(ObserveAction::Register));
    assert_eq!(observe_action(&with_observe(METHOD_GET, Some(vec![0]))), Some(ObserveAction::Register));
    assert_eq!(observe_action(&with_observe(METHOD_GET, Some(vec![1]))), Some(ObserveAction::Deregister));
    assert_eq!(observe_action(&with_observe(METHOD_GET, Some(vec![2]))), None);
    assert_eq!(observe_action(&with_observe(METHOD_GET, None)), None);
    assert_eq!(observe_action(&with_observe(METHOD_PUT, Some(vec![0]))), None);
}
