use ccanvas::cli::parse_commands;
use ccanvas::request::Prepared;
use ccanvas::request::ListenCtx;
use ccanvas::request::RequestContent;
use ccanvas::request::prepare_request;
use ccanvas::discrim::Discriminator;

fn words(ws: &[&str]) -> Vec<Vec<u8>> {
    ws.iter().map(|w| w.as_bytes().to_vec()).collect()
}

#[test]
fn one_group_parses() {
    let got = parse_commands(words(&["editor", "vi", "-R"])).unwrap();
    assert_eq!(got, vec![words(&["editor", "vi", "-R"])]);
}

#[test]
fn groups_split_at_the_separator() {
    let got = parse_commands(words(&["a", "cmd1", "$", "b", "cmd2", "x"])).unwrap();
    assert_eq!(got, vec![words(&["a", "cmd1"]), words(&["b", "cmd2", "x"])]);
}

#[test]
fn short_groups_and_empty_lines_are_refused() {
    assert!(parse_commands(Vec::new()).is_err());
    assert!(parse_commands(words(&["onlylabel"])).is_err());
    assert!(parse_commands(words(&["a", "cmd", "$", "b"])).is_err());
    assert!(parse_commands(words(&["$", "a", "cmd"])).is_err());
    // a trailing separator leaves no dangling group
    let got = parse_commands(words(&["a", "cmd", "$"])).unwrap();
    assert_eq!(got, vec![words(&["a", "cmd"])]);
}

#[test]
fn the_listener_rewrites_requests() {
    let me = Discriminator(vec![1, 4]);
    let ctx = ListenCtx { focused: Discriminator(vec![1, 4]) };
    // a watch is bound to its watcher
    let out = prepare_request(
        &me,
        Discriminator(vec![1]),
        RequestContent::Watch { label: b"k".to_vec() },
        &ctx,
    );
    match &out[0] {
        Prepared::Forward { target, content: RequestContent::WatchInternal(w) } => {
            assert_eq!(target.0, vec![1]);
            assert_eq!(w.label, b"k".to_vec());
            assert_eq!(w.watcher.0, vec![1, 4]);
        },
        _ => panic!("expected a bound watch"),
    }
    // a subscription is stamped and goes to the parent, with an immediate reply
    let out2 = prepare_request(
        &me,
        Discriminator(vec![]),
        RequestContent::Subscribe {
            channel: ccanvas::channel::Subscription::AllKeyPresses,
            priority: Some(2),
            component: None,
        },
        &ctx,
    );
    assert_eq!(out2.len(), 2);
    match &out2[1] {
        Prepared::Forward { target, content: RequestContent::Subscribe { component, .. } } => {
            assert_eq!(target.0, vec![1]);
            assert_eq!(component.as_ref().unwrap().0, vec![1, 4]);
        },
        _ => panic!("expected the forwarded subscription"),
    }
    // a render goes to the master
    let out3 = prepare_request(
        &me,
        Discriminator(vec![1]),
        RequestContent::Render { content: b"x".to_vec(), flush: true },
        &ctx,
    );
    match &out3[0] {
        Prepared::Forward { target, .. } => assert!(target.0.is_empty()),
        _ => panic!("expected a forward"),
    }
    // an acknowledgement resolves its slot on the spot
    let out4 = prepare_request(
        &me,
        Discriminator(vec![]),
        RequestContent::ConfirmRecieve { id: 12, pass: false },
        &ctx,
    );
    assert!(matches!(out4[0], Prepared::Confirm { id: 12, pass: false }));
    // a state query is answered from what the listener knows
    let out5 = prepare_request(
        &me,
        Discriminator(vec![]),
        RequestContent::GetState { label: ccanvas::request::StateValue::IsFocused },
        &ctx,
    );
    match &out5[0] {
        Prepared::ReplyState { is_focused, .. } => assert!(*is_focused),
        _ => panic!("expected a state reply"),
    }
    // a drop with no subject names the requester and goes to its parent
    let out6 = prepare_request(&me, Discriminator(vec![]), RequestContent::Drop { discrim: None }, &ctx);
    match &out6[0] {
        Prepared::Forward { target, content: RequestContent::Drop { discrim } } => {
            assert_eq!(target.0, vec![1]);
            assert_eq!(discrim.as_ref().unwrap().0, vec![1, 4]);
        },
        _ => panic!("expected the forwarded drop"),
    }
}

#[test]
fn discriminator_paths_behave() {
    let d = Discriminator(vec![1, 4]);
    assert!(d.starts_with(&Discriminator(vec![1])));
    assert!(!d.starts_with(&Discriminator(vec![2])));
    assert_eq!(d.own_id(), 4);
    assert_eq!(d.immediate_parent().unwrap().0, vec![1]);
    let hop = Discriminator(vec![1]).immediate_child(&d).unwrap();
    assert_eq!(hop.0, vec![1, 4]);
    assert!(Discriminator(vec![2]).immediate_child(&d).is_none());
    assert!(Discriminator::master().is_empty());
}
