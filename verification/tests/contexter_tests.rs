use contextual_stack::contexter::{Column, Contexter, ContexterHandle, Frame};

#[derive(Debug, Clone, Hash, PartialEq, Eq)]
struct Request;

impl Column for Request {
    type Entry = String;

    const ID: u64 = 1;
}

#[derive(Debug, Clone, Hash, PartialEq, Eq)]
struct Attempt;

impl Column for Attempt {
    type Entry = String;

    const ID: u64 = 2;
}

#[derive(Debug, Clone, Hash, PartialEq, Eq)]
struct Message;

impl Column for Message {
    type Entry = String;

    const ID: u64 = 3;
}

fn s(text: &str) -> String {
    String::from(text)
}

/// One frame, spelled out: the contexts of the three streams and the message.
type Told = (Option<Vec<String>>, Option<Vec<String>>, Result<String, ()>);

fn tell(frame: &Frame<'_, String>) -> Told {
    let owned = |found: Option<Vec<&String>>| found.map(|v| v.into_iter().cloned().collect());
    (
        owned(frame.get_context::<Request>()),
        owned(frame.get_context::<Attempt>()),
        frame.get_value::<Message>().cloned(),
    )
}

fn replay(contexter: &Contexter<String>) -> Vec<Told> {
    let mut frames = contexter.iter();
    let mut out = Vec::new();
    while let Some(frame) = frames.next() {
        out.push(tell(&frame));
    }
    out
}

#[test]
fn a_new_recorder_has_no_frames() {
    let contexter = Contexter::<String>::new();
    assert!(contexter.iter().next().is_none());
}

#[test]
fn request_with_two_attempts() {
    let mut contexter = Contexter::<String>::new();
    let mut request = contexter.add_ctx_to::<Request>(s("42"));
    request.write_to::<Message>(s("start"));
    let mut attempt = request.add_ctx_to::<Attempt>(s("1"));
    attempt.write_to::<Message>(s("try"));
    attempt.close();
    let mut attempt = request.add_ctx_to::<Attempt>(s("2"));
    attempt.write_to::<Message>(s("retry"));
    attempt.close();
    request.close();
    assert_eq!(
        replay(&contexter),
        vec![
            (Some(vec![s("42")]), None, Ok(s("start"))),
            (Some(vec![s("42")]), Some(vec![s("1")]), Ok(s("try"))),
            (Some(vec![s("42")]), Some(vec![s("2")]), Ok(s("retry"))),
        ]
    );
}

#[test]
fn one_frame_for_each_value_written() {
    let mut contexter = Contexter::<String>::new();
    let mut written = 0;
    for round in 0..7 {
        let mut scope = contexter.add_ctx_to::<Request>(format!("{round}"));
        for _ in 0..round {
            scope.write_to::<Request>(s("v"));
            written += 1;
        }
        scope.close();
    }
    assert_eq!(written, 21);
    assert_eq!(replay(&contexter).len(), 21);
}

#[test]
fn nested_scopes_are_both_in_the_frame() {
    let mut contexter = Contexter::<String>::new();
    let mut a = contexter.add_ctx_to::<Request>(s("A"));
    let mut b = a.add_ctx_to::<Attempt>(s("B"));
    b.write_to::<Message>(s("v"));
    b.close();
    a.close();
    assert_eq!(
        replay(&contexter),
        vec![(Some(vec![s("A")]), Some(vec![s("B")]), Ok(s("v")))]
    );
}

#[test]
fn a_slot_used_again_keeps_the_frames_apart() {
    let mut contexter = Contexter::<String>::new();
    let first = contexter.open_scope::<Request>(s("S1"));
    contexter.write_to::<Message>(s("v1"));
    contexter.close_scope(first);
    let second = contexter.open_scope::<Request>(s("S2"));
    contexter.write_to::<Message>(s("v2"));
    contexter.close_scope(second);
    assert_eq!(
        replay(&contexter),
        vec![
            (Some(vec![s("S1")]), None, Ok(s("v1"))),
            (Some(vec![s("S2")]), None, Ok(s("v2"))),
        ]
    );
}

#[test]
fn two_open_scopes_of_one_stream_are_both_reported() {
    let mut contexter = Contexter::<String>::new();
    let mut outer = contexter.add_ctx_to::<Request>(s("outer"));
    let mut inner = outer.add_ctx_to::<Request>(s("inner"));
    inner.write_to::<Message>(s("both"));
    inner.close();
    outer.write_to::<Message>(s("one"));
    outer.close();
    contexter.write_to::<Message>(s("none"));
    assert_eq!(
        replay(&contexter),
        vec![
            (Some(vec![s("outer"), s("inner")]), None, Ok(s("both"))),
            (Some(vec![s("outer")]), None, Ok(s("one"))),
            (Some(vec![]), None, Ok(s("none"))),
        ]
    );
}

#[test]
fn scopes_closed_out_of_order_keep_their_own_contexts() {
    let mut contexter = Contexter::<String>::new();
    let a = contexter.open_scope::<Request>(s("a"));
    let b = contexter.open_scope::<Request>(s("b"));
    let c = contexter.open_scope::<Request>(s("c"));
    contexter.close_scope(b);
    contexter.write_to::<Message>(s("without b"));
    let d = contexter.open_scope::<Request>(s("d"));
    contexter.write_to::<Message>(s("with d"));
    contexter.close_scope(a);
    contexter.close_scope(c);
    contexter.write_to::<Message>(s("d alone"));
    contexter.close_scope(d);
    assert_eq!(
        replay(&contexter),
        vec![
            (Some(vec![s("a"), s("c")]), None, Ok(s("without b"))),
            (Some(vec![s("a"), s("c"), s("d")]), None, Ok(s("with d"))),
            (Some(vec![s("d")]), None, Ok(s("d alone"))),
        ]
    );
}

#[test]
fn values_outside_scopes_have_no_context() {
    let mut contexter = Contexter::<String>::new();
    for i in 0..5 {
        contexter.write_to::<Message>(format!("{i}"));
    }
    let told = replay(&contexter);
    assert_eq!(told.len(), 5);
    for (i, frame) in told.into_iter().enumerate() {
        assert_eq!(frame, (None, None, Ok(format!("{i}"))));
    }
}

#[test]
fn a_value_is_found_under_its_own_stream_only() {
    let mut contexter = Contexter::<String>::new();
    contexter.write_to::<Message>(s("m"));
    contexter.write_to::<Request>(s("r"));
    let mut frames = contexter.iter();
    let first = frames.next().unwrap();
    assert_eq!(first.get_value::<Message>(), Ok(&s("m")));
    assert_eq!(first.get_value::<Request>(), Err(()));
    assert_eq!(first.get_value::<Attempt>(), Err(()));
    let second = frames.next().unwrap();
    assert_eq!(second.get_value::<Request>(), Ok(&s("r")));
    assert_eq!(second.get_value::<Message>(), Err(()));
    assert!(frames.next().is_none());
}

#[test]
fn a_stream_is_both_written_to_and_scoped() {
    let mut contexter = Contexter::<String>::new();
    contexter.write_to::<Request>(s("plain"));
    let mut scope = contexter.add_ctx_to::<Request>(s("ctx"));
    scope.write_to::<Request>(s("inside"));
    scope.close();
    let mut frames = contexter.iter();
    let first = frames.next().unwrap();
    assert_eq!(first.get_value::<Request>(), Ok(&s("plain")));
    assert_eq!(first.get_context::<Request>(), None);
    let second = frames.next().unwrap();
    assert_eq!(second.get_value::<Request>(), Ok(&s("inside")));
    assert_eq!(second.get_context::<Request>(), Some(vec![&s("ctx")]));
}

#[test]
fn a_frame_keeps_its_contexts_after_they_were_closed() {
    let mut contexter = Contexter::<String>::new();
    let mut scope = contexter.add_ctx_to::<Request>(s("early"));
    scope.write_to::<Message>(s("kept"));
    scope.close();
    for i in 0..3 {
        let mut later = contexter.add_ctx_to::<Request>(format!("later {i}"));
        later.write_to::<Message>(s("x"));
        later.close();
    }
    let first = contexter.iter().next().unwrap();
    assert_eq!(first.get_context::<Request>(), Some(vec![&s("early")]));
}

#[test]
fn is_open_follows_the_scope() {
    let mut contexter = Contexter::<String>::new();
    let a = contexter.open_scope::<Request>(s("a"));
    let b = contexter.open_scope::<Request>(s("b"));
    assert!(contexter.is_open(&a));
    assert!(contexter.is_open(&b));
    contexter.close_scope(a);
    assert!(contexter.is_open(&b));
    contexter.close_scope(b);
    let other = Contexter::<String>::new();
    let c = contexter.open_scope::<Attempt>(s("c"));
    assert!(contexter.is_open(&c));
    assert!(!other.is_open(&c));
}

#[test]
fn a_guard_that_is_not_closed_leaves_its_scope_open() {
    let mut contexter = Contexter::<String>::new();
    {
        let mut scope = contexter.add_ctx_to::<Request>(s("left open"));
        scope.write_to::<Message>(s("in"));
    }
    contexter.write_to::<Message>(s("still in"));
    assert_eq!(
        replay(&contexter),
        vec![
            (Some(vec![s("left open")]), None, Ok(s("in"))),
            (Some(vec![s("left open")]), None, Ok(s("still in"))),
        ]
    );
}

#[test]
fn the_trait_reaches_the_same_recorder() {
    fn note<H: ContexterHandle<String>>(handle: &mut H, text: &str) {
        handle.write_to::<Message>(String::from(text));
    }
    let mut contexter = Contexter::<String>::new();
    note(&mut contexter, "direct");
    let mut scope = ContexterHandle::add_ctx_to::<Request>(&mut contexter, s("r"));
    note(&mut scope, "scoped");
    scope.close();
    assert_eq!(
        replay(&contexter),
        vec![
            (None, None, Ok(s("direct"))),
            (Some(vec![s("r")]), None, Ok(s("scoped"))),
        ]
    );
}

#[test]
fn two_replays_of_one_recorder_agree() {
    let mut contexter = Contexter::<String>::new();
    let mut scope = contexter.add_ctx_to::<Request>(s("r"));
    scope.write_to::<Message>(s("one"));
    scope.write_to::<Message>(s("two"));
    scope.close();
    assert_eq!(replay(&contexter), replay(&contexter));
    assert_eq!(replay(&contexter).len(), 2);
}

#[test]
fn a_replay_that_ended_stays_ended() {
    let mut contexter = Contexter::<String>::new();
    contexter.write_to::<Message>(s("only"));
    let mut frames = contexter.iter();
    assert!(frames.next().is_some());
    assert!(frames.next().is_none());
    assert!(frames.next().is_none());
}

#[test]
fn frames_collects_what_a_replay_yields() {
    let mut contexter = Contexter::<String>::new();
    assert!(contexter.frames().is_empty());
    let mut request = contexter.add_ctx_to::<Request>(s("42"));
    request.write_to::<Message>(s("start"));
    let mut attempt = request.add_ctx_to::<Attempt>(s("1"));
    attempt.write_to::<Message>(s("try"));
    attempt.close();
    request.close();
    let all: Vec<Told> = contexter.frames().iter().map(tell).collect();
    assert_eq!(all, replay(&contexter));
    assert_eq!(
        all,
        vec![
            (Some(vec![s("42")]), None, Ok(s("start"))),
            (Some(vec![s("42")]), Some(vec![s("1")]), Ok(s("try"))),
        ]
    );
}

#[test]
fn a_cloned_frame_tells_the_same() {
    let mut contexter = Contexter::<String>::new();
    let mut request = contexter.add_ctx_to::<Request>(s("42"));
    request.write_to::<Message>(s("start"));
    request.close();
    let frame = contexter.iter().next().unwrap();
    let copy = frame.clone();
    assert_eq!(tell(&frame), tell(&copy));
    assert_eq!(copy.get_value::<Message>(), Ok(&s("start")));
}

#[test]
fn many_scopes_of_one_stream_keep_their_slots_apart() {
    let mut contexter = Contexter::<String>::new();
    let mut open = Vec::new();
    for i in 0..20 {
        open.push(contexter.open_scope::<Request>(format!("c{i}")));
    }
    contexter.write_to::<Message>(s("all"));
    let mut expected: Vec<String> = (0..20).map(|i| format!("c{i}")).collect();
    let mut kept = Vec::new();
    for (i, scope) in open.into_iter().enumerate() {
        if i % 3 == 0 {
            contexter.close_scope(scope);
        } else {
            kept.push(scope);
        }
    }
    expected = expected.into_iter().enumerate().filter(|(i, _)| i % 3 != 0).map(|(_, c)| c).collect();
    for i in 0..5 {
        kept.push(contexter.open_scope::<Request>(format!("n{i}")));
        expected.push(format!("n{i}"));
    }
    contexter.write_to::<Message>(s("some"));
    for scope in kept {
        contexter.close_scope(scope);
    }
    contexter.write_to::<Message>(s("none"));
    let told = replay(&contexter);
    assert_eq!(told.len(), 3);
    assert_eq!(told[0].0, Some((0..20).map(|i| format!("c{i}")).collect::<Vec<_>>()));
    assert_eq!(told[1].0, Some(expected));
    assert_eq!(told[2].0, Some(vec![]));
}
