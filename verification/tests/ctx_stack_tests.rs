use contextual_stack::ctx_stack::{ContextError, CtxStack, Frame};
use contextual_stack::hidden_push_api::push_context_do_not_call;
use contextual_stack::StackHandle;

fn drain(stack: &CtxStack<i32, &'static str>) -> Vec<(Vec<i32>, &'static str)> {
    let mut reading = stack.get_all();
    let mut out = Vec::new();
    while let Some(Frame { context, value }) = reading.next() {
        out.push((context.into_iter().copied().collect(), *value));
    }
    out
}

#[test]
fn it_works() {
    let stc = CtxStack::<i32, f64>::new();
    println!("{stc:?}")
}

#[test]
fn new_stack_has_nothing_to_read() {
    let stack = CtxStack::<i32, &'static str>::new();
    assert!(drain(&stack).is_empty());
}

#[test]
fn values_come_back_last_written_first() {
    let mut stack = CtxStack::<i32, &'static str>::new();
    stack.write("a");
    stack.write("b");
    stack.write("c");
    assert_eq!(drain(&stack), vec![(vec![], "c"), (vec![], "b"), (vec![], "a")]);
}

#[test]
fn values_carry_the_keys_of_their_contexts() {
    let mut stack = CtxStack::<i32, &'static str>::new();
    stack.write("a");
    {
        let mut outer = stack.push_context(1).unwrap();
        outer.write("b");
        {
            let mut inner = outer.push_context(2).unwrap();
            inner.write("c");
            inner.close();
        }
        outer.write("d");
        outer.close();
    }
    stack.write("e");
    assert_eq!(
        drain(&stack),
        vec![
            (vec![], "e"),
            (vec![1], "d"),
            (vec![1, 2], "c"),
            (vec![1], "b"),
            (vec![], "a"),
        ]
    );
}

#[test]
fn open_contexts_are_read_too() {
    let mut stack = CtxStack::<i32, &'static str>::new();
    stack.write("a");
    let mut outer = stack.push_context(7).unwrap();
    outer.write("b");
    let mut inner = outer.push_context(8).unwrap();
    inner.write("c");
    let mut reading = inner.get_all();
    let mut seen = Vec::new();
    while let Some(frame) = reading.next() {
        let keys: Vec<i32> = frame.context.iter().map(|k| **k).collect();
        seen.push((keys, *frame.value));
    }
    assert_eq!(seen, vec![(vec![7, 8], "c"), (vec![7], "b"), (vec![], "a")]);
}

#[test]
fn a_key_that_is_open_is_refused() {
    let mut stack = CtxStack::<i32, &'static str>::new();
    let mut outer = stack.push_context(1).unwrap();
    outer.write("kept");
    match outer.push_context(1) {
        Err(ContextError::ContextOverwrite { ctx }) => assert_eq!(ctx, 1),
        Ok(_) => panic!("the key is open and must be refused"),
    }
    outer.close();
    assert_eq!(drain(&stack), vec![(vec![1], "kept")]);
}

#[test]
fn a_refused_key_changes_nothing() {
    let mut stack = CtxStack::<i32, &'static str>::new();
    let mut outer = stack.push_context(1).unwrap();
    let mut inner = outer.push_context(2).unwrap();
    assert!(matches!(
        inner.push_context(1),
        Err(ContextError::ContextOverwrite { ctx: 1 })
    ));
    inner.write("x");
    inner.close();
    outer.close();
    assert_eq!(drain(&stack), vec![(vec![1, 2], "x")]);
}

#[test]
fn a_key_can_be_opened_again_once_it_was_closed() {
    let mut stack = CtxStack::<i32, &'static str>::new();
    let mut first = stack.push_context(1).unwrap();
    first.write("one");
    first.close();
    let mut second = stack.push_context(1).expect("the key is no longer open");
    second.write("two");
    second.close();
    assert_eq!(drain(&stack), vec![(vec![1], "two"), (vec![1], "one")]);
}

#[test]
fn a_guard_that_is_not_closed_leaves_its_context_open() {
    let mut stack = CtxStack::<i32, &'static str>::new();
    {
        let mut guard = stack.push_context(5).unwrap();
        guard.write("in");
    }
    stack.write("still in");
    assert_eq!(drain(&stack), vec![(vec![5], "still in"), (vec![5], "in")]);
}

#[test]
fn the_trait_reaches_the_same_stack() {
    fn record<H: StackHandle<i32, &'static str>>(handle: &mut H) {
        handle.write("through the trait");
    }
    let mut stack = CtxStack::<i32, &'static str>::new();
    record(&mut stack);
    let mut guard = StackHandle::push_context(&mut stack, 3).unwrap();
    record(&mut guard);
    guard.close();
    assert_eq!(
        drain(&stack),
        vec![(vec![3], "through the trait"), (vec![], "through the trait")]
    );
}

#[test]
fn the_hidden_entry_point_pushes_like_push_context() {
    let mut stack = CtxStack::<i32, &'static str>::new();
    let mut guard = push_context_do_not_call(&mut stack, String::from("label"), 4).unwrap();
    guard.write("v");
    assert!(matches!(
        push_context_do_not_call(guard.stack, String::from("label"), 4),
        Err(ContextError::ContextOverwrite { ctx: 4 })
    ));
    guard.close();
    assert_eq!(drain(&stack), vec![(vec![4], "v")]);
}

#[test]
fn the_reading_ends_and_stays_ended() {
    let mut stack = CtxStack::<i32, &'static str>::new();
    stack.write("only");
    let mut reading = stack.get_all();
    assert!(reading.next().is_some());
    assert!(reading.next().is_none());
    assert!(reading.next().is_none());
}

#[test]
fn depth_counts_the_open_contexts() {
    let mut stack = CtxStack::<i32, &'static str>::new();
    assert_eq!(stack.depth(), 0);
    let mut outer = stack.push_context(1).unwrap();
    assert_eq!(outer.stack.depth(), 1);
    let inner = outer.push_context(2).unwrap();
    assert_eq!(inner.stack.depth(), 2);
    inner.close();
    assert_eq!(outer.stack.depth(), 1);
    outer.close();
    assert_eq!(stack.depth(), 0);
}
