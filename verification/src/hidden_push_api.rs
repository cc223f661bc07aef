use crate::ctx_stack::{has_key, Context, ContextError, ContextHandle, CtxStack, StackView, Value};
use vstd::prelude::*;
use vstd::std_specs::cmp::PartialEqSpec;

verus! {

/// Opens a context on `stack` as `CtxStack::push_context` does; `name` is not looked at.
///
/// Do not call this function. It is public for the sake of code that is expanded
/// around a stack and that sees to the ending of the context itself; everywhere else,
/// call `CtxStack::push_context`.
pub fn push_context_do_not_call<'a, C: Context, T: Value>(
    stack: &'a mut CtxStack<C, T>,
    name: String,
    ctx: C,
) -> (pushed: Result<ContextHandle<'a, C, T>, ContextError<C>>)
    requires
        old(stack).wf(),
    ensures
        match pushed {
            Ok(handle) => {
                &&& handle.stack.wf()
                &&& handle.stack@ == (StackView {
                    written: old(stack)@.written,
                    open: old(stack)@.open.push(ctx),
                })
                &&& *final(stack) == *final(handle.stack)
                &&& C::obeys_eq_spec() ==> !has_key(old(stack)@.open, ctx)
            },
            Err(error) => {
                &&& error == (ContextError::ContextOverwrite { ctx })
                &&& *final(stack) == *old(stack)
                &&& old(stack)@.open.len() > 0
                &&& C::obeys_eq_spec() ==> has_key(old(stack)@.open, ctx)
            },
        },
{
    stack.push_context(ctx)
}

} // verus!
