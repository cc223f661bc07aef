//! A stack of contexts for one kind of key and one kind of value: values are written
//! under the contexts that are open, and everything is read back with its contexts.

use std::fmt::Debug;
use std::hash::Hash;
use vstd::std_specs::cmp::PartialEqSpec;
use vstd::prelude::*;

verus! {

/// What can serve as the key of a context.
pub trait Context: Debug + Clone + Hash + Eq {

}

impl<T: Debug + Clone + Hash + Eq> Context for T {

}

/// What can be written to a stack of contexts.
pub trait Value: Debug + Clone {

}

impl<T: Debug + Clone> Value for T {

}

/// One thing written under a context: a value, or a context that has ended, with
/// all that was written under it.
#[derive(Debug)]
enum Write<C: Context, T: Value> {
    Value(T),
    Ctx(Ctx<C, T>),
}

/// A context with what was written under it, in the order of writing.
#[derive(Debug)]
pub struct Ctx<C: Context, T: Value> {
    pub context: C,
    children: Vec<Write<C, T>>,
}

/// `copy` is a clone of `write`: of the same shape, with a clone of every key and of
/// every value in the place of the key or value itself.
spec fn write_cloned<C: Context, T: Value>(write: Write<C, T>, copy: Write<C, T>) -> bool
    decreases write,
{
    match write {
        Write::Value(value) => copy matches Write::Value(other) && cloned(value, other),
        Write::Ctx(ctx) => copy matches Write::Ctx(other) && ctx_cloned(ctx, other),
    }
}

/// `copy` is a clone of `ctx`: its key is a clone of the key of `ctx`, and what was
/// written under it are clones, one for one, of what was written under `ctx`.
pub closed spec fn ctx_cloned<C: Context, T: Value>(ctx: Ctx<C, T>, copy: Ctx<C, T>) -> bool
    decreases ctx,
{
    &&& cloned(ctx.context, copy.context)
    &&& ctx.children@.len() == copy.children@.len()
    &&& forall|i: int|
        0 <= i < ctx.children@.len() ==> write_cloned(
            #[trigger] ctx.children@[i],
            copy.children@[i],
        )
}

/// A clone of `write`.
fn clone_write<C: Context, T: Value>(write: &Write<C, T>) -> (copy: Write<C, T>)
    ensures
        write_cloned(*write, copy),
    decreases write,
{
    match write {
        Write::Value(value) => Write::Value(value.clone()),
        Write::Ctx(ctx) => Write::Ctx(clone_ctx(ctx)),
    }
}

/// A clone of `ctx`.
fn clone_ctx<C: Context, T: Value>(ctx: &Ctx<C, T>) -> (copy: Ctx<C, T>)
    ensures
        ctx_cloned(*ctx, copy),
    decreases ctx,
{
    let mut children: Vec<Write<C, T>> = Vec::new();
    let mut i: usize = 0;
    while i < ctx.children.len()
        invariant
            0 <= i <= ctx.children@.len(),
            children@.len() == i,
            forall|k: int| 0 <= k < i ==> write_cloned(#[trigger] ctx.children@[k], children@[k]),
        decreases ctx.children@.len() - i,
    {
        children.push(clone_write(&ctx.children[i]));
        i += 1;
    }
    Ctx { context: ctx.context.clone(), children }
}

impl<C: Context, T: Value> Clone for Write<C, T> {
    fn clone(&self) -> Self {
        clone_write(self)
    }
}

impl<C: Context, T: Value> Clone for Ctx<C, T> {
    /// A context with a clone of the key and clones of all that was written under it.
    fn clone(&self) -> (copy: Self)
        ensures
            ctx_cloned(*self, copy),
    {
        clone_ctx(self)
    }
}

/// The key `ctx` was refused because a context with that key is open.
#[derive(Debug, Clone)]
pub enum ContextError<C: Context> {
    ContextOverwrite { ctx: C },
}

/// What a stack of contexts stands for: the values written so far, each with the keys
/// of the contexts it was written under, outermost first, and the keys of the contexts
/// that are open now, outermost first.
pub struct StackView<C, T> {
    pub written: Seq<(Seq<C>, T)>,
    pub open: Seq<C>,
}

/// Whether `ctx` equals one of `keys`.
pub open spec fn has_key<C: Context>(keys: Seq<C>, ctx: C) -> bool {
    exists|i: int| 0 <= i < keys.len() && (#[trigger] keys[i]).eq_spec(&ctx)
}

/// No key of `keys` equals a later one.
pub open spec fn distinct_keys<C: Context>(keys: Seq<C>) -> bool {
    forall|i: int, j: int|
        #![trigger keys[i], keys[j]]
        0 <= i < j < keys.len() ==> !keys[i].eq_spec(&keys[j])
}

/// The values under `writes`, in the order of writing, each with its path: `path` and
/// below it the keys of the ended contexts that it lies in.
spec fn flatten<C: Context, T: Value>(writes: Seq<Write<C, T>>, path: Seq<C>) -> Seq<(Seq<C>, T)>
    decreases writes,
{
    if writes.len() == 0 {
        Seq::empty()
    } else {
        flatten(writes.drop_last(), path) + (match writes.last() {
            Write::Value(value) => seq![(path, value)],
            Write::Ctx(ctx) => flatten(ctx.children@, path.push(ctx.context)),
        })
    }
}

/// The keys of the first `n` contexts of `stack`.
spec fn path_of<C: Context, T: Value>(stack: Seq<Ctx<C, T>>, n: int) -> Seq<C> {
    Seq::new(n as nat, |i: int| stack[i].context)
}

/// The values written under the first `n` open contexts of `stack`.
spec fn written_under<C: Context, T: Value>(stack: Seq<Ctx<C, T>>, n: int) -> Seq<(Seq<C>, T)>
    decreases n,
{
    if n <= 0 {
        Seq::empty()
    } else {
        written_under(stack, n - 1) + flatten(stack[n - 1].children@, path_of(stack, n))
    }
}

/// A stack of contexts: values are written under the contexts that are open, and a
/// context that ends is kept, with what was written under it, where it was opened.
#[derive(Debug)]
pub struct CtxStack<C: Context, T: Value> {
    root: Vec<Write<C, T>>,
    stack: Vec<Ctx<C, T>>,
}

impl<C: Context, T: Value> View for CtxStack<C, T> {
    type V = StackView<C, T>;

    closed spec fn view(&self) -> StackView<C, T> {
        StackView {
            written: flatten(self.root@, Seq::empty()) + written_under(
                self.stack@,
                self.stack@.len() as int,
            ),
            open: path_of(self.stack@, self.stack@.len() as int),
        }
    }
}

/// What one more write under a context adds to the values under it.
proof fn lemma_flatten_push<C: Context, T: Value>(
    writes: Seq<Write<C, T>>,
    write: Write<C, T>,
    path: Seq<C>,
)
    ensures
        flatten(writes.push(write), path) == flatten(writes, path) + (match write {
            Write::Value(value) => seq![(path, value)],
            Write::Ctx(ctx) => flatten(ctx.children@, path.push(ctx.context)),
        }),
{
    assert(writes.push(write).drop_last() =~= writes);
}

/// Stacks that agree in their first `n` contexts agree in what was written under them.
proof fn lemma_written_under_same<C: Context, T: Value>(
    a: Seq<Ctx<C, T>>,
    b: Seq<Ctx<C, T>>,
    n: int,
)
    requires
        0 <= n <= a.len(),
        n <= b.len(),
        forall|i: int| 0 <= i < n ==> a[i] == b[i],
    ensures
        written_under(a, n) == written_under(b, n),
        path_of(a, n) == path_of(b, n),
    decreases n,
{
    assert(path_of(a, n) =~= path_of(b, n));
    if n > 0 {
        lemma_written_under_same(a, b, n - 1);
    }
}

impl<C: Context, T: Value> CtxStack<C, T> {
    /// No key is open twice, as far as the keys' `==` can tell.
    pub open spec fn wf(&self) -> bool {
        C::obeys_eq_spec() ==> {
            &&& distinct_keys(self@.open)
            &&& forall|k: int|
                0 <= k < self@.written.len() ==> distinct_keys((#[trigger] self@.written[k]).0)
        }
    }

    /// A stack with nothing written and no context open.
    pub fn new() -> (stack: CtxStack<C, T>)
        ensures
            stack.wf(),
            stack@ == (StackView { written: Seq::<(Seq<C>, T)>::empty(), open: Seq::<C>::empty() }),
    {
        let stack = CtxStack { root: Vec::new(), stack: Vec::new() };
        proof {
            assert(stack@.written =~= Seq::<(Seq<C>, T)>::empty());
            assert(stack@.open =~= Seq::<C>::empty());
        }
        stack
    }

    /// Where writing goes on: the writes under the innermost open context, or those
    /// under no context if none is open.
    fn tail(&mut self) -> (tail: &mut Vec<Write<C, T>>)
        ensures
            final(self).stack@.len() == old(self).stack@.len(),
            old(self).stack@.len() == 0 ==> {
                &&& *tail == old(self).root
                &&& final(self).root == *final(tail)
                &&& final(self).stack@ == old(self).stack@
            },
            old(self).stack@.len() > 0 ==> {
                &&& *tail == old(self).stack@.last().children
                &&& final(self).root@ == old(self).root@
                &&& forall|i: int|
                    0 <= i < old(self).stack@.len() - 1 ==> final(self).stack@[i]
                        == old(self).stack@[i]
                &&& final(self).stack@.last().context == old(self).stack@.last().context
                &&& final(self).stack@.last().children == *final(tail)
            },
    {
        let n = self.stack.len();
        if n == 0 {
            &mut self.root
        } else {
            &mut self.stack[n - 1].children
        }
    }

    /// Writes `value` under the contexts that are open.
    pub fn write(&mut self, value: T)
        requires
            old(self).wf(),
        ensures
            final(self).wf(),
            final(self)@ == (StackView {
                written: old(self)@.written.push((old(self)@.open, value)),
                open: old(self)@.open,
            }),
    {
        let ghost n = self.stack@.len() as int;
        let ghost before = self.stack@;
        self.tail().push(Write::Value(value));
        proof {
            let after = self.stack@;
            assert(path_of(after, n) =~= path_of(before, n));
            if n == 0 {
                lemma_flatten_push(old(self).root@, Write::Value(value), Seq::empty());
                assert(old(self)@.open =~= Seq::<C>::empty());
                assert(self@.written =~= old(self)@.written.push((old(self)@.open, value)));
            } else {
                lemma_written_under_same(before, after, n - 1);
                lemma_flatten_push(
                    before[n - 1].children@,
                    Write::Value(value),
                    path_of(before, n),
                );
                assert(self@.written =~= old(self)@.written.push((old(self)@.open, value)));
            }
            assert(self@.open == old(self)@.open);
            if C::obeys_eq_spec() {
                assert forall|k: int| 0 <= k < self@.written.len() implies distinct_keys(
                    (#[trigger] self@.written[k]).0,
                ) by {
                    if k < old(self)@.written.len() {
                        assert(self@.written[k] == old(self)@.written[k]);
                    }
                }
            }
        }
    }

    /// Ends the innermost open context: it is kept, with what was written under it,
    /// where it was opened.
    fn pop_context(&mut self)
        requires
            old(self).wf(),
            old(self)@.open.len() > 0,
        ensures
            final(self).wf(),
            final(self)@ == (StackView {
                written: old(self)@.written,
                open: old(self)@.open.drop_last(),
            }),
    {
        let ghost before = self.stack@;
        let ghost n = before.len() as int;
        let pop = self.stack.pop().unwrap();
        let ghost popped = self.stack@;
        let ghost ended = pop;
        self.tail().push(Write::Ctx(pop));
        proof {
            let after = self.stack@;
            assert(path_of(before, n) =~= path_of(before, n - 1).push(ended.context));
            assert(self@.open =~= old(self)@.open.drop_last()) by {
                assert(path_of(after, n - 1) =~= path_of(before, n).drop_last());
            }
            lemma_written_under_same(before, popped, n - 1);
            if n == 1 {
                lemma_flatten_push(old(self).root@, Write::Ctx(ended), Seq::empty());
                assert(path_of(before, 1) =~= Seq::<C>::empty().push(ended.context));
                assert(self@.written =~= old(self)@.written);
            } else {
                lemma_written_under_same(popped, after, n - 2);
                assert(path_of(after, n - 1) =~= path_of(before, n - 1));
                lemma_flatten_push(
                    before[n - 2].children@,
                    Write::Ctx(ended),
                    path_of(before, n - 1),
                );
                assert(self@.written =~= old(self)@.written);
            }
        }
    }

    /// Whether a context with the key `ctx` is open.
    fn is_active(&self, ctx: &C) -> (found: bool)
        ensures
            C::obeys_eq_spec() ==> found == has_key(self@.open, *ctx),
            self@.open.len() == 0 ==> !found,
    {
        let mut i: usize = 0;
        while i < self.stack.len()
            invariant
                0 <= i <= self.stack@.len(),
                C::obeys_eq_spec() ==> forall|k: int|
                    0 <= k < i ==> !(#[trigger] self@.open[k]).eq_spec(ctx),
            decreases self.stack@.len() - i,
        {
            if self.stack[i].context == *ctx {
                assert(self@.open[i as int] == self.stack@[i as int].context);
                return true;
            }
            i += 1;
        }
        false
    }

    /// Opens a context with the key `ctx` inside those that are open, unless a context
    /// with that key is open already.
    fn push(&mut self, ctx: C) -> (refused: Option<ContextError<C>>)
        requires
            old(self).wf(),
        ensures
            final(self).wf(),
            match refused {
                None => {
                    &&& final(self)@ == (StackView {
                        written: old(self)@.written,
                        open: old(self)@.open.push(ctx),
                    })
                    &&& C::obeys_eq_spec() ==> !has_key(old(self)@.open, ctx)
                },
                Some(error) => {
                    &&& error == (ContextError::ContextOverwrite { ctx })
                    &&& *final(self) == *old(self)
                    &&& old(self)@.open.len() > 0
                    &&& C::obeys_eq_spec() ==> has_key(old(self)@.open, ctx)
                },
            },
    {
        if self.is_active(&ctx) {
            return Some(ContextError::ContextOverwrite { ctx });
        }
        let ghost before = self.stack@;
        let ghost n = before.len() as int;
        let ctx = Ctx { context: ctx, children: Vec::new() };
        self.stack.push(ctx);
        proof {
            let after = self.stack@;
            lemma_written_under_same(before, after, n);
            assert(self@.written =~= old(self)@.written);
            assert(self@.open =~= old(self)@.open.push(ctx.context));
            if C::obeys_eq_spec() {
                let open = self@.open;
                assert forall|i: int, j: int| 0 <= i < j < open.len() implies !open[i].eq_spec(
                    &open[j],
                ) by {
                    if j < n {
                        assert(open[i] == old(self)@.open[i] && open[j] == old(self)@.open[j]);
                    } else {
                        assert(open[i] == old(self)@.open[i]);
                    }
                }
            }
        }
        None
    }
}

/// The guard of an open context. It borrows the stack for as long as the context is
/// open, and it is given up in `close`, which ends the context.
#[derive(Debug)]
pub struct ContextHandle<'a, C: Context, T: Value> {
    pub stack: &'a mut CtxStack<C, T>,
}

impl<'a, C: Context, T: Value> ContextHandle<'a, C, T> {
    /// Ends the context of this guard.
    pub fn close(self)
        requires
            old(self.stack).wf(),
            old(self.stack)@.open.len() > 0,
        ensures
            final(self.stack).wf(),
            final(self.stack)@ == (StackView {
                written: old(self.stack)@.written,
                open: old(self.stack)@.open.drop_last(),
            }),
    {
        let ContextHandle { stack } = self;
        stack.pop_context();
    }
}

/// One value of a stack, with the keys of the contexts it was written under,
/// outermost first. No key occurs twice among them.
#[derive(Debug, Clone)]
pub struct Frame<'a, C: Context, T: Value> {
    pub context: Vec<&'a C>,
    pub value: &'a T,
}

impl<'a, C: Context, T: Value> View for Frame<'a, C, T> {
    type V = (Seq<C>, T);

    open spec fn view(&self) -> (Seq<C>, T) {
        (self.context@.map_values(|key: &C| *key), *self.value)
    }
}

/// The place of a reading in one context: the writes before `left` are still to come,
/// last first.
struct CtxIterator<'a, C: Context, T: Value> {
    ctx: &'a Ctx<C, T>,
    left: usize,
}

/// Reads a stack back: every value with its contexts, the last written first.
pub struct CtxStackIterator<'a, C: Context, T: Value> {
    root: &'a Vec<Write<C, T>>,
    root_left: usize,
    stack_ctx: Vec<CtxIterator<'a, C, T>>,
}

/// The keys of the first `n` contexts that a reading is in.
spec fn reading_path<'a, C: Context, T: Value>(levels: Seq<CtxIterator<'a, C, T>>, n: int) -> Seq<
    C,
> {
    Seq::new(n as nat, |i: int| levels[i].ctx.context)
}

/// What a reading has still to hand out, from context `n` of `levels` outwards.
spec fn rest_from<'a, C: Context, T: Value>(
    root: Seq<Write<C, T>>,
    root_left: int,
    levels: Seq<CtxIterator<'a, C, T>>,
    n: int,
) -> Seq<(Seq<C>, T)>
    decreases n,
{
    if n <= 0 {
        flatten(root.take(root_left), Seq::empty()).reverse()
    } else {
        flatten(
            levels[n - 1].ctx.children@.take(levels[n - 1].left as int),
            reading_path(levels, n),
        ).reverse() + rest_from(root, root_left, levels, n - 1)
    }
}

/// A bound on the steps that it takes to read `writes`.
spec fn weight<C: Context, T: Value>(writes: Seq<Write<C, T>>) -> nat
    decreases writes,
{
    if writes.len() == 0 {
        0
    } else {
        weight(writes.drop_last()) + (match writes.last() {
            Write::Value(_) => 1nat,
            Write::Ctx(ctx) => 2 + weight(ctx.children@),
        })
    }
}

/// A bound on the steps that a reading has still to take.
spec fn steps_from<'a, C: Context, T: Value>(
    root: Seq<Write<C, T>>,
    root_left: int,
    levels: Seq<CtxIterator<'a, C, T>>,
    n: int,
) -> nat
    decreases n,
{
    if n <= 0 {
        weight(root.take(root_left))
    } else {
        1 + weight(levels[n - 1].ctx.children@.take(levels[n - 1].left as int)) + steps_from(
            root,
            root_left,
            levels,
            n - 1,
        )
    }
}

/// What the write before the `k`-th adds to the values and to the steps of those
/// before it.
proof fn lemma_take_last<C: Context, T: Value>(writes: Seq<Write<C, T>>, k: int, path: Seq<C>)
    requires
        0 < k <= writes.len(),
    ensures
        flatten(writes.take(k), path) == flatten(writes.take(k - 1), path) + (match writes[k - 1] {
            Write::Value(value) => seq![(path, value)],
            Write::Ctx(ctx) => flatten(ctx.children@, path.push(ctx.context)),
        }),
        weight(writes.take(k)) == weight(writes.take(k - 1)) + (match writes[k - 1] {
            Write::Value(_) => 1nat,
            Write::Ctx(ctx) => 2 + weight(ctx.children@),
        }),
{
    assert(writes.take(k) =~= writes.take(k - 1).push(writes[k - 1]));
    assert(writes.take(k).drop_last() =~= writes.take(k - 1));
    lemma_flatten_push(writes.take(k - 1), writes[k - 1], path);
}

/// Reading two runs of values backwards reads the second run first.
proof fn lemma_reverse_add<A>(a: Seq<A>, b: Seq<A>)
    ensures
        (a + b).reverse() == b.reverse() + a.reverse(),
{
    assert((a + b).reverse() =~= b.reverse() + a.reverse());
}

/// Readings that agree in their first `n` contexts have the same left to hand out
/// from there outwards.
proof fn lemma_rest_from_same<'a, C: Context, T: Value>(
    root: Seq<Write<C, T>>,
    root_left: int,
    a: Seq<CtxIterator<'a, C, T>>,
    b: Seq<CtxIterator<'a, C, T>>,
    n: int,
)
    requires
        0 <= n <= a.len(),
        n <= b.len(),
        forall|i: int| 0 <= i < n ==> a[i] == b[i],
    ensures
        rest_from(root, root_left, a, n) == rest_from(root, root_left, b, n),
        steps_from(root, root_left, a, n) == steps_from(root, root_left, b, n),
        reading_path(a, n) == reading_path(b, n),
    decreases n,
{
    assert(reading_path(a, n) =~= reading_path(b, n));
    if n > 0 {
        lemma_rest_from_same(root, root_left, a, b, n - 1);
    }
}

impl<'a, C: Context, T: Value> CtxStackIterator<'a, C, T> {
    /// The values that are still to come, with their contexts, in the order in which
    /// they will be handed out.
    pub closed spec fn remaining(&self) -> Seq<(Seq<C>, T)> {
        rest_from(self.root@, self.root_left as int, self.stack_ctx@, self.stack_ctx@.len() as int)
    }

    /// A bound on the steps that are still to be taken.
    spec fn steps(&self) -> nat {
        steps_from(self.root@, self.root_left as int, self.stack_ctx@, self.stack_ctx@.len() as int)
    }

    /// The reading is at a place of its stack, and no value that is still to come has
    /// a key twice among its contexts, as far as the keys' `==` can tell.
    pub closed spec fn wf(&self) -> bool {
        &&& self.root_left <= self.root@.len()
        &&& forall|i: int|
            0 <= i < self.stack_ctx@.len() ==> (#[trigger] self.stack_ctx@[i]).left
                <= self.stack_ctx@[i].ctx.children@.len()
        &&& C::obeys_eq_spec() ==> forall|k: int|
            0 <= k < self.remaining().len() ==> distinct_keys((#[trigger] self.remaining()[k]).0)
    }

    /// A reading of `stack` from its last value.
    fn new(stack: &'a CtxStack<C, T>) -> (reading: Self)
        requires
            stack.wf(),
        ensures
            reading.wf(),
            reading.remaining() == stack@.written.reverse(),
    {
        let mut stack_ctx: Vec<CtxIterator<'a, C, T>> = Vec::new();
        let mut i: usize = 0;
        while i < stack.stack.len()
            invariant
                0 <= i <= stack.stack@.len(),
                stack_ctx@.len() == i,
                forall|k: int|
                    0 <= k < i ==> (#[trigger] stack_ctx@[k]).ctx == stack.stack@[k]
                        && stack_ctx@[k].left == stack.stack@[k].children@.len(),
            decreases stack.stack@.len() - i,
        {
            let ctx = &stack.stack[i];
            stack_ctx.push(CtxIterator { ctx, left: ctx.children.len() });
            i += 1;
        }
        let reading = CtxStackIterator { root: &stack.root, root_left: stack.root.len(), stack_ctx };
        proof {
            Self::lemma_starts_at_the_end(stack, reading.stack_ctx@, stack.stack@.len() as int);
            assert(reading.remaining() == stack@.written.reverse());
            if C::obeys_eq_spec() {
                assert forall|k: int| 0 <= k < reading.remaining().len() implies distinct_keys(
                    (#[trigger] reading.remaining()[k]).0,
                ) by {
                    let w = stack@.written;
                    assert(w.reverse()[k] == w[w.len() - 1 - k]);
                }
            }
        }
        reading
    }

    /// A reading that stands at the end of every open context has everything to hand
    /// out that was written, the last written first.
    proof fn lemma_starts_at_the_end(
        stack: &CtxStack<C, T>,
        levels: Seq<CtxIterator<'a, C, T>>,
        n: int,
    )
        requires
            0 <= n <= stack.stack@.len(),
            levels.len() == stack.stack@.len(),
            forall|k: int|
                0 <= k < levels.len() ==> (#[trigger] levels[k]).ctx == stack.stack@[k]
                    && levels[k].left == stack.stack@[k].children@.len(),
        ensures
            rest_from(stack.root@, stack.root@.len() as int, levels, n) == (flatten(
                stack.root@,
                Seq::empty(),
            ) + written_under(stack.stack@, n)).reverse(),
        decreases n,
    {
        let root = stack.root@;
        if n <= 0 {
            assert(root.take(root.len() as int) =~= root);
            assert(flatten(root, Seq::empty()) + written_under(stack.stack@, n) =~= flatten(
                root,
                Seq::empty(),
            ));
        } else {
            Self::lemma_starts_at_the_end(stack, levels, n - 1);
            let children = stack.stack@[n - 1].children@;
            assert(levels[n - 1].ctx.children@.take(levels[n - 1].left as int) =~= children);
            assert(reading_path(levels, n) =~= path_of(stack.stack@, n));
            let under = flatten(children, path_of(stack.stack@, n));
            let before = flatten(root, Seq::empty()) + written_under(stack.stack@, n - 1);
            lemma_reverse_add(before, under);
            assert(flatten(root, Seq::empty()) + written_under(stack.stack@, n) =~= before + under);
        }
    }

    /// The keys of the contexts that the reading is in, outermost first.
    fn path(&self) -> (keys: Vec<&'a C>)
        ensures
            keys@.map_values(|key: &C| *key) == reading_path(
                self.stack_ctx@,
                self.stack_ctx@.len() as int,
            ),
    {
        let mut keys: Vec<&'a C> = Vec::new();
        let mut i: usize = 0;
        while i < self.stack_ctx.len()
            invariant
                0 <= i <= self.stack_ctx@.len(),
                keys@.len() == i,
                forall|k: int| 0 <= k < i ==> *(#[trigger] keys@[k]) == self.stack_ctx@[k].ctx.context,
            decreases self.stack_ctx@.len() - i,
        {
            let ctx: &'a Ctx<C, T> = self.stack_ctx[i].ctx;
            keys.push(&ctx.context);
            i += 1;
        }
        assert(keys@.map_values(|key: &C| *key) =~= reading_path(
            self.stack_ctx@,
            self.stack_ctx@.len() as int,
        ));
        keys
    }

    /// Hands out the value that was written last among those still to come, with the
    /// keys of its contexts; `None` when every value was handed out.
    pub fn next(&mut self) -> (frame: Option<Frame<'a, C, T>>)
        requires
            old(self).wf(),
        ensures
            final(self).wf(),
            match frame {
                Some(frame) => {
                    &&& old(self).remaining().len() > 0
                    &&& frame@ == old(self).remaining()[0]
                    &&& final(self).remaining() == old(self).remaining().drop_first()
                    &&& C::obeys_eq_spec() ==> distinct_keys(frame@.0)
                },
                None => {
                    &&& old(self).remaining().len() == 0
                    &&& final(self).remaining() == old(self).remaining()
                },
            },
    {
        loop
            invariant
                self.wf(),
                self.remaining() == old(self).remaining(),
            decreases self.steps(),
        {
            let ghost start = *self;
            let n = self.stack_ctx.len();
            let ghost levels = self.stack_ctx@;
            let ghost root = self.root@;
            let ghost root_left = self.root_left as int;
            let ghost outer = rest_from(root, root_left, levels, n - 1);
            if n == 0 {
                if self.root_left == 0 {
                    proof {
                        assert(root.take(0) =~= Seq::empty());
                        assert(self.remaining() =~= Seq::empty());
                    }
                    return None;
                }
                self.root_left -= 1;
                let root: &'a Vec<Write<C, T>> = self.root;
                proof {
                    lemma_take_last(root@, root_left, Seq::empty());
                }
                match &root[self.root_left] {
                    Write::Value(val) => {
                        let frame = Frame { context: Vec::new(), value: val };
                        proof {
                            let before = flatten(root@.take(root_left - 1), Seq::empty());
                            let one = seq![(Seq::<C>::empty(), *val)];
                            lemma_reverse_add(before, one);
                            assert(one.reverse() =~= one);
                            assert(old(self).remaining() == one + before.reverse());
                            assert(self.remaining() =~= old(self).remaining().drop_first());
                            assert(frame@.0 =~= Seq::<C>::empty());
                            assert(old(self).remaining()[0] == (Seq::<C>::empty(), *val));
                            self.lemma_stays_distinct(start);
                        }
                        return Some(frame);
                    },
                    Write::Ctx(ctx) => {
                        self.stack_ctx.push(CtxIterator { ctx, left: ctx.children.len() });
                        proof {
                            let now = self.stack_ctx@;
                            let before = flatten(root@.take(root_left - 1), Seq::empty());
                            let path = Seq::<C>::empty().push(ctx.context);
                            let under = flatten(ctx.children@, path);
                            lemma_reverse_add(before, under);
                            assert(ctx.children@.take(ctx.children@.len() as int)
                                =~= ctx.children@);
                            assert(reading_path(now, 1) =~= path);
                            assert(rest_from(root@, root_left - 1, now, 0) == before.reverse());
                            assert(self.remaining() == under.reverse() + before.reverse());
                            assert(steps_from(root@, root_left - 1, now, 0) == weight(
                                root@.take(root_left - 1),
                            ));
                            assert(self.steps() == 1 + weight(ctx.children@) + weight(
                                root@.take(root_left - 1),
                            ));
                            assert(start.steps() == weight(root@.take(root_left)));
                        }
                    },
                }
            } else {
                let left = self.stack_ctx[n - 1].left;
                let ghost path = reading_path(levels, n as int);
                if left == 0 {
                    self.stack_ctx.pop();
                    proof {
                        let now = self.stack_ctx@;
                        assert(levels[n - 1].ctx.children@.take(0) =~= Seq::empty());
                        lemma_rest_from_same(root, root_left, levels, now, n - 1);
                        assert(old(self).remaining() =~= outer);
                        assert(start.steps() == 1 + weight(
                            levels[n - 1].ctx.children@.take(0),
                        ) + steps_from(root, root_left, levels, n - 1));
                    }
                } else {
                    self.stack_ctx[n - 1].left = left - 1;
                    let cur: &'a Ctx<C, T> = self.stack_ctx[n - 1].ctx;
                    proof {
                        let now = self.stack_ctx@;
                        lemma_take_last(cur.children@, left as int, path);
                        lemma_rest_from_same(root, root_left, levels, now, n - 1);
                        assert(reading_path(now, n as int) =~= path);
                    }
                    let ghost lowered = self.stack_ctx@;
                    match &cur.children[left - 1] {
                        Write::Value(val) => {
                            let context = self.path();
                            let frame = Frame { context, value: val };
                            proof {
                                let before = flatten(cur.children@.take(left - 1), path);
                                let one = seq![(path, *val)];
                                lemma_reverse_add(before, one);
                                assert(one.reverse() =~= one);
                                assert(old(self).remaining() == (one + before.reverse()) + outer);
                                assert(self.remaining() == before.reverse() + outer);
                                assert(self.remaining() =~= old(self).remaining().drop_first());
                                assert(old(self).remaining()[0] == (path, *val));
                                self.lemma_stays_distinct(start);
                            }
                            return Some(frame);
                        },
                        Write::Ctx(ctx) => {
                            self.stack_ctx.push(CtxIterator { ctx, left: ctx.children.len() });
                            proof {
                                let now = self.stack_ctx@;
                                let before = flatten(cur.children@.take(left - 1), path);
                                let deeper = path.push(ctx.context);
                                let under = flatten(ctx.children@, deeper);
                                lemma_reverse_add(before, under);
                                assert(ctx.children@.take(ctx.children@.len() as int)
                                    =~= ctx.children@);
                                assert(reading_path(now, n + 1) =~= deeper);
                                lemma_rest_from_same(root, root_left, lowered, now, n as int);
                                assert(rest_from(root, root_left, now, n as int)
                                    == before.reverse() + outer);
                                assert(self.remaining() == under.reverse() + (before.reverse()
                                    + outer));
                                assert(old(self).remaining() == (under.reverse()
                                    + before.reverse()) + outer);
                                assert(self.remaining() =~= old(self).remaining());
                                let inner = steps_from(root, root_left, levels, n - 1);
                                assert(start.steps() == 1 + weight(
                                    cur.children@.take(left as int),
                                ) + inner);
                                assert(steps_from(root, root_left, lowered, n as int) == 1
                                    + weight(cur.children@.take(left - 1)) + inner);
                                assert(self.steps() == 1 + weight(ctx.children@) + steps_from(
                                    root,
                                    root_left,
                                    now,
                                    n as int,
                                ));
                            }
                        },
                    }
                }
            }
        }
    }

    /// What is left when the first of the values to come is handed out still has no key
    /// twice in any context.
    proof fn lemma_stays_distinct(&self, before: Self)
        requires
            before.wf(),
            before.remaining().len() > 0,
            self.remaining() == before.remaining().drop_first(),
        ensures
            C::obeys_eq_spec() ==> distinct_keys(before.remaining()[0].0),
            C::obeys_eq_spec() ==> forall|k: int|
                0 <= k < self.remaining().len() ==> distinct_keys(
                    (#[trigger] self.remaining()[k]).0,
                ),
    {
        if C::obeys_eq_spec() {
            assert forall|k: int| 0 <= k < self.remaining().len() implies distinct_keys(
                (#[trigger] self.remaining()[k]).0,
            ) by {
                assert(self.remaining()[k] == before.remaining()[k + 1]);
            }
        }
    }
}

impl<C: Context, T: Value> CtxStack<C, T> {
    /// Opens a context with the key `ctx` inside those that are open and hands out its
    /// guard, unless a context with that key is open already: then the key comes back
    /// in the error and nothing has changed.
    pub fn push_context(&mut self, ctx: C) -> (pushed: Result<
        ContextHandle<'_, C, T>,
        ContextError<C>,
    >)
        requires
            old(self).wf(),
        ensures
            match pushed {
                Ok(handle) => {
                    &&& handle.stack.wf()
                    &&& handle.stack@ == (StackView {
                        written: old(self)@.written,
                        open: old(self)@.open.push(ctx),
                    })
                    &&& *final(self) == *final(handle.stack)
                    &&& C::obeys_eq_spec() ==> !has_key(old(self)@.open, ctx)
                },
                Err(error) => {
                    &&& error == (ContextError::ContextOverwrite { ctx })
                    &&& *final(self) == *old(self)
                    &&& old(self)@.open.len() > 0
                    &&& C::obeys_eq_spec() ==> has_key(old(self)@.open, ctx)
                },
            },
    {
        match self.push(ctx) {
            Some(error) => Err(error),
            None => Ok(ContextHandle { stack: self }),
        }
    }

    /// The number of contexts that are open.
    pub fn depth(&self) -> (open: usize)
        ensures
            open == self@.open.len(),
    {
        self.stack.len()
    }

    /// A reading of everything that was written, the last written first.
    pub fn get_all(&self) -> (reading: CtxStackIterator<'_, C, T>)
        requires
            self.wf(),
        ensures
            reading.wf(),
            reading.remaining() == self@.written.reverse(),
    {
        CtxStackIterator::new(self)
    }
}

/// What a stack and the guard of an open context have in common: contexts are opened,
/// values are written and everything is read back through either.
pub trait StackHandle<C: Context, T: Value> {
    /// The stack behind the handle, as it stands.
    spec fn stack_now(&self) -> CtxStack<C, T>;

    fn push_context(&mut self, ctx: C) -> (pushed: Result<ContextHandle<'_, C, T>, ContextError<C>>)
        requires
            old(self).stack_now().wf(),
        ensures
            match pushed {
                Ok(handle) => {
                    &&& handle.stack.wf()
                    &&& handle.stack@ == (StackView {
                        written: old(self).stack_now()@.written,
                        open: old(self).stack_now()@.open.push(ctx),
                    })
                    &&& final(self).stack_now() == *final(handle.stack)
                    &&& C::obeys_eq_spec() ==> !has_key(old(self).stack_now()@.open, ctx)
                },
                Err(error) => {
                    &&& error == (ContextError::ContextOverwrite { ctx })
                    &&& final(self).stack_now() == old(self).stack_now()
                    &&& old(self).stack_now()@.open.len() > 0
                    &&& C::obeys_eq_spec() ==> has_key(old(self).stack_now()@.open, ctx)
                },
            },
    ;

    fn write(&mut self, value: T)
        requires
            old(self).stack_now().wf(),
        ensures
            final(self).stack_now().wf(),
            final(self).stack_now()@ == (StackView {
                written: old(self).stack_now()@.written.push((old(self).stack_now()@.open, value)),
                open: old(self).stack_now()@.open,
            }),
    ;

    fn get_all(&self) -> (reading: CtxStackIterator<'_, C, T>)
        requires
            self.stack_now().wf(),
        ensures
            reading.wf(),
            reading.remaining() == self.stack_now()@.written.reverse(),
    ;
}

impl<C: Context, T: Value> StackHandle<C, T> for CtxStack<C, T> {
    open spec fn stack_now(&self) -> CtxStack<C, T> {
        *self
    }

    fn push_context(&mut self, ctx: C) -> (pushed: Result<ContextHandle<'_, C, T>, ContextError<C>>) {
        match self.push(ctx) {
            Some(error) => Err(error),
            None => Ok(ContextHandle { stack: self }),
        }
    }

    fn write(&mut self, value: T) {
        CtxStack::write(self, value)
    }

    fn get_all(&self) -> (reading: CtxStackIterator<'_, C, T>) {
        CtxStackIterator::new(self)
    }
}

impl<'a, C: Context, T: Value> StackHandle<C, T> for ContextHandle<'a, C, T> {
    open spec fn stack_now(&self) -> CtxStack<C, T> {
        *self.stack
    }

    fn push_context(&mut self, ctx: C) -> (pushed: Result<ContextHandle<'_, C, T>, ContextError<C>>)
        ensures
            *final(final(self).stack) == *final(old(self).stack),
    {
        match self.stack.push(ctx) {
            Some(error) => Err(error),
            None => Ok(ContextHandle { stack: &mut *self.stack }),
        }
    }

    fn write(&mut self, value: T)
        ensures
            *final(final(self).stack) == *final(old(self).stack),
    {
        self.stack.write(value)
    }

    fn get_all(&self) -> (reading: CtxStackIterator<'_, C, T>) {
        CtxStackIterator::new(&*self.stack)
    }
}

} // verus!
