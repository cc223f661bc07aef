//! The recorder: scopes are opened and closed on named streams, values are written
//! while they are open, and a replay of the log gives every value back with the
//! contexts of the scopes that were open when it was written.

use crate::history::{
    column, context_of, frames, has_opened, lemma_column_grows, lemma_frames_grow,
    lemma_has_opened_step, lemma_one_frame_per_record, lemma_open_slots_step,
    lemma_position_found, lemma_push_parts, lemma_scopes_stay_readable, lemma_take_next,
    lemma_unopened_has_no_scopes, lemma_valid_prefix, open_scopes, open_slots, records, valid,
    Action, FrameView, OpenScope, StreamId, CTX_COUNT_START,
};
use crate::slots::{is_lowest_free, Slot, Slots};
use std::collections::HashMap;
use vstd::prelude::*;

verus! {

/// A stream: a named channel with a fixed type of entry.
///
/// `ID` is the stream's identity. Two streams that are meant to be kept apart have
/// different identities.
pub trait Column {
    type Entry;

    const ID: StreamId;
}

/// A duplicate slot of a stream. Slot 0 is reserved for the stream's plain writes, so
/// those come before any context.
pub type ColDuplicate = Slot<CTX_COUNT_START>;

/// One line of the log: what happened, without the value.
#[derive(Debug, Clone, Copy, PartialEq, Eq)]
enum ActionEntry {
    WriteCtx { into: StreamId, duplicate: ColDuplicate },
    PopCtx { from: StreamId, duplicate: ColDuplicate },
    WriteVal { into: StreamId },
}

/// The log line `entry` stands for `action`.
spec fn describes<E>(entry: ActionEntry, action: Action<E>) -> bool {
    match entry {
        ActionEntry::WriteCtx { into, duplicate } => action matches Action::Open {
            stream,
            slot,
            ..
        } && stream == into && slot == duplicate@,
        ActionEntry::PopCtx { from, duplicate } => action matches Action::Close { stream, slot }
            && stream == from && slot == duplicate@,
        ActionEntry::WriteVal { into } => action matches Action::Record { stream, .. } && stream
            == into,
    }
}

/// What the storage holds under `(stream, slot)`.
spec fn stored<E>(entries: Map<StreamId, Vec<Vec<E>>>, stream: StreamId, slot: nat) -> Seq<E> {
    if entries.contains_key(stream) && slot < entries[stream]@.len() {
        entries[stream]@[slot as int]@
    } else {
        Seq::empty()
    }
}

/// The slots that the allocators have outstanding for `stream`.
spec fn outstanding(
    allocators: Map<StreamId, Slots<CTX_COUNT_START>>,
    stream: StreamId,
) -> Set<nat> {
    if allocators.contains_key(stream) {
        allocators[stream]@
    } else {
        Set::empty()
    }
}

/// The slots taken in every stream are the same after `after` as after `before`.
pub open spec fn same_open_slots<E>(before: Seq<Action<E>>, after: Seq<Action<E>>) -> bool {
    forall|s: StreamId| #[trigger] open_slots(after, s) == open_slots(before, s)
}

/// After `after` the slot `slot` of `stream` is taken besides those taken after `before`.
pub open spec fn one_more_open_slot<E>(
    before: Seq<Action<E>>,
    after: Seq<Action<E>>,
    stream: StreamId,
    slot: nat,
) -> bool {
    forall|s: StreamId| #[trigger]
        open_slots(after, s) == if s == stream {
            open_slots(before, s).insert(slot)
        } else {
            open_slots(before, s)
        }
}

/// After `after` the slot `slot` of `stream` is free again; the others are as after `before`.
pub open spec fn one_less_open_slot<E>(
    before: Seq<Action<E>>,
    after: Seq<Action<E>>,
    stream: StreamId,
    slot: nat,
) -> bool {
    forall|s: StreamId| #[trigger]
        open_slots(after, s) == if s == stream {
            open_slots(before, s).remove(slot)
        } else {
            open_slots(before, s)
        }
}

/// The recorder: an append-only log of scopes opened and closed and of values written,
/// with the storage that the log's lines point into.
///
/// Its view is its history: every action since it was made, with its value.
pub struct Contexter<E> {
    /// By stream, one column of entries for each duplicate slot.
    entries: HashMap<StreamId, Vec<Vec<E>>>,
    action_index: Vec<ActionEntry>,
    available_duplicates: HashMap<StreamId, Slots<CTX_COUNT_START>>,
    history: Ghost<Seq<Action<E>>>,
}

/// The token of an open scope: the stream and the duplicate slot that the scope was
/// filed under. It cannot be copied, so a scope is closed at most once. A token is
/// good for the recorder that handed it out and for no other.
#[derive(Debug)]
pub struct Scope {
    stream: StreamId,
    duplicate: ColDuplicate,
}

impl Scope {
    /// The stream of the scope.
    pub closed spec fn stream(&self) -> StreamId {
        self.stream
    }

    /// The duplicate slot of the scope.
    pub closed spec fn slot(&self) -> nat {
        self.duplicate@
    }
}

impl<E> View for Contexter<E> {
    type V = Seq<Action<E>>;

    closed spec fn view(&self) -> Seq<Action<E>> {
        self.history@
    }
}

impl<E> Contexter<E> {
    /// The log, the storage and the allocators all tell the recorder's history.
    pub closed spec fn wf(&self) -> bool {
        &&& valid(self.history@)
        &&& self.action_index@.len() == self.history@.len()
        &&& forall|i: int|
            0 <= i < self.action_index@.len() ==> describes(
                #[trigger] self.action_index@[i],
                self.history@[i],
            )
        &&& forall|s: StreamId, d: nat| #[trigger]
            stored(self.entries@, s, d) == column(self.history@, s, d)
        &&& forall|s: StreamId|
            self.available_duplicates@.contains_key(s) ==> (
            #[trigger] self.available_duplicates@[s]).wf()
        &&& forall|s: StreamId| #[trigger]
            outstanding(self.available_duplicates@, s) == open_slots(self.history@, s)
        &&& forall|s: StreamId, d: nat|
            open_slots(self.history@, s).contains(d) ==> self.entries@.contains_key(s) && d + 1
                < self.entries@[s]@.len()
    }

    /// The history of a consistent recorder is a valid one, so the theorems on valid
    /// histories hold of it.
    pub proof fn lemma_history_is_valid(&self)
        requires
            self.wf(),
        ensures
            valid(self@),
    {
    }

    /// Whether the scope that `scope` stands for is open.
    pub open spec fn has_open(&self, scope: Scope) -> bool {
        open_slots(self@, scope.stream()).contains(scope.slot())
    }

    /// A recorder to which nothing has happened yet.
    pub fn new() -> (contexter: Contexter<E>)
        ensures
            contexter.wf(),
            contexter@ == Seq::<Action<E>>::empty(),
    {
        let contexter = Contexter {
            entries: HashMap::new(),
            action_index: Vec::new(),
            available_duplicates: HashMap::new(),
            history: Ghost(Seq::empty()),
        };
        proof {
            assert forall|s: StreamId| #[trigger]
                outstanding(contexter.available_duplicates@, s) == open_slots(
                    contexter.history@,
                    s,
                ) by {
                assert(open_slots(contexter.history@, s) =~= Set::<nat>::empty());
            }
        }
        contexter
    }

    /// The entries stored under `duplicate` of `stream`, if the stream has storage
    /// that far.
    fn get_column(&self, stream: StreamId, duplicate: ColDuplicate) -> (found: Option<&Vec<E>>)
        requires
            self.wf(),
        ensures
            match found {
                Some(entries) => entries@ == column(self@, stream, duplicate@),
                None => column(self@, stream, duplicate@).len() == 0,
            },
    {
        assert(stored(self.entries@, stream, duplicate@) == column(self@, stream, duplicate@));
        match self.entries.get(&stream) {
            Some(columns) => {
                let d = duplicate.to_usize();
                if d < columns.len() {
                    Some(&columns[d])
                } else {
                    None
                }
            },
            None => None,
        }
    }

    /// Appends `val` to the plain writes of `stream` and notes the write in the log.
    fn record(&mut self, stream: StreamId, val: E)
        requires
            old(self).wf(),
        ensures
            final(self).wf(),
            final(self)@ == old(self)@.push(Action::Record { stream, value: val }),
            same_open_slots(old(self)@, final(self)@),
    {
        let ghost action = Action::Record { stream, value: val };
        let ghost before = self.history@;
        let ghost after = before.push(action);
        let mut columns = match self.entries.remove(&stream) {
            Some(columns) => columns,
            None => Vec::new(),
        };
        if columns.len() == 0 {
            columns.push(Vec::new());
        }
        let ghost fresh = columns@;
        columns[0].push(val);
        self.entries.insert(stream, columns);
        self.action_index.push(ActionEntry::WriteVal { into: stream });
        proof {
            self.history@ = after;
            lemma_push_parts(before, action);
            assert forall|s: StreamId, d: nat| #[trigger]
                stored(self.entries@, s, d) == column(after, s, d) by {
                assert(stored(old(self).entries@, s, d) == column(before, s, d));
                if s == stream && d == 0 {
                    assert(stored(self.entries@, s, d) =~= column(after, s, d));
                } else if s == stream {
                    assert(stored(self.entries@, s, d) =~= column(after, s, d));
                }
            }
            assert forall|s: StreamId| #[trigger]
                outstanding(self.available_duplicates@, s) == open_slots(after, s) by {
                lemma_open_slots_step(before, action, s);
                assert(outstanding(old(self).available_duplicates@, s) == open_slots(before, s));
            }
            assert forall|s: StreamId, d: nat|
                open_slots(after, s).contains(d) implies self.entries@.contains_key(s) && d + 1
                < self.entries@[s]@.len() by {
                lemma_open_slots_step(before, action, s);
            }
        }
    }

    /// Appends `val` to the plain writes of the stream `C` and notes the write in the log.
    pub fn write_to<C: Column<Entry = E>>(&mut self, val: E)
        requires
            old(self).wf(),
        ensures
            final(self).wf(),
            final(self)@ == old(self)@.push(Action::Record { stream: C::ID, value: val }),
            same_open_slots(old(self)@, final(self)@),
    {
        self.record(C::ID, val)
    }

    /// Opens a scope of `stream`: takes the lowest free duplicate slot, stores `ctx`
    /// under it and notes the opening in the log.
    fn open(&mut self, stream: StreamId, ctx: E) -> (scope: Scope)
        requires
            old(self).wf(),
        ensures
            final(self).wf(),
            scope.stream() == stream,
            is_lowest_free(
                open_slots(old(self)@, stream),
                CTX_COUNT_START as nat,
                scope.slot(),
            ),
            final(self)@ == old(self)@.push(
                Action::Open { stream, slot: scope.slot(), value: ctx },
            ),
            final(self).has_open(scope),
            one_more_open_slot(old(self)@, final(self)@, stream, scope.slot()),
    {
        let ghost before = self.history@;
        assert(outstanding(self.available_duplicates@, stream) == open_slots(before, stream));
        let mut slots = match self.available_duplicates.remove(&stream) {
            Some(slots) => slots,
            None => Slots::new(),
        };
        proof {
            let top = (usize::MAX - 1) as nat;
            if slots@.contains(top) {
                assert(open_slots(before, stream).contains(top));
                assert(top + 1 < self.entries@[stream]@.len());
                assert(self.entries@[stream].len() == self.entries@[stream]@.len());
            }
            assert(CTX_COUNT_START <= top < usize::MAX && !slots@.contains(top));
        }
        let duplicate = slots.allocate();
        self.available_duplicates.insert(stream, slots);
        let d = duplicate.to_usize();
        let ghost action = Action::Open { stream, slot: d as nat, value: ctx };
        let ghost after = before.push(action);
        let mut columns = match self.entries.remove(&stream) {
            Some(columns) => columns,
            None => Vec::new(),
        };
        let ghost had = columns@;
        while columns.len() <= d + 1
            invariant
                d < usize::MAX,
                had.len() <= columns@.len(),
                forall|k: int| 0 <= k < had.len() ==> columns@[k] == had[k],
                forall|k: int| had.len() <= k < columns@.len() ==> columns@[k]@.len() == 0,
            decreases d + 2 - columns@.len(),
        {
            columns.push(Vec::new());
        }
        let ghost padded = columns@;
        columns[d].push(ctx);
        self.entries.insert(stream, columns);
        self.action_index.push(ActionEntry::WriteCtx { into: stream, duplicate });
        proof {
            self.history@ = after;
            lemma_push_parts(before, action);
            assert forall|s: StreamId, k: nat| #[trigger]
                stored(self.entries@, s, k) == column(after, s, k) by {
                assert(stored(old(self).entries@, s, k) == column(before, s, k));
                if s == stream {
                    if k < padded.len() && k >= had.len() {
                        assert(padded[k as int]@.len() == 0);
                    }
                    assert(stored(self.entries@, s, k) =~= column(after, s, k));
                }
            }
            assert forall|s: StreamId| #[trigger]
                outstanding(self.available_duplicates@, s) == open_slots(after, s) by {
                lemma_open_slots_step(before, action, s);
                assert(outstanding(old(self).available_duplicates@, s) == open_slots(before, s));
            }
            assert forall|s: StreamId, k: nat|
                open_slots(after, s).contains(k) implies self.entries@.contains_key(s) && k + 1
                < self.entries@[s]@.len() by {
                lemma_open_slots_step(before, action, s);
                if s == stream && k != d {
                    assert(open_slots(before, s).contains(k));
                }
            }
            lemma_open_slots_step(before, action, stream);
        }
        Scope { stream, duplicate }
    }

    /// Opens a scope of the stream `C` with the context `ctx` and hands out its token.
    /// The scope takes the lowest duplicate slot of the stream that no open scope has.
    #[must_use]
    pub fn open_scope<C: Column<Entry = E>>(&mut self, ctx: E) -> (scope: Scope)
        requires
            old(self).wf(),
        ensures
            final(self).wf(),
            scope.stream() == C::ID,
            is_lowest_free(
                open_slots(old(self)@, C::ID),
                CTX_COUNT_START as nat,
                scope.slot(),
            ),
            final(self)@ == old(self)@.push(
                Action::Open { stream: C::ID, slot: scope.slot(), value: ctx },
            ),
            final(self).has_open(scope),
            one_more_open_slot(old(self)@, final(self)@, C::ID, scope.slot()),
    {
        self.open(C::ID, ctx)
    }

    /// Ends the scope that `scope` stands for: notes the end in the log and gives the
    /// scope's slot back to its stream.
    pub fn close_scope(&mut self, scope: Scope)
        requires
            old(self).wf(),
            old(self).has_open(scope),
        ensures
            final(self).wf(),
            final(self)@ == old(self)@.push(
                Action::Close { stream: scope.stream(), slot: scope.slot() },
            ),
            one_less_open_slot(old(self)@, final(self)@, scope.stream(), scope.slot()),
    {
        let Scope { stream: from, duplicate } = scope;
        let ghost before = self.history@;
        let ghost action = Action::<E>::Close { stream: from, slot: duplicate@ };
        let ghost after = before.push(action);
        assert(outstanding(self.available_duplicates@, from) == open_slots(before, from));
        self.action_index.push(ActionEntry::PopCtx { from, duplicate });
        match self.available_duplicates.remove(&from) {
            Some(slots) => {
                let mut slots = slots;
                slots.deallocate(duplicate);
                self.available_duplicates.insert(from, slots);
            },
            None => {},
        }
        proof {
            self.history@ = after;
            lemma_push_parts(before, action);
            assert forall|s: StreamId, k: nat| #[trigger]
                stored(self.entries@, s, k) == column(after, s, k) by {
                assert(stored(old(self).entries@, s, k) == column(before, s, k));
            }
            assert forall|s: StreamId| #[trigger]
                outstanding(self.available_duplicates@, s) == open_slots(after, s) by {
                lemma_open_slots_step(before, action, s);
                assert(outstanding(old(self).available_duplicates@, s) == open_slots(before, s));
            }
            assert forall|s: StreamId, k: nat|
                open_slots(after, s).contains(k) implies self.entries@.contains_key(s) && k + 1
                < self.entries@[s]@.len() by {
                lemma_open_slots_step(before, action, s);
                assert(open_slots(before, s).contains(k));
            }
            assert forall|s: StreamId| #[trigger]
                open_slots(after, s) == if s == from {
                    open_slots(before, s).remove(duplicate@)
                } else {
                    open_slots(before, s)
                } by {
                lemma_open_slots_step(before, action, s);
            }
        }
    }

    /// Whether the scope that `scope` stands for is open in this recorder.
    pub fn is_open(&self, scope: &Scope) -> (open: bool)
        requires
            self.wf(),
        ensures
            open == self.has_open(*scope),
    {
        assert(outstanding(self.available_duplicates@, scope.stream) == open_slots(
            self@,
            scope.stream,
        ));
        match self.available_duplicates.get(&scope.stream) {
            Some(slots) => slots.is_allocated(&scope.duplicate),
            None => false,
        }
    }
}

/// The slot that holds a stream's plain writes.
fn write_slot() -> (slot: ColDuplicate)
    ensures
        slot@ == 0,
{
    Slots::<CTX_COUNT_START>::reserved(0).unwrap()
}

/// The references `refs` point at the scopes `scopes`, one for one.
spec fn refs_match<E>(refs: Seq<(ColDuplicate, usize)>, scopes: Seq<OpenScope<E>>) -> bool {
    &&& refs.len() == scopes.len()
    &&& forall|k: int|
        0 <= k < refs.len() ==> (#[trigger] refs[k]).0@ == scopes[k].slot && refs[k].1
            == scopes[k].index
}

/// `context` holds, for every stream that has had a scope in `h`, the references to
/// the scopes that are open after `h`.
spec fn context_matches<E>(
    context: Map<StreamId, Vec<(ColDuplicate, usize)>>,
    h: Seq<Action<E>>,
) -> bool {
    forall|s: StreamId|
        {
            &&& #[trigger] context.contains_key(s) == has_opened(h, s)
            &&& context.contains_key(s) ==> refs_match(context[s]@, open_scopes(h, s))
        }
}

/// The count that `counts` keeps for `(stream, slot)`.
spec fn count_at(counts: Map<StreamId, Vec<usize>>, stream: StreamId, slot: nat) -> nat {
    if counts.contains_key(stream) && slot < counts[stream]@.len() {
        counts[stream]@[slot as int] as nat
    } else {
        0
    }
}

/// The count that `counts` keeps for `stream`.
spec fn written_at(counts: Map<StreamId, usize>, stream: StreamId) -> nat {
    if counts.contains_key(stream) {
        counts[stream] as nat
    } else {
        0
    }
}

/// The references that `context` holds for `stream`; none if it holds nothing for it.
spec fn refs_of(context: Map<StreamId, Vec<(ColDuplicate, usize)>>, stream: StreamId) -> Seq<
    (ColDuplicate, usize),
> {
    if context.contains_key(stream) {
        context[stream]@
    } else {
        Seq::empty()
    }
}

/// `after` is `refs` without its reference at `i`, which is the first to `slot`.
spec fn removes_first(
    refs: Seq<(ColDuplicate, usize)>,
    after: Seq<(ColDuplicate, usize)>,
    slot: nat,
    i: int,
) -> bool {
    &&& 0 <= i < refs.len()
    &&& refs[i].0@ == slot
    &&& forall|k: int| 0 <= k < i ==> (#[trigger] refs[k]).0@ != slot
    &&& after == refs.remove(i)
}

/// What the references of one stream lead to in the storage of `h`.
spec fn resolved<E>(refs: Seq<(ColDuplicate, usize)>, h: Seq<Action<E>>, stream: StreamId) -> Seq<
    E,
> {
    refs.map_values(|r: (ColDuplicate, usize)| column(h, stream, r.0@)[r.1 as int])
}

/// A snapshot of a recorder at the moment a value was written: the value, and every
/// scope that was open then.
pub struct Frame<'contexter, E> {
    /// By stream, the open scopes, oldest first: the slot and the place in its storage.
    context: HashMap<StreamId, Vec<(ColDuplicate, usize)>>,
    write: (StreamId, usize),
    contexter: &'contexter Contexter<E>,
}

impl<'contexter, E> View for Frame<'contexter, E> {
    type V = FrameView<E>;

    closed spec fn view(&self) -> FrameView<E> {
        FrameView {
            stream: self.write.0,
            value: column(self.contexter@, self.write.0, 0)[self.write.1 as int],
            context: Map::new(
                |s: StreamId| self.context@.contains_key(s),
                |s: StreamId| resolved(self.context@[s]@, self.contexter@, s),
            ),
        }
    }
}

impl<'contexter, E> Clone for Frame<'contexter, E> {
    /// A second frame of the same moment.
    fn clone(&self) -> (copy: Self)
        ensures
            copy@ == self@,
            copy.source() == self.source(),
            copy.wf() == self.wf(),
    {
        let copy = Frame {
            context: self.context.clone(),
            write: (self.write.0, self.write.1),
            contexter: self.contexter,
        };
        proof {
            assert(copy@.context =~= self@.context);
        }
        copy
    }
}

impl<'contexter, E> Frame<'contexter, E> {
    /// The history of the recorder that the frame was taken from.
    pub closed spec fn source(&self) -> Seq<Action<E>> {
        self.contexter@
    }

    /// Every reference of the frame leads to an entry of its recorder.
    pub closed spec fn wf(&self) -> bool {
        &&& self.contexter.wf()
        &&& self.write.1 < column(self.contexter@, self.write.0, 0).len()
        &&& forall|s: StreamId, k: int|
            self.context@.contains_key(s) && 0 <= k < self.context@[s]@.len() ==> (
            #[trigger] self.context@[s]@[k]).1 < column(
                self.contexter@,
                s,
                self.context@[s]@[k].0@,
            ).len()
    }

    /// A frame is taken from a valid history.
    pub proof fn lemma_source_is_valid(&self)
        requires
            self.wf(),
        ensures
            valid(self.source()),
    {
        self.contexter.lemma_history_is_valid();
    }

    /// The contexts of the stream `C` that were open when the frame's value was
    /// written, oldest first; `None` if no scope of that stream had been opened yet.
    pub fn get_context<C: Column<Entry = E>>(&self) -> (found: Option<Vec<&E>>)
        requires
            self.wf(),
        ensures
            match found {
                Some(entries) => self@.context.contains_key(C::ID) && entries@.map_values(
                    |e: &E| *e,
                ) == self@.context[C::ID],
                None => !self@.context.contains_key(C::ID),
            },
    {
        match self.context.get(&C::ID) {
            Some(refs) => {
                let ghost h = self.contexter@;
                let mut entries: Vec<&E> = Vec::new();
                let mut k: usize = 0;
                while k < refs.len()
                    invariant
                        self.wf(),
                        h == self.contexter@,
                        self.context@.contains_key(C::ID),
                        *refs == self.context@[C::ID],
                        0 <= k <= refs@.len(),
                        entries@.len() == k,
                        forall|j: int|
                            0 <= j < k ==> *(#[trigger] entries@[j]) == column(
                                h,
                                C::ID,
                                refs@[j].0@,
                            )[refs@[j].1 as int],
                    decreases refs@.len() - k,
                {
                    let (duplicate, index) = refs[k];
                    assert(self.context@[C::ID]@[k as int].1 < column(h, C::ID, duplicate@).len());
                    match self.contexter.get_column(C::ID, duplicate) {
                        Some(column) => {
                            entries.push(&column[index]);
                        },
                        None => {},
                    }
                    k += 1;
                }
                assert(entries@.map_values(|e: &E| *e) =~= resolved(refs@, h, C::ID));
                Some(entries)
            },
            None => None,
        }
    }

    /// The value of the frame, if it was written to the stream `C`.
    pub fn get_value<C: Column<Entry = E>>(&self) -> (found: Result<&E, ()>)
        requires
            self.wf(),
        ensures
            match found {
                Ok(value) => C::ID == self@.stream && *value == self@.value,
                Err(_) => C::ID != self@.stream,
            },
    {
        let (stream, index) = self.write;
        if stream != C::ID {
            return Err(());
        }
        match self.contexter.get_column(stream, write_slot()) {
            Some(column) => Ok(&column[index]),
            None => Err(()),
        }
    }
}

/// Replays the log of a recorder, one frame for each value that was written.
pub struct FrameIter<'a, E> {
    contexter: &'a Contexter<E>,
    /// The line of the log that is read next.
    position: usize,
    /// By stream, the scopes that are open at `position`.
    context: HashMap<StreamId, Vec<(ColDuplicate, usize)>>,
    /// By stream and duplicate slot, the contexts met before `position`.
    context_counts: HashMap<StreamId, Vec<usize>>,
    /// By stream, the values met before `position`.
    val_counts: HashMap<StreamId, usize>,
}

impl<'a, E> FrameIter<'a, E> {
    /// The history of the recorder that is replayed.
    pub closed spec fn source(&self) -> Seq<Action<E>> {
        self.contexter@
    }

    /// The number of frames that were handed out.
    pub closed spec fn yielded(&self) -> nat {
        frames(self.contexter@.take(self.position as int)).len()
    }

    /// The part of the history that was replayed.
    spec fn seen(&self) -> Seq<Action<E>> {
        self.contexter@.take(self.position as int)
    }

    /// The replay's state is what the part of the log that it has read says.
    pub closed spec fn wf(&self) -> bool {
        &&& self.contexter.wf()
        &&& self.position <= self.contexter.action_index@.len()
        &&& context_matches(self.context@, self.seen())
        &&& forall|s: StreamId, d: nat|
            d >= CTX_COUNT_START ==> #[trigger] count_at(self.context_counts@, s, d) == column(
                self.seen(),
                s,
                d,
            ).len()
        &&& forall|s: StreamId| #[trigger]
            written_at(self.val_counts@, s) == column(self.seen(), s, 0).len()
    }

    /// A replay reads a valid history.
    pub proof fn lemma_source_is_valid(&self)
        requires
            self.wf(),
        ensures
            valid(self.source()),
    {
        self.contexter.lemma_history_is_valid();
    }

    /// The line of the log that is read next.
    spec fn line(&self) -> ActionEntry {
        self.contexter.action_index@[self.position as int]
    }

    /// What holds of the action behind the line that is read next.
    proof fn lemma_line(&self)
        requires
            self.wf(),
            self.position < self.contexter.action_index@.len(),
        ensures
            describes(self.line(), self.contexter@[self.position as int]),
            self.contexter@.take(self.position + 1) == self.seen().push(
                self.contexter@[self.position as int],
            ),
            self.seen().push(self.contexter@[self.position as int]).drop_last() == self.seen(),
            self.seen().push(self.contexter@[self.position as int]).last()
                == self.contexter@[self.position as int],
            valid(self.contexter@.take(self.position + 1)),
            valid(self.seen()),
            self.position < usize::MAX,
    {
        assert(self.contexter.action_index.len() == self.contexter.action_index@.len());
        let h = self.contexter@;
        let p = self.position as int;
        lemma_take_next(h, p);
        lemma_valid_prefix(h, p + 1);
        lemma_valid_prefix(h, p);
        lemma_push_parts(h.take(p), h[p]);
    }

    /// The state `self` is what reading the next line makes of the state `before`.
    spec fn stepped(&self, before: Self) -> bool {
        &&& self.contexter == before.contexter
        &&& self.position == before.position + 1
        &&& match before.line() {
            ActionEntry::WriteCtx { into, duplicate } => {
                let count = count_at(before.context_counts@, into, duplicate@);
                &&& self.val_counts@ == before.val_counts@
                &&& self.context@ == before.context@.insert(into, self.context@[into])
                &&& self.context@[into]@ == refs_of(before.context@, into).push(
                    (duplicate, count as usize),
                )
                &&& self.context_counts@ == before.context_counts@.insert(
                    into,
                    self.context_counts@[into],
                )
                &&& forall|k: nat| #[trigger]
                    count_at(self.context_counts@, into, k) == if k == duplicate@ {
                        count + 1
                    } else {
                        count_at(before.context_counts@, into, k)
                    }
            },
            ActionEntry::PopCtx { from, duplicate } => {
                &&& self.val_counts@ == before.val_counts@
                &&& self.context_counts@ == before.context_counts@
                &&& before.context@.contains_key(from)
                &&& self.context@ == before.context@.insert(from, self.context@[from])
                &&& exists|i: int| #[trigger]
                    removes_first(before.context@[from]@, self.context@[from]@, duplicate@, i)
            },
            ActionEntry::WriteVal { into } => {
                &&& self.context@ == before.context@
                &&& self.context_counts@ == before.context_counts@
                &&& self.val_counts@ == before.val_counts@.insert(
                    into,
                    (written_at(before.val_counts@, into) + 1) as usize,
                )
                &&& written_at(before.val_counts@, into) < usize::MAX
            },
        }
    }

    /// A state that follows a consistent one by one line of the log is consistent, and
    /// it has yielded one frame more exactly when the line is the writing of a value.
    proof fn lemma_step(&self, before: Self)
        requires
            before.wf(),
            before.position < before.contexter.action_index@.len(),
            self.stepped(before),
        ensures
            self.wf(),
            self.seen() == before.seen().push(before.contexter@[before.position as int]),
            frames(self.seen()) == match before.contexter@[before.position as int] {
                Action::Record { stream, value } => frames(before.seen()).push(
                    FrameView { stream, value, context: context_of(before.seen()) },
                ),
                _ => frames(before.seen()),
            },
    {
        before.lemma_line();
        let seen = before.seen();
        let action = before.contexter@[before.position as int];
        let next = self.seen();
        assert(next == seen.push(action));
        assert forall|s: StreamId|
            {
                &&& #[trigger] self.context@.contains_key(s) == has_opened(next, s)
                &&& self.context@.contains_key(s) ==> refs_match(
                    self.context@[s]@,
                    open_scopes(next, s),
                )
            } by {
            lemma_has_opened_step(seen, action, s);
            assert(before.context@.contains_key(s) == has_opened(seen, s));
            if !has_opened(seen, s) {
                lemma_unopened_has_no_scopes(seen, s);
            }
            match before.line() {
                ActionEntry::PopCtx { from, duplicate } => {
                    if s == from {
                        let refs = before.context@[from]@;
                        let rest = open_scopes(seen, from);
                        let i = choose|i: int| #[trigger]
                            removes_first(refs, self.context@[from]@, duplicate@, i);
                        assert forall|k: int| 0 <= k < i implies (#[trigger] rest[k]).slot
                            != duplicate@ by {
                            assert(refs[k].0@ != duplicate@);
                        }
                        lemma_position_found(rest, duplicate@, i);
                    }
                },
                _ => {},
            }
        }
        assert forall|s: StreamId, k: nat| k >= CTX_COUNT_START implies #[trigger] count_at(
            self.context_counts@,
            s,
            k,
        ) == column(next, s, k).len() by {
            assert(count_at(before.context_counts@, s, k) == column(seen, s, k).len());
        }
        assert forall|s: StreamId| #[trigger]
            written_at(self.val_counts@, s) == column(next, s, 0).len() by {
            assert(written_at(before.val_counts@, s) == column(seen, s, 0).len());
        }
    }

    /// Replays the opening of a scope: the scope joins the open ones of its stream,
    /// with the place of its context in storage.
    fn enter(&mut self, into: StreamId, duplicate: ColDuplicate)
        requires
            old(self).wf(),
            old(self).position < old(self).contexter.action_index@.len(),
            old(self).line() == (ActionEntry::WriteCtx { into, duplicate }),
        ensures
            final(self).wf(),
            final(self).contexter == old(self).contexter,
            final(self).position == old(self).position + 1,
            final(self).yielded() == old(self).yielded(),
    {
        let ghost h = self.contexter@;
        let ghost p = self.position as int;
        let d = duplicate.to_usize();
        proof {
            self.lemma_line();
            lemma_column_grows(h, p + 1, into, d as nat);
            assert(stored(self.contexter.entries@, into, d as nat) == column(h, into, d as nat));
            if self.contexter.entries@.contains_key(into) && d
                < self.contexter.entries@[into]@.len() {
                assert(self.contexter.entries@[into]@[d as int].len() <= usize::MAX);
            }
            assert(column(h.take(p + 1), into, d as nat).len() == column(
                h.take(p),
                into,
                d as nat,
            ).len() + 1);
            assert(count_at(self.context_counts@, into, d as nat) == column(
                h.take(p),
                into,
                d as nat,
            ).len());
        }
        let mut counts = match self.context_counts.remove(&into) {
            Some(counts) => counts,
            None => Vec::new(),
        };
        let ghost had = counts@;
        while counts.len() <= d
            invariant
                had.len() <= counts@.len(),
                forall|k: int| 0 <= k < had.len() ==> counts@[k] == had[k],
                forall|k: int| had.len() <= k < counts@.len() ==> counts@[k] == 0,
            decreases d + 1 - counts@.len(),
        {
            counts.push(0);
        }
        let ghost padded = counts@;
        let count = counts[d];
        counts[d] = count + 1;
        self.context_counts.insert(into, counts);
        let mut open = match self.context.remove(&into) {
            Some(open) => open,
            None => Vec::new(),
        };
        open.push((duplicate, count));
        self.context.insert(into, open);
        self.position += 1;
        proof {
            assert(self.context@ =~= old(self).context@.insert(into, self.context@[into]));
            assert(self.context_counts@ =~= old(self).context_counts@.insert(
                into,
                self.context_counts@[into],
            ));
            assert forall|k: nat| #[trigger]
                count_at(self.context_counts@, into, k) == if k == duplicate@ {
                    count_at(old(self).context_counts@, into, duplicate@) + 1
                } else {
                    count_at(old(self).context_counts@, into, k)
                } by {
                if k < padded.len() && k >= had.len() {
                    assert(padded[k as int] == 0);
                }
            }
            self.lemma_step(*old(self));
        }
    }

    /// Replays the end of a scope: the scope leaves the open ones of its stream.
    fn leave(&mut self, from: StreamId, duplicate: ColDuplicate)
        requires
            old(self).wf(),
            old(self).position < old(self).contexter.action_index@.len(),
            old(self).line() == (ActionEntry::PopCtx { from, duplicate }),
        ensures
            final(self).wf(),
            final(self).contexter == old(self).contexter,
            final(self).position == old(self).position + 1,
            final(self).yielded() == old(self).yielded(),
    {
        let ghost seen = self.seen();
        let ghost rest = open_scopes(seen, from);
        let d = duplicate.to_usize();
        proof {
            self.lemma_line();
            assert(open_slots(seen, from).contains(d as nat));
            if !has_opened(seen, from) {
                lemma_unopened_has_no_scopes(seen, from);
            }
            assert(self.context@.contains_key(from) == has_opened(seen, from));
            assert(refs_match(self.context@[from]@, rest));
        }
        match self.context.remove(&from) {
            Some(open) => {
                let mut open = open;
                let ghost refs = open@;
                let mut i: usize = 0;
                while i < open.len() && open[i].0.to_usize() != d
                    invariant
                        0 <= i <= open@.len(),
                        forall|k: int| 0 <= k < i ==> (#[trigger] open@[k]).0@ != d,
                    decreases open@.len() - i,
                {
                    i += 1;
                }
                proof {
                    let w = choose|k: int| 0 <= k < rest.len() && #[trigger] rest[k].slot == d;
                    assert(open@[w].0@ == d);
                    assert(i < open@.len());
                }
                if i < open.len() {
                    open.remove(i);
                }
                self.context.insert(from, open);
                proof {
                    assert(removes_first(refs, self.context@[from]@, duplicate@, i as int));
                }
            },
            None => {},
        }
        self.position += 1;
        proof {
            assert(self.context@ =~= old(self).context@.insert(from, self.context@[from]));
            self.lemma_step(*old(self));
        }
    }

    /// Replays the writing of a value: takes the snapshot of the open scopes that is
    /// the value's frame.
    fn emit(&mut self, into: StreamId) -> (frame: Frame<'a, E>)
        requires
            old(self).wf(),
            old(self).position < old(self).contexter.action_index@.len(),
            old(self).line() == (ActionEntry::WriteVal { into }),
        ensures
            final(self).wf(),
            final(self).contexter == old(self).contexter,
            final(self).position == old(self).position + 1,
            final(self).yielded() == old(self).yielded() + 1,
            frame.wf(),
            frame.source() == old(self).source(),
            old(self).yielded() < frames(old(self).source()).len(),
            frame@ == frames(old(self).source())[old(self).yielded() as int],
    {
        let ghost h = self.contexter@;
        let ghost p = self.position as int;
        let ghost seen = h.take(p);
        let ghost action = h[p];
        proof {
            self.lemma_line();
            lemma_column_grows(h, p + 1, into, 0);
            assert(stored(self.contexter.entries@, into, 0) == column(h, into, 0));
            if self.contexter.entries@.contains_key(into) && 0
                < self.contexter.entries@[into]@.len() {
                assert(self.contexter.entries@[into]@[0].len() <= usize::MAX);
            }
            assert(column(h.take(p + 1), into, 0).len() == column(seen, into, 0).len() + 1);
            assert(written_at(self.val_counts@, into) == column(seen, into, 0).len());
        }
        let count = match self.val_counts.get(&into) {
            Some(count) => *count,
            None => 0,
        };
        self.val_counts.insert(into, count + 1);
        let frame = Frame {
            context: self.context.clone(),
            write: (into, count),
            contexter: self.contexter,
        };
        self.position += 1;
        proof {
            self.lemma_step(*old(self));
            lemma_frames_grow(h, p + 1);
            let expected = FrameView {
                stream: into,
                value: action->Record_value,
                context: context_of(seen),
            };
            assert(frames(h)[frames(seen).len() as int] == expected);
            assert forall|s: StreamId, k: int|
                frame.context@.contains_key(s) && 0 <= k < frame.context@[s]@.len() implies (
            #[trigger] frame.context@[s]@[k]).1 < column(h, s, frame.context@[s]@[k].0@).len() by {
                lemma_scopes_stay_readable(h, p, s);
                assert(old(self).context@.contains_key(s) == has_opened(seen, s));
                assert(open_scopes(seen, s)[k].slot == frame.context@[s]@[k].0@);
            }
            assert forall|s: StreamId| frame.context@.contains_key(s) implies resolved(
                frame.context@[s]@,
                h,
                s,
            ) == open_scopes(seen, s).map_values(|o: OpenScope<E>| o.value) by {
                lemma_scopes_stay_readable(h, p, s);
                assert(old(self).context@.contains_key(s) == has_opened(seen, s));
                let refs = frame.context@[s]@;
                let scopes = open_scopes(seen, s);
                assert forall|k: int| 0 <= k < refs.len() implies resolved(refs, h, s)[k]
                    == scopes.map_values(|o: OpenScope<E>| o.value)[k] by {
                    assert(refs[k].0@ == scopes[k].slot);
                }
                assert(resolved(refs, h, s) =~= scopes.map_values(|o: OpenScope<E>| o.value));
            }
            assert forall|s: StreamId|
                frame@.context.contains_key(s) == expected.context.contains_key(s) by {
                assert(old(self).context@.contains_key(s) == has_opened(seen, s));
            }
            assert(frame@.context =~= expected.context);
            assert(frame@.value == expected.value);
        }
        frame
    }

    /// Reads the log on to the next value that was written and hands out its frame;
    /// `None` when the log holds no further value.
    pub fn next(&mut self) -> (frame: Option<Frame<'a, E>>)
        requires
            old(self).wf(),
        ensures
            final(self).wf(),
            final(self).source() == old(self).source(),
            match frame {
                Some(f) => {
                    &&& f.wf()
                    &&& f.source() == old(self).source()
                    &&& old(self).yielded() < frames(old(self).source()).len()
                    &&& f@ == frames(old(self).source())[old(self).yielded() as int]
                    &&& final(self).yielded() == old(self).yielded() + 1
                },
                None => {
                    &&& old(self).yielded() == frames(old(self).source()).len()
                    &&& final(self).yielded() == old(self).yielded()
                },
            },
    {
        while self.position < self.contexter.action_index.len()
            invariant
                self.wf(),
                self.contexter == old(self).contexter,
                self.yielded() == old(self).yielded(),
            decreases self.contexter.action_index@.len() - self.position,
        {
            match self.contexter.action_index[self.position] {
                ActionEntry::WriteCtx { into, duplicate } => {
                    self.enter(into, duplicate);
                },
                ActionEntry::PopCtx { from, duplicate } => {
                    self.leave(from, duplicate);
                },
                ActionEntry::WriteVal { into } => {
                    return Some(self.emit(into));
                },
            }
        }
        proof {
            let h = self.contexter@;
            assert(h.take(h.len() as int) =~= h);
        }
        None
    }
}

impl<E> Contexter<E> {
    /// All frames of the log as it stands: one for each value that was written, in the
    /// order of writing.
    pub fn frames(&self) -> (all: Vec<Frame<'_, E>>)
        requires
            self.wf(),
        ensures
            all@.len() == records(self@),
            all@.len() == frames(self@).len(),
            forall|i: int|
                0 <= i < all@.len() ==> {
                    &&& (#[trigger] all@[i]).wf()
                    &&& all@[i].source() == self@
                    &&& all@[i]@ == frames(self@)[i]
                },
    {
        let mut all: Vec<Frame<'_, E>> = Vec::new();
        let mut replay = self.iter();
        proof {
            lemma_one_frame_per_record(self@);
        }
        loop
            invariant
                replay.wf(),
                replay.source() == self@,
                replay.yielded() == all@.len(),
                all@.len() <= frames(self@).len(),
                frames(self@).len() == records(self@),
                forall|i: int|
                    0 <= i < all@.len() ==> {
                        &&& (#[trigger] all@[i]).wf()
                        &&& all@[i].source() == self@
                        &&& all@[i]@ == frames(self@)[i]
                    },
            ensures
                all@.len() == frames(self@).len(),
            decreases frames(self@).len() - all@.len(),
        {
            match replay.next() {
                Some(frame) => {
                    all.push(frame);
                },
                None => {
                    break ;
                },
            }
        }
        all
    }

    /// A replay of the log as it stands, from its first line.
    pub fn iter(&self) -> (frames: FrameIter<'_, E>)
        requires
            self.wf(),
        ensures
            frames.wf(),
            frames.source() == self@,
            frames.yielded() == 0,
    {
        let frames = FrameIter {
            contexter: self,
            position: 0,
            context: HashMap::new(),
            context_counts: HashMap::new(),
            val_counts: HashMap::new(),
        };
        proof {
            assert(self@.take(0) =~= Seq::<Action<E>>::empty());
        }
        frames
    }
}

/// The guard of an open scope. It borrows the recorder for as long as the scope is
/// open, so that whatever is recorded meanwhile goes through the guard, and it is
/// given up in `close`, which ends the scope.
pub struct ContextHandle<'contexter, E> {
    pub contexter: &'contexter mut Contexter<E>,
    pub inserted_to: Scope,
}

impl<E> Contexter<E> {
    /// Opens a scope of the stream `C` with the context `ctx` and hands out its guard.
    /// The scope takes the lowest duplicate slot of the stream that no open scope has.
    #[must_use]
    pub fn add_ctx_to<C: Column<Entry = E>>(&mut self, ctx: E) -> (handle: ContextHandle<'_, E>)
        requires
            old(self).wf(),
        ensures
            handle.contexter.wf(),
            handle.inserted_to.stream() == C::ID,
            is_lowest_free(
                open_slots(old(self)@, C::ID),
                CTX_COUNT_START as nat,
                handle.inserted_to.slot(),
            ),
            handle.contexter@ == old(self)@.push(
                Action::Open { stream: C::ID, slot: handle.inserted_to.slot(), value: ctx },
            ),
            handle.contexter.has_open(handle.inserted_to),
            one_more_open_slot(
                old(self)@,
                handle.contexter@,
                C::ID,
                handle.inserted_to.slot(),
            ),
            *final(self) == *final(handle.contexter),
    {
        let inserted_to = self.open(C::ID, ctx);
        ContextHandle { contexter: self, inserted_to }
    }
}

impl<'contexter, E> ContextHandle<'contexter, E> {
    /// Ends the scope: notes the end in the log and gives the scope's slot back to its
    /// stream.
    pub fn close(self)
        requires
            old(self.contexter).wf(),
            old(self.contexter).has_open(self.inserted_to),
        ensures
            final(self.contexter).wf(),
            final(self.contexter)@ == old(self.contexter)@.push(
                Action::Close { stream: self.inserted_to.stream(), slot: self.inserted_to.slot() },
            ),
            one_less_open_slot(
                old(self.contexter)@,
                final(self.contexter)@,
                self.inserted_to.stream(),
                self.inserted_to.slot(),
            ),
    {
        let ContextHandle { contexter, inserted_to } = self;
        contexter.close_scope(inserted_to);
    }
}

/// What a recorder and the guard of an open scope have in common: values are written
/// and further scopes are opened through either.
pub trait ContexterHandle<E> {
    /// The recorder behind the handle, as it stands.
    spec fn recorder(&self) -> Contexter<E>;

    fn write_to<C: Column<Entry = E>>(&mut self, val: E)
        requires
            old(self).recorder().wf(),
        ensures
            final(self).recorder().wf(),
            final(self).recorder()@ == old(self).recorder()@.push(
                Action::Record { stream: C::ID, value: val },
            ),
            same_open_slots(old(self).recorder()@, final(self).recorder()@),
    ;

    fn add_ctx_to<C: Column<Entry = E>>(&mut self, ctx: E) -> (handle: ContextHandle<'_, E>)
        requires
            old(self).recorder().wf(),
        ensures
            handle.contexter.wf(),
            handle.inserted_to.stream() == C::ID,
            is_lowest_free(
                open_slots(old(self).recorder()@, C::ID),
                CTX_COUNT_START as nat,
                handle.inserted_to.slot(),
            ),
            handle.contexter@ == old(self).recorder()@.push(
                Action::Open { stream: C::ID, slot: handle.inserted_to.slot(), value: ctx },
            ),
            handle.contexter.has_open(handle.inserted_to),
            one_more_open_slot(
                old(self).recorder()@,
                handle.contexter@,
                C::ID,
                handle.inserted_to.slot(),
            ),
            final(self).recorder() == *final(handle.contexter),
    ;
}

impl<E> ContexterHandle<E> for Contexter<E> {
    open spec fn recorder(&self) -> Contexter<E> {
        *self
    }

    fn write_to<C: Column<Entry = E>>(&mut self, val: E) {
        self.record(C::ID, val);
    }

    fn add_ctx_to<C: Column<Entry = E>>(&mut self, ctx: E) -> (handle: ContextHandle<'_, E>) {
        let inserted_to = self.open(C::ID, ctx);
        ContextHandle { contexter: self, inserted_to }
    }
}

impl<'contexter, E> ContexterHandle<E> for ContextHandle<'contexter, E> {
    open spec fn recorder(&self) -> Contexter<E> {
        *self.contexter
    }

    fn write_to<C: Column<Entry = E>>(&mut self, val: E)
        ensures
            final(self).inserted_to == old(self).inserted_to,
            *final(final(self).contexter) == *final(old(self).contexter),
    {
        self.contexter.record(C::ID, val);
    }

    fn add_ctx_to<C: Column<Entry = E>>(&mut self, ctx: E) -> (handle: ContextHandle<'_, E>)
        ensures
            final(self).inserted_to == old(self).inserted_to,
            *final(final(self).contexter) == *final(old(self).contexter),
    {
        let inserted_to = self.contexter.open(C::ID, ctx);
        ContextHandle { contexter: &mut *self.contexter, inserted_to }
    }
}

} // verus!
