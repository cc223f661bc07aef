//! What a recorder's history means: which entries the storage holds, which scopes
//! are open, and which frames a replay yields. The recorder is proved against these
//! definitions, and the theorems at the end hold of every history it can have.

use crate::slots::is_lowest_free;
use vstd::prelude::*;

verus! {

/// The identity of a stream.
pub type StreamId = u64;

/// The number of slots at the bottom of every stream that no scope can take. Slot 0
/// holds the stream's plain writes.
pub const CTX_COUNT_START: usize = 1;

/// One thing that was done to a recorder, with the value that came with it.
pub enum Action<E> {
    /// A scope of `stream` was opened in `slot` with the context `value`.
    Open { stream: StreamId, slot: nat, value: E },
    /// The scope of `stream` in `slot` ended.
    Close { stream: StreamId, slot: nat },
    /// `value` was written to `stream`.
    Record { stream: StreamId, value: E },
}

/// A scope that is open: its slot, the place of its context in the slot's storage,
/// and the context itself.
pub struct OpenScope<E> {
    pub slot: nat,
    pub index: nat,
    pub value: E,
}

/// What a frame stands for: the value that was written, the stream it went to, and
/// for every stream that ever had a scope the contexts that were open at that moment,
/// oldest first.
pub struct FrameView<E> {
    pub stream: StreamId,
    pub value: E,
    pub context: Map<StreamId, Seq<E>>,
}

/// Everything stored under `(stream, slot)`, in the order in which it arrived. Slot 0
/// takes the plain writes, every other slot the contexts of the scopes it was given to.
pub open spec fn column<E>(h: Seq<Action<E>>, stream: StreamId, slot: nat) -> Seq<E>
    decreases h.len(),
{
    if h.len() == 0 {
        Seq::empty()
    } else {
        let rest = column(h.drop_last(), stream, slot);
        match h.last() {
            Action::Open { stream: s, slot: d, value } => if s == stream && d == slot {
                rest.push(value)
            } else {
                rest
            },
            Action::Record { stream: s, value } => if s == stream && slot == 0 {
                rest.push(value)
            } else {
                rest
            },
            Action::Close { .. } => rest,
        }
    }
}

/// The place of the first scope in `slot`, or the length of `scopes` if there is none.
pub open spec fn position_of<E>(scopes: Seq<OpenScope<E>>, slot: nat) -> int
    decreases scopes.len(),
{
    if scopes.len() == 0 {
        0
    } else if scopes[0].slot == slot {
        0
    } else {
        1 + position_of(scopes.drop_first(), slot)
    }
}

/// `scopes` without the first scope in `slot`.
pub open spec fn without_slot<E>(scopes: Seq<OpenScope<E>>, slot: nat) -> Seq<OpenScope<E>> {
    if position_of(scopes, slot) < scopes.len() {
        scopes.remove(position_of(scopes, slot))
    } else {
        scopes
    }
}

/// The scopes of `stream` that are open after `h`, oldest first.
pub open spec fn open_scopes<E>(h: Seq<Action<E>>, stream: StreamId) -> Seq<OpenScope<E>>
    decreases h.len(),
{
    if h.len() == 0 {
        Seq::empty()
    } else {
        let rest = open_scopes(h.drop_last(), stream);
        match h.last() {
            Action::Open { stream: s, slot, value } => if s == stream {
                rest.push(
                    OpenScope { slot, index: column(h.drop_last(), stream, slot).len(), value },
                )
            } else {
                rest
            },
            Action::Close { stream: s, slot } => if s == stream {
                without_slot(rest, slot)
            } else {
                rest
            },
            Action::Record { .. } => rest,
        }
    }
}

/// The slots of `stream` that are taken by open scopes after `h`.
pub open spec fn open_slots<E>(h: Seq<Action<E>>, stream: StreamId) -> Set<nat> {
    Set::new(
        |d: nat|
            exists|k: int|
                0 <= k < open_scopes(h, stream).len() && #[trigger] open_scopes(h, stream)[k].slot
                    == d,
    )
}

/// Whether a scope of `stream` was opened anywhere in `h`.
pub open spec fn has_opened<E>(h: Seq<Action<E>>, stream: StreamId) -> bool {
    exists|i: int|
        0 <= i < h.len() && (#[trigger] h[i] matches Action::Open { stream: s, .. } && s == stream)
}

/// The contexts that are open after `h`, by stream.
pub open spec fn context_of<E>(h: Seq<Action<E>>) -> Map<StreamId, Seq<E>> {
    Map::new(
        |s: StreamId| has_opened(h, s),
        |s: StreamId| open_scopes(h, s).map_values(|o: OpenScope<E>| o.value),
    )
}

/// The frames of `h`: one for each value that was written, in the order of writing,
/// each with the contexts that were open when it was written.
pub open spec fn frames<E>(h: Seq<Action<E>>) -> Seq<FrameView<E>>
    decreases h.len(),
{
    if h.len() == 0 {
        Seq::empty()
    } else {
        let rest = frames(h.drop_last());
        match h.last() {
            Action::Record { stream, value } => rest.push(
                FrameView { stream, value, context: context_of(h.drop_last()) },
            ),
            _ => rest,
        }
    }
}

/// A history that a recorder can have: every scope took the lowest slot of its stream
/// that was free, and only open scopes were closed.
pub open spec fn valid<E>(h: Seq<Action<E>>) -> bool
    decreases h.len(),
{
    h.len() == 0 || (valid(h.drop_last()) && match h.last() {
        Action::Open { stream, slot, .. } => is_lowest_free(
            open_slots(h.drop_last(), stream),
            CTX_COUNT_START as nat,
            slot,
        ),
        Action::Close { stream, slot } => open_slots(h.drop_last(), stream).contains(slot),
        Action::Record { .. } => true,
    })
}

/// The number of values written in `h`.
pub open spec fn records<E>(h: Seq<Action<E>>) -> nat {
    h.filter(|a: Action<E>| a is Record).len()
}

/// What appending one action does to the parts that the definitions above recur on.
pub proof fn lemma_push_parts<E>(h: Seq<Action<E>>, a: Action<E>)
    ensures
        h.push(a).len() == h.len() + 1,
        h.push(a).drop_last() == h,
        h.push(a).last() == a,
{
    assert(h.push(a).drop_last() =~= h);
}

/// Cutting a history one action later appends that action.
pub proof fn lemma_take_next<E>(h: Seq<Action<E>>, p: int)
    requires
        0 <= p < h.len(),
    ensures
        h.take(p + 1) == h.take(p).push(h[p]),
        h.take(p + 1).drop_last() == h.take(p),
        h.take(p + 1).last() == h[p],
        h.take(h.len() as int) == h,
{
    assert(h.take(p + 1) =~= h.take(p).push(h[p]));
    assert(h.take(p + 1).drop_last() =~= h.take(p));
    assert(h.take(h.len() as int) =~= h);
}

/// Storage only grows: what was stored after the first `p` actions is still there,
/// in the same places, after all of them.
pub proof fn lemma_column_grows<E>(h: Seq<Action<E>>, p: int, stream: StreamId, slot: nat)
    requires
        0 <= p <= h.len(),
    ensures
        column(h.take(p), stream, slot).len() <= column(h, stream, slot).len(),
        forall|i: int|
            0 <= i < column(h.take(p), stream, slot).len() ==> column(h.take(p), stream, slot)[i]
                == column(h, stream, slot)[i],
    decreases h.len(),
{
    if p == h.len() {
        assert(h.take(p) =~= h);
    } else {
        assert(h.drop_last().take(p) =~= h.take(p));
        lemma_column_grows(h.drop_last(), p, stream, slot);
    }
}

/// A prefix of a valid history is valid.
pub proof fn lemma_valid_prefix<E>(h: Seq<Action<E>>, p: int)
    requires
        valid(h),
        0 <= p <= h.len(),
    ensures
        valid(h.take(p)),
    decreases h.len(),
{
    if p == h.len() {
        assert(h.take(p) =~= h);
    } else {
        assert(h.drop_last().take(p) =~= h.take(p));
        lemma_valid_prefix(h.drop_last(), p);
    }
}

/// Where `position_of` points: at the first scope in `slot`, if there is one.
pub proof fn lemma_position_of<E>(scopes: Seq<OpenScope<E>>, slot: nat)
    ensures
        0 <= position_of(scopes, slot) <= scopes.len(),
        position_of(scopes, slot) < scopes.len() ==> scopes[position_of(scopes, slot)].slot == slot,
        forall|k: int| 0 <= k < position_of(scopes, slot) ==> (#[trigger] scopes[k]).slot != slot,
    decreases scopes.len(),
{
    if scopes.len() > 0 && scopes[0].slot != slot {
        let tail = scopes.drop_first();
        lemma_position_of(tail, slot);
        assert forall|k: int| 0 <= k < position_of(scopes, slot) implies (#[trigger] scopes[k]).slot
            != slot by {
            if k > 0 {
                assert(tail[k - 1] == scopes[k]);
            }
        }
    }
}

/// The first scope in `slot` is the one that `position_of` finds.
pub proof fn lemma_position_found<E>(scopes: Seq<OpenScope<E>>, slot: nat, i: int)
    requires
        0 <= i < scopes.len(),
        scopes[i].slot == slot,
        forall|k: int| 0 <= k < i ==> (#[trigger] scopes[k]).slot != slot,
    ensures
        position_of(scopes, slot) == i,
{
    lemma_position_of(scopes, slot);
    let pos = position_of(scopes, slot);
    if pos < i {
        assert(scopes[pos].slot != slot);
    }
    if i < pos {
        assert(scopes[i].slot != slot);
    }
}

/// No scope in `slot` is among `scopes` exactly when `position_of` runs off the end.
pub proof fn lemma_position_absent<E>(scopes: Seq<OpenScope<E>>, slot: nat)
    requires
        forall|k: int| 0 <= k < scopes.len() ==> (#[trigger] scopes[k]).slot != slot,
    ensures
        position_of(scopes, slot) == scopes.len(),
        without_slot(scopes, slot) == scopes,
{
    lemma_position_of(scopes, slot);
}

/// The scopes are in distinct slots above the reserved one, and each scope's index
/// leads to its own context in the storage of `h`.
pub open spec fn scopes_sound<E>(
    scopes: Seq<OpenScope<E>>,
    h: Seq<Action<E>>,
    stream: StreamId,
) -> bool {
    &&& forall|k: int|
        0 <= k < scopes.len() ==> {
            &&& (#[trigger] scopes[k]).slot >= CTX_COUNT_START
            &&& scopes[k].index < column(h, stream, scopes[k].slot).len()
            &&& column(h, stream, scopes[k].slot)[scopes[k].index as int] == scopes[k].value
        }
    &&& forall|j: int, k: int|
        0 <= j < scopes.len() && 0 <= k < scopes.len() && j != k ==> (#[trigger] scopes[j]).slot
            != (#[trigger] scopes[k]).slot
}

/// In a valid history the open scopes of every stream are sound.
pub proof fn lemma_open_scopes_sound<E>(h: Seq<Action<E>>, stream: StreamId)
    requires
        valid(h),
    ensures
        scopes_sound(open_scopes(h, stream), h, stream),
    decreases h.len(),
{
    if h.len() > 0 {
        let prev = h.drop_last();
        let rest = open_scopes(prev, stream);
        let now = open_scopes(h, stream);
        lemma_open_scopes_sound(prev, stream);
        match h.last() {
            Action::Open { stream: s, slot, value } => {
                if s == stream {
                    assert forall|k: int| 0 <= k < rest.len() implies (#[trigger] rest[k]).slot
                        != slot by {
                        if rest[k].slot == slot {
                            assert(open_slots(prev, stream).contains(slot));
                        }
                    }
                    assert forall|k: int| 0 <= k < now.len() implies {
                        &&& (#[trigger] now[k]).slot >= CTX_COUNT_START
                        &&& now[k].index < column(h, stream, now[k].slot).len()
                        &&& column(h, stream, now[k].slot)[now[k].index as int] == now[k].value
                    } by {
                        if k < rest.len() {
                            assert(now[k] == rest[k]);
                        }
                    }
                    assert forall|j: int, k: int|
                        0 <= j < now.len() && 0 <= k < now.len() && j != k implies (
                    #[trigger] now[j]).slot != (#[trigger] now[k]).slot by {
                        if j < rest.len() {
                            assert(now[j] == rest[j]);
                        }
                        if k < rest.len() {
                            assert(now[k] == rest[k]);
                        }
                    }
                } else {
                    assert forall|k: int| 0 <= k < now.len() implies column(
                        h,
                        stream,
                        (#[trigger] now[k]).slot,
                    ) == column(prev, stream, now[k].slot) by {}
                }
            },
            Action::Close { stream: s, slot } => {
                if s == stream {
                    lemma_position_of(rest, slot);
                    let pos = position_of(rest, slot);
                    if pos < rest.len() {
                        assert forall|k: int| 0 <= k < now.len() implies #[trigger] now[k] == rest[if k
                            < pos {
                            k
                        } else {
                            k + 1
                        }] by {}
                        assert forall|k: int| 0 <= k < now.len() implies {
                            &&& (#[trigger] now[k]).slot >= CTX_COUNT_START
                            &&& now[k].index < column(h, stream, now[k].slot).len()
                            &&& column(h, stream, now[k].slot)[now[k].index as int] == now[k].value
                        } by {
                            let k0 = if k < pos {
                                k
                            } else {
                                k + 1
                            };
                            assert(now[k] == rest[k0]);
                        }
                        assert forall|j: int, k: int|
                            0 <= j < now.len() && 0 <= k < now.len() && j != k implies (
                        #[trigger] now[j]).slot != (#[trigger] now[k]).slot by {
                            let j0 = if j < pos {
                                j
                            } else {
                                j + 1
                            };
                            let k0 = if k < pos {
                                k
                            } else {
                                k + 1
                            };
                            assert(now[j] == rest[j0]);
                            assert(now[k] == rest[k0]);
                        }
                    }
                }
            },
            Action::Record { stream: s, value } => {
                assert forall|k: int| 0 <= k < now.len() implies column(
                    h,
                    stream,
                    (#[trigger] now[k]).slot,
                ) == column(prev, stream, now[k].slot) by {
                    assert(rest[k].slot >= CTX_COUNT_START);
                }
            },
        }
    }
}

/// Frames are never taken back: the frames of the first `p` actions are the first
/// frames of the whole history.
pub proof fn lemma_frames_grow<E>(h: Seq<Action<E>>, p: int)
    requires
        0 <= p <= h.len(),
    ensures
        frames(h.take(p)).len() <= frames(h).len(),
        forall|i: int|
            0 <= i < frames(h.take(p)).len() ==> frames(h.take(p))[i] == frames(h)[i],
    decreases h.len(),
{
    if p == h.len() {
        assert(h.take(p) =~= h);
    } else {
        assert(h.drop_last().take(p) =~= h.take(p));
        lemma_frames_grow(h.drop_last(), p);
    }
}

/// The reconstruction yields exactly one frame for each value that was written.
pub proof fn lemma_one_frame_per_record<E>(h: Seq<Action<E>>)
    ensures
        frames(h).len() == records(h),
    decreases h.len(),
{
    reveal(Seq::filter);
    if h.len() > 0 {
        lemma_one_frame_per_record(h.drop_last());
    }
}

/// What one more action does to the slots that are taken: opening takes the scope's
/// slot, closing frees it, and nothing else changes them.
pub proof fn lemma_open_slots_step<E>(h: Seq<Action<E>>, a: Action<E>, stream: StreamId)
    requires
        valid(h.push(a)),
    ensures
        open_slots(h.push(a), stream) == match a {
            Action::Open { stream: s, slot, .. } => if s == stream {
                open_slots(h, stream).insert(slot)
            } else {
                open_slots(h, stream)
            },
            Action::Close { stream: s, slot } => if s == stream {
                open_slots(h, stream).remove(slot)
            } else {
                open_slots(h, stream)
            },
            Action::Record { .. } => open_slots(h, stream),
        },
{
    lemma_push_parts(h, a);
    let rest = open_scopes(h, stream);
    let now = open_scopes(h.push(a), stream);
    lemma_open_scopes_sound(h, stream);
    match a {
        Action::Open { stream: s, slot, value } => {
            if s == stream {
                let goal = open_slots(h, stream).insert(slot);
                assert forall|d: nat| open_slots(h.push(a), stream).contains(d) == goal.contains(
                    d,
                ) by {
                    if open_slots(h.push(a), stream).contains(d) {
                        let k = choose|k: int| 0 <= k < now.len() && #[trigger] now[k].slot == d;
                        if k < rest.len() {
                            assert(rest[k].slot == d);
                        }
                    }
                    if open_slots(h, stream).contains(d) {
                        let k = choose|k: int| 0 <= k < rest.len() && #[trigger] rest[k].slot == d;
                        assert(now[k].slot == d);
                    }
                    if d == slot {
                        assert(now[rest.len() as int].slot == d);
                    }
                }
                assert(open_slots(h.push(a), stream) =~= goal);
            }
        },
        Action::Close { stream: s, slot } => {
            if s == stream {
                lemma_position_of(rest, slot);
                let pos = position_of(rest, slot);
                let goal = open_slots(h, stream).remove(slot);
                let w = choose|k: int| 0 <= k < rest.len() && #[trigger] rest[k].slot == slot;
                assert(rest[w].slot == slot);
                assert(pos < rest.len());
                assert forall|d: nat| open_slots(h.push(a), stream).contains(d) == goal.contains(
                    d,
                ) by {
                    if open_slots(h.push(a), stream).contains(d) {
                        let k = choose|k: int| 0 <= k < now.len() && #[trigger] now[k].slot == d;
                        let k0 = if k < pos {
                            k
                        } else {
                            k + 1
                        };
                        assert(now[k] == rest[k0]);
                        assert(rest[k0].slot == d);
                        assert(k0 != pos);
                    }
                    if goal.contains(d) {
                        let k = choose|k: int| 0 <= k < rest.len() && #[trigger] rest[k].slot == d;
                        assert(k != pos);
                        let k1 = if k < pos {
                            k
                        } else {
                            k - 1
                        };
                        assert(now[k1] == rest[k]);
                        assert(now[k1].slot == d);
                    }
                }
                assert(open_slots(h.push(a), stream) =~= goal);
            }
        },
        Action::Record { .. } => {},
    }
}

/// One more action adds a stream to those that have had a scope only by opening one.
pub proof fn lemma_has_opened_step<E>(h: Seq<Action<E>>, a: Action<E>, stream: StreamId)
    ensures
        has_opened(h.push(a), stream) == (has_opened(h, stream) || (a matches Action::Open {
            stream: s,
            ..
        } && s == stream)),
{
    let h2 = h.push(a);
    if has_opened(h, stream) {
        let i = choose|i: int|
            0 <= i < h.len() && (#[trigger] h[i] matches Action::Open { stream: s, .. } && s
                == stream);
        assert(h2[i] == h[i]);
    }
    if a matches Action::Open { stream: s, .. } && s == stream {
        assert(h2[h.len() as int] == a);
    }
    if has_opened(h2, stream) {
        let i = choose|i: int|
            0 <= i < h2.len() && (#[trigger] h2[i] matches Action::Open { stream: s, .. } && s
                == stream);
        if i < h.len() {
            assert(h[i] == h2[i]);
        }
    }
}

/// A stream that never had a scope has none open.
pub proof fn lemma_unopened_has_no_scopes<E>(h: Seq<Action<E>>, stream: StreamId)
    requires
        !has_opened(h, stream),
    ensures
        open_scopes(h, stream).len() == 0,
    decreases h.len(),
{
    if h.len() > 0 {
        let prev = h.drop_last();
        assert(h =~= prev.push(h.last()));
        lemma_has_opened_step(prev, h.last(), stream);
        lemma_unopened_has_no_scopes(prev, stream);
        lemma_position_absent(open_scopes(prev, stream), 0);
    }
}

/// The scopes that were open after the first `p` actions of a valid history can be
/// looked up in the storage of the whole history.
pub proof fn lemma_scopes_stay_readable<E>(h: Seq<Action<E>>, p: int, stream: StreamId)
    requires
        valid(h),
        0 <= p <= h.len(),
    ensures
        scopes_sound(open_scopes(h.take(p), stream), h, stream),
{
    lemma_valid_prefix(h, p);
    lemma_open_scopes_sound(h.take(p), stream);
    let scopes = open_scopes(h.take(p), stream);
    assert forall|k: int| 0 <= k < scopes.len() implies {
        &&& (#[trigger] scopes[k]).slot >= CTX_COUNT_START
        &&& scopes[k].index < column(h, stream, scopes[k].slot).len()
        &&& column(h, stream, scopes[k].slot)[scopes[k].index as int] == scopes[k].value
    } by {
        lemma_column_grows(h, p, stream, scopes[k].slot);
    }
}

/// What the validity of a history says of its last action and of what came before it.
pub proof fn lemma_valid_push<E>(h: Seq<Action<E>>, a: Action<E>)
    ensures
        valid(h.push(a)) == (valid(h) && match a {
            Action::Open { stream, slot, .. } => is_lowest_free(
                open_slots(h, stream),
                CTX_COUNT_START as nat,
                slot,
            ),
            Action::Close { stream, slot } => open_slots(h, stream).contains(slot),
            Action::Record { .. } => true,
        }),
        frames(h.push(a)) == match a {
            Action::Record { stream, value } => frames(h).push(
                FrameView { stream, value, context: context_of(h) },
            ),
            _ => frames(h),
        },
{
    lemma_push_parts(h, a);
}

/// The contexts of `stream` that are open after `h`, oldest first.
pub open spec fn open_values<E>(h: Seq<Action<E>>, stream: StreamId) -> Seq<E> {
    open_scopes(h, stream).map_values(|o: OpenScope<E>| o.value)
}

/// Taking the scope that was opened last out of the open ones leaves them as they
/// were before it was opened.
proof fn lemma_without_last<E>(rest: Seq<OpenScope<E>>, o: OpenScope<E>)
    requires
        forall|k: int| 0 <= k < rest.len() ==> (#[trigger] rest[k]).slot != o.slot,
    ensures
        without_slot(rest.push(o), o.slot) == rest,
{
    let all = rest.push(o);
    assert forall|k: int| 0 <= k < rest.len() implies (#[trigger] all[k]).slot != o.slot by {
        assert(all[k] == rest[k]);
    }
    lemma_position_found(all, o.slot, rest.len() as int);
    assert(all.remove(rest.len() as int) =~= rest);
}

/// The scope that a valid history opens last is in a slot that no other open scope of
/// its stream has.
proof fn lemma_fresh_slot<E>(h: Seq<Action<E>>, stream: StreamId, slot: nat, value: E)
    requires
        valid(h.push(Action::Open { stream, slot, value })),
    ensures
        forall|k: int|
            0 <= k < open_scopes(h, stream).len() ==> (#[trigger] open_scopes(h, stream)[k]).slot
                != slot,
        open_scopes(h.push(Action::Open { stream, slot, value }), stream) == open_scopes(
            h,
            stream,
        ).push(OpenScope { slot, index: column(h, stream, slot).len(), value }),
        open_values(h.push(Action::Open { stream, slot, value }), stream) == open_values(
            h,
            stream,
        ).push(value),
{
    let a = Action::Open { stream, slot, value };
    lemma_push_parts(h, a);
    let rest = open_scopes(h, stream);
    assert forall|k: int| 0 <= k < rest.len() implies (#[trigger] rest[k]).slot != slot by {
        if rest[k].slot == slot {
            assert(open_slots(h, stream).contains(slot));
        }
    }
    assert(open_values(h.push(a), stream) =~= open_values(h, stream).push(value));
}

/// A value written inside two nested scopes has both scopes' contexts in its frame,
/// and closing the scopes afterwards changes no frame.
pub proof fn lemma_nested_scopes_in_frame<E>(
    h: Seq<Action<E>>,
    outer: StreamId,
    outer_slot: nat,
    outer_ctx: E,
    inner: StreamId,
    inner_slot: nat,
    inner_ctx: E,
    stream: StreamId,
    value: E,
)
    requires
        valid(
            h.push(Action::Open { stream: outer, slot: outer_slot, value: outer_ctx }).push(
                Action::Open { stream: inner, slot: inner_slot, value: inner_ctx },
            ).push(Action::Record { stream, value }).push(
                Action::Close { stream: inner, slot: inner_slot },
            ).push(Action::Close { stream: outer, slot: outer_slot }),
        ),
    ensures
        ({
            let written = h.push(
                Action::Open { stream: outer, slot: outer_slot, value: outer_ctx },
            ).push(Action::Open { stream: inner, slot: inner_slot, value: inner_ctx }).push(
                Action::Record { stream, value },
            );
            let closed = written.push(Action::Close { stream: inner, slot: inner_slot }).push(
                Action::Close { stream: outer, slot: outer_slot },
            );
            let frame = frames(written).last();
            &&& frames(written).len() == frames(h).len() + 1
            &&& frames(closed) == frames(written)
            &&& frame.stream == stream
            &&& frame.value == value
            &&& frame.context.contains_key(outer)
            &&& frame.context[outer].contains(outer_ctx)
            &&& frame.context.contains_key(inner)
            &&& frame.context[inner].contains(inner_ctx)
        }),
{
    let a1 = Action::Open { stream: outer, slot: outer_slot, value: outer_ctx };
    let a2 = Action::Open { stream: inner, slot: inner_slot, value: inner_ctx };
    let a3 = Action::Record { stream, value };
    let a4 = Action::<E>::Close { stream: inner, slot: inner_slot };
    let a5 = Action::<E>::Close { stream: outer, slot: outer_slot };
    let h1 = h.push(a1);
    let h2 = h1.push(a2);
    let h3 = h2.push(a3);
    let h4 = h3.push(a4);
    let h5 = h4.push(a5);
    lemma_push_parts(h, a1);
    lemma_push_parts(h1, a2);
    lemma_push_parts(h2, a3);
    lemma_push_parts(h3, a4);
    lemma_push_parts(h4, a5);
    lemma_valid_push(h4, a5);
    lemma_valid_push(h3, a4);
    lemma_valid_push(h2, a3);
    lemma_valid_push(h1, a2);
    lemma_valid_push(h, a1);
    assert(frames(h5) == frames(h3));
    lemma_has_opened_step(h, a1, outer);
    lemma_has_opened_step(h1, a2, outer);
    lemma_has_opened_step(h1, a2, inner);
    lemma_fresh_slot(h, outer, outer_slot, outer_ctx);
    lemma_fresh_slot(h1, inner, inner_slot, inner_ctx);
    let frame = frames(h3).last();
    assert(frame.context == context_of(h2));
    let inner_values = open_values(h2, inner);
    assert(inner_values.last() == inner_ctx);
    assert(inner_values[inner_values.len() - 1] == inner_ctx);
    let outer_values = open_values(h2, outer);
    if outer == inner {
        assert(outer_values[outer_values.len() - 2] == outer_ctx);
    } else {
        assert(open_scopes(h2, outer) == open_scopes(h1, outer));
        assert(outer_values[outer_values.len() - 1] == outer_ctx);
    }
}

/// Two scopes of one stream that are open at the same time are in different slots, and
/// a value written while both are open has both contexts in its frame, the first
/// opened first.
pub proof fn lemma_two_open_scopes<E>(
    h: Seq<Action<E>>,
    scoped: StreamId,
    first_slot: nat,
    first_ctx: E,
    second_slot: nat,
    second_ctx: E,
    stream: StreamId,
    value: E,
)
    requires
        valid(
            h.push(Action::Open { stream: scoped, slot: first_slot, value: first_ctx }).push(
                Action::Open { stream: scoped, slot: second_slot, value: second_ctx },
            ).push(Action::Record { stream, value }),
        ),
    ensures
        first_slot != second_slot,
        ({
            let written = h.push(
                Action::Open { stream: scoped, slot: first_slot, value: first_ctx },
            ).push(Action::Open { stream: scoped, slot: second_slot, value: second_ctx }).push(
                Action::Record { stream, value },
            );
            let frame = frames(written).last();
            &&& frames(written).len() == frames(h).len() + 1
            &&& frame.stream == stream
            &&& frame.value == value
            &&& frame.context.contains_key(scoped)
            &&& frame.context[scoped] == open_values(h, scoped).push(first_ctx).push(second_ctx)
        }),
{
    let a1 = Action::Open { stream: scoped, slot: first_slot, value: first_ctx };
    let a2 = Action::Open { stream: scoped, slot: second_slot, value: second_ctx };
    let a3 = Action::Record { stream, value };
    let h1 = h.push(a1);
    let h2 = h1.push(a2);
    let h3 = h2.push(a3);
    lemma_push_parts(h, a1);
    lemma_push_parts(h1, a2);
    lemma_push_parts(h2, a3);
    lemma_valid_push(h2, a3);
    lemma_valid_push(h1, a2);
    lemma_valid_push(h, a1);
    lemma_has_opened_step(h1, a2, scoped);
    lemma_fresh_slot(h, scoped, first_slot, first_ctx);
    lemma_fresh_slot(h1, scoped, second_slot, second_ctx);
    let opened = open_scopes(h1, scoped);
    assert(opened[opened.len() - 1].slot == first_slot);
}

/// A slot that is used again does not mix up what was recorded: when a scope is
/// opened, written in and closed, and then another scope of the same stream is opened,
/// written in and closed, the second scope takes the first one's slot, and still each
/// value's frame holds, after the contexts that were open before, the context of its
/// own scope and nothing of the other's.
pub proof fn lemma_recycled_slot<E>(
    h: Seq<Action<E>>,
    scoped: StreamId,
    first_slot: nat,
    first_ctx: E,
    first_stream: StreamId,
    first_value: E,
    second_slot: nat,
    second_ctx: E,
    second_stream: StreamId,
    second_value: E,
)
    requires
        valid(
            h.push(Action::Open { stream: scoped, slot: first_slot, value: first_ctx }).push(
                Action::Record { stream: first_stream, value: first_value },
            ).push(Action::Close { stream: scoped, slot: first_slot }).push(
                Action::Open { stream: scoped, slot: second_slot, value: second_ctx },
            ).push(Action::Record { stream: second_stream, value: second_value }).push(
                Action::Close { stream: scoped, slot: second_slot },
            ),
        ),
    ensures
        second_slot == first_slot,
        ({
            let all = h.push(
                Action::Open { stream: scoped, slot: first_slot, value: first_ctx },
            ).push(Action::Record { stream: first_stream, value: first_value }).push(
                Action::Close { stream: scoped, slot: first_slot },
            ).push(Action::Open { stream: scoped, slot: second_slot, value: second_ctx }).push(
                Action::Record { stream: second_stream, value: second_value },
            ).push(Action::Close { stream: scoped, slot: second_slot });
            let first = frames(all)[frames(h).len() as int];
            let second = frames(all)[frames(h).len() as int + 1];
            &&& frames(all).len() == frames(h).len() + 2
            &&& first.value == first_value
            &&& first.context.contains_key(scoped)
            &&& first.context[scoped] == open_values(h, scoped).push(first_ctx)
            &&& second.value == second_value
            &&& second.context.contains_key(scoped)
            &&& second.context[scoped] == open_values(h, scoped).push(second_ctx)
        }),
{
    let a1 = Action::Open { stream: scoped, slot: first_slot, value: first_ctx };
    let a2 = Action::Record { stream: first_stream, value: first_value };
    let a3 = Action::<E>::Close { stream: scoped, slot: first_slot };
    let a4 = Action::Open { stream: scoped, slot: second_slot, value: second_ctx };
    let a5 = Action::Record { stream: second_stream, value: second_value };
    let a6 = Action::<E>::Close { stream: scoped, slot: second_slot };
    let h1 = h.push(a1);
    let h2 = h1.push(a2);
    let h3 = h2.push(a3);
    let h4 = h3.push(a4);
    let h5 = h4.push(a5);
    let h6 = h5.push(a6);
    lemma_push_parts(h, a1);
    lemma_push_parts(h1, a2);
    lemma_push_parts(h2, a3);
    lemma_push_parts(h3, a4);
    lemma_push_parts(h4, a5);
    lemma_push_parts(h5, a6);
    lemma_valid_push(h5, a6);
    lemma_valid_push(h4, a5);
    lemma_valid_push(h3, a4);
    lemma_valid_push(h2, a3);
    lemma_valid_push(h1, a2);
    lemma_valid_push(h, a1);
    lemma_has_opened_step(h, a1, scoped);
    lemma_has_opened_step(h1, a2, scoped);
    lemma_has_opened_step(h2, a3, scoped);
    lemma_has_opened_step(h3, a4, scoped);
    lemma_fresh_slot(h, scoped, first_slot, first_ctx);
    let rest = open_scopes(h, scoped);
    let o1 = OpenScope { slot: first_slot, index: column(h, scoped, first_slot).len(), value: first_ctx };
    lemma_without_last(rest, o1);
    assert(open_scopes(h2, scoped) == rest.push(o1));
    assert(open_scopes(h3, scoped) == rest);
    assert(open_slots(h3, scoped) =~= open_slots(h, scoped));
    crate::slots::lemma_lowest_free_is_unique(
        open_slots(h, scoped),
        CTX_COUNT_START as nat,
        first_slot,
        second_slot,
    );
    lemma_fresh_slot(h3, scoped, second_slot, second_ctx);
    assert(open_values(h3, scoped) == open_values(h, scoped));
    assert(frames(h2) == frames(h).push(
        FrameView { stream: first_stream, value: first_value, context: context_of(h1) },
    ));
    assert(frames(h5) == frames(h2).push(
        FrameView { stream: second_stream, value: second_value, context: context_of(h4) },
    ));
    assert(frames(h6) == frames(h5));
}

/// Values written while no scope is open have frames without contexts: `writes`
/// values written after `h` add one frame each, in the order of writing, and no stream
/// has a context in any of them.
pub proof fn lemma_writes_outside_scopes<E>(h: Seq<Action<E>>, writes: Seq<Action<E>>)
    requires
        forall|s: StreamId| open_scopes(h, s).len() == 0,
        forall|i: int| 0 <= i < writes.len() ==> #[trigger] writes[i] is Record,
    ensures
        frames(h + writes).len() == frames(h).len() + writes.len(),
        forall|i: int|
            0 <= i < frames(h).len() ==> (#[trigger] frames(h + writes)[i]) == frames(h)[i],
        forall|i: int|
            0 <= i < writes.len() ==> {
                let frame = #[trigger] frames(h + writes)[frames(h).len() + i];
                &&& writes[i] == (Action::Record { stream: frame.stream, value: frame.value })
                &&& forall|s: StreamId|
                    frame.context.contains_key(s) ==> (#[trigger] frame.context[s]).len() == 0
            },
        h.len() == 0 ==> forall|i: int|
            0 <= i < writes.len() ==> (#[trigger] frames(h + writes)[i]).context == Map::<
                StreamId,
                Seq<E>,
            >::empty(),
        forall|s: StreamId| open_scopes(h + writes, s) == open_scopes(h, s),
    decreases writes.len(),
{
    if writes.len() == 0 {
        assert(h + writes =~= h);
    } else {
        let before = writes.drop_last();
        let all = h + writes;
        let prev = h + before;
        assert(all.drop_last() =~= prev);
        assert(all.last() == writes.last());
        lemma_writes_outside_scopes(h, before);
        assert(writes[writes.len() - 1] is Record);
        let last = frames(all)[frames(h).len() + writes.len() - 1];
        assert(last.context == context_of(prev));
        assert forall|s: StreamId| last.context.contains_key(s) implies (
        #[trigger] last.context[s]).len() == 0 by {
            assert(open_scopes(prev, s) == open_scopes(h, s));
        }
        assert forall|s: StreamId| open_scopes(all, s) == open_scopes(h, s) by {
            assert(open_scopes(prev, s) == open_scopes(h, s));
        }
        if h.len() == 0 {
            assert forall|s: StreamId| !has_opened(prev, s) by {
                if has_opened(prev, s) {
                    let i = choose|i: int|
                        0 <= i < prev.len() && (#[trigger] prev[i] matches Action::Open {
                            stream: s2,
                            ..
                        } && s2 == s);
                    assert(prev[i] == before[i]);
                    assert(before[i] == writes[i]);
                }
            }
            assert(last.context =~= Map::<StreamId, Seq<E>>::empty());
        }
        assert forall|i: int| 0 <= i < writes.len() implies {
            let frame = #[trigger] frames(all)[frames(h).len() + i];
            &&& writes[i] == (Action::Record { stream: frame.stream, value: frame.value })
            &&& forall|s: StreamId|
                frame.context.contains_key(s) ==> (#[trigger] frame.context[s]).len() == 0
        } by {
            if i < before.len() {
                assert(frames(all)[frames(h).len() + i] == frames(prev)[frames(h).len() + i]);
                assert(before[i] == writes[i]);
            }
        }
    }
}

/// `a` opens a scope of `stream` in `slot`.
pub open spec fn opens<E>(a: Action<E>, stream: StreamId, slot: nat) -> bool {
    a matches Action::Open { stream: s, slot: d, .. } && s == stream && d == slot
}

/// `a` closes the scope of `stream` in `slot`.
pub open spec fn closes<E>(a: Action<E>, stream: StreamId, slot: nat) -> bool {
    a matches Action::Close { stream: s, slot: d } && s == stream && d == slot
}

/// Somewhere in `h` a scope of `stream` is opened in `slot`, and nothing after that
/// closes it.
pub open spec fn opened_and_not_closed<E>(h: Seq<Action<E>>, stream: StreamId, slot: nat) -> bool {
    exists|i: int|
        0 <= i < h.len() && #[trigger] opens(h[i], stream, slot) && forall|j: int|
            i < j < h.len() ==> !#[trigger] closes(h[j], stream, slot)
}

/// A slot is taken after a valid history exactly when a scope was opened in it and
/// has not been closed since.
pub proof fn lemma_open_means_not_closed<E>(h: Seq<Action<E>>, stream: StreamId, slot: nat)
    requires
        valid(h),
    ensures
        open_slots(h, stream).contains(slot) == opened_and_not_closed(h, stream, slot),
    decreases h.len(),
{
    if h.len() == 0 {
    } else {
        let prev = h.drop_last();
        let a = h.last();
        let n = prev.len() as int;
        assert(h =~= prev.push(a));
        lemma_open_slots_step(prev, a, stream);
        lemma_open_means_not_closed(prev, stream, slot);
        if opens(a, stream, slot) {
            assert(opens(h[n], stream, slot));
        } else if closes(a, stream, slot) {
            if opened_and_not_closed(h, stream, slot) {
                let i = choose|i: int|
                    0 <= i < h.len() && #[trigger] opens(h[i], stream, slot) && forall|j: int|
                        i < j < h.len() ==> !#[trigger] closes(h[j], stream, slot);
                assert(closes(h[n], stream, slot));
            }
        } else {
            if opened_and_not_closed(prev, stream, slot) {
                let i = choose|i: int|
                    0 <= i < prev.len() && #[trigger] opens(prev[i], stream, slot) && forall|j: int|
                        i < j < prev.len() ==> !#[trigger] closes(prev[j], stream, slot);
                assert(opens(h[i], stream, slot));
                assert forall|j: int| i < j < h.len() implies !#[trigger] closes(
                    h[j],
                    stream,
                    slot,
                ) by {
                    if j < n {
                        assert(h[j] == prev[j]);
                    }
                }
            }
            if opened_and_not_closed(h, stream, slot) {
                let i = choose|i: int|
                    0 <= i < h.len() && #[trigger] opens(h[i], stream, slot) && forall|j: int|
                        i < j < h.len() ==> !#[trigger] closes(h[j], stream, slot);
                assert(i < n);
                assert(opens(prev[i], stream, slot));
                assert forall|j: int| i < j < prev.len() implies !#[trigger] closes(
                    prev[j],
                    stream,
                    slot,
                ) by {
                    assert(h[j] == prev[j]);
                }
            }
        }
    }
}

} // verus!
