//! A binary min-heap of distinct numbers in a `Vec`.

use vstd::prelude::*;

verus! {

/// Index of the parent of position `i` in an array-backed binary heap.
pub open spec fn parent(i: int) -> int {
    (i - 1) / 2
}

/// Every element is at least as large as its parent, so the smallest sits at position 0.
pub open spec fn is_min_heap(s: Seq<usize>) -> bool {
    forall|i: int| 0 < i < s.len() ==> s[parent(i)] <= #[trigger] s[i]
}

/// The heap order holds everywhere except, possibly, between `hole` and its parent.
spec fn heap_except_up(s: Seq<usize>, hole: int) -> bool {
    &&& forall|i: int| 0 < i < s.len() && i != hole ==> s[parent(i)] <= #[trigger] s[i]
    &&& forall|i: int|
        0 < i < s.len() && parent(i) == hole && hole > 0 ==> s[parent(hole)] <= #[trigger] s[i]
}

/// The heap order holds everywhere except, possibly, between `hole` and its children.
spec fn heap_except_down(s: Seq<usize>, hole: int) -> bool {
    &&& forall|i: int| 0 < i < s.len() && parent(i) != hole ==> s[parent(i)] <= #[trigger] s[i]
    &&& forall|i: int|
        0 < i < s.len() && parent(i) == hole && hole > 0 ==> s[parent(hole)] <= #[trigger] s[i]
}

/// `s` with the elements at `i` and `j` exchanged.
spec fn swapped(s: Seq<usize>, i: int, j: int) -> Seq<usize> {
    s.update(i, s[j]).update(j, s[i])
}

proof fn lemma_swapped_same_members(s: Seq<usize>, i: int, j: int)
    requires
        0 <= i < s.len(),
        0 <= j < s.len(),
        s.no_duplicates(),
    ensures
        swapped(s, i, j).no_duplicates(),
        swapped(s, i, j).to_set() == s.to_set(),
{
    let t = swapped(s, i, j);
    assert forall|x: usize| t.to_set().contains(x) == s.to_set().contains(x) by {
        if s.contains(x) {
            let k = choose|k: int| 0 <= k < s.len() && s[k] == x;
            let k2 = if k == i {
                j
            } else if k == j {
                i
            } else {
                k
            };
            assert(t[k2] == x);
        }
        if t.contains(x) {
            let k = choose|k: int| 0 <= k < t.len() && t[k] == x;
            let k2 = if k == i {
                j
            } else if k == j {
                i
            } else {
                k
            };
            assert(s[k2] == x);
        }
    }
    assert(t.to_set() =~= s.to_set());
}

/// In a min-heap nothing is smaller than the element at position 0.
pub proof fn lemma_root_is_least(s: Seq<usize>, i: int)
    requires
        is_min_heap(s),
        0 <= i < s.len(),
    ensures
        s[0] <= s[i],
    decreases i,
{
    if i > 0 {
        lemma_root_is_least(s, parent(i));
    }
}

/// Adds `x` to the heap in logarithmic time.
pub fn heap_push(heap: &mut Vec<usize>, x: usize)
    requires
        is_min_heap(old(heap)@),
        old(heap)@.no_duplicates(),
        !old(heap)@.contains(x),
    ensures
        is_min_heap(final(heap)@),
        final(heap)@.no_duplicates(),
        final(heap)@.to_set() == old(heap)@.to_set().insert(x),
        final(heap)@.len() == old(heap)@.len() + 1,
{
    heap.push(x);
    let mut i: usize = heap.len() - 1;
    proof {
        let s0 = old(heap)@;
        let s1 = heap@;
        assert(s1.drop_last() =~= s0);
        assert forall|a: int, b: int| 0 <= a < s1.len() && 0 <= b < s1.len() && a != b implies s1[a]
            != s1[b] by {
            if a == s0.len() {
                assert(s0[b] == s1[b]);
            } else if b == s0.len() {
                assert(s0[a] == s1[a]);
            } else {
                assert(s0[a] == s1[a] && s0[b] == s1[b]);
            }
        }
        assert forall|y: usize| s1.to_set().contains(y) == s0.to_set().insert(x).contains(y) by {
            if s0.contains(y) {
                let k = choose|k: int| 0 <= k < s0.len() && s0[k] == y;
                assert(s1[k] == y);
            }
            if y == x {
                assert(s1[s0.len() as int] == x);
            }
        }
        assert(s1.to_set() =~= s0.to_set().insert(x));
        assert forall|k: int| 0 < k < s1.len() && k != i implies s1[parent(k)] <= #[trigger] s1[k] by {
            assert(s0[parent(k)] <= s0[k]);
        }
    }
    while i > 0 && heap[(i - 1) / 2] > heap[i]
        invariant
            0 <= i < heap@.len(),
            heap@.len() == old(heap)@.len() + 1,
            heap@.no_duplicates(),
            heap@.to_set() == old(heap)@.to_set().insert(x),
            heap_except_up(heap@, i as int),
        decreases i,
    {
        let p: usize = (i - 1) / 2;
        let ghost before = heap@;
        let a: usize = heap[p];
        let b: usize = heap[i];
        heap[p] = b;
        heap[i] = a;
        proof {
            assert(heap@ == swapped(before, p as int, i as int));
            lemma_swapped_same_members(before, p as int, i as int);
            let s = heap@;
            assert forall|k: int| 0 < k < s.len() && k != p implies s[parent(k)] <= #[trigger] s[k] by {
                if k == i {
                } else if parent(k) == i {
                    assert(before[parent(i as int)] <= before[k]);
                } else if parent(k) == p {
                    assert(before[parent(k)] <= before[k]);
                } else {
                    assert(before[parent(k)] <= before[k]);
                }
            }
            assert forall|k: int|
                0 < k < s.len() && parent(k) == p && p > 0 implies s[parent(p as int)] <= #[trigger] s[k] by {
                assert(before[parent(p as int)] <= before[p as int]);
                if k == i {
                } else {
                    assert(before[parent(k)] <= before[k]);
                }
            }
        }
        i = p;
    }
    proof {
        let s = heap@;
        assert forall|k: int| 0 < k < s.len() implies s[parent(k)] <= #[trigger] s[k] by {
            if k == i {
            }
        }
    }
}

/// A position whose children are no smaller than it completes the heap order.
proof fn lemma_settled(s: Seq<usize>, i: int)
    requires
        heap_except_down(s, i),
        0 <= i,
        forall|k: int| 0 < k < s.len() && parent(k) == i ==> s[i] <= #[trigger] s[k],
    ensures
        is_min_heap(s),
{
    assert forall|k: int| 0 < k < s.len() implies s[parent(k)] <= #[trigger] s[k] by {
        if parent(k) == i {
        } else {
        }
    }
}

/// Exchanging a position with its smaller child moves the one possible disorder a level down.
proof fn lemma_sift_down_step(before: Seq<usize>, i: int, c: int)
    requires
        heap_except_down(before, i),
        0 <= i,
        0 < c < before.len(),
        parent(c) == i,
        before[c] < before[i],
        forall|k: int| 0 < k < before.len() && parent(k) == i ==> before[c] <= #[trigger] before[k],
    ensures
        heap_except_down(swapped(before, i, c), c),
{
    let s = swapped(before, i, c);
    assert forall|k: int| 0 < k < s.len() && parent(k) != c implies s[parent(k)] <= #[trigger] s[k] by {
        if parent(k) == i {
            assert(before[c] <= before[k]);
        } else if k == i {
            assert(before[parent(i)] <= before[c]);
        } else {
            assert(before[parent(k)] <= before[k]);
        }
    }
    assert forall|k: int| 0 < k < s.len() && parent(k) == c && c > 0 implies s[parent(c)] <= #[trigger] s[k] by {
        assert(before[parent(k)] <= before[k]);
    }
}

/// Moving the last element to the front and dropping the old front leaves a heap
/// that is out of order at the front only, and that holds what was held but the old front.
proof fn lemma_replace_root(s0: Seq<usize>, s2: Seq<usize>)
    requires
        is_min_heap(s0),
        s0.no_duplicates(),
        s0.len() > 0,
        s2.len() + 1 == s0.len(),
        forall|k: int| 0 < k < s2.len() ==> s2[k] == s0[k],
        s2.len() > 0 ==> s2[0] == s0[s0.len() - 1],
    ensures
        heap_except_down(s2, 0),
        s2.no_duplicates(),
        s2.to_set() == s0.to_set().remove(s0[0]),
        forall|y: usize| s0.contains(y) ==> s0[0] <= y,
{
    let least = s0[0];
    let n = s0.len() as int;
    assert forall|y: usize| s0.contains(y) implies least <= y by {
        let k = choose|k: int| 0 <= k < s0.len() && s0[k] == y;
        lemma_root_is_least(s0, k);
    }
    assert forall|k: int| 0 < k < s2.len() && parent(k) != 0 implies s2[parent(k)] <= #[trigger] s2[k] by {
        assert(s0[parent(k)] <= s0[k]);
    }
    assert forall|a: int, b: int| 0 <= a < s2.len() && 0 <= b < s2.len() && a != b implies s2[a] != s2[b] by {
        let a0 = if a == 0 { n - 1 } else { a };
        let b0 = if b == 0 { n - 1 } else { b };
        assert(s2[a] == s0[a0] && s2[b] == s0[b0]);
    }
    assert forall|y: usize| s2.to_set().contains(y) == s0.to_set().remove(least).contains(y) by {
        if s2.contains(y) {
            let k = choose|k: int| 0 <= k < s2.len() && s2[k] == y;
            let k0 = if k == 0 { n - 1 } else { k };
            assert(s0[k0] == y);
        }
        if s0.contains(y) && y != least {
            let k = choose|k: int| 0 <= k < s0.len() && s0[k] == y;
            let k2 = if k == n - 1 { 0 } else { k };
            assert(s2[k2] == y);
        }
    }
    assert(s2.to_set() =~= s0.to_set().remove(least));
}

/// Removes and returns the smallest element of the heap in logarithmic time.
pub fn heap_pop_min(heap: &mut Vec<usize>) -> (least: Option<usize>)
    requires
        is_min_heap(old(heap)@),
        old(heap)@.no_duplicates(),
    ensures
        match least {
            None => old(heap)@.len() == 0 && final(heap)@ == old(heap)@,
            Some(m) => {
                &&& old(heap)@.contains(m)
                &&& forall|y: usize| old(heap)@.contains(y) ==> m <= y
                &&& is_min_heap(final(heap)@)
                &&& final(heap)@.no_duplicates()
                &&& final(heap)@.to_set() == old(heap)@.to_set().remove(m)
                &&& final(heap)@.len() + 1 == old(heap)@.len()
            },
        },
{
    let n: usize = heap.len();
    if n == 0 {
        return None;
    }
    let least: usize = heap[0];
    let last: usize = heap[n - 1];
    heap[0] = last;
    let gone = heap.pop();
    proof {
        lemma_replace_root(old(heap)@, heap@);
        assert(old(heap)@[0] == least);
    }
    let len: usize = n - 1;
    let mut i: usize = 0;
    let mut settled: bool = false;
    while !settled && i < len / 2
        invariant
            len == heap@.len(),
            0 <= i,
            heap@.no_duplicates(),
            heap@.to_set() == old(heap)@.to_set().remove(least),
            !settled ==> heap_except_down(heap@, i as int),
            settled ==> is_min_heap(heap@),
        decreases (if settled { 0int } else { 1int }), len - i,
    {
        let l: usize = 2 * i + 1;
        let r: usize = l + 1;
        let c: usize = if r < len && heap[r] < heap[l] {
            r
        } else {
            l
        };
        let ghost before = heap@;
        assert(parent(l as int) == i && parent(r as int) == i);
        assert forall|k: int| 0 < k < before.len() && parent(k) == i implies before[c as int] <= #[trigger] before[k] by {
            assert(k == l || k == r);
        }
        if heap[i] <= heap[c] {
            proof {
                lemma_settled(before, i as int);
            }
            settled = true;
        } else {
            let a: usize = heap[i];
            let b: usize = heap[c];
            heap[i] = b;
            heap[c] = a;
            proof {
                assert(heap@ == swapped(before, i as int, c as int));
                lemma_swapped_same_members(before, i as int, c as int);
                lemma_sift_down_step(before, i as int, c as int);
            }
            i = c;
        }
    }
    proof {
        if !settled {
            let s = heap@;
            assert forall|k: int| 0 < k < s.len() && parent(k) == i implies s[i as int] <= #[trigger] s[k] by {
                assert(k >= 2 * i + 1);
            }
            lemma_settled(s, i as int);
        }
    }
    Some(least)
}

} // verus!
