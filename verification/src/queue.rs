//! A capacity-bounded queue of scored candidates, kept sorted ascending by
//! `(dist, id)`, that retains only the best (lowest-ranked) entries.

use vstd::prelude::*;

verus! {

/// One candidate: an identifier and a distance key. A lower key means a
/// better candidate. The key is an unsigned integer; callers whose scores are
/// not integers supply any order-preserving encoding of them.
#[derive(Clone, Copy, Debug, PartialEq, Eq, Structural)]
pub struct Neighbor {
    pub id: u32,
    pub dist: u32,
}

/// The strict total order on entries: by distance key first, then by
/// identifier as the tie-break.
pub open spec fn entry_lt(a: Neighbor, b: Neighbor) -> bool {
    a.dist < b.dist || (a.dist == b.dist && a.id < b.id)
}

/// The reflexive closure of `entry_lt`.
pub open spec fn entry_le(a: Neighbor, b: Neighbor) -> bool {
    entry_lt(a, b) || a == b
}

/// A sequence is sorted ascending by `(dist, id)`.
pub open spec fn sorted(s: Seq<Neighbor>) -> bool {
    forall|i: int, j: int| 0 <= i < j < s.len() ==> entry_le(s[i], s[j])
}

/// `p` is the lower-bound insertion point for `n` in `s`: every entry before
/// `p` is strictly below `n`, and no entry from `p` on is.
pub open spec fn is_insert_pos(s: Seq<Neighbor>, n: Neighbor, p: int) -> bool {
    &&& 0 <= p <= s.len()
    &&& forall|i: int| 0 <= i < p ==> entry_lt(s[i], n)
    &&& forall|i: int| p <= i < s.len() ==> !entry_lt(s[i], n)
}

/// The lower-bound insertion point for `n` in a sorted sequence `s`: the
/// number of leading entries strictly below `n`.
pub open spec fn insert_pos(s: Seq<Neighbor>, n: Neighbor) -> int
    decreases s.len(),
{
    if s.len() == 0 {
        0
    } else if entry_lt(s[0], n) {
        1 + insert_pos(s.drop_first(), n)
    } else {
        0
    }
}

/// `s` with `n` inserted at its lower-bound position; for sorted `s` the
/// result is the sorted sequence holding `s`'s entries and `n`.
pub open spec fn sorted_insert(s: Seq<Neighbor>, n: Neighbor) -> Seq<Neighbor> {
    s.insert(insert_pos(s, n), n)
}

/// What one insertion does to a queue holding `s` with capacity `cap`:
/// an entry whose insertion point lies at or beyond the capacity is rejected;
/// otherwise it is inserted at that point, after evicting the worst (last)
/// entry when the queue is already full.
pub open spec fn insert_spec(s: Seq<Neighbor>, cap: int, n: Neighbor) -> Seq<Neighbor> {
    let p = insert_pos(s, n);
    if p >= cap {
        s
    } else if s.len() == cap {
        s.drop_last().insert(p, n)
    } else {
        s.insert(p, n)
    }
}

/// For a sorted sequence, `insert_pos` is a lower-bound insertion point.
pub proof fn lemma_insert_pos_is(s: Seq<Neighbor>, n: Neighbor)
    requires
        sorted(s),
    ensures
        is_insert_pos(s, n, insert_pos(s, n)),
    decreases s.len(),
{
    if s.len() == 0 {
    } else {
        let t = s.drop_first();
        assert forall|i: int, j: int| 0 <= i < j < t.len() implies entry_le(t[i], t[j]) by {
            assert(t[i] == s[i + 1]);
            assert(t[j] == s[j + 1]);
        }
        lemma_insert_pos_is(t, n);
        if entry_lt(s[0], n) {
            let p = 1 + insert_pos(t, n);
            assert forall|i: int| 0 <= i < p implies entry_lt(s[i], n) by {
                if i > 0 {
                    assert(s[i] == t[i - 1]);
                }
            }
            assert forall|i: int| p <= i < s.len() implies !entry_lt(s[i], n) by {
                assert(s[i] == t[i - 1]);
            }
        } else {
            assert forall|i: int| 0 <= i < s.len() implies !entry_lt(s[i], n) by {
                if i > 0 {
                    assert(entry_le(s[0], s[i]));
                }
            }
        }
    }
}

/// In a sorted sequence the lower-bound insertion point is unique.
pub proof fn lemma_insert_pos_unique(s: Seq<Neighbor>, n: Neighbor, p: int)
    requires
        sorted(s),
        is_insert_pos(s, n, p),
    ensures
        p == insert_pos(s, n),
{
    lemma_insert_pos_is(s, n);
    let q = insert_pos(s, n);
    if p < q {
        assert(entry_lt(s[p], n));
        assert(!entry_lt(s[p], n));
    }
    if q < p {
        assert(entry_lt(s[q], n));
        assert(!entry_lt(s[q], n));
    }
}

/// Inserting an entry at a lower-bound insertion point keeps the sequence
/// sorted.
pub proof fn lemma_insert_at_pos_sorted(s: Seq<Neighbor>, n: Neighbor, p: int)
    requires
        sorted(s),
        is_insert_pos(s, n, p),
    ensures
        sorted(s.insert(p, n)),
{
    s.insert_ensures(p, n);
    let r = s.insert(p, n);
    assert forall|i: int, j: int| 0 <= i < j < r.len() implies entry_le(r[i], r[j]) by {
        if i < p {
            assert(r[i] == s[i]);
        }
        if i > p {
            assert(r[(i - 1) + 1] == s[i - 1]);
        }
        if j < p {
            assert(r[j] == s[j]);
        }
        if j > p {
            assert(r[(j - 1) + 1] == s[j - 1]);
        }
    }
}

/// Dropping the last entry of a sorted sequence keeps it sorted, and a
/// lower-bound insertion point below the last index stays one.
proof fn lemma_drop_last_keeps_order(s: Seq<Neighbor>, n: Neighbor, p: int)
    requires
        sorted(s),
        is_insert_pos(s, n, p),
        s.len() >= 1,
        p < s.len(),
    ensures
        sorted(s.drop_last()),
        is_insert_pos(s.drop_last(), n, p),
{
    let t = s.drop_last();
    assert forall|i: int| 0 <= i < t.len() implies t[i] == s[i] by {}
}

/// Length bound: an insertion never grows the queue beyond its capacity.
pub proof fn lemma_insert_length_bound(s: Seq<Neighbor>, cap: int, n: Neighbor)
    requires
        sorted(s),
        s.len() <= cap,
    ensures
        insert_spec(s, cap, n).len() <= cap,
{
    lemma_insert_pos_is(s, n);
    let p = insert_pos(s, n);
    if p < cap {
        if s.len() == cap {
            s.drop_last().insert_ensures(p, n);
        } else {
            s.insert_ensures(p, n);
        }
    }
}

/// Sorted invariant: an insertion keeps the queue sorted ascending by
/// `(dist, id)`.
pub proof fn lemma_insert_keeps_sorted(s: Seq<Neighbor>, cap: int, n: Neighbor)
    requires
        sorted(s),
        s.len() <= cap,
    ensures
        sorted(insert_spec(s, cap, n)),
{
    lemma_insert_pos_is(s, n);
    let p = insert_pos(s, n);
    if p < cap {
        if s.len() == cap {
            lemma_drop_last_keeps_order(s, n, p);
            lemma_insert_at_pos_sorted(s.drop_last(), n, p);
        } else {
            lemma_insert_at_pos_sorted(s, n, p);
        }
    }
}

/// Saturating admission: when the queue is full and the new entry ranks
/// strictly after every held entry, the insertion is a no-op.
pub proof fn lemma_saturating_admission(s: Seq<Neighbor>, cap: int, n: Neighbor)
    requires
        sorted(s),
        s.len() == cap,
        forall|i: int| 0 <= i < s.len() ==> entry_lt(s[i], n),
    ensures
        insert_spec(s, cap, n) == s,
{
    lemma_insert_pos_unique(s, n, s.len() as int);
}

/// Eviction correctness: when the queue is full and the new entry ranks
/// strictly before the current worst entry, the new entry is admitted at its
/// sorted position, the length stays at capacity, and the previous worst
/// entry — when it was unique — is no longer present.
pub proof fn lemma_eviction(s: Seq<Neighbor>, cap: int, n: Neighbor)
    requires
        sorted(s),
        s.len() == cap,
        cap >= 1,
        entry_lt(n, s.last()),
    ensures
        ({
            let r = insert_spec(s, cap, n);
            &&& r.len() == cap
            &&& sorted(r)
            &&& r.contains(n)
            &&& (!s.drop_last().contains(s.last()) ==> !r.contains(s.last()))
        }),
{
    lemma_insert_pos_is(s, n);
    let p = insert_pos(s, n);
    assert(p < cap) by {
        if p == s.len() {
            assert(entry_lt(s[s.len() - 1], n));
        }
    }
    let t = s.drop_last();
    lemma_drop_last_keeps_order(s, n, p);
    lemma_insert_at_pos_sorted(t, n, p);
    t.insert_ensures(p, n);
    let r = t.insert(p, n);
    assert(r[p] == n);
    assert(r.contains(n));
    if !t.contains(s.last()) {
        assert forall|i: int| 0 <= i < r.len() implies r[i] != s.last() by {
            if i < p {
                assert(r[i] == t[i]);
                assert(!(t[i] == s.last()));
            } else if i > p {
                assert(r[(i - 1) + 1] == t[i - 1]);
                assert(!(t[i - 1] == s.last()));
            }
        }
    }
}

/// One insertion, uniformly: insert at the lower-bound position, then keep
/// only the first `cap` entries.
proof fn lemma_insert_spec_as_take(s: Seq<Neighbor>, cap: int, n: Neighbor)
    requires
        sorted(s),
        s.len() <= cap,
        1 <= cap,
    ensures
        insert_spec(s, cap, n) == sorted_insert(s, n).take(
            if s.len() + 1 <= cap {
                s.len() as int + 1
            } else {
                cap
            },
        ),
{
    lemma_insert_pos_is(s, n);
    let p = insert_pos(s, n);
    s.insert_ensures(p, n);
    let w = sorted_insert(s, n);
    if p >= cap {
        assert(p == cap && s.len() == cap);
        assert(w.take(cap) =~= s);
    } else if s.len() == cap {
        let t = s.drop_last();
        t.insert_ensures(p, n);
        assert forall|i: int| 0 <= i < cap implies t.insert(p, n)[i] == w.take(cap)[i] by {
            if i < p {
                assert(t.insert(p, n)[i] == t[i]);
                assert(t[i] == s[i]);
                assert(w[i] == s[i]);
            } else if i > p {
                assert(t.insert(p, n)[(i - 1) + 1] == t[i - 1]);
                assert(t[i - 1] == s[i - 1]);
                assert(w[(i - 1) + 1] == s[i - 1]);
            }
        }
        assert(t.insert(p, n) =~= w.take(cap));
    } else {
        assert(w.take(s.len() as int + 1) =~= w);
    }
}

/// Two sorted insertions commute when the first entry ranks at or before the
/// second.
proof fn lemma_sorted_insert_commute_le(s: Seq<Neighbor>, a: Neighbor, b: Neighbor)
    requires
        sorted(s),
        entry_le(a, b),
    ensures
        sorted_insert(sorted_insert(s, a), b) == sorted_insert(sorted_insert(s, b), a),
{
    lemma_insert_pos_is(s, a);
    lemma_insert_pos_is(s, b);
    let p = insert_pos(s, a);
    let q = insert_pos(s, b);
    s.insert_ensures(p, a);
    s.insert_ensures(q, b);
    let t = s.insert(p, a);
    let u = s.insert(q, b);
    assert(p <= q) by {
        if q < p {
            assert(entry_lt(s[q], a));
            assert(!entry_lt(s[q], b));
        }
    }
    if a == b {
        assert(p == q);
        assert(is_insert_pos(t, b, p)) by {
            assert forall|i: int| p <= i < t.len() implies !entry_lt(t[i], b) by {
                if i > p {
                    assert(t[(i - 1) + 1] == s[i - 1]);
                }
            }
        }
        lemma_insert_pos_unique(s, a, p);
        lemma_insert_at_pos_sorted(s, a, p);
        lemma_insert_pos_unique(t, b, p);
    } else {
        assert(entry_lt(a, b));
        lemma_insert_at_pos_sorted(s, a, p);
        lemma_insert_at_pos_sorted(s, b, q);
        assert(is_insert_pos(t, b, q + 1)) by {
            assert forall|i: int| 0 <= i < q + 1 implies entry_lt(t[i], b) by {
                if i < p {
                    assert(t[i] == s[i]);
                } else if i > p {
                    assert(t[(i - 1) + 1] == s[i - 1]);
                }
            }
            assert forall|i: int| q + 1 <= i < t.len() implies !entry_lt(t[i], b) by {
                assert(t[(i - 1) + 1] == s[i - 1]);
            }
        }
        lemma_insert_pos_unique(t, b, q + 1);
        assert(is_insert_pos(u, a, p)) by {
            assert forall|i: int| 0 <= i < p implies entry_lt(u[i], a) by {
                assert(u[i] == s[i]);
            }
            assert forall|i: int| p <= i < u.len() implies !entry_lt(u[i], a) by {
                if i < q {
                    assert(u[i] == s[i]);
                } else if i > q {
                    assert(u[(i - 1) + 1] == s[i - 1]);
                }
            }
        }
        lemma_insert_pos_unique(u, a, p);
        t.insert_ensures(q + 1, b);
        u.insert_ensures(p, a);
        let lhs = t.insert(q + 1, b);
        let rhs = u.insert(p, a);
        assert forall|i: int| 0 <= i < s.len() + 2 implies lhs[i] == rhs[i] by {
            if i < p {
                assert(lhs[i] == t[i]);
                assert(t[i] == s[i]);
                assert(rhs[i] == u[i]);
                assert(u[i] == s[i]);
            } else if i == p {
                assert(lhs[i] == t[i]);
                assert(t[p] == a);
                assert(rhs[p] == a);
            } else if i <= q {
                assert(lhs[i] == t[i]);
                assert(t[(i - 1) + 1] == s[i - 1]);
                assert(rhs[(i - 1) + 1] == u[i - 1]);
                assert(u[i - 1] == s[i - 1]);
            } else if i == q + 1 {
                assert(lhs[q + 1] == b);
                assert(rhs[(i - 1) + 1] == u[i - 1]);
                assert(u[q] == b);
            } else {
                assert(lhs[(i - 1) + 1] == t[i - 1]);
                assert(t[((i - 2)) + 1] == s[i - 2]);
                assert(rhs[(i - 1) + 1] == u[i - 1]);
                assert(u[((i - 2)) + 1] == s[i - 2]);
            }
        }
        assert(lhs =~= rhs);
    }
}

/// Two sorted insertions into a sorted sequence commute.
proof fn lemma_sorted_insert_commute(s: Seq<Neighbor>, a: Neighbor, b: Neighbor)
    requires
        sorted(s),
    ensures
        sorted_insert(sorted_insert(s, a), b) == sorted_insert(sorted_insert(s, b), a),
{
    if entry_le(a, b) {
        lemma_sorted_insert_commute_le(s, a, b);
    } else {
        lemma_sorted_insert_commute_le(s, b, a);
    }
}

/// Truncating to the capacity before or after a sorted insertion gives the
/// same first `cap` entries.
proof fn lemma_sorted_insert_truncate(t: Seq<Neighbor>, cap: int, b: Neighbor)
    requires
        sorted(t),
        1 <= cap <= t.len(),
    ensures
        sorted_insert(t.take(cap), b).take(cap) == sorted_insert(t, b).take(cap),
{
    lemma_insert_pos_is(t, b);
    let q = insert_pos(t, b);
    t.insert_ensures(q, b);
    let tk = t.take(cap);
    assert forall|i: int, j: int| 0 <= i < j < tk.len() implies entry_le(tk[i], tk[j]) by {
        assert(tk[i] == t[i]);
        assert(tk[j] == t[j]);
    }
    if q >= cap {
        assert(is_insert_pos(tk, b, cap)) by {
            assert forall|i: int| 0 <= i < cap implies entry_lt(tk[i], b) by {
                assert(tk[i] == t[i]);
            }
        }
        lemma_insert_pos_unique(tk, b, cap);
        tk.insert_ensures(cap, b);
        assert(sorted_insert(tk, b).take(cap) =~= sorted_insert(t, b).take(cap)) by {
            assert forall|i: int| 0 <= i < cap implies tk.insert(cap, b)[i] == t.insert(q, b)[i] by {
                assert(tk.insert(cap, b)[i] == tk[i]);
                assert(tk[i] == t[i]);
                assert(t.insert(q, b)[i] == t[i]);
            }
        }
    } else {
        assert(is_insert_pos(tk, b, q)) by {
            assert forall|i: int| 0 <= i < q implies entry_lt(tk[i], b) by {
                assert(tk[i] == t[i]);
            }
            assert forall|i: int| q <= i < tk.len() implies !entry_lt(tk[i], b) by {
                assert(tk[i] == t[i]);
            }
        }
        lemma_insert_pos_unique(tk, b, q);
        tk.insert_ensures(q, b);
        assert(sorted_insert(tk, b).take(cap) =~= sorted_insert(t, b).take(cap)) by {
            assert forall|i: int| 0 <= i < cap implies tk.insert(q, b)[i] == t.insert(q, b)[i] by {
                if i < q {
                    assert(tk.insert(q, b)[i] == tk[i]);
                    assert(tk[i] == t[i]);
                    assert(t.insert(q, b)[i] == t[i]);
                } else if i > q {
                    assert(tk.insert(q, b)[(i - 1) + 1] == tk[i - 1]);
                    assert(tk[i - 1] == t[i - 1]);
                    assert(t.insert(q, b)[(i - 1) + 1] == t[i - 1]);
                }
            }
        }
    }
}

/// Two insertions, uniformly: insert both at their lower-bound positions,
/// then keep only the first `cap` entries.
proof fn lemma_two_inserts_as_take(s: Seq<Neighbor>, cap: int, a: Neighbor, b: Neighbor)
    requires
        sorted(s),
        s.len() <= cap,
        1 <= cap,
    ensures
        insert_spec(insert_spec(s, cap, a), cap, b) == sorted_insert(sorted_insert(s, a), b).take(
            if s.len() + 2 <= cap {
                s.len() as int + 2
            } else {
                cap
            },
        ),
{
    lemma_insert_spec_as_take(s, cap, a);
    lemma_insert_pos_is(s, a);
    let p = insert_pos(s, a);
    s.insert_ensures(p, a);
    lemma_insert_at_pos_sorted(s, a, p);
    let w = sorted_insert(s, a);
    let ia = insert_spec(s, cap, a);
    if s.len() + 1 <= cap {
        assert(w.take(s.len() as int + 1) =~= w);
        assert(ia == w);
        lemma_insert_spec_as_take(ia, cap, b);
    } else {
        assert(ia == w.take(cap));
        assert(ia.len() == cap);
        assert forall|i: int, j: int| 0 <= i < j < ia.len() implies entry_le(ia[i], ia[j]) by {
            assert(ia[i] == w[i]);
            assert(ia[j] == w[j]);
        }
        lemma_insert_spec_as_take(ia, cap, b);
        lemma_sorted_insert_truncate(w, cap, b);
    }
}

/// What a whole sequence of insertions does to a queue holding `s` with
/// capacity `cap`: each entry of `ns` is inserted in turn.
pub open spec fn insert_all(s: Seq<Neighbor>, cap: int, ns: Seq<Neighbor>) -> Seq<Neighbor>
    decreases ns.len(),
{
    if ns.len() == 0 {
        s
    } else {
        insert_all(insert_spec(s, cap, ns[0]), cap, ns.drop_first())
    }
}

/// Length bound and sorted invariant over whole insertion sequences: starting
/// from any well-formed contents, after every insertion the queue still holds
/// at most `cap` entries, sorted ascending by `(dist, id)`.
pub proof fn lemma_insert_all_keeps_invariants(s: Seq<Neighbor>, cap: int, ns: Seq<Neighbor>)
    requires
        sorted(s),
        s.len() <= cap,
    ensures
        insert_all(s, cap, ns).len() <= cap,
        sorted(insert_all(s, cap, ns)),
    decreases ns.len(),
{
    if ns.len() > 0 {
        lemma_insert_length_bound(s, cap, ns[0]);
        lemma_insert_keeps_sorted(s, cap, ns[0]);
        lemma_insert_all_keeps_invariants(insert_spec(s, cap, ns[0]), cap, ns.drop_first());
    }
}

/// Clear resets state: a cleared queue and a freshly constructed queue of the
/// same capacity hold the same (empty) snapshot, so any subsequent insertion
/// sequence leaves both with identical snapshots.
pub proof fn lemma_clear_resets_state(cleared: Queue, fresh: Queue, ns: Seq<Neighbor>)
    requires
        cleared@.len() == 0,
        fresh@.len() == 0,
        cleared.cap() == fresh.cap(),
    ensures
        insert_all(cleared@, cleared.cap(), ns) == insert_all(fresh@, fresh.cap(), ns),
{
    assert(cleared@ =~= fresh@);
}

/// Order irrelevance: the snapshot after two insertions does not depend on
/// the order in which they are made. In particular, entries with equal
/// distance keys and different identifiers land in the same positions — those
/// the ascending-identifier tie-break fixes — whichever is inserted first.
pub proof fn lemma_insert_order_irrelevant(s: Seq<Neighbor>, cap: int, a: Neighbor, b: Neighbor)
    requires
        sorted(s),
        s.len() <= cap,
        1 <= cap,
    ensures
        insert_spec(insert_spec(s, cap, a), cap, b) == insert_spec(insert_spec(s, cap, b), cap, a),
{
    lemma_two_inserts_as_take(s, cap, a, b);
    lemma_two_inserts_as_take(s, cap, b, a);
    lemma_sorted_insert_commute(s, a, b);
}

/// Duplicate tie-break: among entries with equal distance keys, a sorted
/// snapshot is ordered by ascending identifier.
pub proof fn lemma_tie_group_ascending_ids(s: Seq<Neighbor>)
    requires
        sorted(s),
    ensures
        forall|i: int, j: int|
            0 <= i < j < s.len() && s[i].dist == s[j].dist ==> s[i].id <= s[j].id,
{
    assert forall|i: int, j: int|
        0 <= i < j < s.len() && s[i].dist == s[j].dist implies s[i].id <= s[j].id by {
        assert(entry_le(s[i], s[j]));
    }
}

/// Whether `a` ranks strictly before `b` in the `(dist, id)` order.
fn ranks_before(a: &Neighbor, b: &Neighbor) -> (r: bool)
    ensures
        r == entry_lt(*a, *b),
{
    a.dist < b.dist || (a.dist == b.dist && a.id < b.id)
}

/// Binary search for the lower-bound insertion point of `n` in the sorted
/// vector `v`.
fn lower_bound(v: &Vec<Neighbor>, n: &Neighbor) -> (pos: usize)
    requires
        sorted(v@),
    ensures
        pos as int == insert_pos(v@, *n),
        is_insert_pos(v@, *n, pos as int),
{
    let mut lo: usize = 0;
    let mut hi: usize = v.len();
    while lo < hi
        invariant
            lo <= hi <= v@.len(),
            sorted(v@),
            forall|i: int| 0 <= i < lo ==> entry_lt(v@[i], *n),
            forall|i: int| hi <= i < v@.len() ==> !entry_lt(v@[i], *n),
        decreases hi - lo,
    {
        let mid = lo + (hi - lo) / 2;
        if ranks_before(&v[mid], n) {
            lo = mid + 1;
            assert forall|i: int| 0 <= i < lo implies entry_lt(v@[i], *n) by {
                if i < mid {
                    assert(entry_le(v@[i], v@[mid as int]));
                }
            }
        } else {
            hi = mid;
            assert forall|i: int| hi <= i < v@.len() implies !entry_lt(v@[i], *n) by {
                if i > mid {
                    assert(entry_le(v@[mid as int], v@[i]));
                }
            }
        }
    }
    proof {
        lemma_insert_pos_unique(v@, *n, lo as int);
    }
    lo
}

/// A queue holding at most `capacity` entries, sorted ascending by
/// `(dist, id)`; the best candidate is first, the worst retained one is last.
pub struct Queue {
    neighbors: Vec<Neighbor>,
    capacity: usize,
}

impl View for Queue {
    type V = Seq<Neighbor>;

    closed spec fn view(&self) -> Seq<Neighbor> {
        self.neighbors@
    }
}

impl Queue {
    /// The fixed capacity, set at construction and never changed.
    pub closed spec fn cap(&self) -> int {
        self.capacity as int
    }

    /// Well-formedness: positive capacity, length within capacity, and the
    /// contents sorted ascending by `(dist, id)`.
    pub open spec fn wf(&self) -> bool {
        1 <= self.cap() && self@.len() <= self.cap() && sorted(self@)
    }

    /// An empty queue that will retain at most `capacity` entries; the backing
    /// storage is reserved up front so that insertions never reallocate.
    pub fn with_capacity(capacity: usize) -> (q: Self)
        requires
            capacity >= 1,
        ensures
            q.wf(),
            q@ == Seq::<Neighbor>::empty(),
            q.cap() == capacity as int,
    {
        let neighbors = Vec::with_capacity(capacity);
        Self { neighbors, capacity }
    }

    /// A read-only snapshot of the current contents, best candidate first.
    pub fn as_slice(&self) -> (s: &[Neighbor])
        ensures
            s@ == self@,
    {
        self.neighbors.as_slice()
    }

    /// Admits `neighbor` exactly when it belongs among the `capacity` best
    /// entries known so far: it is inserted at its sorted position, evicting
    /// the current worst entry if the queue is full, and is rejected as a
    /// no-op when its position lies at or beyond the capacity.
    pub fn insert(&mut self, neighbor: Neighbor)
        requires
            old(self).wf(),
        ensures
            final(self).wf(),
            final(self).cap() == old(self).cap(),
            final(self)@ == insert_spec(old(self)@, old(self).cap(), neighbor),
    {
        let pos = lower_bound(&self.neighbors, &neighbor);
        if pos < self.capacity {
            if self.neighbors.len() == self.capacity {
                let _ = self.neighbors.pop();
                proof {
                    assert(self.neighbors@ =~= old(self)@.drop_last());
                }
            }
            proof {
                assert(sorted(self.neighbors@));
                assert(is_insert_pos(self.neighbors@, neighbor, pos as int));
                lemma_insert_at_pos_sorted(self.neighbors@, neighbor, pos as int);
            }
            self.neighbors.insert(pos, neighbor);
        }
    }

    /// Empties the queue; the capacity is unchanged.
    pub fn clear(&mut self)
        requires
            old(self).wf(),
        ensures
            final(self).wf(),
            final(self).cap() == old(self).cap(),
            final(self)@ == Seq::<Neighbor>::empty(),
    {
        self.neighbors.clear();
    }
}

} // verus!
