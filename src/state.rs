use vstd::prelude::*;
use vstd::set_lib::{lemma_int_range, lemma_len_subset, lemma_map_size, lemma_map_size_bound, set_int_range};

verus! {

/// The similarity kernels an index may be created with. The kernels
/// themselves are supplied by the caller at query time.
#[derive(Clone, Copy, Debug, PartialEq, Eq)]
pub enum DistanceFunction {
    Euclidean,
    InnerProduct,
    Cosine,
}

/// The abstract contents of an index: per slot its label, its vector (as
/// binary32 bit patterns) and whether it is deleted; the deleted slots in the
/// order of deletion; the capacity in slots, the fixed dimensionality and
/// the graph parameters, and the distance function it was created with.
pub struct IndexState {
    pub labels: Seq<usize>,
    pub vectors: Seq<Seq<u32>>,
    pub deleted: Seq<bool>,
    pub free: Seq<usize>,
    pub capacity: nat,
    pub dim: nat,
    pub ef_search: nat,
    pub m: nat,
    pub ef_construction: nat,
    pub distance: DistanceFunction,
}

impl IndexState {
    /// Number of allocated slots, live or deleted.
    pub open spec fn slots(self) -> nat {
        self.labels.len()
    }

    pub open spec fn is_live(self, s: int) -> bool {
        0 <= s < self.slots() && !self.deleted[s]
    }

    /// Labels of the first `n` slots whose deletion flag is `del`, in slot
    /// order.
    pub open spec fn labels_where(self, n: int, del: bool) -> Seq<usize>
        decreases n,
    {
        if n <= 0 {
            Seq::empty()
        } else {
            let prefix = self.labels_where(n - 1, del);
            if self.deleted[n - 1] == del {
                prefix.push(self.labels[n - 1])
            } else {
                prefix
            }
        }
    }

    /// Number of live labels.
    pub open spec fn len(self) -> nat {
        (self.slots() - self.free.len()) as nat
    }

    /// `label` is stored in a live slot.
    pub open spec fn holds(self, label: usize) -> bool {
        exists|s: int| self.is_live(s) && self.labels[s] == label
    }

    /// The live slot that holds `label`.
    pub open spec fn slot_of(self, label: usize) -> int {
        choose|s: int| self.is_live(s) && self.labels[s] == label
    }

    /// The stored vector of each live label.
    pub open spec fn entries(self) -> Map<usize, Seq<u32>> {
        Map::new(|l: usize| self.holds(l), |l: usize| self.vectors[self.slot_of(l)])
    }

    pub open spec fn wf(self) -> bool {
        &&& self.vectors.len() == self.slots()
        &&& self.deleted.len() == self.slots()
        &&& self.slots() <= self.capacity
        &&& self.dim > 0
        &&& self.fits()
        &&& forall|s: int| 0 <= s < self.slots() ==> #[trigger] self.vectors[s].len() == self.dim
        &&& self.free.no_duplicates()
        &&& self.free.len() <= self.slots()
        &&& forall|i: int|
            0 <= i < self.free.len() ==> #[trigger] self.free[i] < self.slots()
                && self.deleted[self.free[i] as int]
        &&& forall|s: int|
            0 <= s < self.slots() && #[trigger] self.deleted[s] ==> self.free.contains(
                s as usize,
            )
        &&& forall|s: int, t: int|
            0 <= s < self.slots() && 0 <= t < self.slots() && s != t ==> #[trigger] self.labels[s]
                != #[trigger] self.labels[t]
    }

    /// Some slot, live or deleted, carries `label`.
    pub open spec fn has_slot(self, label: usize) -> bool {
        exists|s: int| 0 <= s < self.slots() && self.labels[s] == label
    }

    /// The slot, live or deleted, that carries `label`.
    pub open spec fn any_slot_of(self, label: usize) -> int {
        choose|s: int| 0 <= s < self.slots() && self.labels[s] == label
    }

    /// The numeric parameters fit in a machine word and the dimensionality
    /// in an `i32`.
    pub open spec fn fits(self) -> bool {
        &&& self.capacity <= usize::MAX
        &&& self.dim <= i32::MAX
        &&& self.ef_search <= usize::MAX
        &&& self.m <= usize::MAX
        &&& self.ef_construction <= usize::MAX
    }

    /// `add` fails for want of room: every slot is taken and none is deleted.
    pub open spec fn is_full(self) -> bool {
        self.slots() >= self.capacity && self.free.len() == 0
    }

    /// The state after storing `v` under `label`: in the deleted slot that
    /// still carries the label, if any; else in a new slot while there is
    /// room; else in the oldest deleted slot.
    pub open spec fn added(self, label: usize, v: Seq<u32>) -> IndexState {
        if self.has_slot(label) {
            let s = self.any_slot_of(label);
            IndexState {
                vectors: self.vectors.update(s, v),
                deleted: self.deleted.update(s, false),
                free: self.free.remove(self.free.index_of(s as usize)),
                ..self
            }
        } else if self.slots() < self.capacity {
            IndexState {
                labels: self.labels.push(label),
                vectors: self.vectors.push(v),
                deleted: self.deleted.push(false),
                ..self
            }
        } else {
            let s = self.free[0] as int;
            IndexState {
                labels: self.labels.update(s, label),
                vectors: self.vectors.update(s, v),
                deleted: self.deleted.update(s, false),
                free: self.free.drop_first(),
                ..self
            }
        }
    }

    /// The state after deleting the live `label`.
    pub open spec fn removed(self, label: usize) -> IndexState {
        let s = self.slot_of(label);
        IndexState { deleted: self.deleted.update(s, true), free: self.free.push(s as usize), ..self }
    }

    /// The state after asking for `capacity` slots.
    pub open spec fn resized(self, capacity: nat) -> IndexState {
        IndexState {
            capacity: if capacity > self.capacity { capacity } else { self.capacity },
            ..self
        }
    }

    /// Slot `s` may appear in the result of a query with these filters.
    pub open spec fn eligible(self, s: int, allowed: Seq<usize>, disallowed: Seq<usize>) -> bool {
        &&& self.is_live(s)
        &&& (allowed.len() == 0 || allowed.contains(self.labels[s]))
        &&& !disallowed.contains(self.labels[s])
    }

    /// Slot `a` ranks before slot `b` under distances `ds`: smaller distance,
    /// then smaller label.
    pub open spec fn ranks_before(self, ds: Seq<u32>, a: int, b: int) -> bool {
        ds[a] < ds[b] || (ds[a] == ds[b] && self.labels[a] < self.labels[b])
    }

    /// `res` is the list of the `k` eligible slots that rank first under
    /// `ds`, in rank order, or all eligible slots where there are fewer.
    pub open spec fn is_top_k(
        self,
        ds: Seq<u32>,
        k: nat,
        allowed: Seq<usize>,
        disallowed: Seq<usize>,
        res: Seq<usize>,
    ) -> bool {
        &&& res.len() <= k
        &&& forall|i: int| 0 <= i < res.len() ==> self.eligible(#[trigger] res[i] as int, allowed, disallowed)
        &&& forall|i: int, j: int|
            0 <= i < j < res.len() ==> self.ranks_before(ds, #[trigger] res[i] as int, #[trigger] res[j] as int)
        &&& forall|s: int|
            #![trigger self.eligible(s, allowed, disallowed)]
            self.eligible(s, allowed, disallowed) && !res.contains(s as usize) ==> res.len() == k
                && (k > 0 ==> self.ranks_before(ds, res.last() as int, s))
    }
}

/// A duplicate-free list of slots below `n` that misses slot `s < n` is
/// shorter than `n`.
pub proof fn lemma_free_below(free: Seq<usize>, n: nat, s: usize)
    requires
        free.no_duplicates(),
        s < n,
        forall|i: int| 0 <= i < free.len() ==> #[trigger] free[i] < n && free[i] != s,
    ensures
        free.len() < n,
{
    free.unique_seq_to_set();
    let r = set_int_range(0, n as int);
    lemma_int_range(0, n as int);
    let f = |i: int| i as usize;
    let y = r.map(f);
    lemma_map_size_bound(r, y, f);
    assert forall|x: usize| free.to_set().contains(x) implies y.remove(s).contains(x) by {
        let i = choose|i: int| 0 <= i < free.len() && free[i] == x;
        assert(r.contains(x as int) && f(x as int) == x);
    }
    assert(r.contains(s as int) && f(s as int) == s);
    lemma_len_subset(free.to_set(), y.remove(s));
}

/// What `labels_where` lists: each label of a matching slot, once.
pub proof fn lemma_labels_where(st: IndexState, n: int, del: bool)
    requires
        st.wf(),
        0 <= n <= st.slots(),
    ensures
        forall|x: usize|
            #[trigger] st.labels_where(n, del).contains(x) <==> exists|t: int|
                0 <= t < n && st.deleted[t] == del && st.labels[t] == x,
        st.labels_where(n, del).no_duplicates(),
        st.labels_where(n, false).len() + st.labels_where(n, true).len() == n,
    decreases n,
{
    if n > 0 {
        lemma_labels_where(st, n - 1, del);
        lemma_labels_where(st, n - 1, !del);
        let p = st.labels_where(n - 1, del);
        let q = st.labels_where(n, del);
        assert forall|x: usize| #[trigger] q.contains(x) <==> exists|t: int|
            0 <= t < n && st.deleted[t] == del && st.labels[t] == x by {
            if q.contains(x) {
                let i = choose|i: int| 0 <= i < q.len() && q[i] == x;
                if i < p.len() {
                    assert(p.contains(x));
                } else {
                    assert(st.deleted[n - 1] == del && st.labels[n - 1] == x);
                }
            }
            if exists|t: int| 0 <= t < n && st.deleted[t] == del && st.labels[t] == x {
                let t = choose|t: int| 0 <= t < n && st.deleted[t] == del && st.labels[t] == x;
                if t < n - 1 {
                    assert(p.contains(x));
                    let i = choose|i: int| 0 <= i < p.len() && p[i] == x;
                    assert(q[i] == x);
                } else {
                    assert(q[q.len() - 1] == x);
                }
            }
        }
        if st.deleted[n - 1] == del {
            assert(!p.contains(st.labels[n - 1])) by {
                if p.contains(st.labels[n - 1]) {
                    let t = choose|t: int| 0 <= t < n - 1 && st.deleted[t] == del && st.labels[t] == st.labels[n - 1];
                    assert(st.labels[t] != st.labels[n - 1]);
                }
            }
        }
    }
}

/// The deleted slots among the first `n`.
pub open spec fn deleted_below(st: IndexState, n: int) -> Set<int> {
    Set::new(|t: int| 0 <= t < n && st.deleted[t])
}

/// The deleted labels are as many as the deleted slots below `n`.
proof fn lemma_deleted_count(st: IndexState, n: int)
    requires
        st.wf(),
        0 <= n <= st.slots(),
    ensures
        deleted_below(st, n).finite(),
        st.labels_where(n, true).len() == deleted_below(st, n).len(),
    decreases n,
{
    if n == 0 {
        assert(deleted_below(st, 0) =~= Set::<int>::empty());
    } else {
        lemma_deleted_count(st, n - 1);
        let p = deleted_below(st, n - 1);
        if st.deleted[n - 1] {
            assert(deleted_below(st, n) =~= p.insert(n - 1));
            assert(!p.contains(n - 1));
        } else {
            assert(deleted_below(st, n) =~= p);
        }
    }
}

/// As many labels are listed deleted as the deleted-slot list holds, so
/// the live labels number `len()`.
pub proof fn lemma_listed_counts(st: IndexState)
    requires
        st.wf(),
    ensures
        st.labels_where(st.slots() as int, true).len() == st.free.len(),
        st.labels_where(st.slots() as int, false).len() == st.len(),
{
    let n = st.slots() as int;
    lemma_deleted_count(st, n);
    lemma_labels_where(st, n, true);
    st.free.unique_seq_to_set();
    vstd::seq_lib::seq_to_set_is_finite(st.free);
    let f = |x: usize| x as int;
    let x = st.free.to_set();
    assert(x.map(f) =~= deleted_below(st, n)) by {
        assert forall|t: int| #[trigger] deleted_below(st, n).contains(t) implies x.map(f).contains(t) by {
            assert(st.free.contains(t as usize));
            assert(x.contains(t as usize) && f(t as usize) == t);
        }
        assert forall|t: int| #[trigger] x.map(f).contains(t) implies deleted_below(st, n).contains(t) by {
            let u = choose|u: usize| x.contains(u) && f(u) == t;
            let i = choose|i: int| 0 <= i < st.free.len() && st.free[i] == u;
            assert(st.free[i] < st.slots() && st.deleted[st.free[i] as int]);
        }
    }
    lemma_map_size(x, deleted_below(st, n), f);
}

} // verus!
