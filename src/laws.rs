use crate::codec::{encode_state, lemma_encoding_injective};
use crate::index::{answers, encodes, kernel_gave};
use crate::state::IndexState;
use vstd::prelude::*;

verus! {

/// Storing `v` under a label that is not held yet makes that label map to
/// `v` and leaves every other label's vector as it was: a `get` of the label
/// afterwards returns `v`.
pub proof fn law_add_then_get(st: IndexState, label: usize, v: Seq<u32>)
    requires
        st.wf(),
        !st.holds(label),
        st.has_slot(label) || !st.is_full(),
        v.len() == st.dim,
    ensures
        st.added(label, v).entries() == st.entries().insert(label, v),
        st.added(label, v).entries()[label] == v,
{
    let nw = st.added(label, v);
    let s0: int = if st.has_slot(label) {
        st.any_slot_of(label)
    } else if st.slots() < st.capacity {
        st.slots() as int
    } else {
        st.free[0] as int
    };
    if !st.has_slot(label) && st.slots() >= st.capacity {
        assert(st.free.len() > 0);
        assert(st.free[0] < st.slots());
    }
    assert(nw.is_live(s0) && nw.labels[s0] == label && nw.vectors[s0] == v);
    assert forall|s: int| nw.is_live(s) && s != s0 implies st.is_live(s) && nw.labels[s] == st.labels[s]
        && nw.vectors[s] == st.vectors[s] by {}
    assert forall|l: usize| #[trigger] nw.holds(l) <==> st.holds(l) || l == label by {
        if st.holds(l) {
            let s = st.slot_of(l);
            if !st.has_slot(label) && st.slots() >= st.capacity {
                assert(st.deleted[s0]);
            }
            assert(nw.is_live(s) && nw.labels[s] == l);
        }
    }
    assert forall|l: usize| #[trigger] nw.holds(l) && l != label implies nw.slot_of(l) == st.slot_of(l) by {
        let a = nw.slot_of(l);
        let b = st.slot_of(l);
        assert(st.is_live(a) && st.labels[a] == l);
        assert(st.is_live(b) && st.labels[b] == l);
    }
    assert(nw.slot_of(label) == s0) by {
        let a = nw.slot_of(label);
        if a != s0 {
            assert(st.is_live(a) && st.labels[a] == label);
        }
    }
    assert(nw.entries() =~= st.entries().insert(label, v));
}

/// Deleting a held label removes exactly that label from the stored
/// entries.
pub proof fn law_delete_removes_entry(st: IndexState, label: usize)
    requires
        st.wf(),
        st.holds(label),
    ensures
        st.removed(label).entries() == st.entries().remove(label),
        !st.removed(label).holds(label),
{
    let nw = st.removed(label);
    let s0 = st.slot_of(label);
    assert forall|l: usize| #[trigger] nw.holds(l) <==> st.holds(l) && l != label by {
        if nw.holds(l) {
            let a = choose|a: int| nw.is_live(a) && nw.labels[a] == l;
            assert(st.is_live(a));
            if l == label {
                assert(a != s0);
            }
        }
        if st.holds(l) && l != label {
            let a = st.slot_of(l);
            assert(nw.is_live(a));
        }
    }
    assert forall|l: usize| #[trigger] nw.holds(l) implies nw.slot_of(l) == st.slot_of(l) by {
        let a = nw.slot_of(l);
        let b = st.slot_of(l);
        assert(st.is_live(a) && st.labels[a] == l);
    }
    assert(nw.entries() =~= st.entries().remove(label));
}

/// After a label is deleted, no query result holds it, whatever the
/// kernel, the filters and `k`.
pub proof fn law_deleted_label_never_returned<F: Fn(&[u32], &[u32]) -> u32>(
    st: IndexState,
    label: usize,
    kernel: F,
    q: &[u32],
    k: nat,
    allowed: Seq<usize>,
    disallowed: Seq<usize>,
    ids: Seq<usize>,
    dists: Seq<u32>,
)
    requires
        st.wf(),
        st.holds(label),
        answers(st.removed(label), kernel, q, k, allowed, disallowed, ids, dists),
    ensures
        !ids.contains(label),
{
    let nw = st.removed(label);
    law_delete_removes_entry(st, label);
    let (ds, res) = choose|ds: Seq<u32>, res: Seq<usize>|
        {
            &&& ds.len() == nw.slots()
            &&& forall|s: int| 0 <= s < nw.slots() ==> crate::index::kernel_gave(kernel, q, nw.vectors[s], #[trigger] ds[s])
            &&& #[trigger] nw.is_top_k(ds, k, allowed, disallowed, res)
            &&& ids == res.map_values(|s: usize| nw.labels[s as int])
            &&& dists == res.map_values(|s: usize| ds[s as int])
        };
    if ids.contains(label) {
        let i = choose|i: int| 0 <= i < ids.len() && ids[i] == label;
        assert(nw.eligible(res[i] as int, allowed, disallowed));
        assert(nw.is_live(res[i] as int) && nw.labels[res[i] as int] == label);
    }
}

/// Growing the capacity keeps every stored vector.
pub proof fn lemma_resize_entries(st: IndexState, capacity: usize)
    requires
        st.wf(),
    ensures
        st.resized(capacity as nat).entries() == st.entries(),
{
    let nw = st.resized(capacity as nat);
    assert forall|s: int| #[trigger] nw.is_live(s) == st.is_live(s) by {}
    assert forall|l: usize| #[trigger] nw.holds(l) == st.holds(l) by {
        if st.holds(l) {
            assert(nw.is_live(st.slot_of(l)));
        }
        if nw.holds(l) {
            assert(st.is_live(nw.slot_of(l)));
        }
    }
    assert(nw.entries() =~= st.entries());
}

/// Growing the capacity keeps the number of live labels, every stored
/// vector and every query answer.
pub proof fn law_resize_preserves<F: Fn(&[u32], &[u32]) -> u32>(
    st: IndexState,
    capacity: usize,
    kernel: F,
    q: &[u32],
    k: nat,
    allowed: Seq<usize>,
    disallowed: Seq<usize>,
    ids: Seq<usize>,
    dists: Seq<u32>,
)
    requires
        st.wf(),
    ensures
        st.resized(capacity as nat).wf(),
        st.resized(capacity as nat).len() == st.len(),
        st.resized(capacity as nat).entries() == st.entries(),
        answers(st.resized(capacity as nat), kernel, q, k, allowed, disallowed, ids, dists) <==> answers(
            st,
            kernel,
            q,
            k,
            allowed,
            disallowed,
            ids,
            dists,
        ),
{
    let nw = st.resized(capacity as nat);
    assert(nw.labels == st.labels && nw.vectors == st.vectors && nw.deleted == st.deleted && nw.free
        == st.free);
    assert forall|s: int| #[trigger] nw.is_live(s) == st.is_live(s) by {}
    assert forall|l: usize| #[trigger] nw.holds(l) == st.holds(l) by {
        if st.holds(l) {
            assert(nw.is_live(st.slot_of(l)));
        }
        if nw.holds(l) {
            assert(st.is_live(nw.slot_of(l)));
        }
    }
    assert(nw.entries() =~= st.entries());
    assert forall|s: int| #[trigger] nw.eligible(s, allowed, disallowed) == st.eligible(s, allowed, disallowed) by {}
    assert forall|ds: Seq<u32>, a: int, b: int| #[trigger] nw.ranks_before(ds, a, b) == st.ranks_before(ds, a, b) by {}
    assert forall|ds: Seq<u32>, res: Seq<usize>|
        #[trigger] nw.is_top_k(ds, k, allowed, disallowed, res) implies st.is_top_k(ds, k, allowed, disallowed, res) by {
        assert forall|s: int| #![trigger st.eligible(s, allowed, disallowed)]
            st.eligible(s, allowed, disallowed) && !res.contains(s as usize) implies res.len() == k
                && (k > 0 ==> st.ranks_before(ds, res.last() as int, s)) by {
            assert(nw.eligible(s, allowed, disallowed));
        }
    }
    assert forall|ds: Seq<u32>, res: Seq<usize>|
        #[trigger] st.is_top_k(ds, k, allowed, disallowed, res) implies nw.is_top_k(ds, k, allowed, disallowed, res) by {
        assert forall|s: int| #![trigger nw.eligible(s, allowed, disallowed)]
            nw.eligible(s, allowed, disallowed) && !res.contains(s as usize) implies res.len() == k
                && (k > 0 ==> nw.ranks_before(ds, res.last() as int, s)) by {
            assert(st.eligible(s, allowed, disallowed));
        }
    }
}

/// Saving and loading gives back the same index: the encoding of a
/// well-formed state is accepted at its dimensionality, and the one
/// well-formed state it describes is that state, so every `get` and every
/// query afterwards answers as before.
pub proof fn law_save_load_round_trip(st: IndexState, other: IndexState)
    requires
        st.wf(),
        encodes(encode_state(st), other, st.dim as int, st.distance),
    ensures
        encodes(encode_state(st), st, st.dim as int, st.distance),
        other == st,
{
    lemma_encoding_injective(st, other);
}

/// The state after storing each `(label, vector)` of `items` in turn.
pub open spec fn add_all(st: IndexState, items: Seq<(usize, Seq<u32>)>) -> IndexState
    decreases items.len(),
{
    if items.len() == 0 {
        st
    } else {
        add_all(st, items.drop_last()).added(items.last().0, items.last().1)
    }
}

/// Each store of `items`, made in turn from `st`, succeeds: its vector has
/// the dimensionality, its label is not held and there is room.
pub open spec fn all_accepted(st: IndexState, items: Seq<(usize, Seq<u32>)>) -> bool
    decreases items.len(),
{
    items.len() == 0 || ({
        let before = add_all(st, items.drop_last());
        &&& all_accepted(st, items.drop_last())
        &&& items.last().1.len() == before.dim
        &&& !before.holds(items.last().0)
        &&& !before.is_full()
    })
}

/// On an empty index, `n` successful stores with no deletion leave `n` live
/// labels in `n` allocated slots.
pub proof fn law_adds_count(st: IndexState, items: Seq<(usize, Seq<u32>)>)
    requires
        st.wf(),
        st.slots() == 0,
        all_accepted(st, items),
    ensures
        add_all(st, items).len() == items.len(),
        add_all(st, items).slots() == items.len(),
        add_all(st, items).free.len() == 0,
        add_all(st, items).deleted.len() == items.len(),
        forall|s: int| 0 <= s < add_all(st, items).slots() ==> !#[trigger] add_all(st, items).deleted[s],
    decreases items.len(),
{
    if items.len() > 0 {
        law_adds_count(st, items.drop_last());
        let before = add_all(st, items.drop_last());
        if before.has_slot(items.last().0) {
            let s = before.any_slot_of(items.last().0);
            assert(before.is_live(s));
        }
        let after = add_all(st, items);
        assert(after == before.added(items.last().0, items.last().1));
        assert forall|s: int| 0 <= s < after.slots() implies !#[trigger] after.deleted[s] by {
            if s < before.slots() {
                assert(!before.deleted[s]);
            }
        }
    }
}

/// For given distances the top-`k` answer is unique: with a kernel that
/// gives the same distances for the same vectors, two queries on states with
/// the same slots return the same labels in the same order.
pub proof fn law_top_k_unique(
    st: IndexState,
    ds: Seq<u32>,
    k: nat,
    allowed: Seq<usize>,
    disallowed: Seq<usize>,
    r1: Seq<usize>,
    r2: Seq<usize>,
)
    requires
        st.wf(),
        ds.len() == st.slots(),
        st.is_top_k(ds, k, allowed, disallowed, r1),
        st.is_top_k(ds, k, allowed, disallowed, r2),
    ensures
        r1 == r2,
{
    let m = if r1.len() < r2.len() { r1.len() } else { r2.len() };
    assert forall|i: int| 0 <= i < m implies r1[i] == r2[i] by {
        lemma_top_k_prefix(st, ds, k, allowed, disallowed, r1, r2, i);
    }
    if r1.len() < r2.len() {
        lemma_longer_top_k(st, ds, k, allowed, disallowed, r1, r2);
    } else if r2.len() < r1.len() {
        lemma_longer_top_k(st, ds, k, allowed, disallowed, r2, r1);
    }
    assert(r1 =~= r2);
}

proof fn lemma_top_k_prefix(
    st: IndexState,
    ds: Seq<u32>,
    k: nat,
    allowed: Seq<usize>,
    disallowed: Seq<usize>,
    r1: Seq<usize>,
    r2: Seq<usize>,
    i: int,
)
    requires
        st.wf(),
        ds.len() == st.slots(),
        st.is_top_k(ds, k, allowed, disallowed, r1),
        st.is_top_k(ds, k, allowed, disallowed, r2),
        0 <= i < r1.len(),
        i < r2.len(),
    ensures
        r1[i] == r2[i],
    decreases i,
{
    if i > 0 {
        lemma_top_k_prefix(st, ds, k, allowed, disallowed, r1, r2, i - 1);
    }
    assert forall|j: int| 0 <= j < i implies r1[j] == r2[j] by {
        if j < i {
            lemma_top_k_prefix(st, ds, k, allowed, disallowed, r1, r2, j);
        }
    }
    let a = r1[i];
    let b = r2[i];
    if a != b {
        assert(st.eligible(a as int, allowed, disallowed));
        assert(st.eligible(b as int, allowed, disallowed));
        assert(st.labels[a as int] != st.labels[b as int]);
        if st.ranks_before(ds, a as int, b as int) {
            lemma_missing_ranks_after(st, ds, k, allowed, disallowed, r1, r2, i);
        } else {
            lemma_missing_ranks_after(st, ds, k, allowed, disallowed, r2, r1, i);
        }
    }
}

/// Where two answers agree before `i`, the first one's slot at `i` does
/// not rank before the second one's.
proof fn lemma_missing_ranks_after(
    st: IndexState,
    ds: Seq<u32>,
    k: nat,
    allowed: Seq<usize>,
    disallowed: Seq<usize>,
    r1: Seq<usize>,
    r2: Seq<usize>,
    i: int,
)
    requires
        st.wf(),
        ds.len() == st.slots(),
        st.is_top_k(ds, k, allowed, disallowed, r1),
        st.is_top_k(ds, k, allowed, disallowed, r2),
        0 <= i < r1.len(),
        i < r2.len(),
        forall|j: int| 0 <= j < i ==> r1[j] == r2[j],
    ensures
        !st.ranks_before(ds, r1[i] as int, r2[i] as int),
{
    let a = r1[i];
    if st.ranks_before(ds, r1[i] as int, r2[i] as int) {
        assert(st.eligible(a as int, allowed, disallowed));
        if r2.contains(a) {
            let j = choose|j: int| 0 <= j < r2.len() && r2[j] == a;
            if j < i {
                assert(r1[j] == a);
                assert(st.ranks_before(ds, r1[j] as int, r1[i] as int));
            } else if j > i {
                assert(st.ranks_before(ds, r2[i] as int, r2[j] as int));
            }
        } else {
            assert(r2.len() == k && k > 0);
            assert(st.ranks_before(ds, r2.last() as int, a as int));
            if i < r2.len() - 1 {
                assert(st.ranks_before(ds, r2[i] as int, r2[r2.len() - 1] as int));
            }
        }
    }
}

/// Of two answers that agree on their common prefix, the first is not the
/// shorter.
proof fn lemma_longer_top_k(
    st: IndexState,
    ds: Seq<u32>,
    k: nat,
    allowed: Seq<usize>,
    disallowed: Seq<usize>,
    r1: Seq<usize>,
    r2: Seq<usize>,
)
    requires
        st.wf(),
        ds.len() == st.slots(),
        st.is_top_k(ds, k, allowed, disallowed, r1),
        st.is_top_k(ds, k, allowed, disallowed, r2),
        forall|j: int| 0 <= j < r1.len() && j < r2.len() ==> r1[j] == r2[j],
    ensures
        r1.len() >= r2.len(),
{
    if r1.len() < r2.len() {
        let b = r2[r1.len() as int];
        assert(st.eligible(b as int, allowed, disallowed));
        if r1.contains(b) {
            let j = choose|j: int| 0 <= j < r1.len() && r1[j] == b;
            assert(r2[j] == b);
            assert(st.ranks_before(ds, r2[j] as int, r2[r1.len() as int] as int));
        }
    }
}

/// `kernel` gives one distance for each pair of vector contents.
pub open spec fn deterministic<F: Fn(&[u32], &[u32]) -> u32>(kernel: F) -> bool {
    forall|q1: &[u32], b1: &[u32], q2: &[u32], b2: &[u32], d1: u32, d2: u32|
        q1@ == q2@ && b1@ == b2@ && #[trigger] kernel.ensures((q1, b1), d1) && #[trigger] kernel.ensures(
            (q2, b2),
            d2,
        ) ==> d1 == d2
}

/// `a` and `b` hold the same slots: labels, vectors and deletion flags.
pub open spec fn same_slots(a: IndexState, b: IndexState) -> bool {
    a.labels == b.labels && a.vectors == b.vectors && a.deleted == b.deleted
}

/// With a kernel that gives one distance per pair, two queries with equal
/// vectors, `k` and filters on states holding the same slots (before and
/// after a resize, or before a save and after the load) return the same
/// labels and distances in the same order.
pub proof fn law_same_slots_same_answers<F: Fn(&[u32], &[u32]) -> u32>(
    a: IndexState,
    b: IndexState,
    kernel: F,
    q1: &[u32],
    q2: &[u32],
    k: nat,
    allowed: Seq<usize>,
    disallowed: Seq<usize>,
    ids1: Seq<usize>,
    dists1: Seq<u32>,
    ids2: Seq<usize>,
    dists2: Seq<u32>,
)
    requires
        a.wf(),
        same_slots(a, b),
        deterministic(kernel),
        q1@ == q2@,
        answers(a, kernel, q1, k, allowed, disallowed, ids1, dists1),
        answers(b, kernel, q2, k, allowed, disallowed, ids2, dists2),
    ensures
        ids1 == ids2,
        dists1 == dists2,
{
    let (ds1, r1) = choose|ds: Seq<u32>, res: Seq<usize>|
        {
            &&& ds.len() == a.slots()
            &&& forall|s: int| 0 <= s < a.slots() ==> kernel_gave(kernel, q1, a.vectors[s], #[trigger] ds[s])
            &&& #[trigger] a.is_top_k(ds, k, allowed, disallowed, res)
            &&& ids1 == res.map_values(|s: usize| a.labels[s as int])
            &&& dists1 == res.map_values(|s: usize| ds[s as int])
        };
    let (ds2, r2) = choose|ds: Seq<u32>, res: Seq<usize>|
        {
            &&& ds.len() == b.slots()
            &&& forall|s: int| 0 <= s < b.slots() ==> kernel_gave(kernel, q2, b.vectors[s], #[trigger] ds[s])
            &&& #[trigger] b.is_top_k(ds, k, allowed, disallowed, res)
            &&& ids2 == res.map_values(|s: usize| b.labels[s as int])
            &&& dists2 == res.map_values(|s: usize| ds[s as int])
        };
    assert forall|s: int| 0 <= s < a.slots() implies ds1[s] == ds2[s] by {
        assert(kernel_gave(kernel, q1, a.vectors[s], ds1[s]));
        assert(kernel_gave(kernel, q2, b.vectors[s], ds2[s]));
        let x1 = choose|x: &[u32]| x@ == a.vectors[s] && #[trigger] kernel.ensures((q1, x), ds1[s]);
        let x2 = choose|x: &[u32]| x@ == b.vectors[s] && #[trigger] kernel.ensures((q2, x), ds2[s]);
    }
    assert(ds1 =~= ds2);
    assert forall|s: int| #[trigger] b.eligible(s, allowed, disallowed) == a.eligible(s, allowed, disallowed) by {}
    assert forall|ds: Seq<u32>, x: int, y: int| #[trigger] b.ranks_before(ds, x, y) == a.ranks_before(ds, x, y) by {}
    assert(a.is_top_k(ds1, k, allowed, disallowed, r2)) by {
        assert forall|s: int| #![trigger a.eligible(s, allowed, disallowed)]
            a.eligible(s, allowed, disallowed) && !r2.contains(s as usize) implies r2.len() == k
                && (k > 0 ==> a.ranks_before(ds1, r2.last() as int, s)) by {
            assert(b.eligible(s, allowed, disallowed));
        }
    }
    law_top_k_unique(a, ds1, k, allowed, disallowed, r1, r2);
    assert(ids1 =~= ids2);
    assert(dists1 =~= dists2);
}

/// `kernel` never gives less than `zero`, and gives `zero` exactly for
/// equal vectors, as a distance does.
pub open spec fn zero_on_equal<F: Fn(&[u32], &[u32]) -> u32>(kernel: F, zero: u32) -> bool {
    forall|q: &[u32], b: &[u32], d: u32|
        #[trigger] kernel.ensures((q, b), d) ==> d >= zero && (d == zero <==> q@ == b@)
}

/// Querying a stored vector for its one nearest neighbour, unfiltered,
/// returns that vector's label at distance zero, where no other live label
/// stores the same vector.
pub proof fn law_self_query<F: Fn(&[u32], &[u32]) -> u32>(
    st: IndexState,
    kernel: F,
    zero: u32,
    q: &[u32],
    label: usize,
    ids: Seq<usize>,
    dists: Seq<u32>,
)
    requires
        st.wf(),
        zero_on_equal(kernel, zero),
        st.entries().contains_key(label),
        st.entries()[label] == q@,
        forall|l: usize| #[trigger] st.entries().contains_key(l) && l != label ==> st.entries()[l] != q@,
        answers(st, kernel, q, 1, Seq::empty(), Seq::empty(), ids, dists),
    ensures
        ids == seq![label],
        dists == seq![zero],
{
    let al = Seq::<usize>::empty();
    let (ds, res) = choose|ds: Seq<u32>, res: Seq<usize>|
        {
            &&& ds.len() == st.slots()
            &&& forall|s: int| 0 <= s < st.slots() ==> kernel_gave(kernel, q, st.vectors[s], #[trigger] ds[s])
            &&& #[trigger] st.is_top_k(ds, 1, al, al, res)
            &&& ids == res.map_values(|s: usize| st.labels[s as int])
            &&& dists == res.map_values(|s: usize| ds[s as int])
        };
    let s0 = st.slot_of(label);
    assert(st.is_live(s0) && st.labels[s0] == label);
    assert forall|s: int| 0 <= s < st.slots() implies ds[s] >= zero && (ds[s] == zero <==> st.vectors[s] == q@) by {
        assert(kernel_gave(kernel, q, st.vectors[s], ds[s]));
        let x = choose|x: &[u32]| x@ == st.vectors[s] && #[trigger] kernel.ensures((q, x), ds[s]);
    }
    assert(ds[s0] == zero);
    assert(st.eligible(s0, al, al));
    if !res.contains(s0 as usize) {
        let t = res[0] as int;
        assert(st.eligible(t, al, al));
        assert(st.ranks_before(ds, t, s0));
        assert(ds[t] == zero);
        assert(st.holds(st.labels[t]));
        assert(st.slot_of(st.labels[t]) == t) by {
            let c = st.slot_of(st.labels[t]);
            assert(st.is_live(c) && st.labels[c] == st.labels[t]);
        }
        assert(st.entries().contains_key(st.labels[t]));
    }
    assert(res =~= seq![s0 as usize]);
    assert(ids =~= seq![label]);
    assert(dists =~= seq![zero]);
}

} // verus!
