use crate::codec::{
    components, encodable, encode_state, header, lemma_encoding_injective, lemma_layout,
    lemma_record_at, lemma_records_prefix, lemma_slot_word_at, lemma_word_injective,
    lemma_word_len, kernel_code, record, record_bytes, records, same_slot, slot_words, word, HEADER_LEN, MAGIC, VERSION,
};
use vstd::arithmetic::div_mod::{
    lemma_div_by_multiple, lemma_div_is_ordered, lemma_fundamental_div_mod, lemma_mod_multiples_basic,
};
use vstd::bytes::{lemma_auto_spec_u32_to_from_le_bytes, lemma_auto_spec_u64_to_from_le_bytes, spec_u32_to_le_bytes};
use crate::config::HnswIndexConfig;
use crate::errors::{HnswError, HnswIndexInitError};
pub use crate::state::DistanceFunction;
use crate::laws::{law_add_then_get, law_delete_removes_entry, lemma_resize_entries};
use crate::state::{lemma_free_below, lemma_labels_where, lemma_listed_counts, IndexState};
use vstd::prelude::*;
use vstd::string::StrSliceExecFns;

verus! {


/// Parameters shared by every kind of index.
#[derive(Clone, Copy, Debug)]
pub struct IndexConfig {
    pub dimensionality: i32,
    pub distance_function: DistanceFunction,
}

/// A labelled vector store with soft deletion, slot reuse and filtered
/// nearest-neighbour search.
pub struct HnswIndex {
    vectors: Vec<Vec<u32>>,
    labels: Vec<usize>,
    deleted: Vec<bool>,
    free: Vec<usize>,
    max_elements: usize,
    ef_search: usize,
    m: usize,
    ef_construction: usize,
    random_seed: usize,
    distance_function: DistanceFunction,
    persist_path: Option<String>,
    dimensionality: i32,
    pub id: u128,
}

impl View for HnswIndex {
    type V = IndexState;

    closed spec fn view(&self) -> IndexState {
        IndexState {
            labels: self.labels@,
            vectors: self.vectors@.map_values(|v: Vec<u32>| v@),
            deleted: self.deleted@,
            free: self.free@,
            capacity: self.max_elements as nat,
            dim: self.dimensionality as nat,
            ef_search: self.ef_search as nat,
            m: self.m as nat,
            ef_construction: self.ef_construction as nat,
            distance: self.distance_function,
        }
    }
}

/// `d` is a distance that `kernel` gave for the query `q` and a vector whose
/// components are `v`.
pub open spec fn kernel_gave<F: Fn(&[u32], &[u32]) -> u32>(
    kernel: F,
    q: &[u32],
    v: Seq<u32>,
    d: u32,
) -> bool {
    exists|b: &[u32]| b@ == v && #[trigger] kernel.ensures((q, b), d)
}

/// `ids` and `dists` answer a query for `q` with `k`, `allowed` and
/// `disallowed` on `st`, where `kernel` measured each slot's vector: the
/// labels and distances of the top `k` eligible slots in rank order.
pub open spec fn answers<F: Fn(&[u32], &[u32]) -> u32>(
    st: IndexState,
    kernel: F,
    q: &[u32],
    k: nat,
    allowed: Seq<usize>,
    disallowed: Seq<usize>,
    ids: Seq<usize>,
    dists: Seq<u32>,
) -> bool {
    exists|ds: Seq<u32>, res: Seq<usize>|
        {
            &&& ds.len() == st.slots()
            &&& forall|s: int| 0 <= s < st.slots() ==> kernel_gave(kernel, q, st.vectors[s], #[trigger] ds[s])
            &&& #[trigger] st.is_top_k(ds, k, allowed, disallowed, res)
            &&& ids == res.map_values(|s: usize| st.labels[s as int])
            &&& dists == res.map_values(|s: usize| ds[s as int])
        }
}

/// Appends `x` as a little-endian word.
fn push_word(out: &mut Vec<u8>, x: u64)
    ensures
        final(out)@ == old(out)@ + word(x as nat),
{
    let mut b = vstd::bytes::u64_to_le_bytes(x);
    out.append(&mut b);
}

/// Appends the components of `v` as little-endian 32-bit words.
fn push_components(out: &mut Vec<u8>, v: &Vec<u32>)
    ensures
        final(out)@ == old(out)@ + components(v@),
{
    let ghost start = out@;
    let mut j: usize = 0;
    while j < v.len()
        invariant
            j <= v@.len(),
            out@ == start + components(v@.take(j as int)),
        decreases v.len() - j,
    {
        let mut b = vstd::bytes::u32_to_le_bytes(v[j]);
        out.append(&mut b);
        proof {
            assert(v@.take(j + 1).drop_last() =~= v@.take(j as int));
        }
        j += 1;
    }
    proof {
        assert(v@.take(v@.len() as int) =~= v@);
    }
}

/// `st` is a well-formed index of dimensionality `dim` whose persisted form
/// is `bytes`.
pub open spec fn encodes(bytes: Seq<u8>, st: IndexState, dim: int, kernel: DistanceFunction) -> bool {
    st.wf() && st.dim == dim && st.distance == kernel && bytes == encode_state(st)
}

/// The header number of a distance function.
fn kernel_number(k: DistanceFunction) -> (r: u64)
    ensures
        r == kernel_code(k),
{
    match k {
        DistanceFunction::Euclidean => 0,
        DistanceFunction::InnerProduct => 1,
        DistanceFunction::Cosine => 2,
    }
}

/// The slots read so far, as a state with no other content.
spec fn slot_state(labels: Seq<usize>, vectors: Seq<Vec<u32>>, deleted: Seq<bool>, dim: nat) -> IndexState {
    IndexState {
        labels,
        vectors: vectors.map_values(|v: Vec<u32>| v@),
        deleted,
        free: Seq::empty(),
        capacity: 0,
        dim,
        ef_search: 0,
        m: 0,
        ef_construction: 0,
        distance: DistanceFunction::Euclidean,
    }
}

/// The little-endian word at `pos`.
fn read_word(bytes: &[u8], pos: usize) -> (r: u64)
    requires
        pos + 8 <= bytes@.len(),
    ensures
        word(r as nat) == bytes@.subrange(pos as int, pos + 8),
{
    let n = bytes.len();
    let sub = vstd::slice::slice_subrange(bytes, pos, pos + 8);
    let x = vstd::bytes::u64_from_le_bytes(sub);
    proof {
        lemma_auto_spec_u64_to_from_le_bytes();
    }
    x
}

/// The little-endian 32-bit word at `pos`.
fn read_component(bytes: &[u8], pos: usize) -> (r: u32)
    requires
        pos + 4 <= bytes@.len(),
    ensures
        spec_u32_to_le_bytes(r) == bytes@.subrange(pos as int, pos + 4),
{
    let n = bytes.len();
    let sub = vstd::slice::slice_subrange(bytes, pos, pos + 4);
    let x = vstd::bytes::u32_from_le_bytes(sub);
    proof {
        lemma_auto_spec_u32_to_from_le_bytes();
    }
    x
}

/// The slot record of dimensionality `dim` at `pos`, or `None` where the
/// bytes there are no such record.
fn read_record(bytes: &[u8], pos: usize, dim: usize) -> (r: Option<(usize, bool, Vec<u32>)>)
    requires
        pos + 9 + 4 * dim <= bytes@.len(),
    ensures
        r is Some ==> ({
            let (l, f, v) = r->Some_0;
            v@.len() == dim && record_bytes(l, f, v@) == bytes@.subrange(pos as int, pos + 9 + 4 * dim)
        }),
        r is None ==> forall|l: usize, f: bool, v: Seq<u32>|
            v.len() == dim ==> #[trigger] record_bytes(l, f, v) != bytes@.subrange(pos as int, pos + 9 + 4 * dim),
{
    let n_bytes = bytes.len();
    let label = read_word(bytes, pos);
    let flag = bytes[pos + 8];
    if label > usize::MAX as u64 || flag > 1 {
        proof {
            assert forall|l: usize, f: bool, v: Seq<u32>| v.len() == dim implies #[trigger] record_bytes(l, f, v)
                != bytes@.subrange(pos as int, pos + 9 + 4 * dim) by {
                lemma_word_len(l as nat);
                if record_bytes(l, f, v) == bytes@.subrange(pos as int, pos + 9 + 4 * dim) {
                    let rb = record_bytes(l, f, v);
                    assert(rb.subrange(0, 8) =~= word(l as nat));
                    assert(rb.subrange(0, 8) =~= bytes@.subrange(pos as int, pos + 8));
                    lemma_word_injective(l as nat, label as nat);
                    assert(rb[8] == flag);
                }
            }
        }
        return None;
    }
    let mut v: Vec<u32> = Vec::new();
    let mut p: usize = pos + 9;
    let mut j: usize = 0;
    while j < dim
        invariant
            n_bytes == bytes@.len(),
            pos + 9 + 4 * dim <= n_bytes,
            j <= dim,
            p == pos + 9 + 4 * j,
            v@.len() == j,
            bytes@.subrange(pos + 9, p as int) == components(v@),
        decreases dim - j,
    {
        let c = read_component(bytes, p);
        let ghost before = v@;
        v.push(c);
        proof {
            assert(v@.drop_last() =~= before);
            assert(bytes@.subrange(pos + 9, p + 4) =~= bytes@.subrange(pos + 9, p as int)
                + bytes@.subrange(p as int, p + 4));
        }
        p = p + 4;
        j += 1;
    }
    let l = label as usize;
    let f = flag == 1;
    proof {
        lemma_word_len(l as nat);
        assert(word(l as nat) == bytes@.subrange(pos as int, pos + 8));
        assert(record_bytes(l, f, v@) =~= bytes@.subrange(pos as int, pos + 8) + bytes@.subrange(pos + 8, pos + 9)
            + bytes@.subrange(pos + 9, p as int));
        assert(bytes@.subrange(pos as int, pos + 9 + 4 * dim) =~= bytes@.subrange(pos as int, pos + 8) + bytes@.subrange(pos + 8, pos + 9)
            + bytes@.subrange(pos + 9, p as int));
    }
    Some((l, f, v))
}

/// An integrity failure naming the check that failed.
fn integrity(check: &str) -> (r: HnswError)
    ensures
        r is IntegrityFailure,
{
    HnswError::IntegrityFailure(check.to_string())
}

/// A persist path is given and holds a NUL character.
pub open spec fn nul_path(p: Option<String>) -> bool {
    p is Some && p->Some_0@.contains('\0')
}

/// The optional text of `p`.
pub open spec fn path_chars(p: Option<String>) -> Option<Seq<char>> {
    match p {
        Some(s) => Some(s@),
        None => None,
    }
}

/// `s` holds a NUL character.
fn has_nul(s: &str) -> (r: bool)
    ensures
        r == s@.contains('\0'),
{
    let n = s.unicode_len();
    let mut i: usize = 0;
    while i < n
        invariant
            n == s@.len(),
            i <= n,
            forall|j: int| 0 <= j < i ==> s@[j] != '\0',
        decreases n - i,
    {
        if s.get_char(i) == '\0' {
            return true;
        }
        i += 1;
    }
    false
}

/// A copy of an optional path.
fn copy_path(p: &Option<String>) -> (r: Option<String>)
    ensures
        path_chars(r) == path_chars(*p),
{
    match p {
        Some(s) => Some(s.clone()),
        None => None,
    }
}

/// `xs` holds `x`.
fn contains_label(xs: &[usize], x: usize) -> (r: bool)
    ensures
        r == xs@.contains(x),
{
    let mut i: usize = 0;
    while i < xs.len()
        invariant
            i <= xs.len(),
            forall|j: int| 0 <= j < i ==> xs@[j] != x,
        decreases xs.len() - i,
    {
        if xs[i] == x {
            return true;
        }
        i += 1;
    }
    false
}

impl HnswIndex {
    pub closed spec fn wf(&self) -> bool {
        &&& self@.wf()
        &&& self.dimensionality > 0
        &&& self.vectors.len() == self.labels.len()
    }

    /// Creates an empty index with the dimensionality and kernel of
    /// `index_config` and the parameters of `hnsw_config`. A persist path
    /// holding a NUL character is refused.
    pub fn init(index_config: &IndexConfig, hnsw_config: Option<&HnswIndexConfig>, id: u128) -> (r:
        Result<Self, HnswIndexInitError>)
        ensures
            hnsw_config is None ==> r == Err::<Self, _>(HnswIndexInitError::NoConfigProvided),
            hnsw_config is Some && index_config.dimensionality <= 0 ==> r == Err::<Self, _>(
                HnswIndexInitError::InvalidDimensionality(index_config.dimensionality),
            ),
            hnsw_config is Some && index_config.dimensionality > 0 && nul_path(
                hnsw_config->Some_0.persist_path,
            ) ==> r is Err && r->Err_0 is InvalidPath && r->Err_0->InvalidPath_0@
                == hnsw_config->Some_0.persist_path->Some_0@,
            hnsw_config is Some && index_config.dimensionality > 0 && !nul_path(
                hnsw_config->Some_0.persist_path,
            ) ==> r is Ok,
            r is Ok ==> ({
                let c = hnsw_config->Some_0;
                let ix = r->Ok_0;
                &&& ix.wf()
                &&& ix@.wf()
                &&& ix@.slots() == 0
                &&& ix@.m == c.m
                &&& ix@.ef_construction == c.ef_construction
                &&& ix@.distance == index_config.distance_function
                &&& ix.index_id() == id
                &&& ix.path_view() == path_chars(c.persist_path)
                &&& ix@.free.len() == 0
                &&& ix@.capacity == c.max_elements
                &&& ix@.dim == index_config.dimensionality
                &&& ix@.ef_search == c.ef_search
            }),
    {
        match hnsw_config {
            None => Err(HnswIndexInitError::NoConfigProvided),
            Some(config) => {
                if index_config.dimensionality <= 0 {
                    return Err(HnswIndexInitError::InvalidDimensionality(index_config.dimensionality));
                }
                if let Some(p) = &config.persist_path {
                    if has_nul(p.as_str()) {
                        return Err(HnswIndexInitError::InvalidPath(p.clone()));
                    }
                }
                let ix = HnswIndex {
                    vectors: Vec::new(),
                    labels: Vec::new(),
                    deleted: Vec::new(),
                    free: Vec::new(),
                    max_elements: config.max_elements,
                    ef_search: config.ef_search,
                    m: config.m,
                    ef_construction: config.ef_construction,
                    random_seed: config.random_seed,
                    distance_function: index_config.distance_function,
                    persist_path: copy_path(&config.persist_path),
                    dimensionality: index_config.dimensionality,
                    id,
                };
                proof {
                    assert(ix@.vectors =~= Seq::<Seq<u32>>::empty());
                }
                Ok(ix)
            },
        }
    }

    /// The identifier the index was created or loaded with.
    pub closed spec fn index_id(&self) -> u128 {
        self.id
    }

    /// The text of the directory the index is saved under, if any.
    pub closed spec fn path_view(&self) -> Option<Seq<char>> {
        path_chars(self.persist_path)
    }

    /// A well-formed index has a well-formed model.
    pub proof fn lemma_view_wf(&self)
        requires
            self.wf(),
        ensures
            self@.wf(),
    {
    }

    /// The distance function the index was created with.
    pub fn distance_function(&self) -> (r: DistanceFunction)
        requires
            self.wf(),
        ensures
            r == self@.distance,
    {
        self.distance_function
    }

    /// Makes file-backed storage resident. This index always lives in
    /// memory, so nothing changes.
    pub fn open_fd(&self)
        requires
            self.wf(),
    {
    }

    /// Releases file-backed storage. This index always lives in memory, so
    /// nothing changes.
    pub fn close_fd(&self)
        requires
            self.wf(),
    {
    }

    /// Number of live labels.
    pub fn len(&self) -> (r: usize)
        requires
            self.wf(),
        ensures
            r == self@.len(),
    {
        self.labels.len() - self.free.len()
    }

    /// Number of allocated slots, live or deleted.
    pub fn len_with_deleted(&self) -> (r: usize)
        requires
            self.wf(),
        ensures
            r == self@.slots(),
    {
        self.labels.len()
    }

    pub fn is_empty(&self) -> (r: bool)
        requires
            self.wf(),
        ensures
            r == (self@.len() == 0),
    {
        self.len() == 0
    }

    pub fn dimensionality(&self) -> (r: i32)
        requires
            self.wf(),
        ensures
            r == self@.dim,
    {
        self.dimensionality
    }

    pub fn capacity(&self) -> (r: usize)
        requires
            self.wf(),
        ensures
            r == self@.capacity,
    {
        self.max_elements
    }

    /// The slot, live or deleted, that carries `label`, if any.
    fn find_any_slot(&self, label: usize) -> (r: Option<usize>)
        requires
            self.wf(),
        ensures
            r is Some <==> self@.has_slot(label),
            r is Some ==> r->Some_0 == self@.any_slot_of(label) && self@.labels[r->Some_0 as int] == label
                && r->Some_0 < self@.slots(),
    {
        let mut s: usize = 0;
        while s < self.labels.len()
            invariant
                self.wf(),
                s <= self.labels.len(),
                forall|t: int| 0 <= t < s ==> #[trigger] self@.labels[t] != label,
            decreases self.labels.len() - s,
        {
            if self.labels[s] == label {
                proof {
                    let c = self@.any_slot_of(label);
                    assert(0 <= c < self@.slots() && self@.labels[c] == label);
                }
                return Some(s);
            }
            s += 1;
        }
        None
    }

    /// Where the deleted slot `s` stands in the list of deleted slots.
    fn free_position(&self, s: usize) -> (r: usize)
        requires
            self.wf(),
            s < self@.slots(),
            self@.deleted[s as int],
        ensures
            r < self@.free.len(),
            self@.free[r as int] == s,
    {
        proof {
            assert(self@.free.contains(s));
        }
        let mut i: usize = 0;
        while i < self.free.len()
            invariant
                self.wf(),
                i <= self@.free.len(),
                self@.free.contains(s),
                forall|j: int| 0 <= j < i ==> #[trigger] self@.free[j] != s,
            decreases self.free.len() - i,
        {
            if self.free[i] == s {
                return i;
            }
            i += 1;
        }
        proof {
            let j = choose|j: int| 0 <= j < self@.free.len() && self@.free[j] == s;
            assert(self@.free[j] != s);
        }
        0
    }

    /// The live slot holding `label`, if any.
    fn find_slot(&self, label: usize) -> (r: Option<usize>)
        requires
            self.wf(),
        ensures
            r is Some <==> self@.holds(label),
            r is Some ==> r->Some_0 == self@.slot_of(label),
    {
        let mut s: usize = 0;
        while s < self.labels.len()
            invariant
                self.wf(),
                s <= self.labels.len(),
                forall|t: int| 0 <= t < s ==> !(#[trigger] self@.is_live(t) && self@.labels[t] == label),
            decreases self.labels.len() - s,
        {
            if !self.deleted[s] && self.labels[s] == label {
                proof {
                    assert(self@.is_live(s as int));
                    let c = self@.slot_of(label);
                    assert(self@.is_live(c) && self@.labels[c] == label);
                }
                return Some(s);
            }
            s += 1;
        }
        None
    }

    /// Stores `vector` under the label `id`, which must not be live: in the
    /// deleted slot that still carries `id`, if any; else in a fresh slot while
    /// the capacity allows; else in the oldest deleted slot.
    pub fn add(&mut self, id: usize, vector: &[u32]) -> (r: Result<(), HnswError>)
        requires
            old(self).wf(),
        ensures
            final(self).wf(),
            final(self)@.wf(),
            vector@.len() != old(self)@.dim ==> r == Err::<(), _>(
                HnswError::DimensionMismatch { expected: old(self)@.dim as usize, actual: vector@.len() as usize },
            ),
            vector@.len() == old(self)@.dim && old(self)@.holds(id) ==> r == Err::<(), _>(
                HnswError::DuplicateLabel(id),
            ),
            vector@.len() == old(self)@.dim && !old(self)@.has_slot(id) && old(self)@.is_full() ==> r
                == Err::<(), _>(HnswError::CapacityExceeded(old(self)@.capacity as usize)),
            vector@.len() == old(self)@.dim && !old(self)@.holds(id) && (old(self)@.has_slot(id)
                || !old(self)@.is_full()) ==> r is Ok,
            r is Err ==> final(self)@ == old(self)@,
            r is Ok ==> final(self)@ == old(self)@.added(id, vector@),
            r is Ok ==> final(self)@.holds(id) && final(self)@.entries() == old(self)@.entries().insert(
                id,
                vector@,
            ),
            r is Ok ==> final(self)@.len() == old(self)@.len() + 1,
            r is Ok && old(self)@.free.len() == 0 ==> final(self)@.slots() == old(self)@.slots() + 1,
    {
        let dim = self.dimensionality as usize;
        if vector.len() != dim {
            return Err(HnswError::DimensionMismatch { expected: dim, actual: vector.len() });
        }
        let found = self.find_any_slot(id);
        if let Some(s) = found {
            if !self.deleted[s] {
                proof {
                    assert(self@.is_live(s as int));
                }
                return Err(HnswError::DuplicateLabel(id));
            }
            proof {
                assert forall|t: int| #[trigger] self@.is_live(t) implies self@.labels[t] != id by {
                    if self@.labels[t] == id && t != s {
                        assert(self@.labels[t] != self@.labels[s as int]);
                    }
                }
            }
            let i = self.free_position(s);
            let v = vstd::slice::slice_to_vec(vector);
            let ghost pre = self@;
            self.free.remove(i);
            self.vectors.set(s, v);
            self.deleted.set(s, false);
            proof {
                assert(pre.free.index_of(s) == i as int) by {
                    let j = pre.free.index_of(s);
                    assert(pre.free.contains(s));
                }
                assert(self@.vectors =~= pre.vectors.update(s as int, vector@));
                assert(self@ == pre.added(id, vector@));
                assert forall|k: int| 0 <= k < self@.free.len() implies #[trigger] self@.free[k]
                    < self@.slots() && self@.deleted[self@.free[k] as int] by {
                    let kk = if k < i { k } else { k + 1 };
                    assert(self@.free[k] == pre.free[kk]);
                    assert(pre.free[kk] != pre.free[i as int]);
                }
                assert forall|t: int| 0 <= t < self@.slots() && #[trigger] self@.deleted[t]
                    implies self@.free.contains(t as usize) by {
                    assert(pre.free.contains(t as usize));
                    let k = choose|k: int| 0 <= k < pre.free.len() && pre.free[k] == t as usize;
                    assert(k != i);
                    if k < i {
                        assert(self@.free[k] == t as usize);
                    } else {
                        assert(self@.free[k - 1] == t as usize);
                    }
                }
                assert(self@.free.no_duplicates()) by {
                    assert forall|a: int, b: int| 0 <= a < self@.free.len() && 0 <= b < self@.free.len() && a != b
                        implies self@.free[a] != self@.free[b] by {
                        let aa = if a < i { a } else { a + 1 };
                        let bb = if b < i { b } else { b + 1 };
                        assert(self@.free[a] == pre.free[aa] && self@.free[b] == pre.free[bb]);
                    }
                }
            }
            proof {
                law_add_then_get(pre, id, vector@);
                assert(self@.entries().contains_key(id));
            }
            return Ok(());
        }
        proof {
            assert forall|t: int| #[trigger] self@.is_live(t) implies self@.labels[t] != id by {}
        }
        let v = vstd::slice::slice_to_vec(vector);
        let ghost pre = self@;
        if self.labels.len() < self.max_elements {
            self.labels.push(id);
            self.vectors.push(v);
            self.deleted.push(false);
            proof {
                assert(self@.vectors =~= pre.vectors.push(vector@));
                assert(self@ == pre.added(id, vector@));
                assert forall|i: int| 0 <= i < self@.free.len() implies #[trigger] self@.free[i]
                    < self@.slots() && self@.deleted[self@.free[i] as int] by {
                    assert(pre.free[i] < pre.slots());
                }
                assert forall|s: int, t: int|
                    0 <= s < self@.slots() && 0 <= t < self@.slots() && s != t implies #[trigger] self@.labels[s]
                    != #[trigger] self@.labels[t] by {
                    if s < pre.slots() && t < pre.slots() {
                        assert(pre.labels[s] != pre.labels[t]);
                    }
                }
                law_add_then_get(pre, id, vector@);
                assert(self@.entries().contains_key(id));
            }
            Ok(())
        } else if self.free.len() > 0 {
            let s = self.free.remove(0);
            self.labels.set(s, id);
            self.vectors.set(s, v);
            self.deleted.set(s, false);
            proof {
                assert(pre.free.drop_first() =~= pre.free.remove(0));
                assert(self@.vectors =~= pre.vectors.update(s as int, vector@));
                assert(self@ == pre.added(id, vector@));
                assert forall|i: int| 0 <= i < self@.free.len() implies #[trigger] self@.free[i]
                    < self@.slots() && self@.deleted[self@.free[i] as int] by {
                    assert(self@.free[i] == pre.free[i + 1]);
                    assert(pre.free[i + 1] != pre.free[0]);
                }
                assert forall|t: int| 0 <= t < self@.slots() && #[trigger] self@.deleted[t]
                    implies self@.free.contains(t as usize) by {
                    assert(pre.free.contains(t as usize));
                    let k = choose|k: int| 0 <= k < pre.free.len() && pre.free[k] == t as usize;
                    assert(k != 0);
                    assert(self@.free[k - 1] == t as usize);
                }
                assert forall|a: int, b: int|
                    0 <= a < self@.slots() && 0 <= b < self@.slots() && a != b implies #[trigger] self@.labels[a]
                    != #[trigger] self@.labels[b] by {
                    if a != s && b != s {
                        assert(pre.labels[a] != pre.labels[b]);
                    }
                }
                assert(pre.free.len() <= pre.slots());
                law_add_then_get(pre, id, vector@);
                assert(self@.entries().contains_key(id));
            }
            Ok(())
        } else {
            Err(HnswError::CapacityExceeded(self.max_elements))
        }
    }

    /// Marks the slot of the live label `id` deleted; its vector stays but is
    /// no longer returned.
    pub fn delete(&mut self, id: usize) -> (r: Result<(), HnswError>)
        requires
            old(self).wf(),
        ensures
            final(self).wf(),
            final(self)@.wf(),
            r is Ok <==> old(self)@.holds(id),
            r is Err ==> r == Err::<(), _>(HnswError::UnknownLabel(id)) && final(self)@ == old(self)@,
            r is Ok ==> final(self)@ == old(self)@.removed(id),
            r is Ok ==> !final(self)@.holds(id) && final(self)@.entries() == old(self)@.entries().remove(id),
            r is Ok ==> final(self)@.len() + 1 == old(self)@.len() && final(self)@.slots()
                == old(self)@.slots(),
    {
        match self.find_slot(id) {
            None => Err(HnswError::UnknownLabel(id)),
            Some(s) => {
                let ghost pre = self@;
                proof {
                    assert forall|i: int| 0 <= i < pre.free.len() implies #[trigger] pre.free[i]
                        < pre.slots() && pre.free[i] != s by {
                        assert(pre.deleted[pre.free[i] as int]);
                    }
                    lemma_free_below(pre.free, pre.slots(), s);
                }
                self.deleted.set(s, true);
                self.free.push(s);
                proof {
                    assert(self@.vectors =~= pre.vectors);
                    assert(self@ == pre.removed(id));
                    assert forall|i: int| 0 <= i < self@.free.len() implies #[trigger] self@.free[i]
                        < self@.slots() && self@.deleted[self@.free[i] as int] by {
                        if i < pre.free.len() {
                            assert(self@.free[i] == pre.free[i]);
                        }
                    }
                    assert forall|t: int| 0 <= t < self@.slots() && #[trigger] self@.deleted[t]
                        implies self@.free.contains(t as usize) by {
                        if t != s {
                            assert(pre.free.contains(t as usize));
                            let k = choose|k: int| 0 <= k < pre.free.len() && pre.free[k] == t as usize;
                            assert(self@.free[k] == t as usize);
                        } else {
                            assert(self@.free[pre.free.len() as int] == s);
                        }
                    }
                    assert forall|a: int, b: int|
                        self@.is_live(a) && self@.is_live(b) && a != b implies #[trigger] self@.labels[a]
                        != #[trigger] self@.labels[b] by {
                        assert(pre.is_live(a) && pre.is_live(b));
                    }
                    assert(!pre.free.contains(s)) by {
                        if pre.free.contains(s) {
                            let k = choose|k: int| 0 <= k < pre.free.len() && pre.free[k] == s;
                            assert(pre.deleted[s as int]);
                        }
                    }
                }
                proof {
                    law_delete_removes_entry(pre, id);
                }
                Ok(())
            },
        }
    }

    /// The vector stored under the live label `id`, or `None`.
    pub fn get(&self, id: usize) -> (r: Result<Option<Vec<u32>>, HnswError>)
        requires
            self.wf(),
        ensures
            r is Ok,
            r->Ok_0 is Some <==> self@.entries().contains_key(id),
            r->Ok_0 is Some ==> r->Ok_0->Some_0@ == self@.entries()[id],
    {
        match self.find_slot(id) {
            None => Ok(None),
            Some(s) => Ok(Some(self.vectors[s].clone())),
        }
    }

    /// Grows the capacity to `new_size` slots; a smaller size changes nothing.
    pub fn resize(&mut self, new_size: usize) -> (r: Result<(), HnswError>)
        requires
            old(self).wf(),
        ensures
            final(self).wf(),
            final(self)@.wf(),
            r is Ok,
            final(self)@ == old(self)@.resized(new_size as nat),
            final(self)@.entries() == old(self)@.entries(),
            final(self)@.len() == old(self)@.len(),
    {
        proof {
            lemma_resize_entries(self@, new_size);
        }
        if new_size > self.max_elements {
            self.max_elements = new_size;
        }
        Ok(())
    }

    /// Records the search beam width. Queries here examine every live slot,
    /// so the value is kept and persisted but does not change any answer.
    pub fn set_ef(&mut self, ef: usize) -> (r: Result<(), HnswError>)
        requires
            old(self).wf(),
        ensures
            final(self).wf(),
            final(self)@.wf(),
            r is Ok,
            final(self)@ == (IndexState { ef_search: ef as nat, ..old(self)@ }),
    {
        self.ef_search = ef;
        Ok(())
    }

    /// The recorded search beam width.
    pub fn get_ef(&self) -> (r: Result<usize, HnswError>)
        requires
            self.wf(),
        ensures
            r == Ok::<usize, HnswError>(self@.ef_search as usize),
    {
        Ok(self.ef_search)
    }

    /// Slot `s` passes the deletion state and the two label filters.
    fn is_eligible(&self, s: usize, allowed: &[usize], disallowed: &[usize]) -> (r: bool)
        requires
            self.wf(),
            s < self@.slots(),
        ensures
            r == self@.eligible(s as int, allowed@, disallowed@),
    {
        !self.deleted[s] && (allowed.len() == 0 || contains_label(allowed, self.labels[s]))
            && !contains_label(disallowed, self.labels[s])
    }

    /// Slot `a` ranks before slot `b` under `ds`.
    fn before(&self, ds: &[u32], a: usize, b: usize) -> (r: bool)
        requires
            self.wf(),
            ds@.len() == self@.slots(),
            a < self@.slots(),
            b < self@.slots(),
        ensures
            r == self@.ranks_before(ds@, a as int, b as int),
    {
        ds[a] < ds[b] || (ds[a] == ds[b] && self.labels[a] < self.labels[b])
    }

    /// The `k` eligible slots that rank first under the per-slot distances
    /// `ds`, in rank order.
    pub fn top_k_slots(&self, ds: &[u32], k: usize, allowed: &[usize], disallowed: &[usize]) -> (r:
        Vec<usize>)
        requires
            self.wf(),
            ds@.len() == self@.slots(),
        ensures
            self@.is_top_k(ds@, k as nat, allowed@, disallowed@, r@),
    {
        let n = self.labels.len();
        let mut res: Vec<usize> = Vec::new();
        while res.len() < k
            invariant
                self.wf(),
                n == self@.slots(),
                ds@.len() == n,
                res@.len() <= k,
                forall|i: int| 0 <= i < res@.len() ==> self@.eligible(#[trigger] res@[i] as int, allowed@, disallowed@),
                forall|i: int, j: int|
                    0 <= i < j < res@.len() ==> self@.ranks_before(ds@, #[trigger] res@[i] as int, #[trigger] res@[j] as int),
                forall|s: int|
                    #![trigger self@.eligible(s, allowed@, disallowed@)]
                    self@.eligible(s, allowed@, disallowed@) && !res@.contains(s as usize) ==> (res@.len() > 0
                        ==> self@.ranks_before(ds@, res@.last() as int, s)),
            decreases k - res@.len(),
        {
            let mut best: Option<usize> = None;
            let mut t: usize = 0;
            while t < n
                invariant
                    self.wf(),
                    n == self@.slots(),
                    ds@.len() == n,
                    t <= n,
                    res@.len() < k,
                    forall|i: int| 0 <= i < res@.len() ==> self@.eligible(#[trigger] res@[i] as int, allowed@, disallowed@),
                    best is Some ==> ({
                        let b = best->Some_0 as int;
                        &&& b < t
                        &&& self@.eligible(b, allowed@, disallowed@)
                        &&& (res@.len() > 0 ==> self@.ranks_before(ds@, res@.last() as int, b))
                    }),
                    forall|u: int|
                        #![trigger self@.eligible(u, allowed@, disallowed@)]
                        0 <= u < t && self@.eligible(u, allowed@, disallowed@) && (res@.len() > 0
                            ==> self@.ranks_before(ds@, res@.last() as int, u)) ==> best is Some && (u
                            == best->Some_0 || self@.ranks_before(ds@, best->Some_0 as int, u)),
                decreases n - t,
            {
                if self.is_eligible(t, allowed, disallowed) && (res.len() == 0 || self.before(
                    ds,
                    res[res.len() - 1],
                    t,
                )) {
                    match best {
                        None => {
                            best = Some(t);
                        },
                        Some(b) => {
                            if self.before(ds, t, b) {
                                best = Some(t);
                            }
                        },
                    }
                }
                t += 1;
            }
            match best {
                None => {
                    proof {
                        assert forall|s: int|
                            #![trigger self@.eligible(s, allowed@, disallowed@)]
                            self@.eligible(s, allowed@, disallowed@) implies res@.contains(s as usize) by {
                            if !res@.contains(s as usize) && res@.len() > 0 {
                                assert(self@.ranks_before(ds@, res@.last() as int, s));
                            }
                        }
                    }
                    return res;
                },
                Some(b) => {
                    let ghost pre = res@;
                    res.push(b);
                    proof {
                        assert forall|i: int, j: int|
                            0 <= i < j < res@.len() implies self@.ranks_before(ds@, #[trigger] res@[i] as int, #[trigger] res@[j] as int) by {
                            if j == pre.len() && i < pre.len() - 1 {
                                assert(self@.ranks_before(ds@, pre[i] as int, pre[pre.len() - 1] as int));
                            }
                        }
                        assert forall|s: int|
                            #![trigger self@.eligible(s, allowed@, disallowed@)]
                            self@.eligible(s, allowed@, disallowed@) && !res@.contains(s as usize) implies self@.ranks_before(ds@, b as int, s) by {
                            assert(!pre.contains(s as usize)) by {
                                if pre.contains(s as usize) {
                                    let q = choose|q: int| 0 <= q < pre.len() && pre[q] == s as usize;
                                    assert(res@[q] == s as usize);
                                }
                            }
                            assert(s != b) by {
                                assert(res@[pre.len() as int] == b);
                            }
                            if self@.labels[s] == self@.labels[b as int] {
                                assert(self@.is_live(s) && self@.is_live(b as int));
                            }
                        }
                    }
                },
            }
        }
        res
    }

    /// The labels and distances of the `k` live vectors nearest to `vector`
    /// under `distance`, nearest first with ties broken by the smaller label,
    /// among those whose label is in `allowed_ids` (when that is not empty)
    /// and not in `disallowed_ids`. `distance` maps a query and a stored
    /// vector to a key whose order is the order of closeness.
    pub fn query<F: Fn(&[u32], &[u32]) -> u32>(
        &self,
        vector: &[u32],
        k: usize,
        allowed_ids: &[usize],
        disallowed_ids: &[usize],
        distance: F,
    ) -> (r: Result<(Vec<usize>, Vec<u32>), HnswError>)
        requires
            self.wf(),
            forall|a: &[u32], b: &[u32]| #[trigger] distance.requires((a, b)),
        ensures
            vector@.len() != self@.dim ==> r == Err::<(Vec<usize>, Vec<u32>), _>(
                HnswError::DimensionMismatch { expected: self@.dim as usize, actual: vector@.len() as usize },
            ),
            vector@.len() == self@.dim ==> r is Ok && answers(
                self@,
                distance,
                vector,
                k as nat,
                allowed_ids@,
                disallowed_ids@,
                r->Ok_0.0@,
                r->Ok_0.1@,
            ),
    {
        let dim = self.dimensionality as usize;
        if vector.len() != dim {
            return Err(HnswError::DimensionMismatch { expected: dim, actual: vector.len() });
        }
        let n = self.labels.len();
        let mut ds: Vec<u32> = Vec::new();
        let mut s: usize = 0;
        while s < n
            invariant
                self.wf(),
                n == self@.slots(),
                s <= n,
                ds@.len() == s,
                forall|a: &[u32], b: &[u32]| #[trigger] distance.requires((a, b)),
                forall|t: int| 0 <= t < s ==> kernel_gave(distance, vector, self@.vectors[t], #[trigger] ds@[t]),
            decreases n - s,
        {
            let v = self.vectors[s].as_slice();
            let d = distance(vector, v);
            proof {
                assert(v@ == self@.vectors[s as int]);
                assert(kernel_gave(distance, vector, self@.vectors[s as int], d));
            }
            ds.push(d);
            s += 1;
        }
        let slots = self.top_k_slots(ds.as_slice(), k, allowed_ids, disallowed_ids);
        let mut ids: Vec<usize> = Vec::new();
        let mut dists: Vec<u32> = Vec::new();
        let mut i: usize = 0;
        while i < slots.len()
            invariant
                self.wf(),
                n == self@.slots(),
                ds@.len() == n,
                i <= slots@.len(),
                forall|j: int| 0 <= j < slots@.len() ==> self@.eligible(#[trigger] slots@[j] as int, allowed_ids@, disallowed_ids@),
                ids@ == slots@.take(i as int).map_values(|s: usize| self@.labels[s as int]),
                dists@ == slots@.take(i as int).map_values(|s: usize| ds@[s as int]),
            decreases slots@.len() - i,
        {
            let t = slots[i];
            proof {
                assert(self@.eligible(slots@[i as int] as int, allowed_ids@, disallowed_ids@));
            }
            ids.push(self.labels[t]);
            dists.push(ds[t]);
            proof {
                assert(slots@.take(i + 1) =~= slots@.take(i as int).push(t));
                assert(ids@ =~= slots@.take(i + 1).map_values(|s: usize| self@.labels[s as int]));
                assert(dists@ =~= slots@.take(i + 1).map_values(|s: usize| ds@[s as int]));
            }
            i += 1;
        }
        proof {
            assert(slots@.take(slots@.len() as int) =~= slots@);
            assert(self@.is_top_k(ds@, k as nat, allowed_ids@, disallowed_ids@, slots@));
        }
        Ok((ids, dists))
    }

    /// The number of live labels and the number of deleted slots.
    pub fn get_all_ids_sizes(&self) -> (r: Result<Vec<usize>, HnswError>)
        requires
            self.wf(),
        ensures
            r is Ok,
            r->Ok_0@ == seq![self@.len() as usize, self@.free.len() as usize],
    {
        let mut sizes: Vec<usize> = Vec::new();
        sizes.push(self.len());
        sizes.push(self.free.len());
        Ok(sizes)
    }

    /// The labels of the live slots and those of the deleted slots, each in
    /// slot order.
    pub fn get_all_ids(&self) -> (r: Result<(Vec<usize>, Vec<usize>), HnswError>)
        requires
            self.wf(),
        ensures
            r is Ok,
            r->Ok_0.0@ == self@.labels_where(self@.slots() as int, false),
            r->Ok_0.1@ == self@.labels_where(self@.slots() as int, true),
            (r->Ok_0.0@ + r->Ok_0.1@).no_duplicates(),
            forall|l: usize| #[trigger] r->Ok_0.0@.contains(l) <==> self@.holds(l),
            r->Ok_0.0@.len() + r->Ok_0.1@.len() == self@.slots(),
            r->Ok_0.0@.len() == self@.len(),
            r->Ok_0.1@.len() == self@.free.len(),
    {
        let mut live: Vec<usize> = Vec::new();
        let mut gone: Vec<usize> = Vec::new();
        let mut s: usize = 0;
        while s < self.labels.len()
            invariant
                self.wf(),
                s <= self@.slots(),
                live@ == self@.labels_where(s as int, false),
                gone@ == self@.labels_where(s as int, true),
            decreases self.labels.len() - s,
        {
            if self.deleted[s] {
                gone.push(self.labels[s]);
            } else {
                live.push(self.labels[s]);
            }
            s += 1;
        }
        proof {
            let st = self@;
            let n = st.slots() as int;
            lemma_labels_where(st, n, false);
            lemma_labels_where(st, n, true);
            lemma_listed_counts(st);
            let both = live@ + gone@;
            assert forall|l: usize| #[trigger] live@.contains(l) <==> st.holds(l) by {
                assert(live@ == st.labels_where(n, false));
                if st.holds(l) {
                    let t = st.slot_of(l);
                    assert(0 <= t < n && st.deleted[t] == false && st.labels[t] == l);
                    assert(live@.contains(l));
                }
                if live@.contains(l) {
                    let t = choose|t: int| 0 <= t < n && st.deleted[t] == false && st.labels[t] == l;
                    assert(st.is_live(t));
                }
            }
            assert forall|a: int, b: int| 0 <= a < both.len() && 0 <= b < both.len() && a != b implies both[a]
                != both[b] by {
                if a < live@.len() && b >= live@.len() || b < live@.len() && a >= live@.len() {
                    let (x, y) = if a < live@.len() { (a, b - live@.len()) } else { (b, a - live@.len()) };
                    if live@[x] == gone@[y] {
                        assert(live@.contains(live@[x]));
                        assert(gone@.contains(live@[x]));
                        let t1 = choose|t: int| 0 <= t < n && st.deleted[t] == false && st.labels[t] == live@[x];
                        let t2 = choose|t: int| 0 <= t < n && st.deleted[t] == true && st.labels[t] == live@[x];
                        assert(st.labels[t1] != st.labels[t2]);
                    }
                } else if a < live@.len() {
                    assert(live@[a] != live@[b]);
                } else {
                    assert(gone@[a - live@.len()] != gone@[b - live@.len()]);
                }
            }
        }
        Ok((live, gone))
    }

    /// The persisted form of this index.
    pub fn to_bytes(&self) -> (r: Vec<u8>)
        requires
            self.wf(),
        ensures
            r@ == encode_state(self@),
    {
        let mut out: Vec<u8> = Vec::new();
        push_word(&mut out, MAGIC);
        push_word(&mut out, VERSION);
        push_word(&mut out, self.dimensionality as u64);
        push_word(&mut out, self.max_elements as u64);
        push_word(&mut out, self.labels.len() as u64);
        push_word(&mut out, self.free.len() as u64);
        push_word(&mut out, self.ef_search as u64);
        push_word(&mut out, self.m as u64);
        push_word(&mut out, self.ef_construction as u64);
        push_word(&mut out, kernel_number(self.distance_function));
        proof {
            assert(out@ =~= header(self@));
        }
        let mut s: usize = 0;
        while s < self.labels.len()
            invariant
                self.wf(),
                s <= self@.slots(),
                out@ == header(self@) + records(self@, s as int),
            decreases self.labels.len() - s,
        {
            let ghost before = out@;
            push_word(&mut out, self.labels[s] as u64);
            if self.deleted[s] {
                out.push(1u8);
            } else {
                out.push(0u8);
            }
            push_components(&mut out, &self.vectors[s]);
            proof {
                assert(self@.vectors[s as int] == self.vectors@[s as int]@);
                assert(records(self@, s + 1) == records(self@, s as int) + record(self@, s as int));
                assert(out@ =~= before + record(self@, s as int));
            }
            s += 1;
        }
        let mut i: usize = 0;
        while i < self.free.len()
            invariant
                self.wf(),
                i <= self@.free.len(),
                out@ == header(self@) + records(self@, self@.slots() as int) + slot_words(self@.free.take(i as int)),
            decreases self.free.len() - i,
        {
            push_word(&mut out, self.free[i] as u64);
            proof {
                assert(self@.free.take(i + 1).drop_last() =~= self@.free.take(i as int));
            }
            i += 1;
        }
        proof {
            assert(self@.free.take(self@.free.len() as int) =~= self@.free);
        }
        out
    }

    /// Rebuilds an index from its persisted form, checking that the bytes
    /// describe a well-formed index of the configured dimensionality.
    #[verifier::rlimit(50)]
    pub fn from_bytes(bytes: &[u8], index_config: &IndexConfig, id: u128, persist_path: Option<String>) -> (r:
        Result<Self, HnswError>)
        ensures
            r is Ok ==> r->Ok_0.wf() && encodes(bytes@, r->Ok_0@, index_config.dimensionality as int, index_config.distance_function),
            forall|st: IndexState| #[trigger]
                encodes(bytes@, st, index_config.dimensionality as int, index_config.distance_function) ==> r is Ok && r->Ok_0@ == st,
            r is Ok ==> r->Ok_0.index_id() == id && r->Ok_0.path_view() == path_chars(persist_path),
            r is Err ==> r->Err_0 is IntegrityFailure,
    {
        let ghost d = index_config.dimensionality as int;
        let ghost kf = index_config.distance_function;
        let ghost exp: Option<IndexState> = if exists|st: IndexState| encodes(bytes@, st, d, kf) {
            Some(choose|st: IndexState| encodes(bytes@, st, d, kf))
        } else {
            None
        };
        proof {
            assert forall|st: IndexState| #[trigger] encodes(bytes@, st, d, kf) implies exp == Some(st) by {
                lemma_encoding_injective(st, exp->Some_0);
            }
            if exp is Some {
                lemma_layout(exp->Some_0);
            }
            assert forall|x: nat| #[trigger] word(x).len() == 8 by {
                lemma_word_len(x);
            }
        }
        let n_bytes = bytes.len();
        if n_bytes < HEADER_LEN {
            return Err(integrity("HNSW Integrity failure: truncated header"));
        }
        let magic = read_word(bytes, 0);
        let version = read_word(bytes, 8);
        let dim_w = read_word(bytes, 16);
        let cap_w = read_word(bytes, 24);
        let slots_w = read_word(bytes, 32);
        let nfree_w = read_word(bytes, 40);
        let ef_w = read_word(bytes, 48);
        let m_w = read_word(bytes, 56);
        let efc_w = read_word(bytes, 64);
        let kernel_w = read_word(bytes, 72);
        proof {
            if exp is Some {
                let st = exp->Some_0;
                lemma_word_injective(magic as nat, MAGIC as nat);
                lemma_word_injective(version as nat, VERSION as nat);
                lemma_word_injective(dim_w as nat, st.dim);
                lemma_word_injective(cap_w as nat, st.capacity);
                lemma_word_injective(slots_w as nat, st.slots());
                lemma_word_injective(nfree_w as nat, st.free.len());
                lemma_word_injective(ef_w as nat, st.ef_search);
                lemma_word_injective(m_w as nat, st.m);
                lemma_word_injective(efc_w as nat, st.ef_construction);
                lemma_word_injective(kernel_w as nat, kernel_code(st.distance));
            }
        }
        if magic != MAGIC || version != VERSION {
            return Err(integrity("HNSW Integrity failure: unknown format"));
        }
        if index_config.dimensionality <= 0 || dim_w != index_config.dimensionality as u64 {
            return Err(integrity("HNSW Integrity failure: dimensionality mismatch"));
        }
        if kernel_w != kernel_number(index_config.distance_function) {
            return Err(integrity("HNSW Integrity failure: distance function mismatch"));
        }
        if cap_w > usize::MAX as u64 || ef_w > usize::MAX as u64 || m_w > usize::MAX as u64 || efc_w
            > usize::MAX as u64 {
            return Err(integrity("HNSW Integrity failure: parameter out of range"));
        }
        if slots_w > cap_w || nfree_w > slots_w {
            return Err(integrity("HNSW Integrity failure: slot counts out of range"));
        }
        let dim = dim_w as usize;
        let rec: u64 = 9 + 4 * dim_w;
        let body: u64 = (n_bytes - HEADER_LEN) as u64;
        proof {
            if exp is Some {
                let st = exp->Some_0;
                assert(slots_w * rec <= body);
                lemma_div_is_ordered(slots_w * rec, body as int, rec as int);
                lemma_div_by_multiple(slots_w as int, rec as int);
            }
        }
        if slots_w > body / rec {
            return Err(integrity("HNSW Integrity failure: length mismatch"));
        }
        proof {
            lemma_fundamental_div_mod(body as int, rec as int);
            assert(slots_w * rec <= body) by (nonlinear_arith)
                requires
                    slots_w <= body / rec,
                    rec > 0,
                    body == rec * (body / rec) + body % rec,
                    body % rec >= 0,
            ;
        }
        let used: u64 = slots_w * rec;
        let rest: u64 = body - used;
        proof {
            if exp is Some {
                lemma_mod_multiples_basic(nfree_w as int, 8);
                lemma_div_by_multiple(nfree_w as int, 8);
            }
        }
        if rest % 8 != 0 || rest / 8 != nfree_w {
            return Err(integrity("HNSW Integrity failure: length mismatch"));
        }
        let n = slots_w as usize;
        let nfree = nfree_w as usize;
        let ghost r = rec as int;
        let mut labels: Vec<usize> = Vec::new();
        let mut deleted: Vec<bool> = Vec::new();
        let mut vectors: Vec<Vec<u32>> = Vec::new();
        let mut pos: usize = HEADER_LEN;
        let mut i: usize = 0;
        while i < n
            invariant
                n_bytes == bytes@.len(),
                n == slots_w,
                dim == dim_w,
                dim_w > 0,
                dim_w == d,
                r == 9 + 4 * dim,
                i <= n,
                pos == HEADER_LEN + i * r,
                HEADER_LEN + n * r + 8 * nfree == n_bytes,
                labels@.len() == i,
                deleted@.len() == i,
                vectors@.len() == i,
                forall|t: int| 0 <= t < i ==> #[trigger] vectors@[t]@.len() == dim,
                bytes@.subrange(HEADER_LEN as int, pos as int) == records(
                    slot_state(labels@, vectors@, deleted@, dim as nat),
                    i as int,
                ),
                exp is Some ==> encodes(bytes@, exp->Some_0, d, kf) && exp->Some_0.slots() == n,
                forall|st: IndexState| #[trigger] encodes(bytes@, st, d, kf) ==> exp == Some(st),
                d == index_config.dimensionality as int,
                kf == index_config.distance_function,
            decreases n - i,
        {
            proof {
                assert(pos + r <= HEADER_LEN + n * r) by (nonlinear_arith)
                    requires
                        pos == HEADER_LEN + i * r,
                        i < n,
                        r > 0,
                ;
            }
            let ghost old_state = slot_state(labels@, vectors@, deleted@, dim as nat);
            proof {
                if exp is Some {
                    let st = exp->Some_0;
                    lemma_layout(st);
                    lemma_record_at(st, n as int, i as int);
                    let e = encode_state(st);
                    assert(bytes@.subrange(pos as int, pos + r) =~= record(st, i as int)) by {
                        assert(record(st, i as int) == records(st, n as int).subrange(i * r, i * r + r));
                        assert(records(st, n as int) == e.subrange(HEADER_LEN as int, HEADER_LEN + n * r));
                    }
                    assert(st.vectors[i as int].len() == dim);
                }
            }
            assert(exp is Some ==> bytes@.subrange(pos as int, pos + 9 + 4 * dim) == record(exp->Some_0, i as int)
                && exp->Some_0.vectors[i as int].len() == dim);
            let (label, flag, v) = match read_record(bytes, pos, dim) {
                Some(rec) => rec,
                None => {
                    proof {
                        assert(exp is None) by {
                            if exp is Some {
                                let st = exp->Some_0;
                                assert(record_bytes(st.labels[i as int], st.deleted[i as int], st.vectors[i as int])
                                    != bytes@.subrange(pos as int, pos + 9 + 4 * dim));
                            }
                        }
                        assert forall|st: IndexState| #[trigger] encodes(bytes@, st, d, kf) implies false by {
                            assert(exp == Some(st));
                        }
                    }
                    return Err(integrity("HNSW Integrity failure: bad slot record"));
                },
            };
            let ghost vv = v@;
            labels.push(label);
            deleted.push(flag);
            vectors.push(v);
            proof {
                let ns = slot_state(labels@, vectors@, deleted@, dim as nat);
                assert forall|t: int| 0 <= t < i implies #[trigger] same_slot(ns, old_state, t) by {}
                lemma_records_prefix(ns, old_state, i as int);
                assert(ns.vectors[i as int] == vv);
                assert(record(ns, i as int) == bytes@.subrange(pos as int, pos + r));
                assert(records(ns, i + 1) == records(ns, i as int) + record(ns, i as int));
                assert(bytes@.subrange(HEADER_LEN as int, pos + r) =~= bytes@.subrange(HEADER_LEN as int, pos as int)
                    + bytes@.subrange(pos as int, pos + r));
                assert(pos + r == HEADER_LEN + (i + 1) * r) by (nonlinear_arith)
                    requires
                        pos == HEADER_LEN + i * r,
                ;
            }
            pos = pos + 9 + 4 * dim;
            i += 1;
        }
        let ghost q0 = pos as int;
        proof {
            assert(n * r >= 0) by (nonlinear_arith)
                requires
                    r > 0,
            ;
        }
        let mut free: Vec<usize> = Vec::new();
        let mut k: usize = 0;
        while k < nfree
            invariant
                n_bytes == bytes@.len(),
                n == slots_w,
                q0 == HEADER_LEN + n * r,
                q0 + 8 * nfree == n_bytes,
                k <= nfree,
                pos == q0 + 8 * k,
                free@.len() == k,
                forall|t: int| 0 <= t < k ==> #[trigger] free@[t] < n,
                bytes@.subrange(q0, pos as int) == slot_words(free@),
                exp is Some ==> encodes(bytes@, exp->Some_0, d, kf) && exp->Some_0.slots() == n
                    && exp->Some_0.free.len() == nfree && exp->Some_0.dim == dim_w,
                forall|st: IndexState| #[trigger] encodes(bytes@, st, d, kf) ==> exp == Some(st),
                d == index_config.dimensionality as int,
                kf == index_config.distance_function,
                q0 >= HEADER_LEN,
            decreases nfree - k,
        {
            let x = read_word(bytes, pos);
            proof {
                if exp is Some {
                    let st = exp->Some_0;
                    lemma_layout(st);
                    lemma_slot_word_at(st.free, k as int);
                    let e = encode_state(st);
                    assert(bytes@.subrange(pos as int, pos + 8) =~= slot_words(st.free).subrange(8 * k, 8 * k + 8));
                    lemma_word_injective(x as nat, st.free[k as int] as nat);
                }
            }
            assert(exp is Some ==> x == exp->Some_0.free[k as int] && exp->Some_0.free[k as int] < n);
            if x >= slots_w {
                proof {
                    assert forall|st: IndexState| #[trigger] encodes(bytes@, st, d, kf) implies false by {
                        assert(exp == Some(st));
                    }
                }
                return Err(integrity("HNSW Integrity failure: deleted slot out of range"));
            }
            let ghost before = free@;
            free.push(x as usize);
            proof {
                assert(free@.drop_last() =~= before);
                assert(bytes@.subrange(q0, pos + 8) =~= bytes@.subrange(q0, pos as int) + bytes@.subrange(pos as int, pos + 8));
            }
            pos = pos + 8;
            k += 1;
        }
        let ix = HnswIndex {
            vectors,
            labels,
            deleted,
            free,
            max_elements: cap_w as usize,
            ef_search: ef_w as usize,
            m: m_w as usize,
            ef_construction: efc_w as usize,
            random_seed: 0,
            distance_function: index_config.distance_function,
            persist_path,
            dimensionality: index_config.dimensionality,
            id,
        };
        proof {
            let rs = ix@;
            assert forall|t: int| 0 <= t < ix.free@.len() implies #[trigger] ix.free@[t] < ix.labels@.len() by {}
            assert(rs.vectors == slot_state(rs.labels, ix.vectors@, rs.deleted, dim as nat).vectors);
            assert forall|t: int| 0 <= t < n implies #[trigger] same_slot(rs, slot_state(rs.labels, ix.vectors@, rs.deleted, dim as nat), t) by {}
            lemma_records_prefix(rs, slot_state(rs.labels, ix.vectors@, rs.deleted, dim as nat), n as int);
            assert(header(rs) =~= bytes@.subrange(0, HEADER_LEN as int));
            assert(bytes@ =~= bytes@.subrange(0, HEADER_LEN as int) + bytes@.subrange(HEADER_LEN as int, q0)
                + bytes@.subrange(q0, n_bytes as int));
            assert(bytes@ == encode_state(rs));
            assert(encodable(rs));
            if exp is Some {
                lemma_encoding_injective(rs, exp->Some_0);
            }
        }
        if !ix.links_ok() {
            return Err(integrity("HNSW Integrity failure: inconsistent deletion or label maps"));
        }
        Ok(ix)
    }

    /// The deleted-slot list and the labels are consistent: the list names
    /// each deleted slot exactly once and nothing else, and no two slots share
    /// a label.
    fn links_ok(&self) -> (r: bool)
        requires
            self.deleted@.len() == self.labels@.len(),
            forall|t: int| 0 <= t < self.free@.len() ==> #[trigger] self.free@[t] < self.labels@.len(),
        ensures
            r == ({
                let st = self@;
                &&& st.free.no_duplicates()
                &&& forall|i: int| 0 <= i < st.free.len() ==> #[trigger] st.deleted[st.free[i] as int]
                &&& forall|t: int|
                    0 <= t < st.slots() && #[trigger] st.deleted[t] ==> st.free.contains(t as usize)
                &&& forall|a: int, b: int|
                    0 <= a < st.slots() && 0 <= b < st.slots() && a != b ==> #[trigger] st.labels[a]
                        != #[trigger] st.labels[b]
            }),
    {
        let n = self.labels.len();
        let mut seen: Vec<bool> = Vec::new();
        let mut t: usize = 0;
        while t < n
            invariant
                t <= n,
                seen@.len() == t,
                forall|u: int| 0 <= u < t ==> !#[trigger] seen@[u],
            decreases n - t,
        {
            seen.push(false);
            t += 1;
        }
        let mut i: usize = 0;
        while i < self.free.len()
            invariant
                n == self.labels@.len(),
                self.deleted@.len() == n,
                forall|t: int| 0 <= t < self.free@.len() ==> #[trigger] self.free@[t] < n,
                i <= self.free@.len(),
                seen@.len() == n,
                forall|u: int| 0 <= u < n ==> #[trigger] seen@[u] == self.free@.take(i as int).contains(u as usize),
                self.free@.take(i as int).no_duplicates(),
                forall|j: int| 0 <= j < i ==> #[trigger] self.deleted@[self.free@[j] as int],
            decreases self.free.len() - i,
        {
            let f = self.free[i];
            if !self.deleted[f] {
                proof {
                    assert(!self@.deleted[self@.free[i as int] as int]);
                }
                return false;
            }
            if seen[f] {
                proof {
                    let tk = self.free@.take(i as int);
                    let j = choose|j: int| 0 <= j < tk.len() && #[trigger] tk[j] == f;
                    assert(self.free@[j] == self.free@[i as int]);
                }
                return false;
            }
            let ghost before = self.free@.take(i as int);
            seen.set(f, true);
            proof {
                assert(self.free@.take(i + 1) =~= before.push(f));
                assert forall|u: int| 0 <= u < n implies #[trigger] seen@[u] == self.free@.take(i + 1).contains(u as usize) by {
                    if u == f as int {
                        assert(self.free@.take(i + 1)[i as int] == f);
                    } else {
                        let nw = self.free@.take(i + 1);
                        if nw.contains(u as usize) {
                            let j = choose|j: int| 0 <= j < nw.len() && #[trigger] nw[j] == u as usize;
                            assert(before[j] == u as usize);
                        }
                        if before.contains(u as usize) {
                            let j = choose|j: int| 0 <= j < before.len() && #[trigger] before[j] == u as usize;
                            assert(nw[j] == u as usize);
                        }
                    }
                }
            }
            i += 1;
        }
        proof {
            assert(self.free@.take(self.free@.len() as int) =~= self.free@);
        }
        let mut s: usize = 0;
        while s < n
            invariant
                n == self.labels@.len(),
                self.deleted@.len() == n,
                seen@.len() == n,
                s <= n,
                forall|u: int| 0 <= u < n ==> #[trigger] seen@[u] == self.free@.contains(u as usize),
                forall|u: int| 0 <= u < s && #[trigger] self.deleted@[u] ==> self.free@.contains(u as usize),
            decreases n - s,
        {
            if self.deleted[s] && !seen[s] {
                proof {
                    assert(self@.deleted[s as int] && !self@.free.contains(s));
                }
                return false;
            }
            s += 1;
        }
        let mut a: usize = 0;
        while a < n
            invariant
                n == self.labels@.len(),
                a <= n,
                forall|x: int, y: int|
                    0 <= x < a && 0 <= y < n && x != y ==> #[trigger] self@.labels[x] != #[trigger] self@.labels[y],
            decreases n - a,
        {
            let mut b: usize = 0;
            while b < n
                invariant
                    n == self.labels@.len(),
                    a < n,
                    b <= n,
                    forall|x: int, y: int|
                        0 <= x < a && 0 <= y < n && x != y ==> #[trigger] self@.labels[x] != #[trigger] self@.labels[y],
                    forall|y: int| 0 <= y < b && a != y ==> self@.labels[a as int] != #[trigger] self@.labels[y],
                decreases n - b,
            {
                if a != b && self.labels[a] == self.labels[b] {
                    proof {
                        assert(self@.labels[a as int] == self@.labels[b as int]);
                    }
                    return false;
                }
                b += 1;
            }
            a += 1;
        }
        proof {
            assert forall|x: int, y: int| 0 <= x < n && 0 <= y < n && x != y implies #[trigger] self@.labels[x]
                != #[trigger] self@.labels[y] by {
                if y < x {
                    assert(self@.labels[y] != self@.labels[x]);
                }
            }
        }
        true
    }
}

} // verus!
