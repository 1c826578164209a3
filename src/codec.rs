use crate::state::{DistanceFunction, IndexState};
use vstd::bytes::{
    lemma_auto_spec_u32_to_from_le_bytes, lemma_auto_spec_u64_to_from_le_bytes,
    spec_u32_to_le_bytes, spec_u64_to_le_bytes,
};
use vstd::prelude::*;

verus! {

/// First word of every encoded index.
pub const MAGIC: u64 = 0x484e_5357_494e_4458;

/// Version of the layout below.
pub const VERSION: u64 = 1;

/// Bytes before the first slot record: ten little-endian words.
pub const HEADER_LEN: usize = 80;

/// The number that stands for a distance function in the header.
pub open spec fn kernel_code(k: DistanceFunction) -> nat {
    match k {
        DistanceFunction::Euclidean => 0,
        DistanceFunction::InnerProduct => 1,
        DistanceFunction::Cosine => 2,
    }
}

/// A number as a little-endian 64-bit word.
pub open spec fn word(x: nat) -> Seq<u8> {
    spec_u64_to_le_bytes(x as u64)
}

/// Vector components as little-endian 32-bit words.
pub open spec fn components(v: Seq<u32>) -> Seq<u8>
    decreases v.len(),
{
    if v.len() == 0 {
        Seq::empty()
    } else {
        components(v.drop_last()) + spec_u32_to_le_bytes(v.last())
    }
}

/// Size in bytes of one slot record in an index of dimensionality `dim`.
pub open spec fn record_len(dim: nat) -> nat {
    9 + 4 * dim
}

/// A slot record: the label, a deletion byte (1 or 0) and the vector.
pub open spec fn record_bytes(label: usize, deleted: bool, v: Seq<u32>) -> Seq<u8> {
    word(label as nat) + seq![if deleted { 1u8 } else { 0u8 }] + components(v)
}

/// Record of slot `t`.
pub open spec fn record(st: IndexState, t: int) -> Seq<u8> {
    record_bytes(st.labels[t], st.deleted[t], st.vectors[t])
}

/// Records of the first `n` slots, in slot order.
pub open spec fn records(st: IndexState, n: int) -> Seq<u8>
    decreases n,
{
    if n <= 0 {
        Seq::empty()
    } else {
        records(st, n - 1) + record(st, n - 1)
    }
}

/// The deleted slots in deletion order, one word each.
pub open spec fn slot_words(f: Seq<usize>) -> Seq<u8>
    decreases f.len(),
{
    if f.len() == 0 {
        Seq::empty()
    } else {
        slot_words(f.drop_last()) + word(f.last() as nat)
    }
}

/// Magic, version, dimensionality, capacity, slot count, deleted count,
/// search beam width, M, construction beam width and distance function.
pub open spec fn header(st: IndexState) -> Seq<u8> {
    word(MAGIC as nat) + word(VERSION as nat) + word(st.dim) + word(st.capacity) + word(st.slots())
        + word(st.free.len()) + word(st.ef_search) + word(st.m) + word(st.ef_construction)
        + word(kernel_code(st.distance))
}

/// The persisted form of an index: header, slot records, deleted slots.
pub open spec fn encode_state(st: IndexState) -> Seq<u8> {
    header(st) + records(st, st.slots() as int) + slot_words(st.free)
}

pub proof fn lemma_word_len(x: nat)
    ensures
        word(x).len() == 8,
{
    lemma_auto_spec_u64_to_from_le_bytes();
    assert(spec_u64_to_le_bytes(x as u64).len() == 8);
}

pub proof fn lemma_components_len(v: Seq<u32>)
    ensures
        components(v).len() == 4 * v.len(),
    decreases v.len(),
{
    lemma_auto_spec_u32_to_from_le_bytes();
    if v.len() > 0 {
        lemma_components_len(v.drop_last());
        assert(spec_u32_to_le_bytes(v.last()).len() == 4);
    }
}

pub proof fn lemma_record_len(st: IndexState, t: int)
    requires
        0 <= t < st.vectors.len(),
        st.vectors[t].len() == st.dim,
    ensures
        record(st, t).len() == record_len(st.dim),
{
    lemma_word_len(st.labels[t] as nat);
    lemma_components_len(st.vectors[t]);
}

pub proof fn lemma_records_len(st: IndexState, n: int)
    requires
        0 <= n <= st.vectors.len(),
        forall|t: int| 0 <= t < n ==> #[trigger] st.vectors[t].len() == st.dim,
    ensures
        records(st, n).len() == n * record_len(st.dim),
    decreases n,
{
    if n > 0 {
        lemma_records_len(st, n - 1);
        lemma_record_len(st, n - 1);
        assert(records(st, n) == records(st, n - 1) + record(st, n - 1));
        assert((n - 1) * record_len(st.dim) + record_len(st.dim) == n * record_len(st.dim)) by (nonlinear_arith);
    } else {
        assert(records(st, n) =~= Seq::<u8>::empty());
        assert(n * record_len(st.dim) == 0);
    }
}

pub proof fn lemma_slot_words_len(f: Seq<usize>)
    ensures
        slot_words(f).len() == 8 * f.len(),
    decreases f.len(),
{
    if f.len() > 0 {
        lemma_slot_words_len(f.drop_last());
        lemma_word_len(f.last() as nat);
    }
}

pub proof fn lemma_header_len(st: IndexState)
    ensures
        header(st).len() == HEADER_LEN,
{
    lemma_auto_spec_u64_to_from_le_bytes();
    assert forall|x: nat| #[trigger] word(x).len() == 8 by {
        lemma_word_len(x);
    }
}

/// Two concatenations with first parts of one length agree part by part.
pub proof fn lemma_split(a1: Seq<u8>, a2: Seq<u8>, b1: Seq<u8>, b2: Seq<u8>)
    requires
        a1.len() == b1.len(),
        a1 + a2 == b1 + b2,
    ensures
        a1 == b1,
        a2 == b2,
{
    assert(a1 =~= (a1 + a2).subrange(0, a1.len() as int));
    assert(b1 =~= (b1 + b2).subrange(0, b1.len() as int));
    assert(a2 =~= (a1 + a2).subrange(a1.len() as int, (a1 + a2).len() as int));
    assert(b2 =~= (b1 + b2).subrange(b1.len() as int, (b1 + b2).len() as int));
}

/// Words of numbers below 2^64 tell the numbers apart.
pub proof fn lemma_word_injective(x: nat, y: nat)
    requires
        x <= u64::MAX,
        y <= u64::MAX,
        word(x) == word(y),
    ensures
        x == y,
{
    lemma_auto_spec_u64_to_from_le_bytes();
    assert(vstd::bytes::spec_u64_from_le_bytes(word(x)) == x as u64);
    assert(vstd::bytes::spec_u64_from_le_bytes(word(y)) == y as u64);
}

pub proof fn lemma_components_injective(v: Seq<u32>, w: Seq<u32>)
    requires
        v.len() == w.len(),
        components(v) == components(w),
    ensures
        v == w,
    decreases v.len(),
{
    lemma_auto_spec_u32_to_from_le_bytes();
    if v.len() > 0 {
        lemma_components_len(v.drop_last());
        lemma_components_len(w.drop_last());
        lemma_split(components(v.drop_last()), spec_u32_to_le_bytes(v.last()),
            components(w.drop_last()), spec_u32_to_le_bytes(w.last()));
        lemma_components_injective(v.drop_last(), w.drop_last());
        assert(vstd::bytes::spec_u32_from_le_bytes(spec_u32_to_le_bytes(v.last())) == v.last());
        assert(vstd::bytes::spec_u32_from_le_bytes(spec_u32_to_le_bytes(w.last())) == w.last());
        assert(v =~= v.drop_last().push(v.last()));
        assert(w =~= w.drop_last().push(w.last()));
    }
}

pub proof fn lemma_slot_words_injective(f: Seq<usize>, g: Seq<usize>)
    requires
        f.len() == g.len(),
        slot_words(f) == slot_words(g),
    ensures
        f == g,
    decreases f.len(),
{
    if f.len() > 0 {
        lemma_slot_words_len(f.drop_last());
        lemma_slot_words_len(g.drop_last());
        lemma_split(slot_words(f.drop_last()), word(f.last() as nat), slot_words(g.drop_last()),
            word(g.last() as nat));
        lemma_slot_words_injective(f.drop_last(), g.drop_last());
        lemma_word_injective(f.last() as nat, g.last() as nat);
        assert(f =~= f.drop_last().push(f.last()));
        assert(g =~= g.drop_last().push(g.last()));
    }
}

/// The well-shaped states whose slot data this lemma compares: one vector
/// of the common dimensionality and one flag per label.
pub open spec fn shaped(st: IndexState, n: int) -> bool {
    &&& 0 <= n <= st.labels.len()
    &&& st.vectors.len() == st.labels.len()
    &&& st.deleted.len() == st.labels.len()
    &&& forall|t: int| 0 <= t < st.labels.len() ==> #[trigger] st.vectors[t].len() == st.dim
}

/// Slot `t` has the same label, flag and vector in `a` and `b`.
pub open spec fn same_slot(a: IndexState, b: IndexState, t: int) -> bool {
    a.labels[t] == b.labels[t] && a.deleted[t] == b.deleted[t] && a.vectors[t] == b.vectors[t]
}

pub proof fn lemma_records_injective(a: IndexState, b: IndexState, n: int)
    requires
        shaped(a, n),
        shaped(b, n),
        a.dim == b.dim,
        records(a, n) == records(b, n),
    ensures
        forall|t: int| 0 <= t < n ==> #[trigger] same_slot(a, b, t),
    decreases n,
{
    if n > 0 {
        let t = n - 1;
        lemma_records_len(a, n - 1);
        lemma_records_len(b, n - 1);
        lemma_split(records(a, n - 1), record(a, t), records(b, n - 1), record(b, t));
        lemma_records_injective(a, b, n - 1);
        lemma_word_len(a.labels[t] as nat);
        lemma_word_len(b.labels[t] as nat);
        let fa = seq![if a.deleted[t] { 1u8 } else { 0u8 }];
        let fb = seq![if b.deleted[t] { 1u8 } else { 0u8 }];
        lemma_split(word(a.labels[t] as nat) + fa, components(a.vectors[t]),
            word(b.labels[t] as nat) + fb, components(b.vectors[t]));
        lemma_split(word(a.labels[t] as nat), fa, word(b.labels[t] as nat), fb);
        assert(fa[0] == fb[0]);
        lemma_word_injective(a.labels[t] as nat, b.labels[t] as nat);
        lemma_components_injective(a.vectors[t], b.vectors[t]);
        assert(same_slot(a, b, t));
    }
}

/// A state whose encoding determines it: consistent per-slot lengths and
/// numeric parameters that fit in a word.
pub open spec fn encodable(st: IndexState) -> bool {
    shaped(st, st.slots() as int) && st.fits() && st.slots() <= usize::MAX && st.free.len() <= usize::MAX
}

/// Two encodable states with the same encoding are the same state.
pub proof fn lemma_encoding_injective(a: IndexState, b: IndexState)
    requires
        encodable(a),
        encodable(b),
        encode_state(a) == encode_state(b),
    ensures
        a == b,
{
    lemma_header_len(a);
    lemma_header_len(b);
    let ra = records(a, a.slots() as int);
    let rb = records(b, b.slots() as int);
    assert(encode_state(a) =~= header(a) + (ra + slot_words(a.free)));
    assert(encode_state(b) =~= header(b) + (rb + slot_words(b.free)));
    lemma_split(header(a), records(a, a.slots() as int) + slot_words(a.free), header(b), records(b,
        b.slots() as int) + slot_words(b.free));
    assert forall|x: nat| #[trigger] word(x).len() == 8 by {
        lemma_word_len(x);
    }
    let ha = header(a);
    let hb = header(b);
    assert(ha.subrange(16, 24) =~= word(a.dim));
    assert(hb.subrange(16, 24) =~= word(b.dim));
    assert(ha.subrange(24, 32) =~= word(a.capacity));
    assert(hb.subrange(24, 32) =~= word(b.capacity));
    assert(ha.subrange(32, 40) =~= word(a.slots()));
    assert(hb.subrange(32, 40) =~= word(b.slots()));
    assert(ha.subrange(40, 48) =~= word(a.free.len()));
    assert(hb.subrange(40, 48) =~= word(b.free.len()));
    assert(ha.subrange(48, 56) =~= word(a.ef_search));
    assert(hb.subrange(48, 56) =~= word(b.ef_search));
    assert(ha.subrange(56, 64) =~= word(a.m));
    assert(hb.subrange(56, 64) =~= word(b.m));
    assert(ha.subrange(64, 72) =~= word(a.ef_construction));
    assert(hb.subrange(64, 72) =~= word(b.ef_construction));
    assert(ha.subrange(72, 80) =~= word(kernel_code(a.distance)));
    assert(hb.subrange(72, 80) =~= word(kernel_code(b.distance)));
    lemma_word_injective(kernel_code(a.distance), kernel_code(b.distance));
    lemma_word_injective(a.dim, b.dim);
    lemma_word_injective(a.capacity, b.capacity);
    lemma_word_injective(a.slots(), b.slots());
    lemma_word_injective(a.free.len(), b.free.len());
    lemma_word_injective(a.ef_search, b.ef_search);
    lemma_word_injective(a.m, b.m);
    lemma_word_injective(a.ef_construction, b.ef_construction);
    let n = a.slots() as int;
    lemma_records_len(a, n);
    lemma_records_len(b, n);
    lemma_split(records(a, n), slot_words(a.free), records(b, n), slot_words(b.free));
    lemma_records_injective(a, b, n);
    lemma_slot_words_injective(a.free, b.free);
    assert forall|t: int| 0 <= t < n implies a.labels[t] == b.labels[t] && a.deleted[t] == b.deleted[t]
        && a.vectors[t] == b.vectors[t] by {
        assert(same_slot(a, b, t));
    }
    assert(a.labels =~= b.labels);
    assert(a.deleted =~= b.deleted);
    assert(a.vectors =~= b.vectors);
}

/// Record `i` sits at offset `i * record_len` in the records.
pub proof fn lemma_record_at(st: IndexState, n: int, i: int)
    requires
        shaped(st, n),
        0 <= i < n,
    ensures
        i * record_len(st.dim) + record_len(st.dim) <= records(st, n).len(),
        records(st, n).subrange(i * record_len(st.dim), i * record_len(st.dim) + record_len(st.dim))
            == record(st, i),
    decreases n,
{
    let r = record_len(st.dim) as int;
    lemma_records_len(st, n - 1);
    lemma_records_len(st, n);
    lemma_record_len(st, n - 1);
    assert(records(st, n) == records(st, n - 1) + record(st, n - 1));
    if i == n - 1 {
        assert(records(st, n).subrange(i * r, i * r + r) =~= record(st, i));
    } else {
        lemma_record_at(st, n - 1, i);
        assert(i * r + r <= (n - 1) * r) by (nonlinear_arith)
            requires
                i < n - 1,
                r >= 0,
        ;
        assert(records(st, n).subrange(i * r, i * r + r) =~= records(st, n - 1).subrange(i * r, i * r + r));
    }
}

/// Word `i` sits at offset `8 * i` in the deleted-slot words.
pub proof fn lemma_slot_word_at(f: Seq<usize>, i: int)
    requires
        0 <= i < f.len(),
    ensures
        slot_words(f).subrange(8 * i, 8 * i + 8) == word(f[i] as nat),
    decreases f.len(),
{
    lemma_slot_words_len(f.drop_last());
    lemma_word_len(f.last() as nat);
    if i == f.len() - 1 {
        assert(slot_words(f).subrange(8 * i, 8 * i + 8) =~= word(f[i] as nat));
    } else {
        lemma_slot_word_at(f.drop_last(), i);
        assert(slot_words(f).subrange(8 * i, 8 * i + 8) =~= slot_words(f.drop_last()).subrange(8 * i, 8 * i + 8));
    }
}

/// Where each part of an encoding lies.
pub proof fn lemma_layout(st: IndexState)
    requires
        encodable(st),
    ensures
        ({
            let e = encode_state(st);
            let n = st.slots() as int;
            let body = n * record_len(st.dim);
            &&& e.len() == HEADER_LEN + body + 8 * st.free.len()
            &&& e.subrange(0, 8) == word(MAGIC as nat)
            &&& e.subrange(8, 16) == word(VERSION as nat)
            &&& e.subrange(16, 24) == word(st.dim)
            &&& e.subrange(24, 32) == word(st.capacity)
            &&& e.subrange(32, 40) == word(st.slots())
            &&& e.subrange(40, 48) == word(st.free.len())
            &&& e.subrange(48, 56) == word(st.ef_search)
            &&& e.subrange(56, 64) == word(st.m)
            &&& e.subrange(64, 72) == word(st.ef_construction)
            &&& e.subrange(72, 80) == word(kernel_code(st.distance))
            &&& e.subrange(HEADER_LEN as int, HEADER_LEN + body) == records(st, n)
            &&& e.subrange(HEADER_LEN + body, e.len() as int) == slot_words(st.free)
        }),
{
    let e = encode_state(st);
    let n = st.slots() as int;
    lemma_header_len(st);
    lemma_records_len(st, n);
    lemma_slot_words_len(st.free);
    assert forall|x: nat| #[trigger] word(x).len() == 8 by {
        lemma_word_len(x);
    }
    let h = header(st);
    assert(e.subrange(0, 80) =~= h);
    assert(h.subrange(0, 8) =~= word(MAGIC as nat));
    assert(h.subrange(8, 16) =~= word(VERSION as nat));
    assert(h.subrange(16, 24) =~= word(st.dim));
    assert(h.subrange(24, 32) =~= word(st.capacity));
    assert(h.subrange(32, 40) =~= word(st.slots()));
    assert(h.subrange(40, 48) =~= word(st.free.len()));
    assert(h.subrange(48, 56) =~= word(st.ef_search));
    assert(h.subrange(56, 64) =~= word(st.m));
    assert(h.subrange(64, 72) =~= word(st.ef_construction));
    assert(h.subrange(72, 80) =~= word(kernel_code(st.distance)));
    assert(e.subrange(0, 8) =~= h.subrange(0, 8));
    assert(e.subrange(8, 16) =~= h.subrange(8, 16));
    assert(e.subrange(16, 24) =~= h.subrange(16, 24));
    assert(e.subrange(24, 32) =~= h.subrange(24, 32));
    assert(e.subrange(32, 40) =~= h.subrange(32, 40));
    assert(e.subrange(40, 48) =~= h.subrange(40, 48));
    assert(e.subrange(48, 56) =~= h.subrange(48, 56));
    assert(e.subrange(56, 64) =~= h.subrange(56, 64));
    assert(e.subrange(64, 72) =~= h.subrange(64, 72));
    assert(e.subrange(72, 80) =~= h.subrange(72, 80));
    let body = n * record_len(st.dim);
    assert(e.subrange(80, 80 + body) =~= records(st, n));
    assert(e.subrange(80 + body, e.len() as int) =~= slot_words(st.free));
}

/// Records are determined by the slots they cover.
pub proof fn lemma_records_prefix(a: IndexState, b: IndexState, n: int)
    requires
        0 <= n,
        forall|t: int| 0 <= t < n ==> #[trigger] same_slot(a, b, t),
    ensures
        records(a, n) == records(b, n),
    decreases n,
{
    if n > 0 {
        lemma_records_prefix(a, b, n - 1);
        assert(same_slot(a, b, n - 1));
    }
}

} // verus!
