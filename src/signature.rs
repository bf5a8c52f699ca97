use std::collections::{HashMap, HashSet};
use vstd::prelude::*;
use crate::descriptor::{TypeDescriptor, layout_key, key_lt, keys_of, ids_of};

verus! {

broadcast use vstd::std_specs::hash::group_hash_axioms;

/// A bundle declares the same component type more than once.
pub struct DuplicateComponent {
    /// Name of the offending bundle.
    pub bundle: String,
    /// Name of the component type that occurs again.
    pub component: String,
}

/// The identity at position `i` already occurs before it.
pub open spec fn repeats_earlier(ids: Seq<u64>, i: int) -> bool {
    exists|j: int| 0 <= j < i && ids[j] == ids[i]
}

pub open spec fn has_repeat(ids: Seq<u64>) -> bool {
    exists|i: int| 0 <= i < ids.len() && repeats_earlier(ids, i)
}

/// Position `i` is the first one whose identity occurs before it.
pub open spec fn first_repeat(ids: Seq<u64>, i: int) -> bool {
    &&& 0 <= i < ids.len()
    &&& repeats_earlier(ids, i)
    &&& forall|k: int| 0 <= k < i ==> !repeats_earlier(ids, k)
}

pub open spec fn strictly_ordered(ks: Seq<(usize, u64)>) -> bool {
    forall|i: int, j: int| 0 <= i < j < ks.len() ==> key_lt(ks[i], ks[j])
}

/// The one strictly ordered sequence that holds exactly the keys of `s`.
pub open spec fn canonical_order(s: Set<(usize, u64)>) -> Seq<(usize, u64)> {
    choose|ks: Seq<(usize, u64)>| ks.to_set() == s && strictly_ordered(ks)
}

/// The signature of a set of component types: their identities, by
/// decreasing alignment and then by increasing identity.
pub open spec fn signature_of(ds: Seq<TypeDescriptor>) -> Seq<u64> {
    canonical_order(keys_of(ds).to_set()).map_values(|k: (usize, u64)| k.1)
}

/// Outcome of canonicalization as plain values: the signature, or the
/// bundle's name and the repeated component's name.
pub type OutcomeView = Result<Seq<u64>, (Seq<char>, Seq<char>)>;

pub open spec fn outcome_view(r: &Result<Vec<u64>, DuplicateComponent>) -> OutcomeView {
    match r {
        Ok(sig) => Ok(sig@),
        Err(e) => Err((e.bundle@, e.component@)),
    }
}

pub open spec fn first_repeat_at(ids: Seq<u64>) -> int {
    choose|i: int| first_repeat(ids, i)
}

/// What canonicalizing the bundle `bundle` with component types `ds` gives.
pub open spec fn canonical_outcome(bundle: Seq<char>, ds: Seq<TypeDescriptor>) -> OutcomeView {
    if has_repeat(ids_of(ds)) {
        Err((bundle, ds[first_repeat_at(ids_of(ds))].name@))
    } else {
        Ok(signature_of(ds))
    }
}

proof fn lemma_first_repeat_unique(ids: Seq<u64>, i: int, j: int)
    requires
        first_repeat(ids, i),
        first_repeat(ids, j),
    ensures
        i == j,
{
    if i < j {
        assert(!repeats_earlier(ids, i));
    } else if j < i {
        assert(!repeats_earlier(ids, j));
    }
}

/// Two strictly ordered sequences with the same elements are equal.
pub proof fn lemma_ordered_unique(a: Seq<(usize, u64)>, b: Seq<(usize, u64)>)
    requires
        strictly_ordered(a),
        strictly_ordered(b),
        a.to_set() == b.to_set(),
    ensures
        a == b,
    decreases a.len(),
{
    if a.len() == 0 {
        if b.len() > 0 {
            assert(b.to_set().contains(b[0]));
        }
        assert(a =~= b);
    } else if b.len() == 0 {
        assert(a.to_set().contains(a[0]));
    } else {
        assert(a.to_set().contains(a[0]));
        assert(b.to_set().contains(b[0]));
        let i = choose|i: int| 0 <= i < a.len() && a[i] == b[0];
        let j = choose|j: int| 0 <= j < b.len() && b[j] == a[0];
        if j > 0 {
            assert(key_lt(b[0], b[j]));
            if i > 0 {
                assert(key_lt(a[0], a[i]));
            }
        }
        assert(a[0] == b[0]);
        let ta = a.drop_first();
        let tb = b.drop_first();
        assert forall|x: (usize, u64)| ta.to_set().contains(x) implies tb.to_set().contains(x) by {
            let k = choose|k: int| 0 <= k < ta.len() && ta[k] == x;
            assert(a.to_set().contains(x));
            assert(key_lt(a[0], a[k + 1]));
            assert(b.to_set().contains(x));
            let m = choose|m: int| 0 <= m < b.len() && b[m] == x;
            assert(m != 0);
            assert(tb[m - 1] == x);
        }
        assert forall|x: (usize, u64)| tb.to_set().contains(x) implies ta.to_set().contains(x) by {
            let k = choose|k: int| 0 <= k < tb.len() && tb[k] == x;
            assert(b.to_set().contains(x));
            assert(key_lt(b[0], b[k + 1]));
            assert(a.to_set().contains(x));
            let m = choose|m: int| 0 <= m < a.len() && a[m] == x;
            assert(m != 0);
            assert(ta[m - 1] == x);
        }
        assert(ta.to_set() =~= tb.to_set());
        lemma_ordered_unique(ta, tb);
        assert(a =~= seq![a[0]] + ta);
        assert(b =~= seq![b[0]] + tb);
    }
}

/// A strictly ordered sequence is the canonical order of its elements.
pub proof fn lemma_canonical_order_of(ks: Seq<(usize, u64)>)
    requires
        strictly_ordered(ks),
    ensures
        canonical_order(ks.to_set()) == ks,
{
    let c = canonical_order(ks.to_set());
    assert(ks.to_set() == ks.to_set() && strictly_ordered(ks));
    lemma_ordered_unique(c, ks);
}

pub open spec fn key_le(a: (usize, u64), b: (usize, u64)) -> bool {
    a == b || key_lt(a, b)
}

/// Every finite sequence of distinct keys has a canonical order, which
/// holds exactly its elements.
pub proof fn lemma_canonical_order_exists(keys: Seq<(usize, u64)>)
    requires
        keys.no_duplicates(),
    ensures
        strictly_ordered(canonical_order(keys.to_set())),
        canonical_order(keys.to_set()).to_set() == keys.to_set(),
{
    broadcast use vstd::seq_lib::group_to_multiset_ensures;

    let leq = |a: (usize, u64), b: (usize, u64)| key_le(a, b);
    assert(vstd::relations::total_ordering(leq)) by {
        assert(vstd::relations::reflexive(leq));
        assert(vstd::relations::antisymmetric(leq));
        assert(vstd::relations::transitive(leq));
        assert(vstd::relations::strongly_connected(leq));
    }
    keys.lemma_sort_by_ensures(leq);
    let ks = keys.sort_by(leq);
    keys.lemma_multiset_has_no_duplicates();
    assert forall|x: (usize, u64)| ks.to_multiset().contains(x) implies ks.to_multiset().count(x) == 1 by {}
    ks.lemma_multiset_has_no_duplicates_conv();
    assert forall|i: int, j: int| 0 <= i < j < ks.len() implies key_lt(ks[i], ks[j]) by {
        assert(leq(ks[i], ks[j]));
    }
    assert forall|x: (usize, u64)| ks.to_set().contains(x) <==> keys.to_set().contains(x) by {
        assert(ks.to_multiset().contains(x) <==> ks.contains(x));
        assert(keys.to_multiset().contains(x) <==> keys.contains(x));
    }
    assert(ks.to_set() =~= keys.to_set());
    lemma_canonical_order_of(ks);
}

/// The signature of a bundle without repeated component types lists each
/// of its identities exactly once.
pub proof fn lemma_signature_lists_ids(ds: Seq<TypeDescriptor>)
    requires
        !has_repeat(ids_of(ds)),
    ensures
        signature_of(ds).no_duplicates(),
        signature_of(ds).to_set() == ids_of(ds).to_set(),
{
    let ids = ids_of(ds);
    let keys = keys_of(ds);
    assert(keys.no_duplicates()) by {
        assert forall|a: int, b: int| 0 <= a < b < keys.len() implies keys[a] != keys[b] by {
            assert(!repeats_earlier(ids, b));
            assert(ids[a] != ids[b]);
        }
    }
    lemma_canonical_order_exists(keys);
    let ks = canonical_order(keys.to_set());
    let sig = signature_of(ds);
    assert forall|a: int, b: int| 0 <= a < sig.len() && 0 <= b < sig.len() && a != b implies sig[a] != sig[b] by {
        assert(ks.to_set().contains(ks[a]));
        assert(ks.to_set().contains(ks[b]));
        let i = choose|i: int| 0 <= i < keys.len() && keys[i] == ks[a];
        let j = choose|j: int| 0 <= j < keys.len() && keys[j] == ks[b];
        if a < b {
            assert(key_lt(ks[a], ks[b]));
        } else {
            assert(key_lt(ks[b], ks[a]));
        }
        assert(sig[a] == ks[a].1);
        assert(sig[b] == ks[b].1);
        assert(keys[i].1 == ids[i]);
        assert(keys[j].1 == ids[j]);
        assert(i != j);
        if i < j {
            assert(!repeats_earlier(ids, j));
        } else {
            assert(!repeats_earlier(ids, i));
        }
    }
    assert forall|x: u64| sig.to_set().contains(x) <==> ids.to_set().contains(x) by {
        if sig.to_set().contains(x) {
            let a = choose|a: int| 0 <= a < sig.len() && sig[a] == x;
            assert(ks.to_set().contains(ks[a]));
            let i = choose|i: int| 0 <= i < keys.len() && keys[i] == ks[a];
            assert(ids[i] == x);
        }
        if ids.to_set().contains(x) {
            let i = choose|i: int| 0 <= i < ids.len() && ids[i] == x;
            assert(keys.to_set().contains(keys[i]));
            let a = choose|a: int| 0 <= a < ks.len() && ks[a] == keys[i];
            assert(sig[a] == x);
        }
    }
    assert(sig.to_set() =~= ids.to_set());
}

/// Canonicalizing is idempotent: the component types of a bundle, declared
/// again in the order of its signature, have that same signature.
pub proof fn lemma_signature_idempotent(ds: Seq<TypeDescriptor>, again: Seq<TypeDescriptor>)
    requires
        !has_repeat(ids_of(ds)),
        keys_of(again) == canonical_order(keys_of(ds).to_set()),
    ensures
        ids_of(again) == signature_of(ds),
        signature_of(again) == signature_of(ds),
{
    let keys = keys_of(ds);
    assert(keys.no_duplicates()) by {
        assert forall|a: int, b: int| 0 <= a < b < keys.len() implies keys[a] != keys[b] by {
            assert(!repeats_earlier(ids_of(ds), b));
            assert(ids_of(ds)[a] != ids_of(ds)[b]);
        }
    }
    lemma_canonical_order_exists(keys);
    let ks = canonical_order(keys.to_set());
    lemma_canonical_order_of(ks);
    assert(ids_of(again) =~= signature_of(ds)) by {
        assert(ids_of(again).len() == keys_of(again).len());
        assert forall|i: int| 0 <= i < ids_of(again).len() implies ids_of(again)[i] == signature_of(ds)[i] by {
            assert(keys_of(again)[i].1 == again[i].id);
        }
    }
}

/// Insertion sort of distinct layout keys into strict layout order.
fn sort_keys(keys: &Vec<(usize, u64)>) -> (r: Vec<(usize, u64)>)
    requires
        keys@.no_duplicates(),
    ensures
        strictly_ordered(r@),
        r@.to_set() == keys@.to_set(),
{
    let mut out: Vec<(usize, u64)> = Vec::new();
    let mut i: usize = 0;
    while i < keys.len()
        invariant
            0 <= i <= keys.len(),
            keys@.no_duplicates(),
            strictly_ordered(out@),
            out@.to_set() == keys@.take(i as int).to_set(),
        decreases keys.len() - i,
    {
        let x = keys[i];
        let mut p: usize = 0;
        while p < out.len() && (out[p].0 > x.0 || (out[p].0 == x.0 && out[p].1 < x.1))
            invariant
                0 <= p <= out.len(),
                forall|j: int| 0 <= j < p ==> key_lt(#[trigger] out@[j], x),
            decreases out.len() - p,
        {
            p = p + 1;
        }
        proof {
            if p < out.len() {
                assert(out@.to_set().contains(out@[p as int]));
                let k = choose|k: int| 0 <= k < i && #[trigger] keys@.take(i as int)[k] == out@[p as int];
                assert(keys@[k] != keys@[i as int]);
                assert(key_lt(x, out@[p as int]));
            }
        }
        let ghost before = out@;
        out.insert(p, x);
        proof {
            assert(out@ =~= before.insert(p as int, x));
            assert forall|a: int, b: int| 0 <= a < b < out@.len() implies key_lt(out@[a], out@[b]) by {
                if b < p {
                } else if b == p {
                } else if a < p {
                    assert(key_lt(before[a], x));
                    assert(key_lt(x, before[b - 1])) by {
                        if b - 1 > p {
                            assert(key_lt(before[p as int], before[b - 1]));
                        }
                    }
                } else if a == p {
                    if b - 1 > p {
                        assert(key_lt(before[p as int], before[b - 1]));
                    }
                } else {
                    assert(key_lt(before[a - 1], before[b - 1]));
                }
            }
            assert(keys@.take(i as int + 1) =~= keys@.take(i as int).push(x));
            assert forall|y: (usize, u64)| out@.to_set().contains(y) <==> keys@.take(i as int + 1).to_set().contains(y) by {
                if out@.to_set().contains(y) {
                    let k = choose|k: int| 0 <= k < out@.len() && out@[k] == y;
                    if k < p {
                        assert(before.to_set().contains(before[k]));
                    } else if k > p {
                        assert(before.to_set().contains(before[k - 1]));
                    } else {
                        assert(keys@.take(i as int + 1)[i as int] == y);
                    }
                }
                if keys@.take(i as int + 1).to_set().contains(y) {
                    let k = choose|k: int| 0 <= k < i + 1 && #[trigger] keys@.take(i as int + 1)[k] == y;
                    if k < i {
                        assert(keys@.take(i as int)[k] == y);
                        assert(before.to_set().contains(y));
                        let m = choose|m: int| 0 <= m < before.len() && before[m] == y;
                        if m < p {
                            assert(out@[m] == y);
                        } else {
                            assert(out@[m + 1] == y);
                        }
                    } else {
                        assert(out@[p as int] == y);
                    }
                }
            }
            assert(out@.to_set() =~= keys@.take(i as int + 1).to_set());
        }
        i = i + 1;
    }
    assert(keys@.take(keys.len() as int) =~= keys@);
    out
}


/// Computes the signature of a bundle named `bundle` whose component types
/// are `descs`, in declaration order. Fails on the first component type
/// that occurs a second time.
pub fn canonicalize(bundle: &String, descs: &Vec<TypeDescriptor>) -> (r: Result<
    Vec<u64>,
    DuplicateComponent,
>)
    ensures
        outcome_view(&r) == canonical_outcome(bundle@, descs@),
{
    let ghost ids = ids_of(descs@);
    let mut seen: HashSet<u64> = HashSet::new();
    let mut i: usize = 0;
    while i < descs.len()
        invariant
            0 <= i <= descs.len(),
            ids == ids_of(descs@),
            seen@ == ids.take(i as int).to_set(),
            forall|k: int| 0 <= k < i ==> !repeats_earlier(ids, k),
        decreases descs.len() - i,
    {
        let id = descs[i].id;
        let ghost before = seen@;
        if !seen.insert(id) {
            proof {
                let j = choose|j: int| 0 <= j < i && #[trigger] ids.take(i as int)[j] == id;
                assert(ids[j] == ids[i as int]);
                assert(first_repeat(ids, i as int));
                lemma_first_repeat_unique(ids, i as int, first_repeat_at(ids));
            }
            return Err(DuplicateComponent { bundle: bundle.clone(), component: descs[i].name.clone() });
        }
        proof {
            assert forall|j: int| 0 <= j < i implies ids[j] != ids[i as int] by {
                assert(ids.take(i as int)[j] == ids[j]);
                assert(before.contains(ids[j]));
            }
            assert(ids.take(i as int + 1) =~= ids.take(i as int).push(id));
            assert(seen@ =~= ids.take(i as int + 1).to_set()) by {
                ids.take(i as int).lemma_push_to_set_commute(id);
            }
        }
        i = i + 1;
    }
    let mut keys: Vec<(usize, u64)> = Vec::new();
    let mut n: usize = 0;
    while n < descs.len()
        invariant
            0 <= n <= descs.len(),
            keys@ == keys_of(descs@).take(n as int),
        decreases descs.len() - n,
    {
        keys.push((descs[n].align, descs[n].id));
        assert(keys@ =~= keys_of(descs@).take(n as int + 1));
        n = n + 1;
    }
    assert(keys@ =~= keys_of(descs@));
    assert(keys@.no_duplicates()) by {
        assert forall|a: int, b: int| 0 <= a < b < keys@.len() implies keys@[a] != keys@[b] by {
            assert(!repeats_earlier(ids, b));
            assert(ids[a] != ids[b]);
        }
    }
    let sorted = sort_keys(&keys);
    let mut sig: Vec<u64> = Vec::new();
    let mut m: usize = 0;
    while m < sorted.len()
        invariant
            0 <= m <= sorted.len(),
            sig@ == sorted@.take(m as int).map_values(|k: (usize, u64)| k.1),
        decreases sorted.len() - m,
    {
        sig.push(sorted[m].1);
        assert(sig@ =~= sorted@.take(m as int + 1).map_values(|k: (usize, u64)| k.1));
        m = m + 1;
    }
    proof {
        assert(sorted@.take(sorted.len() as int) =~= sorted@);
        lemma_canonical_order_of(sorted@);
        assert(!has_repeat(ids));
    }
    Ok(sig)
}


proof fn lemma_map_keeps_multiset<A, B>(s1: Seq<A>, s2: Seq<A>, f: spec_fn(A) -> B)
    requires
        s1.to_multiset() == s2.to_multiset(),
    ensures
        s1.map_values(f).to_multiset() == s2.map_values(f).to_multiset(),
    decreases s1.len(),
{
    broadcast use vstd::seq_lib::group_to_multiset_ensures;

    vstd::seq_lib::to_multiset_len(s1);
    vstd::seq_lib::to_multiset_len(s2);
    if s1.len() == 0 {
        assert(s1.map_values(f) =~= s2.map_values(f));
    } else {
        let x = s1.last();
        let t1 = s1.drop_last();
        assert(s1 =~= t1.push(x));
        assert(s1.to_multiset().contains(x));
        assert(s2.contains(x));
        let k = choose|k: int| 0 <= k < s2.len() && s2[k] == x;
        let t2 = s2.remove(k);
        vstd::seq_lib::to_multiset_remove(s2, k);
        assert(t1.to_multiset() =~= s1.to_multiset().remove(x));
        lemma_map_keeps_multiset(t1, t2, f);
        assert(s1.map_values(f) =~= t1.map_values(f).push(f(x)));
        assert(s2.map_values(f) =~= t2.map_values(f).insert(k, f(x)));
        vstd::seq_lib::to_multiset_insert(t2.map_values(f), k, f(x));
    }
}

/// A repeated identity is the same as a sequence with duplicates.
pub proof fn lemma_repeat_iff_duplicates(ids: Seq<u64>)
    ensures
        has_repeat(ids) <==> !ids.no_duplicates(),
{
    if !ids.no_duplicates() {
        let (a, b) = choose|a: int, b: int| 0 <= a < ids.len() && 0 <= b < ids.len() && a != b && ids[a] == ids[b];
        if a < b {
            assert(repeats_earlier(ids, b));
        } else {
            assert(repeats_earlier(ids, a));
        }
    }
}

proof fn lemma_no_duplicates_by_multiset(s1: Seq<u64>, s2: Seq<u64>)
    requires
        s1.to_multiset() == s2.to_multiset(),
        s1.no_duplicates(),
    ensures
        s2.no_duplicates(),
{
    s1.lemma_multiset_has_no_duplicates();
    s2.lemma_multiset_has_no_duplicates_conv();
}

/// Canonicalization does not depend on declaration order: two bundles whose
/// component types are the same multiset either both hold a repeated type
/// or have the same signature.
pub proof fn lemma_order_independent(d1: Seq<TypeDescriptor>, d2: Seq<TypeDescriptor>)
    requires
        d1.to_multiset() == d2.to_multiset(),
    ensures
        has_repeat(ids_of(d1)) == has_repeat(ids_of(d2)),
        signature_of(d1) == signature_of(d2),
{
    broadcast use vstd::seq_lib::group_to_multiset_ensures;

    let fk = |d: TypeDescriptor| layout_key(d);
    let fi = |d: TypeDescriptor| d.id;
    lemma_map_keeps_multiset(d1, d2, fk);
    lemma_map_keeps_multiset(d1, d2, fi);
    assert(keys_of(d1) == d1.map_values(fk));
    assert(ids_of(d1) == d1.map_values(fi));
    assert(keys_of(d2) == d2.map_values(fk));
    assert(ids_of(d2) == d2.map_values(fi));
    lemma_repeat_iff_duplicates(ids_of(d1));
    lemma_repeat_iff_duplicates(ids_of(d2));
    if ids_of(d1).no_duplicates() {
        lemma_no_duplicates_by_multiset(ids_of(d1), ids_of(d2));
    }
    if ids_of(d2).no_duplicates() {
        lemma_no_duplicates_by_multiset(ids_of(d2), ids_of(d1));
    }
    assert forall|k: (usize, u64)| keys_of(d1).to_set().contains(k) <==> keys_of(d2).to_set().contains(k) by {
        assert(keys_of(d1).to_multiset().contains(k) <==> keys_of(d1).contains(k));
        assert(keys_of(d2).to_multiset().contains(k) <==> keys_of(d2).contains(k));
    }
    assert(keys_of(d1).to_set() =~= keys_of(d2).to_set());
}

/// Signatures computed so far, keyed by bundle type. Each bundle type is
/// canonicalized at most once; later requests get the stored outcome.
pub struct SignatureCache {
    entries: HashMap<u64, Result<Vec<u64>, DuplicateComponent>>,
}

fn copy_outcome(r: &Result<Vec<u64>, DuplicateComponent>) -> (c: Result<Vec<u64>, DuplicateComponent>)
    ensures
        outcome_view(&c) == outcome_view(r),
{
    match r {
        Ok(sig) => {
            let mut out: Vec<u64> = Vec::new();
            let mut i: usize = 0;
            while i < sig.len()
                invariant
                    0 <= i <= sig.len(),
                    out@ == sig@.take(i as int),
                decreases sig.len() - i,
            {
                out.push(sig[i]);
                assert(out@ =~= sig@.take(i as int + 1));
                i = i + 1;
            }
            assert(sig@.take(sig.len() as int) =~= sig@);
            Ok(out)
        },
        Err(e) => Err(DuplicateComponent { bundle: e.bundle.clone(), component: e.component.clone() }),
    }
}

impl SignatureCache {
    pub closed spec fn view(&self) -> Map<u64, OutcomeView> {
        Map::new(
            |k: u64| self.entries@.contains_key(k),
            |k: u64| outcome_view(&self.entries@[k]),
        )
    }

    pub fn new() -> (c: SignatureCache)
        ensures
            c.view() == Map::<u64, OutcomeView>::empty(),
    {
        let c = SignatureCache { entries: HashMap::new() };
        assert(c.view() =~= Map::<u64, OutcomeView>::empty());
        c
    }

    /// The signature of bundle type `key`, named `bundle`, with component
    /// types `descs`. Computed on the first request for `key` only.
    pub fn signature(&mut self, key: u64, bundle: &String, descs: &Vec<TypeDescriptor>) -> (r: Result<
        Vec<u64>,
        DuplicateComponent,
    >)
        ensures
            old(self).view().contains_key(key) ==> {
                &&& outcome_view(&r) == old(self).view()[key]
                &&& final(self).view() == old(self).view()
            },
            !old(self).view().contains_key(key) ==> {
                &&& outcome_view(&r) == canonical_outcome(bundle@, descs@)
                &&& final(self).view() == old(self).view().insert(key, outcome_view(&r))
            },
    {
        match self.entries.get(&key) {
            Some(found) => {
                return copy_outcome(found);
            },
            None => {},
        }
        let r = canonicalize(bundle, descs);
        let stored = copy_outcome(&r);
        let ghost before = self.view();
        self.entries.insert(key, stored);
        assert(self.view() =~= before.insert(key, outcome_view(&r)));
        r
    }
}

} // verus!
