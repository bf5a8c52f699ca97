use vstd::prelude::*;
use crate::archetype::{Archetype, stored_slot};
use crate::descriptor::{TypeDescriptor, ids_of};
use crate::signature::{has_repeat, signature_of, lemma_signature_lists_ids, lemma_repeat_iff_duplicates};
use crate::archetype::lemma_round_trip;

verus! {

/// A bundle type: a name and the component types it declares, in
/// declaration order.
pub struct BundleType {
    pub name: String,
    pub components: Vec<TypeDescriptor>,
}

/// All archetypes, each identified by its position.
pub struct ArchetypeTable<V> {
    archetypes: Vec<Archetype<V>>,
}

fn same_ids(types: &Vec<TypeDescriptor>, sig: &Vec<u64>) -> (r: bool)
    ensures
        r == (ids_of(types@) == sig@),
{
    if types.len() != sig.len() {
        return false;
    }
    let mut i: usize = 0;
    while i < sig.len()
        invariant
            0 <= i <= sig.len(),
            types@.len() == sig@.len(),
            forall|k: int| 0 <= k < i ==> ids_of(types@)[k] == sig@[k],
        decreases sig.len() - i,
    {
        if types[i].id != sig[i] {
            assert(ids_of(types@)[i as int] != sig@[i as int]);
            return false;
        }
        i = i + 1;
    }
    assert(ids_of(types@) =~= sig@);
    true
}

/// A copy of the descriptor in `components` whose identity is `id`.
fn descriptor_for(components: &Vec<TypeDescriptor>, id: u64) -> (d: TypeDescriptor)
    requires
        ids_of(components@).contains(id),
    ensures
        d.id == id,
{
    let mut j: usize = 0;
    while j < components.len()
        invariant
            0 <= j <= components.len(),
            ids_of(components@).contains(id),
            forall|k: int| 0 <= k < j ==> ids_of(components@)[k] != id,
        decreases components.len() - j,
    {
        if components[j].id == id {
            return components[j].duplicate();
        }
        j = j + 1;
    }
    proof {
        let k = choose|k: int| 0 <= k < ids_of(components@).len() && ids_of(components@)[k] == id;
        assert(ids_of(components@)[k] != id);
    }
    components[0].duplicate()
}

impl<V> ArchetypeTable<V> {
    pub closed spec fn view(&self) -> Seq<Archetype<V>> {
        self.archetypes@
    }

    pub closed spec fn wf(&self) -> bool {
        forall|i: int| 0 <= i < self.archetypes@.len() ==> (#[trigger] self.archetypes@[i]).wf()
    }

    /// The first archetype whose signature is `sig`.
    pub open spec fn lookup(&self, sig: Seq<u64>) -> Option<int> {
        if exists|i: int| 0 <= i < self.view().len() && (#[trigger] self.view()[i]).ids() == sig {
            Some(
                choose|i: int|
                    0 <= i < self.view().len() && (#[trigger] self.view()[i]).ids() == sig && forall|j: int|
                        0 <= j < i ==> (#[trigger] self.view()[j]).ids() != sig,
            )
        } else {
            None
        }
    }

    pub fn new() -> (t: ArchetypeTable<V>)
        ensures
            t.wf(),
            t.view().len() == 0,
    {
        ArchetypeTable { archetypes: Vec::new() }
    }

    pub fn len(&self) -> (n: usize)
        ensures
            n == self.view().len(),
    {
        self.archetypes.len()
    }

    pub fn archetype(&self, a: usize) -> (r: &Archetype<V>)
        requires
            a < self.view().len(),
        ensures
            *r == self.view()[a as int],
    {
        &self.archetypes[a]
    }

    /// The archetype whose signature is `sig`, if there is one.
    pub fn get_id(&self, sig: &Vec<u64>) -> (r: Option<usize>)
        ensures
            match r {
                Some(i) => {
                    &&& self.lookup(sig@) == Some(i as int)
                    &&& i < self.view().len()
                    &&& self.view()[i as int].ids() == sig@
                },
                None => self.lookup(sig@).is_none(),
            },
    {
        let mut i: usize = 0;
        while i < self.archetypes.len()
            invariant
                0 <= i <= self.archetypes.len(),
                forall|j: int| 0 <= j < i ==> (#[trigger] self.view()[j]).ids() != sig@,
            decreases self.archetypes.len() - i,
        {
            if same_ids(self.archetypes[i].types(), sig) {
                let ghost w = choose|w: int|
                    0 <= w < self.view().len() && (#[trigger] self.view()[w]).ids() == sig@ && forall|j: int|
                        0 <= j < w ==> (#[trigger] self.view()[j]).ids() != sig@;
                proof {
                    assert(self.view()[i as int].ids() == sig@);
                    if w < i {
                    } else if w > i {
                    }
                }
                return Some(i);
            }
            i = i + 1;
        }
        None
    }

    /// Adds an empty archetype for the component types `types`, given in
    /// signature order.
    pub fn add_archetype(&mut self, types: Vec<TypeDescriptor>) -> (a: usize)
        requires
            old(self).wf(),
            ids_of(types@).no_duplicates(),
        ensures
            final(self).wf(),
            a == old(self).view().len(),
            final(self).view().len() == old(self).view().len() + 1,
            final(self).view().take(a as int) == old(self).view(),
            final(self).view()[a as int].ids() == ids_of(types@),
            final(self).view()[a as int].len_spec() == 0,
            forall|id: u64, row: int| (#[trigger] final(self).view()[a as int].slot(id, row)).is_none(),
    {
        let a = self.archetypes.len();
        self.archetypes.push(Archetype::new(types));
        assert(self.view().take(a as int) =~= old(self).view());
        a
    }

    /// The archetype for a bundle whose component types are `components`
    /// and whose signature is `sig`: the existing one, or a new empty one.
    pub fn get_archetype(&mut self, components: &Vec<TypeDescriptor>, sig: &Vec<u64>) -> (a: usize)
        requires
            old(self).wf(),
            !has_repeat(ids_of(components@)),
            sig@ == signature_of(components@),
        ensures
            final(self).wf(),
            a < final(self).view().len(),
            final(self).view()[a as int].ids() == sig@,
            match old(self).lookup(sig@) {
                Some(i) => a == i && final(self).view() == old(self).view(),
                None => {
                    &&& a == old(self).view().len()
                    &&& final(self).view().len() == old(self).view().len() + 1
                    &&& final(self).view().take(a as int) == old(self).view()
                    &&& final(self).view()[a as int].len_spec() == 0
                    &&& forall|id: u64, row: int| (#[trigger] final(self).view()[a as int].slot(id, row)).is_none()
                },
            },
    {
        match self.get_id(sig) {
            Some(i) => i,
            None => {
                proof {
                    lemma_signature_lists_ids(components@);
                }
                let mut types: Vec<TypeDescriptor> = Vec::new();
                let mut m: usize = 0;
                while m < sig.len()
                    invariant
                        0 <= m <= sig.len(),
                        sig@.to_set() == ids_of(components@).to_set(),
                        ids_of(types@) == sig@.take(m as int),
                    decreases sig.len() - m,
                {
                    assert(sig@.to_set().contains(sig@[m as int]));
                    let d = descriptor_for(components, sig[m]);
                    let ghost t0 = types@;
                    types.push(d);
                    assert(ids_of(types@) =~= ids_of(t0).push(d.id));
                    assert(ids_of(types@) =~= sig@.take(m as int + 1));
                    m = m + 1;
                }
                assert(sig@.take(sig.len() as int) =~= sig@);
                self.add_archetype(types)
            },
        }
    }

    /// Inserts one entity of bundle type `bundle` with component values
    /// `values`, given in declaration order, into the archetype for the
    /// bundle's signature `sig`. Returns the archetype and the slot.
    pub fn spawn(&mut self, bundle: &BundleType, sig: &Vec<u64>, values: Vec<V>) -> (r: (usize, usize))
        requires
            old(self).wf(),
            !has_repeat(ids_of(bundle.components@)),
            sig@ == signature_of(bundle.components@),
            values@.len() == bundle.components@.len(),
            forall|i: int| 0 <= i < old(self).view().len() ==> (#[trigger] old(self).view()[i]).len_spec() < usize::MAX,
        ensures
            final(self).wf(),
            r.0 < final(self).view().len(),
            final(self).view()[r.0 as int].ids() == sig@,
            r.0 < old(self).view().len() ==> r.1 == old(self).view()[r.0 as int].len_spec(),
            r.0 >= old(self).view().len() ==> r.1 == 0 && r.0 == old(self).view().len(),
            final(self).view().len() <= old(self).view().len() + 1,
            forall|i: int| 0 <= i < old(self).view().len() && i != r.0 ==> #[trigger] final(self).view()[i] == old(self).view()[i],
            forall|k: int| 0 <= k < values@.len() ==> #[trigger] final(self).view()[r.0 as int].slot(
                bundle.components@[k].id,
                r.1 as int,
            ) == Some(values@[k]),
            forall|id: u64| #[trigger] final(self).view()[r.0 as int].slot(id, r.1 as int) == stored_slot(
                None,
                ids_of(bundle.components@),
                values@,
                id,
                r.1 as int,
                r.1 as int,
            ),
            forall|id: u64, row: int| row != r.1 ==> #[trigger] final(self).view()[r.0 as int].slot(id, row) == (
            if r.0 < old(self).view().len() {
                old(self).view()[r.0 as int].slot(id, row)
            } else {
                None
            }),
    {
        let ghost ids = ids_of(bundle.components@);
        let ghost vals = values@;
        let a = self.get_archetype(&bundle.components, sig);
        proof {
            lemma_repeat_iff_duplicates(ids);
            lemma_signature_lists_ids(bundle.components@);
            assert(self.view()[a as int].wf());
        }
        let ghost mid = self.view();
        let row = self.archetypes[a].allocate();
        let ghost after_alloc = self.view()[a as int];
        proof {
            assert forall|k: int| 0 <= k < bundle.components@.len() implies self.view()[a as int].ids().contains(
                #[trigger] bundle.components@[k].id,
            ) by {
                assert(ids[k] == bundle.components@[k].id);
                assert(ids.to_set().contains(ids[k]));
                assert(sig@.to_set().contains(ids[k]));
            }
        }
        self.archetypes[a].store(&bundle.components, values, row);
        proof {
            assert forall|i: int| 0 <= i < self.archetypes@.len() implies (#[trigger] self.archetypes@[i]).wf() by {
                if i != a {
                    assert(self.archetypes@[i] == mid[i]);
                }
            }
            assert forall|k: int| 0 <= k < vals.len() implies #[trigger] self.view()[a as int].slot(
                bundle.components@[k].id,
                row as int,
            ) == Some(vals[k]) by {
                lemma_round_trip(after_alloc.slot(ids[k], row as int), ids, vals, k, row as int);
            }
        }
        (a, row)
    }

    /// The value that slot `row` of archetype `a` holds for component type `id`.
    pub fn get(&self, a: usize, id: u64, row: usize) -> (r: Option<&V>)
        requires
            self.wf(),
            a < self.view().len(),
        ensures
            match r {
                Some(v) => self.view()[a as int].slot(id, row as int) == Some(*v),
                None => self.view()[a as int].slot(id, row as int).is_none(),
            },
    {
        self.archetypes[a].get(id, row)
    }
}

} // verus!