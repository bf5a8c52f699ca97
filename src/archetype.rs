use vstd::prelude::*;
use crate::descriptor::{TypeDescriptor, ids_of};

verus! {

/// Storage for all entities that share one set of component types: one
/// column per component type, one slot per entity in each column.
pub struct Archetype<V> {
    types: Vec<TypeDescriptor>,
    columns: Vec<Vec<Option<V>>>,
    len: usize,
}

/// The value that slot `row` holds for component type `id`, given the
/// archetype's identities and columns.
pub open spec fn slot_in<V>(ids: Seq<u64>, columns: Seq<Seq<Option<V>>>, id: u64, row: int) -> Option<V> {
    if ids.contains(id) && 0 <= row < columns[ids.index_of(id)].len() {
        columns[ids.index_of(id)][row]
    } else {
        None
    }
}

/// What slot `row` of component type `id` holds after the bundle with
/// identities `comp_ids` and values `values` was written to row `at`.
pub open spec fn stored_slot<V>(
    before: Option<V>,
    comp_ids: Seq<u64>,
    values: Seq<V>,
    id: u64,
    at: int,
    row: int,
) -> Option<V> {
    if row == at && comp_ids.contains(id) {
        Some(values[comp_ids.index_of(id)])
    } else {
        before
    }
}

/// Reading back component `comp_ids[k]` from the slot a bundle was written
/// to gives the value the bundle held for it.
pub proof fn lemma_round_trip<V>(before: Option<V>, comp_ids: Seq<u64>, values: Seq<V>, k: int, at: int)
    requires
        comp_ids.no_duplicates(),
        values.len() == comp_ids.len(),
        0 <= k < comp_ids.len(),
    ensures
        stored_slot(before, comp_ids, values, comp_ids[k], at, at) == Some(values[k]),
{
    lemma_index_of_distinct(comp_ids, k);
}

pub proof fn lemma_index_of_distinct(ids: Seq<u64>, k: int)
    requires
        ids.no_duplicates(),
        0 <= k < ids.len(),
    ensures
        ids.contains(ids[k]),
        ids.index_of(ids[k]) == k,
{
    assert(ids.contains(ids[k]));
}

impl<V> Archetype<V> {
    /// Identities of the component types, in signature order.
    pub closed spec fn ids(&self) -> Seq<u64> {
        ids_of(self.types@)
    }

    pub closed spec fn columns(&self) -> Seq<Seq<Option<V>>> {
        self.columns@.map_values(|c: Vec<Option<V>>| c@)
    }

    /// Number of entity slots.
    pub closed spec fn len_spec(&self) -> nat {
        self.len as nat
    }

    pub open spec fn slot(&self, id: u64, row: int) -> Option<V> {
        slot_in(self.ids(), self.columns(), id, row)
    }

    pub closed spec fn wf(&self) -> bool {
        &&& self.ids().no_duplicates()
        &&& self.columns@.len() == self.types@.len()
        &&& forall|c: int| 0 <= c < self.columns@.len() ==> #[trigger] self.columns@[c]@.len() == self.len
    }

    /// An archetype with no entities for the component types `types`.
    pub fn new(types: Vec<TypeDescriptor>) -> (a: Archetype<V>)
        requires
            ids_of(types@).no_duplicates(),
        ensures
            a.wf(),
            a.ids() == ids_of(types@),
            a.len_spec() == 0,
            forall|id: u64, row: int| a.slot(id, row).is_none(),
    {
        let mut columns: Vec<Vec<Option<V>>> = Vec::new();
        let mut i: usize = 0;
        while i < types.len()
            invariant
                0 <= i <= types.len(),
                columns@.len() == i,
                forall|c: int| 0 <= c < i ==> #[trigger] columns@[c]@.len() == 0,
            decreases types.len() - i,
        {
            columns.push(Vec::new());
            i = i + 1;
        }
        let a = Archetype { types, columns, len: 0 };
        assert forall|id: u64, row: int| a.slot(id, row).is_none() by {
            if a.ids().contains(id) {
                let c = a.ids().index_of(id);
                assert(a.columns()[c].len() == 0);
            }
        }
        a
    }

    pub fn len(&self) -> (n: usize)
        ensures
            n == self.len_spec(),
    {
        self.len
    }

    /// Descriptors of the component types, in signature order.
    pub fn types(&self) -> (t: &Vec<TypeDescriptor>)
        ensures
            ids_of(t@) == self.ids(),
    {
        &self.types
    }

    /// The column that holds component type `id`.
    pub fn column_of(&self, id: u64) -> (r: Option<usize>)
        requires
            self.wf(),
        ensures
            match r {
                Some(c) => c < self.ids().len() && self.ids()[c as int] == id && self.ids().index_of(id) == c,
                None => !self.ids().contains(id),
            },
    {
        let mut c: usize = 0;
        while c < self.types.len()
            invariant
                0 <= c <= self.types.len(),
                self.wf(),
                forall|k: int| 0 <= k < c ==> self.ids()[k] != id,
            decreases self.types.len() - c,
        {
            if self.types[c].id == id {
                proof {
                    lemma_index_of_distinct(self.ids(), c as int);
                }
                return Some(c);
            }
            c = c + 1;
        }
        None
    }

    /// Appends an empty slot in every column and returns its row.
    pub fn allocate(&mut self) -> (row: usize)
        requires
            old(self).wf(),
            old(self).len_spec() < usize::MAX,
        ensures
            final(self).wf(),
            row == old(self).len_spec(),
            final(self).len_spec() == old(self).len_spec() + 1,
            final(self).ids() == old(self).ids(),
            forall|id: u64, r: int| r != row ==> #[trigger] final(self).slot(id, r) == old(self).slot(id, r),
            forall|id: u64| (#[trigger] final(self).slot(id, row as int)).is_none(),
    {
        let ghost cols0 = self.columns@;
        let mut c: usize = 0;
        while c < self.columns.len()
            invariant
                self.types == old(self).types,
                self.len == old(self).len,
                self.columns@.len() == cols0.len(),
                cols0 == old(self).columns@,
                old(self).wf(),
                0 <= c <= self.columns@.len(),
                forall|k: int| 0 <= k < c ==> #[trigger] self.columns@[k]@ == cols0[k]@.push(None),
                forall|k: int| c <= k < self.columns@.len() ==> #[trigger] self.columns@[k] == cols0[k],
            decreases self.columns@.len() - c,
        {
            self.columns[c].push(None);
            c = c + 1;
        }
        let row = self.len;
        self.len = self.len + 1;
        proof {
            assert forall|k: int| 0 <= k < self.columns@.len() implies #[trigger] self.columns@[k]@.len() == self.len by {
                assert(cols0[k]@.len() == old(self).len);
            }
            assert forall|id: u64, r: int| r != row implies #[trigger] self.slot(id, r) == old(self).slot(id, r) by {
                if self.ids().contains(id) {
                    let k = self.ids().index_of(id);
                    assert(self.columns()[k] == self.columns@[k]@);
                    assert(old(self).columns()[k] == cols0[k]@);
                    assert(cols0[k]@.len() == old(self).len);
                }
            }
            assert forall|id: u64| (#[trigger] self.slot(id, row as int)).is_none() by {
                if self.ids().contains(id) {
                    let k = self.ids().index_of(id);
                    assert(self.columns()[k] == self.columns@[k]@);
                    assert(cols0[k]@.len() == old(self).len);
                }
            }
        }
        row
    }

    /// The value that slot `row` holds for component type `id`.
    pub fn get(&self, id: u64, row: usize) -> (r: Option<&V>)
        requires
            self.wf(),
        ensures
            match r {
                Some(v) => self.slot(id, row as int) == Some(*v),
                None => self.slot(id, row as int).is_none(),
            },
    {
        match self.column_of(id) {
            Some(c) => {
                assert(self.columns()[c as int] == self.columns@[c as int]@);
                if row < self.columns[c].len() {
                    match &self.columns[c][row] {
                        Some(v) => Some(v),
                        None => None,
                    }
                } else {
                    None
                }
            },
            None => None,
        }
    }

    /// Writes `value` into slot `row` of component type `id`.
    pub fn put(&mut self, id: u64, row: usize, value: V)
        requires
            old(self).wf(),
            old(self).ids().contains(id),
            row < old(self).len_spec(),
        ensures
            final(self).wf(),
            final(self).ids() == old(self).ids(),
            final(self).len_spec() == old(self).len_spec(),
            forall|i: u64, r: int| #[trigger] final(self).slot(i, r) == (if i == id && r == row {
                Some(value)
            } else {
                old(self).slot(i, r)
            }),
    {
        let c = self.column_of(id).unwrap();
        self.columns[c].set(row, Some(value));
        proof {
            assert forall|i: u64, r: int| #[trigger] self.slot(i, r) == (if i == id && r == row {
                Some(value)
            } else {
                old(self).slot(i, r)
            }) by {
                if self.ids().contains(i) {
                    let k = self.ids().index_of(i);
                    assert(self.columns()[k] == self.columns@[k]@);
                    assert(old(self).columns()[k] == old(self).columns@[k]@);
                    if k != c {
                        lemma_index_of_distinct(self.ids(), c as int);
                        assert(i != id);
                    }
                }
            }
            assert forall|k: int| 0 <= k < self.columns@.len() implies #[trigger] self.columns@[k]@.len() == self.len by {
                assert(old(self).columns@[k]@.len() == self.len);
            }
        }
    }

    /// Writes each value of a bundle, whose component types are
    /// `components`, into its column at slot `row`.
    pub fn store(&mut self, components: &Vec<TypeDescriptor>, values: Vec<V>, row: usize)
        requires
            old(self).wf(),
            values@.len() == components@.len(),
            ids_of(components@).no_duplicates(),
            forall|k: int| 0 <= k < components@.len() ==> old(self).ids().contains(#[trigger] components@[k].id),
            row < old(self).len_spec(),
        ensures
            final(self).wf(),
            final(self).ids() == old(self).ids(),
            final(self).len_spec() == old(self).len_spec(),
            forall|id: u64, r: int| #[trigger] final(self).slot(id, r) == stored_slot(
                old(self).slot(id, r),
                ids_of(components@),
                values@,
                id,
                row as int,
                r,
            ),
    {
        let ghost ids = ids_of(components@);
        let ghost vals = values@;
        let ghost n = values@.len();
        let mut values = values;
        assert(vals.take(n as int) =~= vals);
        while values.len() > 0
            invariant
                self.wf(),
                self.ids() == old(self).ids(),
                self.len_spec() == old(self).len_spec(),
                ids == ids_of(components@),
                ids.no_duplicates(),
                n == ids.len(),
                vals.len() == n,
                values@.len() <= n,
                values@ == vals.take(values@.len() as int),
                forall|k: int| 0 <= k < components@.len() ==> old(self).ids().contains(#[trigger] components@[k].id),
                row < old(self).len_spec(),
                forall|id: u64, r: int| #[trigger] self.slot(id, r) == (if r == row && exists|j: int|
                    values@.len() <= j < n && ids[j] == id {
                    Some(vals[ids.index_of(id)])
                } else {
                    old(self).slot(id, r)
                }),
            decreases values@.len(),
        {
            let k = values.len() - 1;
            let v = values.pop().unwrap();
            let ghost before = *self;
            assert(vals.take(k as int) =~= values@);
            assert(ids[k as int] == components@[k as int].id);
            self.put(components[k].id, row, v);
            proof {
                lemma_index_of_distinct(ids, k as int);
                assert forall|id: u64, r: int| #[trigger] self.slot(id, r) == (if r == row && exists|j: int|
                    values@.len() <= j < n && ids[j] == id {
                    Some(vals[ids.index_of(id)])
                } else {
                    old(self).slot(id, r)
                }) by {
                    assert(before.slot(id, r) == (if r == row && exists|j: int|
                        k + 1 <= j < n && ids[j] == id {
                        Some(vals[ids.index_of(id)])
                    } else {
                        old(self).slot(id, r)
                    }));
                    if id == ids[k as int] {
                        assert(ids[k as int] == id);
                    } else if exists|j: int| values@.len() <= j < n && ids[j] == id {
                        let j = choose|j: int| values@.len() <= j < n && ids[j] == id;
                        assert(j != k);
                    }
                }
            }
        }
        proof {
            assert forall|id: u64, r: int| #[trigger] self.slot(id, r) == stored_slot(
                old(self).slot(id, r),
                ids,
                vals,
                id,
                row as int,
                r,
            ) by {
                if exists|j: int| 0 <= j < n && ids[j] == id {
                    assert(ids.contains(id));
                }
            }
        }
    }

    /// The value in column `c` at slot `row`.
    pub fn get_at(&self, c: usize, row: usize) -> (r: Option<&V>)
        requires
            self.wf(),
            c < self.ids().len(),
        ensures
            match r {
                Some(v) => self.slot(self.ids()[c as int], row as int) == Some(*v),
                None => self.slot(self.ids()[c as int], row as int).is_none(),
            },
    {
        proof {
            lemma_index_of_distinct(self.ids(), c as int);
        }
        assert(self.columns()[c as int] == self.columns@[c as int]@);
        if row < self.columns[c].len() {
            match &self.columns[c][row] {
                Some(v) => Some(v),
                None => None,
            }
        } else {
            None
        }
    }
}

} // verus!
