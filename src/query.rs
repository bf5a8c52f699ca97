use vstd::prelude::*;
use crate::archetype::Archetype;
use crate::borrow::{BorrowState, acquire, release, access_wf, lemma_release_undoes_acquire, Access};

verus! {

/// How a query field reaches its component type.
#[derive(Clone, Copy, Debug, PartialEq, Eq, Structural)]
pub enum AccessMode {
    Shared,
    Exclusive,
    OptionalShared,
    OptionalExclusive,
}

pub open spec fn is_exclusive(m: AccessMode) -> bool {
    m == AccessMode::Exclusive || m == AccessMode::OptionalExclusive
}

pub open spec fn is_optional(m: AccessMode) -> bool {
    m == AccessMode::OptionalShared || m == AccessMode::OptionalExclusive
}

/// One field of a query: a component type and how it is accessed.
#[derive(Clone, Copy, Debug, PartialEq, Eq, Structural)]
pub struct FieldSpec {
    pub id: u64,
    pub mode: AccessMode,
}

/// A query: its fields in declared order, which is also the order in
/// which they are fetched and borrowed.
pub struct Query {
    pub fields: Vec<FieldSpec>,
}

/// A query field names a component type a second time, or a borrow
/// conflicts with access already held.
pub struct BorrowConflict {
    /// Position of the field whose borrow failed.
    pub field: usize,
    /// Its component type.
    pub component: u64,
}

/// Progress of a query over one matched archetype.
pub struct FetchState {
    /// For each field, the archetype column that holds it, if any.
    pub columns: Vec<Option<usize>>,
    /// The next slot to read.
    pub row: usize,
}

/// A field can be fetched from an archetype with identities `ids`: the
/// archetype holds its component type, or the field is optional.
pub open spec fn field_matches(ids: Seq<u64>, f: FieldSpec) -> bool {
    ids.contains(f.id) || is_optional(f.mode)
}

pub open spec fn query_matches(ids: Seq<u64>, fs: Seq<FieldSpec>) -> bool {
    forall|i: int| 0 <= i < fs.len() ==> field_matches(ids, #[trigger] fs[i])
}

/// The column that a fetch on an archetype with identities `ids` gives a field.
pub open spec fn field_column(ids: Seq<u64>, f: FieldSpec) -> Option<int> {
    if ids.contains(f.id) {
        Some(ids.index_of(f.id))
    } else {
        None
    }
}

pub open spec fn as_column(c: Option<usize>) -> Option<int> {
    match c {
        Some(x) => Some(x as int),
        None => None,
    }
}

/// The access a sequence of fields acquires, taken one field after the
/// other from the first; `None` once one of them conflicts.
pub open spec fn acquire_prefix(m: Map<u64, Access>, fs: Seq<FieldSpec>, n: nat) -> Option<Map<u64, Access>>
    decreases n,
{
    if n == 0 {
        Some(m)
    } else {
        match acquire_prefix(m, fs, (n - 1) as nat) {
            Some(m1) => acquire(m1, fs[n - 1].id, is_exclusive(fs[n - 1].mode)),
            None => None,
        }
    }
}

/// Giving back the access of the first `n` fields, from the last to the first.
pub open spec fn release_back(m: Map<u64, Access>, fs: Seq<FieldSpec>, n: nat) -> Map<u64, Access>
    decreases n,
{
    if n == 0 {
        m
    } else {
        release_back(release(m, fs[n - 1].id, is_exclusive(fs[n - 1].mode)), fs, (n - 1) as nat)
    }
}

/// Every borrow a query makes is given back by its release: after a
/// successful borrow of the first `n` fields, releasing them restores the
/// access held before, whatever happened in between to the fetch.
pub proof fn lemma_borrow_release_pairing(m: Map<u64, Access>, fs: Seq<FieldSpec>, n: nat)
    requires
        access_wf(m),
        acquire_prefix(m, fs, n).is_some(),
    ensures
        access_wf(acquire_prefix(m, fs, n).unwrap()),
        release_back(acquire_prefix(m, fs, n).unwrap(), fs, n) == m,
    decreases n,
{
    if n > 0 {
        let k = (n - 1) as nat;
        lemma_borrow_release_pairing(m, fs, k);
        let m1 = acquire_prefix(m, fs, k).unwrap();
        lemma_release_undoes_acquire(m1, fs[n - 1].id, is_exclusive(fs[n - 1].mode));
    }
}

/// Once a field conflicts, no longer prefix succeeds.
proof fn lemma_acquire_fails_on(m: Map<u64, Access>, fs: Seq<FieldSpec>, k: nat, n: nat)
    requires
        k <= n,
        acquire_prefix(m, fs, k).is_none(),
    ensures
        acquire_prefix(m, fs, n).is_none(),
    decreases n - k,
{
    if k < n {
        lemma_acquire_fails_on(m, fs, k, (n - 1) as nat);
    }
}

/// A query (`&A`, optional `&B`) matches an archetype that holds `A` and
/// not `B`, with no column for `B`; it matches no archetype without `A`.
pub proof fn lemma_optional_field_match(ids: Seq<u64>, a: u64, b: u64)
    ensures
        ids.contains(a) && !ids.contains(b) ==> {
            let fs = seq![
                FieldSpec { id: a, mode: AccessMode::Shared },
                FieldSpec { id: b, mode: AccessMode::OptionalShared },
            ];
            &&& query_matches(ids, fs)
            &&& field_column(ids, fs[1]).is_none()
        },
        !ids.contains(a) ==> !query_matches(
            ids,
            seq![
                FieldSpec { id: a, mode: AccessMode::Shared },
                FieldSpec { id: b, mode: AccessMode::OptionalShared },
            ],
        ),
{
    let fs = seq![
        FieldSpec { id: a, mode: AccessMode::Shared },
        FieldSpec { id: b, mode: AccessMode::OptionalShared },
    ];
    if !ids.contains(a) {
        assert(!field_matches(ids, fs[0]));
    }
}

/// `item` holds, for each field, what slot `row` of `arch` holds for the
/// field's component type.
pub open spec fn reads_row<V>(item: Seq<Option<&V>>, fs: Seq<FieldSpec>, arch: Archetype<V>, row: int) -> bool {
    &&& item.len() == fs.len()
    &&& forall|i: int| 0 <= i < item.len() ==> (match #[trigger] item[i] {
        Some(v) => Some(*v),
        None => None,
    }) == arch.slot(fs[i].id, row)
}

fn mode_is_exclusive(m: AccessMode) -> (r: bool)
    ensures
        r == is_exclusive(m),
{
    match m {
        AccessMode::Exclusive | AccessMode::OptionalExclusive => true,
        _ => false,
    }
}

impl Query {
    pub fn new(fields: Vec<FieldSpec>) -> (q: Query)
        ensures
            q.fields@ == fields@,
    {
        Query { fields }
    }

    /// Fetches the query from an archetype: for each field in declared
    /// order, the column holding it. `None` when a required field's
    /// component type is missing, which excludes the archetype.
    pub fn get<V>(&self, arch: &Archetype<V>) -> (r: Option<FetchState>)
        requires
            arch.wf(),
        ensures
            r.is_some() == query_matches(arch.ids(), self.fields@),
            match r {
                Some(s) => {
                    &&& s.row == 0
                    &&& s.columns@.len() == self.fields@.len()
                    &&& forall|i: int| 0 <= i < self.fields@.len() ==> as_column(#[trigger] s.columns@[i])
                        == field_column(arch.ids(), self.fields@[i])
                },
                None => true,
            },
    {
        let mut columns: Vec<Option<usize>> = Vec::new();
        let mut i: usize = 0;
        while i < self.fields.len()
            invariant
                arch.wf(),
                0 <= i <= self.fields.len(),
                columns@.len() == i,
                forall|k: int| 0 <= k < i ==> field_matches(arch.ids(), #[trigger] self.fields@[k]),
                forall|k: int| 0 <= k < i ==> as_column(#[trigger] columns@[k]) == field_column(arch.ids(), self.fields@[k]),
            decreases self.fields.len() - i,
        {
            let f = self.fields[i];
            match arch.column_of(f.id) {
                Some(c) => columns.push(Some(c)),
                None => {
                    match f.mode {
                        AccessMode::OptionalShared | AccessMode::OptionalExclusive => columns.push(None),
                        _ => {
                            assert(!field_matches(arch.ids(), self.fields@[i as int]));
                            return None;
                        },
                    }
                },
            }
            i = i + 1;
        }
        Some(FetchState { columns, row: 0 })
    }

    /// Takes access to each field's component type, in declared order.
    /// When one conflicts, the access taken so far is given back and the
    /// state is left as it was.
    pub fn borrow(&self, state: &mut BorrowState) -> (r: Result<(), BorrowConflict>)
        requires
            old(state).wf(),
        ensures
            final(state).wf(),
            match acquire_prefix(old(state).view(), self.fields@, self.fields@.len()) {
                Some(m) => r.is_ok() && final(state).view() == m,
                None => match r {
                    Ok(_) => false,
                    Err(e) => {
                        &&& final(state).view() == old(state).view()
                        &&& e.field < self.fields@.len()
                        &&& e.component == self.fields@[e.field as int].id
                        &&& acquire_prefix(old(state).view(), self.fields@, e.field as nat).is_some()
                        &&& acquire_prefix(old(state).view(), self.fields@, (e.field + 1) as nat).is_none()
                    },
                },
            },
    {
        let ghost m0 = state.view();
        let ghost fs = self.fields@;
        let mut i: usize = 0;
        while i < self.fields.len()
            invariant
                state.wf(),
                m0 == old(state).view(),
                access_wf(m0),
                fs == self.fields@,
                0 <= i <= fs.len(),
                acquire_prefix(m0, fs, i as nat) == Some(state.view()),
            decreases self.fields.len() - i,
        {
            let f = self.fields[i];
            let ok = state.borrow_one(f.id, mode_is_exclusive(f.mode));
            if !ok {
                proof {
                    lemma_acquire_fails_on(m0, fs, (i + 1) as nat, fs.len());
                }
                let mut j: usize = i;
                while j > 0
                    invariant
                        state.wf(),
                        access_wf(m0),
                        fs == self.fields@,
                        0 <= j <= i < fs.len(),
                        acquire_prefix(m0, fs, j as nat) == Some(state.view()),
                    decreases j,
                {
                    let g = self.fields[j - 1];
                    proof {
                        lemma_borrow_release_pairing(m0, fs, (j - 1) as nat);
                        let m1 = acquire_prefix(m0, fs, (j - 1) as nat).unwrap();
                        lemma_release_undoes_acquire(m1, g.id, is_exclusive(g.mode));
                    }
                    state.release_one(g.id, mode_is_exclusive(g.mode));
                    j = j - 1;
                }
                return Err(BorrowConflict { field: i, component: f.id });
            }
            i = i + 1;
        }
        Ok(())
    }

    /// Gives back the access of every field, from the last to the first.
    pub fn release(&self, state: &mut BorrowState)
        requires
            old(state).wf(),
        ensures
            final(state).wf(),
            final(state).view() == release_back(old(state).view(), self.fields@, self.fields@.len()),
    {
        let ghost fs = self.fields@;
        let mut j: usize = self.fields.len();
        while j > 0
            invariant
                state.wf(),
                fs == self.fields@,
                0 <= j <= fs.len(),
                release_back(state.view(), fs, j as nat) == release_back(old(state).view(), fs, fs.len()),
            decreases j,
        {
            let g = self.fields[j - 1];
            state.release_one(g.id, mode_is_exclusive(g.mode));
            j = j - 1;
        }
    }

    /// One activation of the query over `arch`: borrows, fetches, reads at
    /// most `limit` slots in order, then releases. Returns `Ok(None)` when
    /// the archetype does not match.
    pub fn run<'a, V>(&self, arch: &'a Archetype<V>, state: &mut BorrowState, limit: usize) -> (r: Result<
        Option<Vec<Vec<Option<&'a V>>>>,
        BorrowConflict,
    >)
        requires
            arch.wf(),
            old(state).wf(),
        ensures
            final(state).wf(),
            final(state).view() == old(state).view(),
            r.is_err() == acquire_prefix(old(state).view(), self.fields@, self.fields@.len()).is_none(),
            match r {
                Err(e) => {
                    &&& e.field < self.fields@.len()
                    &&& e.component == self.fields@[e.field as int].id
                    &&& acquire_prefix(old(state).view(), self.fields@, e.field as nat).is_some()
                    &&& acquire_prefix(old(state).view(), self.fields@, (e.field + 1) as nat).is_none()
                },
                Ok(None) => !query_matches(arch.ids(), self.fields@),
                Ok(Some(items)) => {
                    &&& query_matches(arch.ids(), self.fields@)
                    &&& items@.len() == (if limit < arch.len_spec() { limit as nat } else { arch.len_spec() })
                    &&& forall|row: int|
                        0 <= row < items@.len() ==> reads_row(#[trigger] items@[row]@, self.fields@, *arch, row)
                },
            },
    {
        let ghost m0 = state.view();
        match self.borrow(state) {
            Err(e) => {
                return Err(e);
            },
            Ok(_) => {},
        }
        proof {
            lemma_borrow_release_pairing(m0, self.fields@, self.fields@.len());
        }
        let out = match self.get(arch) {
            None => None,
            Some(fetch) => {
                let mut fetch = fetch;
                let n = arch.len();
                let mut items: Vec<Vec<Option<&'a V>>> = Vec::new();
                while fetch.row < n && fetch.row < limit
                    invariant
                        arch.wf(),
                        n == arch.len_spec(),
                        fetch.fits(self, arch),
                        fetch.row <= n,
                        fetch.row <= limit,
                        items@.len() == fetch.row,
                        forall|row: int|
                            0 <= row < items@.len() ==> reads_row(#[trigger] items@[row]@, self.fields@, *arch, row),
                    decreases n - fetch.row,
                {
                    let item = fetch.next(self, arch);
                    items.push(item);
                }
                Some(items)
            },
        };
        self.release(state);
        Ok(out)
    }
}

impl FetchState {
    /// The state fits the query `q` fetched from `arch`.
    pub open spec fn fits<V>(&self, q: &Query, arch: &Archetype<V>) -> bool {
        &&& self.columns@.len() == q.fields@.len()
        &&& forall|i: int| 0 <= i < q.fields@.len() ==> as_column(#[trigger] self.columns@[i]) == field_column(
            arch.ids(),
            q.fields@[i],
        )
    }

    /// Reads the current slot for every field and moves to the next slot.
    pub fn next<'a, V>(&mut self, q: &Query, arch: &'a Archetype<V>) -> (item: Vec<Option<&'a V>>)
        requires
            arch.wf(),
            old(self).fits(q, arch),
            old(self).row < arch.len_spec(),
        ensures
            final(self).fits(q, arch),
            final(self).row == old(self).row + 1,
            reads_row(item@, q.fields@, *arch, old(self).row as int),
    {
        let n = arch.len();
        let mut item: Vec<Option<&'a V>> = Vec::new();
        let mut i: usize = 0;
        while i < self.columns.len()
            invariant
                arch.wf(),
                self.fits(q, arch),
                self.row == old(self).row,
                self.row < n,
                0 <= i <= self.columns@.len(),
                item@.len() == i,
                forall|k: int| 0 <= k < i ==> (match #[trigger] item@[k] {
                    Some(v) => Some(*v),
                    None => None,
                }) == arch.slot(q.fields@[k].id, self.row as int),
            decreases self.columns@.len() - i,
        {
            match self.columns[i] {
                Some(c) => {
                    assert(arch.ids().contains(q.fields@[i as int].id));
                    item.push(arch.get_at(c, self.row));
                },
                None => {
                    item.push(None);
                },
            }
            i = i + 1;
        }
        self.row = self.row + 1;
        item
    }
}

} // verus!
