use std::collections::HashMap;
use vstd::prelude::*;

verus! {

broadcast use vstd::std_specs::hash::group_hash_axioms;

/// Access currently held on one component type.
#[derive(Clone, Copy, Debug, PartialEq, Eq, Structural)]
pub enum Access {
    /// This many shared borrows, at least one.
    Shared(u64),
    /// One exclusive borrow.
    Exclusive,
}

pub open spec fn access_wf(m: Map<u64, Access>) -> bool {
    forall|id: u64| #[trigger] m.contains_key(id) ==> m[id] != Access::Shared(0)
}

/// Taking access to component type `id`; `None` when it conflicts with
/// what is held, or when the count of shared borrows is at its limit.
pub open spec fn acquire(m: Map<u64, Access>, id: u64, exclusive: bool) -> Option<Map<u64, Access>> {
    if !m.contains_key(id) {
        Some(m.insert(id, if exclusive { Access::Exclusive } else { Access::Shared(1) }))
    } else if exclusive {
        None
    } else {
        match m[id] {
            Access::Shared(n) => if n < u64::MAX {
                Some(m.insert(id, Access::Shared((n + 1) as u64)))
            } else {
                None
            },
            Access::Exclusive => None,
        }
    }
}

/// Giving back one access to component type `id`.
pub open spec fn release(m: Map<u64, Access>, id: u64, exclusive: bool) -> Map<u64, Access> {
    if !m.contains_key(id) {
        m
    } else if exclusive {
        m.remove(id)
    } else {
        match m[id] {
            Access::Shared(n) => if n > 1 {
                m.insert(id, Access::Shared((n - 1) as u64))
            } else {
                m.remove(id)
            },
            Access::Exclusive => m.remove(id),
        }
    }
}

/// Releasing what was just acquired restores the state.
pub proof fn lemma_release_undoes_acquire(m: Map<u64, Access>, id: u64, exclusive: bool)
    requires
        access_wf(m),
        acquire(m, id, exclusive).is_some(),
    ensures
        release(acquire(m, id, exclusive).unwrap(), id, exclusive) == m,
        access_wf(acquire(m, id, exclusive).unwrap()),
{
    let m2 = acquire(m, id, exclusive).unwrap();
    assert(release(m2, id, exclusive) =~= m);
}

/// Per component type, the accesses that active queries hold.
pub struct BorrowState {
    access: HashMap<u64, Access>,
}

impl BorrowState {
    pub closed spec fn view(&self) -> Map<u64, Access> {
        self.access@
    }

    pub open spec fn wf(&self) -> bool {
        access_wf(self.view())
    }

    pub fn new() -> (s: BorrowState)
        ensures
            s.view() == Map::<u64, Access>::empty(),
            s.wf(),
    {
        BorrowState { access: HashMap::new() }
    }

    /// The access held on component type `id`, if any.
    pub fn access_of(&self, id: u64) -> (r: Option<Access>)
        ensures
            r == (if self.view().contains_key(id) { Some(self.view()[id]) } else { None }),
    {
        match self.access.get(&id) {
            Some(a) => Some(*a),
            None => None,
        }
    }

    /// Takes shared or exclusive access to component type `id`.
    pub fn borrow_one(&mut self, id: u64, exclusive: bool) -> (ok: bool)
        requires
            old(self).wf(),
        ensures
            final(self).wf(),
            ok == acquire(old(self).view(), id, exclusive).is_some(),
            ok ==> final(self).view() == acquire(old(self).view(), id, exclusive).unwrap(),
            !ok ==> final(self).view() == old(self).view(),
    {
        let held = self.access_of(id);
        match held {
            None => {
                let a = if exclusive { Access::Exclusive } else { Access::Shared(1) };
                self.access.insert(id, a);
                true
            },
            Some(Access::Shared(n)) => {
                if exclusive || n == u64::MAX {
                    false
                } else {
                    self.access.insert(id, Access::Shared(n + 1));
                    true
                }
            },
            Some(Access::Exclusive) => false,
        }
    }

    /// Gives back one shared or exclusive access to component type `id`.
    pub fn release_one(&mut self, id: u64, exclusive: bool)
        requires
            old(self).wf(),
        ensures
            final(self).wf(),
            final(self).view() == release(old(self).view(), id, exclusive),
    {
        let held = self.access_of(id);
        match held {
            None => {},
            Some(Access::Shared(n)) => {
                if !exclusive && n > 1 {
                    self.access.insert(id, Access::Shared(n - 1));
                } else {
                    self.access.remove(&id);
                }
            },
            Some(Access::Exclusive) => {
                self.access.remove(&id);
            },
        }
        assert(self.view() =~= release(old(self).view(), id, exclusive));
    }
}

} // verus!
