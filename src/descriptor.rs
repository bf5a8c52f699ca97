use vstd::prelude::*;

verus! {

/// What the storage engine knows of one component type.
pub struct TypeDescriptor {
    /// Identity, unique among all component types.
    pub id: u64,
    pub align: usize,
    pub size: usize,
    pub name: String,
}

/// The key by which a descriptor is placed in a signature.
pub open spec fn layout_key(d: TypeDescriptor) -> (usize, u64) {
    (d.align, d.id)
}

/// Strict layout order: larger alignment first, then smaller identity.
pub open spec fn key_lt(a: (usize, u64), b: (usize, u64)) -> bool {
    a.0 > b.0 || (a.0 == b.0 && a.1 < b.1)
}

pub open spec fn keys_of(ds: Seq<TypeDescriptor>) -> Seq<(usize, u64)> {
    ds.map_values(|d: TypeDescriptor| layout_key(d))
}

pub open spec fn ids_of(ds: Seq<TypeDescriptor>) -> Seq<u64> {
    ds.map_values(|d: TypeDescriptor| d.id)
}

impl TypeDescriptor {
    pub fn new(id: u64, align: usize, size: usize, name: String) -> (r: TypeDescriptor)
        ensures
            r.id == id,
            r.align == align,
            r.size == size,
            r.name@ == name@,
    {
        TypeDescriptor { id, align, size, name }
    }

    pub fn duplicate(&self) -> (r: TypeDescriptor)
        ensures
            r.id == self.id,
            r.align == self.align,
            r.size == self.size,
            r.name@ == self.name@,
    {
        TypeDescriptor { id: self.id, align: self.align, size: self.size, name: self.name.clone() }
    }
}

/// Hands out descriptors for component types as they are registered; the
/// identity of a type is its registration position.
pub struct TypeRegistry {
    types: Vec<TypeDescriptor>,
}

impl TypeRegistry {
    /// Descriptors registered so far, in registration order.
    pub closed spec fn view(&self) -> Seq<TypeDescriptor> {
        self.types@
    }

    pub closed spec fn wf(&self) -> bool {
        forall|i: int| 0 <= i < self.types@.len() ==> #[trigger] self.types@[i].id == i
    }

    pub fn new() -> (r: TypeRegistry)
        ensures
            r.wf(),
            r.view().len() == 0,
    {
        TypeRegistry { types: Vec::new() }
    }

    /// Registers a component type and returns its descriptor, whose
    /// identity no earlier registration has.
    pub fn register(&mut self, name: String, align: usize, size: usize) -> (d: TypeDescriptor)
        requires
            old(self).wf(),
            old(self).view().len() < u64::MAX,
        ensures
            final(self).wf(),
            d.id == old(self).view().len(),
            d.align == align,
            d.size == size,
            d.name@ == name@,
            forall|i: int| 0 <= i < old(self).view().len() ==> #[trigger] old(self).view()[i].id != d.id,
            final(self).view().len() == old(self).view().len() + 1,
            final(self).view().take(old(self).view().len() as int) == old(self).view(),
            final(self).view().last().id == d.id,
            final(self).view().last().name@ == name@,
    {
        let id = self.types.len() as u64;
        let d = TypeDescriptor { id, align, size, name };
        let copy = d.duplicate();
        self.types.push(copy);
        assert(self.view().take(old(self).view().len() as int) =~= old(self).view());
        d
    }

    /// The descriptor registered with identity `id`.
    pub fn descriptor(&self, id: u64) -> (r: Option<TypeDescriptor>)
        requires
            self.wf(),
        ensures
            match r {
                Some(d) => id < self.view().len() && d.id == id && d.align == self.view()[id as int].align
                    && d.size == self.view()[id as int].size && d.name@ == self.view()[id as int].name@,
                None => id >= self.view().len(),
            },
    {
        if id < self.types.len() as u64 {
            Some(self.types[id as usize].duplicate())
        } else {
            None
        }
    }
}

} // verus!
