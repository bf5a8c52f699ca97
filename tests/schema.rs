use ecs_schema::archetype::Archetype;
use ecs_schema::borrow::{Access, BorrowState};
use ecs_schema::descriptor::{TypeDescriptor, TypeRegistry};
use ecs_schema::query::{AccessMode, FieldSpec, Query};
use ecs_schema::signature::{canonicalize, SignatureCache};
use ecs_schema::table::{ArchetypeTable, BundleType};

#[derive(Clone, Debug, PartialEq)]
enum Value {
    Int(i32),
    Flag(bool),
    Mesh(String),
    Pos([f32; 3]),
}

fn desc(id: u64, align: usize, name: &str) -> TypeDescriptor {
    TypeDescriptor::new(id, align, align, name.to_string())
}

fn field(id: u64, mode: AccessMode) -> FieldSpec {
    FieldSpec { id, mode }
}

const INT: u64 = 10;
const FLAG: u64 = 11;
const MESH: u64 = 12;
const POS: u64 = 13;

fn int_desc() -> TypeDescriptor {
    desc(INT, 4, "i32")
}

fn flag_desc() -> TypeDescriptor {
    desc(FLAG, 1, "bool")
}

fn mesh_desc() -> TypeDescriptor {
    desc(MESH, 8, "MeshId")
}

fn pos_desc() -> TypeDescriptor {
    desc(POS, 4, "Position")
}

#[test]
fn signature_orders_by_alignment_then_identity() {
    let ds = vec![desc(3, 4, "C"), desc(1, 8, "A"), desc(2, 4, "B"), desc(0, 1, "D")];
    let sig = canonicalize(&"Mixed".to_string(), &ds).ok().unwrap();
    assert_eq!(sig, vec![1, 2, 3, 0]);
}

#[test]
fn signature_ignores_declaration_order() {
    let base = [desc(5, 4, "A"), desc(7, 8, "B"), desc(6, 4, "C")];
    let orders = [[0, 1, 2], [0, 2, 1], [1, 0, 2], [1, 2, 0], [2, 0, 1], [2, 1, 0]];
    let mut first: Option<Vec<u64>> = None;
    for order in orders.iter() {
        let ds: Vec<TypeDescriptor> = order.iter().map(|&i| base[i].duplicate()).collect();
        let sig = canonicalize(&"Perm".to_string(), &ds).ok().unwrap();
        assert_eq!(sig, vec![7, 5, 6]);
        match &first {
            Some(f) => assert_eq!(&sig, f),
            None => first = Some(sig),
        }
    }
}

#[test]
fn duplicate_component_is_rejected_with_names() {
    let ds = vec![desc(1, 4, "A"), desc(2, 8, "B"), desc(1, 4, "A2"), desc(2, 8, "B2")];
    let err = canonicalize(&"Twice".to_string(), &ds).err().unwrap();
    assert_eq!(err.bundle, "Twice");
    assert_eq!(err.component, "A2");
    let again = canonicalize(&"Twice".to_string(), &ds).err().unwrap();
    assert_eq!(again.bundle, err.bundle);
    assert_eq!(again.component, err.component);
}

#[test]
fn empty_bundle_has_empty_signature() {
    let sig = canonicalize(&"Empty".to_string(), &Vec::new()).ok().unwrap();
    assert!(sig.is_empty());
}

#[test]
fn signature_twice_is_identical() {
    let ds = vec![mesh_desc(), pos_desc(), int_desc()];
    let a = canonicalize(&"S".to_string(), &ds).ok().unwrap();
    let b = canonicalize(&"S".to_string(), &ds).ok().unwrap();
    assert_eq!(a, b);
    assert_eq!(a, vec![MESH, INT, POS]);
}

#[test]
fn cache_computes_once_per_bundle_type() {
    let mut cache = SignatureCache::new();
    let ds = vec![pos_desc(), mesh_desc()];
    let a = cache.signature(1, &"StaticMesh".to_string(), &ds).ok().unwrap();
    assert_eq!(a, vec![MESH, POS]);
    // A later request for the same key returns the stored outcome.
    let b = cache.signature(1, &"StaticMesh".to_string(), &vec![int_desc()]).ok().unwrap();
    assert_eq!(a, b);
    let dup = vec![int_desc(), int_desc()];
    let e1 = cache.signature(2, &"Bad".to_string(), &dup).err().unwrap();
    let e2 = cache.signature(2, &"Bad".to_string(), &dup).err().unwrap();
    assert_eq!(e1.bundle, "Bad");
    assert_eq!(e1.component, "i32");
    assert_eq!(e2.bundle, e1.bundle);
    assert_eq!(e2.component, e1.component);
}

#[test]
fn registry_hands_out_distinct_identities() {
    let mut reg = TypeRegistry::new();
    let a = reg.register("A".to_string(), 4, 4);
    let b = reg.register("B".to_string(), 8, 16);
    assert_eq!(a.id, 0);
    assert_eq!(b.id, 1);
    let found = reg.descriptor(1).unwrap();
    assert_eq!(found.name, "B");
    assert_eq!(found.align, 8);
    assert_eq!(found.size, 16);
    assert!(reg.descriptor(2).is_none());
}

fn static_mesh() -> BundleType {
    BundleType { name: "StaticMesh".to_string(), components: vec![mesh_desc(), pos_desc()] }
}

#[test]
fn bundle_round_trip_position() {
    let bundle = static_mesh();
    let sig = canonicalize(&bundle.name, &bundle.components).ok().unwrap();
    let mut table: ArchetypeTable<Value> = ArchetypeTable::new();
    let values = vec![Value::Mesh("x".to_string()), Value::Pos([1.0, 2.0, 3.0])];
    let (a, row) = table.spawn(&bundle, &sig, values);
    assert_eq!(table.get(a, POS, row), Some(&Value::Pos([1.0, 2.0, 3.0])));
    assert_eq!(table.get(a, MESH, row), Some(&Value::Mesh("x".to_string())));
    assert_eq!(table.get(a, INT, row), None);
}

#[test]
fn spawn_reuses_archetype_for_same_signature() {
    let bundle = static_mesh();
    let sig = canonicalize(&bundle.name, &bundle.components).ok().unwrap();
    let reversed = BundleType { name: "Other".to_string(), components: vec![pos_desc(), mesh_desc()] };
    let sig2 = canonicalize(&reversed.name, &reversed.components).ok().unwrap();
    let mut table: ArchetypeTable<Value> = ArchetypeTable::new();
    let (a0, r0) = table.spawn(&bundle, &sig, vec![Value::Mesh("a".to_string()), Value::Pos([0.0; 3])]);
    let (a1, r1) = table.spawn(&reversed, &sig2, vec![Value::Pos([4.0, 5.0, 6.0]), Value::Mesh("b".to_string())]);
    assert_eq!(a0, a1);
    assert_eq!((r0, r1), (0, 1));
    assert_eq!(table.len(), 1);
    assert_eq!(table.get_id(&sig), Some(a0));
    assert_eq!(table.get(a1, POS, r1), Some(&Value::Pos([4.0, 5.0, 6.0])));
    assert_eq!(table.get(a0, MESH, r0), Some(&Value::Mesh("a".to_string())));
    let types: Vec<u64> = table.archetype(a0).types().iter().map(|d| d.id).collect();
    assert_eq!(types, vec![MESH, POS]);
}

#[test]
fn archetype_store_writes_each_field() {
    let mut arch: Archetype<Value> = Archetype::new(vec![int_desc(), flag_desc()]);
    let r0 = arch.allocate();
    let r1 = arch.allocate();
    assert_eq!((r0, r1, arch.len()), (0, 1, 2));
    arch.store(&vec![flag_desc(), int_desc()], vec![Value::Flag(true), Value::Int(7)], r1);
    assert_eq!(arch.get(INT, r1), Some(&Value::Int(7)));
    assert_eq!(arch.get(FLAG, r1), Some(&Value::Flag(true)));
    assert_eq!(arch.get(INT, r0), None);
    assert_eq!(arch.column_of(FLAG), Some(1));
    assert_eq!(arch.column_of(POS), None);
}

fn int_only_archetype(values: &[i32]) -> Archetype<Value> {
    let mut arch: Archetype<Value> = Archetype::new(vec![int_desc()]);
    for v in values {
        let row = arch.allocate();
        arch.put(INT, row, Value::Int(*v));
    }
    arch
}

#[test]
fn optional_field_matches_with_absent_slot() {
    let q = Query::new(vec![field(INT, AccessMode::Shared), field(FLAG, AccessMode::OptionalShared)]);
    let only_a = int_only_archetype(&[5]);
    let fetch = q.get(&only_a).unwrap();
    assert_eq!(fetch.columns, vec![Some(0), None]);
    assert_eq!(fetch.row, 0);
    let neither: Archetype<Value> = Archetype::new(vec![pos_desc()]);
    assert!(q.get(&neither).is_none());
}

#[test]
fn query_with_optional_exclusive_yields_one_result() {
    let q = Query::new(vec![field(INT, AccessMode::Shared), field(FLAG, AccessMode::OptionalExclusive)]);
    let arch = int_only_archetype(&[42]);
    let mut state = BorrowState::new();
    let items = q.run(&arch, &mut state, usize::MAX).ok().unwrap().unwrap();
    assert_eq!(items.len(), 1);
    assert_eq!(items[0], vec![Some(&Value::Int(42)), None]);
}

#[test]
fn fetch_next_reads_each_slot_in_turn() {
    let q = Query::new(vec![field(INT, AccessMode::Exclusive)]);
    let arch = int_only_archetype(&[1, 2]);
    let mut fetch = q.get(&arch).unwrap();
    assert_eq!(fetch.next(&q, &arch), vec![Some(&Value::Int(1))]);
    assert_eq!(fetch.next(&q, &arch), vec![Some(&Value::Int(2))]);
    assert_eq!(fetch.row, 2);
}

#[test]
fn borrow_and_release_are_paired_when_abandoned_early() {
    let q = Query::new(vec![field(INT, AccessMode::Shared), field(FLAG, AccessMode::OptionalExclusive)]);
    let arch = int_only_archetype(&[1, 2, 3]);
    let mut state = BorrowState::new();
    let items = q.run(&arch, &mut state, 1).ok().unwrap().unwrap();
    assert_eq!(items.len(), 1);
    assert_eq!(items[0][0], Some(&Value::Int(1)));
    assert_eq!(state.access_of(INT), None);
    assert_eq!(state.access_of(FLAG), None);
}

#[test]
fn borrow_counts_shared_and_exclusive_access() {
    let q = Query::new(vec![field(INT, AccessMode::Shared), field(FLAG, AccessMode::Exclusive)]);
    let mut state = BorrowState::new();
    assert!(q.borrow(&mut state).is_ok());
    assert_eq!(state.access_of(INT), Some(Access::Shared(1)));
    assert_eq!(state.access_of(FLAG), Some(Access::Exclusive));
    assert!(q.borrow(&mut state).is_err());
    assert_eq!(state.access_of(INT), Some(Access::Shared(1)));
    q.release(&mut state);
    assert_eq!(state.access_of(INT), None);
    assert_eq!(state.access_of(FLAG), None);
}

#[test]
fn shared_and_exclusive_on_same_type_conflict() {
    let q = Query::new(vec![
        field(POS, AccessMode::Shared),
        field(INT, AccessMode::Shared),
        field(INT, AccessMode::OptionalExclusive),
    ]);
    let mut state = BorrowState::new();
    let e = q.borrow(&mut state).err().unwrap();
    assert_eq!((e.field, e.component), (2, INT));
    assert_eq!(state.access_of(INT), None);
    assert_eq!(state.access_of(POS), None);
    let arch = int_only_archetype(&[1]);
    let e2 = q.run(&arch, &mut state, 10).err().unwrap();
    assert_eq!((e2.field, e2.component), (2, INT));
}

#[test]
fn shared_borrows_stack() {
    let mut state = BorrowState::new();
    assert!(state.borrow_one(INT, false));
    assert!(state.borrow_one(INT, false));
    assert_eq!(state.access_of(INT), Some(Access::Shared(2)));
    assert!(!state.borrow_one(INT, true));
    state.release_one(INT, false);
    assert_eq!(state.access_of(INT), Some(Access::Shared(1)));
    state.release_one(INT, false);
    assert!(state.borrow_one(INT, true));
    assert!(!state.borrow_one(INT, false));
}

#[test]
fn unmatched_archetype_gives_none_and_restores_state() {
    let q = Query::new(vec![field(MESH, AccessMode::Shared)]);
    let arch = int_only_archetype(&[1]);
    let mut state = BorrowState::new();
    assert!(q.run(&arch, &mut state, 5).ok().unwrap().is_none());
    assert_eq!(state.access_of(MESH), None);
}
