use conservative_gc::collector::{Collector, Phase};
use conservative_gc::defs::{ClassBuilder, ClassId, Gc, GcError, ObjectLocation, PointerOffset};

fn fresh() -> Collector {
    let mut c = Collector::new();
    assert_eq!(c.init(), Ok(()));
    c
}

fn register(c: &mut Collector, id: usize, size: usize, offsets: &[usize]) {
    assert_eq!(c.begin_shape(id), Ok(()));
    assert_eq!(c.set_size(size), Ok(()));
    for &off in offsets {
        assert_eq!(c.add_pointer_offset(off), Ok(()));
    }
    assert_eq!(c.finish_registration(), Ok(()));
}

#[test]
fn builder_roundtrip() {
    let mut b = ClassBuilder::new(5);
    b.set_size(24);
    b.add_ptr(0);
    b.add_ptr(8);
    let c = b.build().expect("a sized builder finalizes");
    assert_eq!(c.id, ClassId(5));
    assert_eq!(c.size, 24);
    assert_eq!(c.ptr_locations, vec![PointerOffset(0), PointerOffset(8)]);
}

#[test]
fn builder_without_size_fails() {
    let mut b = ClassBuilder::new(1);
    b.add_ptr(0);
    assert!(b.build().is_none());
}

#[test]
fn builder_offset_out_of_bounds_fails() {
    let mut b = ClassBuilder::new(1);
    b.set_size(8);
    b.add_ptr(8);
    assert!(b.build().is_none());
}

#[test]
fn builder_unaligned_offset_fails() {
    let mut b = ClassBuilder::new(1);
    b.set_size(16);
    b.add_ptr(4);
    assert!(b.build().is_none());
}

#[test]
fn size_may_arrive_after_offsets() {
    let mut c = fresh();
    assert_eq!(c.begin_shape(3), Ok(()));
    assert_eq!(c.add_pointer_offset(8), Ok(()));
    assert_eq!(c.set_size(16), Ok(()));
    assert_eq!(c.finish_registration(), Ok(()));
    assert_eq!(c.class_size(3), Ok(16));
}

#[test]
fn shape_roundtrip_through_registry() {
    let mut c = fresh();
    register(&mut c, 7, 24, &[0, 8]);
    assert_eq!(c.class_size(7), Ok(24));
    let x = c.allocate(7, 0x4000).unwrap();
    let gc_core: &Gc = &c.gc;
    let cls = gc_core.class_for(x);
    assert_eq!(cls.id, ClassId(7));
    assert_eq!(cls.size, 24);
    assert_eq!(cls.ptr_locations, vec![PointerOffset(0), PointerOffset(8)]);
}

#[test]
fn redefining_a_shape_overwrites() {
    let mut c = fresh();
    register(&mut c, 7, 24, &[]);
    assert_eq!(c.class_size(7), Ok(24));
    register(&mut c, 7, 32, &[8]);
    assert_eq!(c.class_size(7), Ok(32));
}

#[test]
fn unknown_shape_is_refused() {
    let mut c = fresh();
    register(&mut c, 1, 16, &[]);
    assert_eq!(c.allocate(9, 0x1000), Err(GcError::UnknownShape));
    assert_eq!(c.class_size(9), Err(GcError::UnknownShape));
}

#[test]
fn double_tracking_is_refused() {
    let mut c = fresh();
    register(&mut c, 1, 16, &[]);
    assert_eq!(c.allocate(1, 0x1000), Ok(ObjectLocation(0x1000)));
    assert_eq!(c.allocate(1, 0x1000), Err(GcError::Inconsistency));
}

#[test]
fn scenario_empty_roots_frees_the_instance() {
    let mut c = fresh();
    register(&mut c, 1, 16, &[]);
    let x = c.allocate(1, 0x1000).unwrap();
    let freed = c.collect(&vec![], &vec![]).unwrap();
    assert_eq!(freed, vec![x]);
    let left = c.destroy().unwrap();
    assert_eq!(left, Vec::<ObjectLocation>::new());
}

#[test]
fn scenario_rooted_chain_is_retained() {
    let mut c = fresh();
    register(&mut c, 1, 8, &[]);
    register(&mut c, 2, 16, &[0]);
    let x = c.allocate(2, 0x2000).unwrap();
    let y = c.allocate(1, 0x3000).unwrap();
    // The heap snapshot: X's offset-0 field holds Y's address.
    let mem = vec![(0x2000usize, 0x3000usize)];
    // X's address appears among the scanned stack words.
    let stack = vec![0x2000usize];
    let freed = c.collect(&stack, &mem).unwrap();
    assert_eq!(freed, Vec::<ObjectLocation>::new());
    let mut left = c.destroy().unwrap();
    left.sort_by_key(|l| l.0);
    assert_eq!(left, vec![x, y]);
}

#[test]
fn scenario_unrooted_chain_is_freed() {
    let mut c = fresh();
    register(&mut c, 1, 8, &[]);
    register(&mut c, 2, 16, &[0]);
    let x = c.allocate(2, 0x2000).unwrap();
    let y = c.allocate(1, 0x3000).unwrap();
    let mem = vec![(0x2000usize, 0x3000usize)];
    let mut freed = c.collect(&vec![], &mem).unwrap();
    freed.sort_by_key(|l| l.0);
    assert_eq!(freed, vec![x, y]);
    assert_eq!(c.destroy().unwrap(), Vec::<ObjectLocation>::new());
}

#[test]
fn scenario_second_begin_without_size_is_fatal() {
    let mut c = fresh();
    assert_eq!(c.begin_shape(1), Ok(()));
    assert_eq!(c.begin_shape(2), Err(GcError::ProtocolViolation));
}

#[test]
fn transitive_chain_is_followed() {
    let mut c = fresh();
    register(&mut c, 2, 16, &[8]);
    register(&mut c, 1, 8, &[]);
    let x = c.allocate(2, 0x2000).unwrap();
    let y = c.allocate(2, 0x5000).unwrap();
    let z = c.allocate(1, 0x6000).unwrap();
    // X.field -> Y, Y.field -> Z; only X is a root.
    let mem = vec![(0x2008usize, 0x5000usize), (0x5008usize, 0x6000usize)];
    let freed = c.collect(&vec![0x2000], &mem).unwrap();
    assert_eq!(freed, Vec::<ObjectLocation>::new());
    let mut left = c.destroy().unwrap();
    left.sort_by_key(|l| l.0);
    assert_eq!(left, vec![x, y, z]);
}

#[test]
fn object_only_reachable_through_freed_object_is_freed() {
    let mut c = fresh();
    register(&mut c, 2, 16, &[0]);
    register(&mut c, 1, 8, &[]);
    let _x = c.allocate(2, 0x2000).unwrap();
    let y = c.allocate(2, 0x5000).unwrap();
    let z = c.allocate(1, 0x6000).unwrap();
    // Y.field -> Z, and Y itself is a root; X points nowhere useful.
    let mem = vec![(0x5000usize, 0x6000usize), (0x2000usize, 0usize)];
    let mut freed = c.collect(&vec![0x5000], &mem).unwrap();
    freed.sort_by_key(|l| l.0);
    assert_eq!(freed, vec![ObjectLocation(0x2000)]);
    let mut left = c.destroy().unwrap();
    left.sort_by_key(|l| l.0);
    assert_eq!(left, vec![y, z]);
}

#[test]
fn freed_addresses_become_reusable() {
    let mut c = fresh();
    register(&mut c, 1, 16, &[]);
    c.allocate(1, 0x1000).unwrap();
    let freed = c.collect(&vec![], &vec![]).unwrap();
    assert_eq!(freed, vec![ObjectLocation(0x1000)]);
    assert_eq!(c.allocate(1, 0x1000), Ok(ObjectLocation(0x1000)));
}

#[test]
fn stale_stack_word_conservatively_retains() {
    // A stack word that merely happens to equal a tracked address keeps
    // the object alive for the cycle: false positives are tolerated.
    let mut c = fresh();
    register(&mut c, 1, 16, &[]);
    let x = c.allocate(1, 0x1000).unwrap();
    let freed = c.collect(&vec![0x1000, 0xdead], &vec![]).unwrap();
    assert_eq!(freed, Vec::<ObjectLocation>::new());
    assert_eq!(c.destroy().unwrap(), vec![x]);
}

#[test]
fn field_addresses_cover_every_pointer_slot() {
    let mut c = fresh();
    register(&mut c, 2, 24, &[0, 16]);
    register(&mut c, 1, 8, &[]);
    c.allocate(2, 0x2000).unwrap();
    c.allocate(1, 0x3000).unwrap();
    let mut fas = c.field_addresses().unwrap();
    fas.sort();
    assert_eq!(fas, vec![0x2000, 0x2010]);
}

#[test]
fn operations_before_init_are_fatal() {
    let mut c = Collector::new();
    assert_eq!(c.begin_shape(1), Err(GcError::ProtocolViolation));
    assert_eq!(c.set_size(8), Err(GcError::ProtocolViolation));
    assert_eq!(c.add_pointer_offset(0), Err(GcError::ProtocolViolation));
    assert_eq!(c.finish_registration(), Err(GcError::ProtocolViolation));
    assert_eq!(c.allocate(1, 0x1000), Err(GcError::ProtocolViolation));
    assert_eq!(c.class_size(1), Err(GcError::ProtocolViolation));
    assert_eq!(c.field_addresses(), Err(GcError::ProtocolViolation));
    assert_eq!(c.collect(&vec![], &vec![]), Err(GcError::ProtocolViolation));
    assert_eq!(c.destroy(), Err(GcError::ProtocolViolation));
}

#[test]
fn operations_after_destroy_are_fatal() {
    let mut c = fresh();
    register(&mut c, 1, 16, &[]);
    c.allocate(1, 0x1000).unwrap();
    let released = c.destroy().unwrap();
    assert_eq!(released, vec![ObjectLocation(0x1000)]);
    assert_eq!(c.phase, Phase::Destroyed);
    assert_eq!(c.begin_shape(1), Err(GcError::ProtocolViolation));
    assert_eq!(c.allocate(1, 0x2000), Err(GcError::ProtocolViolation));
    assert_eq!(c.collect(&vec![], &vec![]), Err(GcError::ProtocolViolation));
    assert_eq!(c.init(), Err(GcError::ProtocolViolation));
    assert_eq!(c.destroy(), Err(GcError::ProtocolViolation));
}

#[test]
fn init_twice_is_fatal() {
    let mut c = fresh();
    assert_eq!(c.init(), Err(GcError::ProtocolViolation));
}

#[test]
fn registry_errors_leave_state_unchanged() {
    let mut c = fresh();
    assert_eq!(c.set_size(8), Err(GcError::ProtocolViolation));
    assert_eq!(c.add_pointer_offset(0), Err(GcError::ProtocolViolation));
    register(&mut c, 1, 16, &[]);
    // A second registration round refused at finalize keeps the registry.
    assert_eq!(c.begin_shape(2), Ok(()));
    assert_eq!(c.finish_registration(), Err(GcError::ProtocolViolation));
    assert_eq!(c.class_size(1), Ok(16));
}

#[test]
fn finish_with_no_builder_is_a_no_op() {
    let mut c = fresh();
    assert_eq!(c.finish_registration(), Ok(()));
}

#[test]
fn gc_core_protocol_direct() {
    let mut gc = Gc::new();
    assert_eq!(gc.add_class(1), Ok(()));
    assert!(gc.get_class_builder().is_some());
    assert_eq!(gc.set_current_size(16), Ok(()));
    assert_eq!(gc.add_current_ptr(8), Ok(()));
    {
        let b = gc.get_class_builder().unwrap();
        assert_eq!(b.id, 1);
        assert_eq!(b.size, Some(16));
        assert_eq!(b.ptrs, vec![PointerOffset(8)]);
    }
    assert_eq!(gc.finish_building(), Ok(()));
    assert!(gc.get_class_builder().is_none());
    let x = gc.allocate(1, 0x1000).unwrap();
    let cls = gc.class_for(x);
    assert_eq!(cls.size, 16);
    // X's field at offset 8 holds its own address: a self-loop cycle is
    // still unreachable without a root.
    let freed = gc.mark_and_sweep(&vec![], &vec![(0x1008, 0x1000)]);
    assert_eq!(freed, vec![x]);
}

#[test]
fn self_cycle_with_root_survives() {
    let mut gc = Gc::new();
    assert_eq!(gc.add_class(1), Ok(()));
    assert_eq!(gc.set_current_size(16), Ok(()));
    assert_eq!(gc.add_current_ptr(0), Ok(()));
    assert_eq!(gc.finish_building(), Ok(()));
    gc.allocate(1, 0x1000).unwrap();
    let freed = gc.mark_and_sweep(&vec![0x1000], &vec![(0x1000, 0x1000)]);
    assert_eq!(freed, Vec::<ObjectLocation>::new());
}
