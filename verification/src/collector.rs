//! Collector facade: the lifecycle state machine around the collector core.
//!
//! The collector exists once per process as an explicitly owned handle, not
//! as implicit global state: the host constructs it, drives it through
//! `init`, the registration/allocation/collection operations, and finally
//! `destroy`. Every operation other than `init` is valid only in the
//! `Initialized` phase; outside it the call is refused with
//! `ProtocolViolation` and nothing changes — the host treats that as fatal.
//! Collection runs only when the host calls `collect` explicitly; no
//! allocation-volume threshold triggers it behind the host's back.
use crate::defs::{class_at, class_id_at, has_addr, has_class, ClassId, Gc, GcError, ObjectLocation};
use vstd::prelude::*;

verus! {

/// Lifecycle phase of the collector handle. The order is strict and
/// one-way: `Uninitialized` to `Initialized` to `Destroyed` (terminal).
#[derive(Copy, Clone, PartialEq, Eq, Structural, Debug)]
pub enum Phase {
    Uninitialized,
    Initialized,
    Destroyed,
}

/// The process-wide collector object: the lifecycle phase plus the core
/// state (shape registry and allocation tracker). Between `init` and
/// `destroy` it is the sole owner of every tracked allocation; the host
/// holds only the addresses.
pub struct Collector {
    pub phase: Phase,
    pub gc: Gc,
}

impl Collector {
    pub open spec fn wf(self) -> bool {
        self.gc.wf()
    }

    /// A fresh handle, not yet initialized: every operation but `init`
    /// refuses it.
    pub fn new() -> (c: Collector)
        ensures
            c.wf(),
            c.phase == Phase::Uninitialized,
            c.gc.classes@.len() == 0,
            c.gc.allocated_objs@.len() == 0,
            c.gc.current_build is None,
    {
        Collector { phase: Phase::Uninitialized, gc: Gc::new() }
    }

    /// Transition `Uninitialized` to `Initialized`. Refused in any other
    /// phase: the collector is constructed once and never revived.
    pub fn init(&mut self) -> (r: Result<(), GcError>)
        requires
            old(self).wf(),
        ensures
            final(self).wf(),
            r is Ok <==> old(self).phase == Phase::Uninitialized,
            r is Err ==> r == Err::<(), GcError>(GcError::ProtocolViolation) && *final(self)
                == *old(self),
            r is Ok ==> final(self).phase == Phase::Initialized && final(self).gc == old(self).gc,
    {
        match self.phase {
            Phase::Uninitialized => {
                self.phase = Phase::Initialized;
                Ok(())
            },
            _ => Err(GcError::ProtocolViolation),
        }
    }

    /// Finalize the previous in-progress shape (if any) and start a new
    /// shape definition for `id`. See `Gc::add_class` for the registry
    /// effect.
    pub fn begin_shape(&mut self, id: usize) -> (r: Result<(), GcError>)
        requires
            old(self).wf(),
        ensures
            final(self).wf(),
            final(self).phase == old(self).phase,
            old(self).phase != Phase::Initialized ==> r == Err::<(), GcError>(
                GcError::ProtocolViolation,
            ) && *final(self) == *old(self),
            r is Err ==> r == Err::<(), GcError>(GcError::ProtocolViolation) && *final(self)
                == *old(self),
            old(self).phase == Phase::Initialized ==> {
                &&& (r is Ok <==> (old(self).gc.current_build is None
                    || old(self).gc.current_build.unwrap().buildable()))
                &&& (r is Ok ==> {
                    &&& final(self).gc.allocated_objs@ == old(self).gc.allocated_objs@
                    &&& Gc::finalized_classes_ok(old(self).gc, final(self).gc)
                    &&& final(self).gc.current_build is Some
                    &&& final(self).gc.current_build.unwrap().id == id
                    &&& final(self).gc.current_build.unwrap().size is None
                    &&& final(self).gc.current_build.unwrap().ptrs@.len() == 0
                })
            },
    {
        match self.phase {
            Phase::Initialized => self.gc.add_class(id),
            _ => Err(GcError::ProtocolViolation),
        }
    }

    /// Set the size of the shape definition in progress.
    pub fn set_size(&mut self, size: usize) -> (r: Result<(), GcError>)
        requires
            old(self).wf(),
        ensures
            final(self).wf(),
            final(self).phase == old(self).phase,
            r is Err ==> r == Err::<(), GcError>(GcError::ProtocolViolation) && *final(self)
                == *old(self),
            r is Ok <==> (old(self).phase == Phase::Initialized && old(
                self,
            ).gc.current_build is Some),
            r is Ok ==> {
                &&& final(self).gc.classes@ == old(self).gc.classes@
                &&& final(self).gc.allocated_objs@ == old(self).gc.allocated_objs@
                &&& final(self).gc.current_build is Some
                &&& final(self).gc.current_build.unwrap().id == old(
                    self,
                ).gc.current_build.unwrap().id
                &&& final(self).gc.current_build.unwrap().size == Some(size)
                &&& final(self).gc.current_build.unwrap().ptrs@ == old(
                    self,
                ).gc.current_build.unwrap().ptrs@
            },
    {
        match self.phase {
            Phase::Initialized => self.gc.set_current_size(size),
            _ => Err(GcError::ProtocolViolation),
        }
    }

    /// Append a pointer-field offset to the shape definition in progress.
    pub fn add_pointer_offset(&mut self, offset: usize) -> (r: Result<(), GcError>)
        requires
            old(self).wf(),
        ensures
            final(self).wf(),
            final(self).phase == old(self).phase,
            r is Err ==> r == Err::<(), GcError>(GcError::ProtocolViolation) && *final(self)
                == *old(self),
            r is Ok <==> (old(self).phase == Phase::Initialized && old(
                self,
            ).gc.current_build is Some),
            r is Ok ==> {
                &&& final(self).gc.classes@ == old(self).gc.classes@
                &&& final(self).gc.allocated_objs@ == old(self).gc.allocated_objs@
                &&& final(self).gc.current_build is Some
                &&& final(self).gc.current_build.unwrap().id == old(
                    self,
                ).gc.current_build.unwrap().id
                &&& final(self).gc.current_build.unwrap().size == old(
                    self,
                ).gc.current_build.unwrap().size
                &&& final(self).gc.current_build.unwrap().ptrs@ == old(
                    self,
                ).gc.current_build.unwrap().ptrs@.push(crate::defs::PointerOffset(offset))
            },
    {
        match self.phase {
            Phase::Initialized => self.gc.add_current_ptr(offset),
            _ => Err(GcError::ProtocolViolation),
        }
    }

    /// Finalize the last in-progress shape definition; afterwards no shape
    /// definition is open. See `Gc::finish_building`.
    pub fn finish_registration(&mut self) -> (r: Result<(), GcError>)
        requires
            old(self).wf(),
        ensures
            final(self).wf(),
            final(self).phase == old(self).phase,
            old(self).phase != Phase::Initialized ==> r == Err::<(), GcError>(
                GcError::ProtocolViolation,
            ) && *final(self) == *old(self),
            r is Err ==> r == Err::<(), GcError>(GcError::ProtocolViolation) && *final(self)
                == *old(self),
            old(self).phase == Phase::Initialized ==> {
                &&& (r is Ok <==> (old(self).gc.current_build is None
                    || old(self).gc.current_build.unwrap().buildable()))
                &&& (r is Ok ==> {
                    &&& final(self).gc.allocated_objs@ == old(self).gc.allocated_objs@
                    &&& Gc::finalized_classes_ok(old(self).gc, final(self).gc)
                    &&& final(self).gc.current_build is None
                })
            },
    {
        match self.phase {
            Phase::Initialized => self.gc.finish_building(),
            _ => Err(GcError::ProtocolViolation),
        }
    }

    /// The allocation size of the shape registered under `id`, so the host
    /// can obtain that much raw memory before calling `allocate`.
    pub fn class_size(&self, id: usize) -> (r: Result<usize, GcError>)
        requires
            self.wf(),
        ensures
            self.phase != Phase::Initialized ==> r == Err::<usize, GcError>(
                GcError::ProtocolViolation,
            ),
            self.phase == Phase::Initialized ==> {
                &&& (r is Ok <==> has_class(self.gc.classes@, ClassId(id)))
                &&& (!has_class(self.gc.classes@, ClassId(id)) ==> r == Err::<usize, GcError>(
                    GcError::UnknownShape,
                ))
                &&& (r is Ok ==> r == Ok::<usize, GcError>(
                    class_at(self.gc.classes@, ClassId(id)).size,
                ))
            },
    {
        match self.phase {
            Phase::Initialized => {
                match self.gc.find_class(ClassId(id)) {
                    Some(i) => {
                        proof {
                            crate::defs::lemma_class_at(self.gc.classes@, i as int);
                        }
                        Ok(self.gc.classes[i].size)
                    },
                    None => Err(GcError::UnknownShape),
                }
            },
            _ => Err(GcError::ProtocolViolation),
        }
    }

    /// Record a fresh allocation of shape `id` at address `addr` (the raw
    /// memory the host just obtained). See `Gc::allocate` for the exact
    /// success and failure conditions.
    pub fn allocate(&mut self, id: usize, addr: usize) -> (r: Result<ObjectLocation, GcError>)
        requires
            old(self).wf(),
        ensures
            final(self).wf(),
            final(self).phase == old(self).phase,
            old(self).phase != Phase::Initialized ==> r == Err::<ObjectLocation, GcError>(
                GcError::ProtocolViolation,
            ) && *final(self) == *old(self),
            r is Err ==> *final(self) == *old(self),
            old(self).phase == Phase::Initialized ==> {
                &&& (r is Ok <==> (has_class(old(self).gc.classes@, ClassId(id)) && !old(
                    self,
                ).gc.is_tracked(ObjectLocation(addr))))
                &&& (!has_class(old(self).gc.classes@, ClassId(id)) ==> r == Err::<
                    ObjectLocation,
                    GcError,
                >(GcError::UnknownShape))
                &&& (has_class(old(self).gc.classes@, ClassId(id)) && old(self).gc.is_tracked(
                    ObjectLocation(addr),
                ) ==> r == Err::<ObjectLocation, GcError>(GcError::Inconsistency))
                &&& (r is Ok ==> {
                    &&& r == Ok::<ObjectLocation, GcError>(ObjectLocation(addr))
                    &&& final(self).gc.classes@ == old(self).gc.classes@
                    &&& final(self).gc.current_build == old(self).gc.current_build
                    &&& final(self).gc.allocated_objs@ == old(self).gc.allocated_objs@.push(
                        (ObjectLocation(addr), ClassId(id)),
                    )
                })
            },
    {
        match self.phase {
            Phase::Initialized => self.gc.allocate(id, addr),
            _ => Err(GcError::ProtocolViolation),
        }
    }

    /// The heap addresses a collection cycle's `mem` snapshot must cover:
    /// every pointer-field address of every tracked object.
    pub fn field_addresses(&self) -> (r: Result<Vec<usize>, GcError>)
        requires
            self.wf(),
        ensures
            self.phase != Phase::Initialized ==> r == Err::<Vec<usize>, GcError>(
                GcError::ProtocolViolation,
            ),
            self.phase == Phase::Initialized ==> r is Ok && (forall|fa: usize| #[trigger]
                r.unwrap()@.contains(fa) <==> self.gc.is_field_addr(fa)),
    {
        match self.phase {
            Phase::Initialized => Ok(self.gc.field_addresses()),
            _ => Err(GcError::ProtocolViolation),
        }
    }

    /// One full stop-the-world collection cycle over the host's stack and
    /// heap word snapshots. Returns the reclaimed addresses — exactly the
    /// tracked addresses that were unreachable from the conservative roots,
    /// each once — whose raw memory the host must now release.
    pub fn collect(&mut self, stack_words: &Vec<usize>, mem: &Vec<(usize, usize)>) -> (r: Result<
        Vec<ObjectLocation>,
        GcError,
    >)
        requires
            old(self).wf(),
        ensures
            final(self).wf(),
            final(self).phase == old(self).phase,
            old(self).phase != Phase::Initialized ==> r == Err::<Vec<ObjectLocation>, GcError>(
                GcError::ProtocolViolation,
            ) && *final(self) == *old(self),
            old(self).phase == Phase::Initialized ==> {
                &&& r is Ok
                &&& final(self).gc.classes@ == old(self).gc.classes@
                &&& final(self).gc.current_build == old(self).gc.current_build
                &&& (forall|a: ObjectLocation| #[trigger]
                    final(self).gc.is_tracked(a) <==> (old(self).gc.is_tracked(a) && old(
                        self,
                    ).gc.reachable(stack_words@, mem@, a)))
                &&& (forall|a: ObjectLocation| #[trigger]
                    final(self).gc.is_tracked(a) ==> class_id_at(final(self).gc.allocated_objs@, a)
                        == class_id_at(old(self).gc.allocated_objs@, a))
                &&& r.unwrap()@.no_duplicates()
                &&& (forall|a: ObjectLocation| #[trigger]
                    r.unwrap()@.contains(a) <==> (old(self).gc.is_tracked(a) && !old(
                        self,
                    ).gc.reachable(stack_words@, mem@, a)))
            },
    {
        match self.phase {
            Phase::Initialized => Ok(self.gc.mark_and_sweep(stack_words, mem)),
            _ => Err(GcError::ProtocolViolation),
        }
    }

    /// Transition `Initialized` to `Destroyed` (terminal). Empties the
    /// registry and the tracker and returns every address that was still
    /// tracked, each once, whose raw memory the host must now release.
    pub fn destroy(&mut self) -> (r: Result<Vec<ObjectLocation>, GcError>)
        requires
            old(self).wf(),
        ensures
            final(self).wf(),
            old(self).phase != Phase::Initialized ==> r == Err::<Vec<ObjectLocation>, GcError>(
                GcError::ProtocolViolation,
            ) && *final(self) == *old(self),
            old(self).phase == Phase::Initialized ==> {
                &&& r is Ok
                &&& final(self).phase == Phase::Destroyed
                &&& final(self).gc.classes@.len() == 0
                &&& final(self).gc.allocated_objs@.len() == 0
                &&& final(self).gc.current_build is None
                &&& r.unwrap()@.no_duplicates()
                &&& (forall|a: ObjectLocation| #[trigger]
                    r.unwrap()@.contains(a) <==> has_addr(old(self).gc.allocated_objs@, a))
            },
    {
        match self.phase {
            Phase::Initialized => {
                let ghost objs = self.gc.allocated_objs@;
                let mut out: Vec<ObjectLocation> = Vec::new();
                let mut i: usize = 0;
                while i < self.gc.allocated_objs.len()
                    invariant
                        self.gc.wf(),
                        objs == self.gc.allocated_objs@,
                        i <= objs.len(),
                        out@.len() == i,
                        forall|k: int| 0 <= k < i ==> #[trigger] out@[k] == objs[k].0,
                    decreases objs.len() - i,
                {
                    out.push(self.gc.allocated_objs[i].0);
                    i += 1;
                }
                proof {
                    assert forall|p: int, q: int| 0 <= p < q < out@.len() implies out@[p]
                        != out@[q] by {
                        assert(objs[p].0 != objs[q].0);
                    }
                    assert forall|a: ObjectLocation| #[trigger]
                        out@.contains(a) <==> has_addr(objs, a) by {
                        if out@.contains(a) {
                            let k = choose|k: int| 0 <= k < out@.len() && out@[k] == a;
                            assert(objs[k].0 == a);
                            assert(has_addr(objs, a));
                        }
                        if has_addr(objs, a) {
                            let k = choose|k: int| 0 <= k < objs.len() && (#[trigger] objs[k]).0 == a;
                            assert(out@[k] == a);
                        }
                    }
                }
                self.gc = Gc::new();
                self.phase = Phase::Destroyed;
                Ok(out)
            },
            _ => Err(GcError::ProtocolViolation),
        }
    }
}

} // verus!
