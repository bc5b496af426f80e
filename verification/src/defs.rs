//! Core data model of the collector: shape descriptors (`Class`), the
//! in-progress shape builder (`ClassBuilder`), and the `Gc` state that owns
//! the shape registry and the allocation tracker.
use vstd::prelude::*;

verus! {

/// Size in bytes of one machine word / pointer slot. Pointer-field offsets
/// must be aligned to this.
pub const WORD_SIZE: usize = 8;

/// The numeric address of a tracked heap allocation. Used purely as a map
/// key plus offset arithmetic; the collector never dereferences it.
#[derive(Copy, Clone, PartialEq, Eq, Structural, Debug)]
pub struct ObjectLocation(pub usize);

/// A byte offset within an instance of a shape at which a tracked heap
/// address may be stored.
#[derive(Copy, Clone, PartialEq, Eq, Structural, Debug)]
pub struct PointerOffset(pub usize);

/// An opaque small integer identifying a shape, assigned by the host.
#[derive(Copy, Clone, PartialEq, Eq, Structural, Debug)]
pub struct ClassId(pub usize);

/// Why a collector call was refused. Every variant is fatal for the host:
/// the caller is expected to stop rather than continue with a collector
/// whose protocol was violated.
#[derive(Copy, Clone, PartialEq, Eq, Structural, Debug)]
pub enum GcError {
    /// An operation was invoked outside its valid lifecycle state, a shape
    /// was finalized without a size or with an invalid pointer offset, or a
    /// registry operation ran with no builder in progress.
    ProtocolViolation,
    /// `alloc` was called with an id that has no finalized shape.
    UnknownShape,
    /// The allocator handed out an address the tracker already holds as
    /// live; the collector's view of the heap can no longer be trusted.
    Inconsistency,
}

/// An immutable shape descriptor: allocation size in bytes plus the byte
/// offsets of the pointer-valued fields of an instance.
pub struct Class {
    pub id: ClassId,
    pub size: usize,
    pub ptr_locations: Vec<PointerOffset>,
}

impl Class {
    /// Every pointer offset lies inside an instance and is word-aligned.
    pub open spec fn wf(self) -> bool {
        forall|j: int|
            0 <= j < self.ptr_locations@.len() ==> (#[trigger] self.ptr_locations@[j]).0
                < self.size && self.ptr_locations@[j].0 % WORD_SIZE == 0
    }
}

/// A shape definition in progress: the size may not have arrived yet and
/// pointer offsets are still being appended. Exactly one builder is active
/// at a time, owned by the registry.
pub struct ClassBuilder {
    pub id: usize,
    pub size: Option<usize>,
    pub ptrs: Vec<PointerOffset>,
}

impl ClassBuilder {
    /// The builder can be finalized: a size was set, and every recorded
    /// offset lies inside that size and is word-aligned.
    pub open spec fn buildable(self) -> bool {
        &&& self.size is Some
        &&& forall|j: int|
            0 <= j < self.ptrs@.len() ==> (#[trigger] self.ptrs@[j]).0 < self.size.unwrap()
                && self.ptrs@[j].0 % WORD_SIZE == 0
    }

    /// The shape this builder finalizes into, meaningful when `buildable()`.
    pub open spec fn built(self) -> Class {
        Class { id: ClassId(self.id), size: self.size.unwrap(), ptr_locations: self.ptrs }
    }

    pub fn new(id: usize) -> (b: ClassBuilder)
        ensures
            b.id == id,
            b.size is None,
            b.ptrs@ =~= Seq::<PointerOffset>::empty(),
    {
        ClassBuilder { id, size: None, ptrs: Vec::new() }
    }

    pub fn set_size(&mut self, size: usize)
        ensures
            final(self).id == old(self).id,
            final(self).size == Some(size),
            final(self).ptrs@ == old(self).ptrs@,
    {
        self.size = Some(size);
    }

    pub fn add_ptr(&mut self, ptr: usize)
        ensures
            final(self).id == old(self).id,
            final(self).size == old(self).size,
            final(self).ptrs@ == old(self).ptrs@.push(PointerOffset(ptr)),
    {
        self.ptrs.push(PointerOffset(ptr));
    }

    /// Would `build` succeed on this builder as it stands?
    pub fn can_build(&self) -> (r: bool)
        ensures
            r == self.buildable(),
    {
        match self.size {
            None => false,
            Some(sz) => {
                let mut j: usize = 0;
                while j < self.ptrs.len()
                    invariant
                        j <= self.ptrs@.len(),
                        self.size == Some(sz),
                        forall|k: int|
                            0 <= k < j ==> (#[trigger] self.ptrs@[k]).0 < sz && self.ptrs@[k].0
                                % WORD_SIZE == 0,
                    decreases self.ptrs@.len() - j,
                {
                    let off = self.ptrs[j].0;
                    if !(off < sz && off % WORD_SIZE == 0) {
                        return false;
                    }
                    j += 1;
                }
                true
            },
        }
    }

    /// Finalize the builder into an immutable shape. Returns `None` exactly
    /// when the registration protocol was violated: no size was submitted,
    /// or some pointer offset falls outside the instance or is unaligned.
    pub fn build(self) -> (r: Option<Class>)
        ensures
            r is Some <==> self.buildable(),
            self.buildable() ==> r == Some(self.built()),
            r is Some ==> r.unwrap().wf(),
    {
        match self.size {
            None => None,
            Some(sz) => {
                let mut j: usize = 0;
                while j < self.ptrs.len()
                    invariant
                        j <= self.ptrs@.len(),
                        self.size == Some(sz),
                        forall|k: int|
                            0 <= k < j ==> (#[trigger] self.ptrs@[k]).0 < sz && self.ptrs@[k].0
                                % WORD_SIZE == 0,
                    decreases self.ptrs@.len() - j,
                {
                    let off = self.ptrs[j].0;
                    if !(off < sz && off % WORD_SIZE == 0) {
                        return None;
                    }
                    j += 1;
                }
                Some(Class { id: ClassId(self.id), size: sz, ptr_locations: self.ptrs })
            },
        }
    }
}

/// Does the registry sequence hold a class with this id?
pub open spec fn has_class(s: Seq<Class>, id: ClassId) -> bool {
    exists|i: int| 0 <= i < s.len() && (#[trigger] s[i]).id == id
}

/// The class registered under `id` (meaningful when `has_class`).
pub open spec fn class_at(s: Seq<Class>, id: ClassId) -> Class {
    s[choose|i: int| 0 <= i < s.len() && (#[trigger] s[i]).id == id]
}

/// Does the tracker sequence hold an entry for this address?
pub open spec fn has_addr(s: Seq<(ObjectLocation, ClassId)>, a: ObjectLocation) -> bool {
    exists|i: int| 0 <= i < s.len() && (#[trigger] s[i]).0 == a
}

/// The class id the tracker records for `a` (meaningful when `has_addr`).
pub open spec fn class_id_at(s: Seq<(ObjectLocation, ClassId)>, a: ObjectLocation) -> ClassId {
    s[choose|i: int| 0 <= i < s.len() && (#[trigger] s[i]).0 == a].1
}

/// With pairwise-distinct class ids, the entry found at any index is the
/// entry `class_at` denotes.
pub proof fn lemma_class_at(s: Seq<Class>, i: int)
    requires
        forall|p: int, q: int| 0 <= p < q < s.len() ==> (#[trigger] s[p]).id != (#[trigger] s[q]).id,
        0 <= i < s.len(),
    ensures
        has_class(s, s[i].id),
        class_at(s, s[i].id) == s[i],
{
    assert(has_class(s, s[i].id));
    let j = choose|j: int| 0 <= j < s.len() && (#[trigger] s[j]).id == s[i].id;
    assert(j == i);
}

/// With pairwise-distinct addresses, the entry found at any index is the
/// entry `class_id_at` denotes.
pub proof fn lemma_class_id_at(s: Seq<(ObjectLocation, ClassId)>, i: int)
    requires
        forall|p: int, q: int| 0 <= p < q < s.len() ==> (#[trigger] s[p]).0 != (#[trigger] s[q]).0,
        0 <= i < s.len(),
    ensures
        has_addr(s, s[i].0),
        class_id_at(s, s[i].0) == s[i].1,
{
    assert(has_addr(s, s[i].0));
    let j = choose|j: int| 0 <= j < s.len() && (#[trigger] s[j]).0 == s[i].0;
    assert(j == i);
}

/// Allocation tracking invariant: no address is ever tracked twice
/// simultaneously — two distinct live tracker entries of a well-formed
/// collector always carry distinct addresses.
pub proof fn lemma_no_double_tracking(gc: Gc, p: int, q: int)
    requires
        gc.wf(),
        0 <= p < q < gc.allocated_objs@.len(),
    ensures
        gc.allocated_objs@[p].0 != gc.allocated_objs@[q].0,
{
}

/// The collector core: the shape registry (finalized classes plus the one
/// in-progress builder) and the allocation tracker mapping every live
/// tracked address to the id of its shape.
pub struct Gc {
    pub classes: Vec<Class>,
    pub allocated_objs: Vec<(ObjectLocation, ClassId)>,
    pub current_build: Option<ClassBuilder>,
}

impl Gc {
    /// Structural invariant: class ids are unique, every class is
    /// well-formed, tracked addresses are unique (no address is tracked
    /// twice simultaneously), and every tracked entry's class id resolves
    /// in the registry — the tracker and the registry never disagree.
    pub open spec fn wf(self) -> bool {
        &&& forall|p: int, q: int|
            0 <= p < q < self.classes@.len() ==> (#[trigger] self.classes@[p]).id
                != (#[trigger] self.classes@[q]).id
        &&& forall|i: int| 0 <= i < self.classes@.len() ==> (#[trigger] self.classes@[i]).wf()
        &&& forall|p: int, q: int|
            0 <= p < q < self.allocated_objs@.len() ==> (#[trigger] self.allocated_objs@[p]).0
                != (#[trigger] self.allocated_objs@[q]).0
        &&& forall|i: int|
            0 <= i < self.allocated_objs@.len() ==> has_class(
                self.classes@,
                (#[trigger] self.allocated_objs@[i]).1,
            )
    }

    /// Is `a` a live tracked address?
    pub open spec fn is_tracked(self, a: ObjectLocation) -> bool {
        has_addr(self.allocated_objs@, a)
    }

    pub fn new() -> (gc: Gc)
        ensures
            gc.wf(),
            gc.classes@.len() == 0,
            gc.allocated_objs@.len() == 0,
            gc.current_build is None,
    {
        Gc { classes: Vec::new(), allocated_objs: Vec::new(), current_build: None }
    }

    /// Index of the class registered under `id`, if any.
    pub(crate) fn find_class(&self, id: ClassId) -> (r: Option<usize>)
        ensures
            match r {
                Some(i) => i < self.classes@.len() && self.classes@[i as int].id == id,
                None => !has_class(self.classes@, id),
            },
    {
        let mut i: usize = 0;
        while i < self.classes.len()
            invariant
                i <= self.classes@.len(),
                forall|k: int| 0 <= k < i ==> (#[trigger] self.classes@[k]).id != id,
            decreases self.classes@.len() - i,
        {
            if self.classes[i].id == id {
                return Some(i);
            }
            i += 1;
        }
        None
    }

    /// Index of the tracker entry for address `a`, if any.
    pub(crate) fn find_tracked(&self, a: ObjectLocation) -> (r: Option<usize>)
        ensures
            match r {
                Some(i) => i < self.allocated_objs@.len() && self.allocated_objs@[i as int].0 == a,
                None => !has_addr(self.allocated_objs@, a),
            },
    {
        let mut i: usize = 0;
        while i < self.allocated_objs.len()
            invariant
                i <= self.allocated_objs@.len(),
                forall|k: int| 0 <= k < i ==> (#[trigger] self.allocated_objs@[k]).0 != a,
            decreases self.allocated_objs@.len() - i,
        {
            if self.allocated_objs[i].0 == a {
                return Some(i);
            }
            i += 1;
        }
        None
    }

    /// Insert a finalized class, replacing any previous class with the same
    /// id (redefinition overwrites; a host that redefines an id with live
    /// instances outstanding gets the new layout on the next cycle).
    fn insert_class(&mut self, c: Class)
        requires
            old(self).wf(),
            c.wf(),
        ensures
            final(self).wf(),
            final(self).allocated_objs@ == old(self).allocated_objs@,
            final(self).current_build == old(self).current_build,
            has_class(final(self).classes@, c.id),
            class_at(final(self).classes@, c.id) == c,
            forall|id: ClassId|
                id != c.id ==> (has_class(final(self).classes@, id) == has_class(
                    old(self).classes@,
                    id,
                ) && (has_class(old(self).classes@, id) ==> class_at(final(self).classes@, id)
                    == class_at(old(self).classes@, id))),
    {
        let ghost pre = self.classes@;
        match self.find_class(c.id) {
            Some(i) => {
                self.classes.remove(i);
                proof {
                    assert forall|id: ClassId| has_class(self.classes@, id) implies has_class(
                        pre,
                        id,
                    ) && class_at(self.classes@, id) == class_at(pre, id) by {
                        let k = choose|k: int|
                            0 <= k < self.classes@.len() && (#[trigger] self.classes@[k]).id == id;
                        let k0: int = if k < i { k } else { k + 1 };
                        assert(pre[k0] == self.classes@[k]);
                        lemma_class_at(pre, k0);
                        lemma_class_at(self.classes@, k);
                    }
                    assert forall|id: ClassId|
                        id != c.id && has_class(pre, id) implies has_class(self.classes@, id) by {
                        let k0 = choose|k0: int|
                            0 <= k0 < pre.len() && (#[trigger] pre[k0]).id == id;
                        assert(k0 != i);
                        let k: int = if k0 < i { k0 } else { k0 - 1 };
                        assert(self.classes@[k] == pre[k0]);
                    }
                    assert(!has_class(self.classes@, c.id));
                }
            },
            None => {},
        }
        let ghost mid = self.classes@;
        self.classes.push(c);
        proof {
            assert forall|id: ClassId|
                id != c.id && has_class(mid, id) implies has_class(self.classes@, id) && class_at(
                self.classes@,
                id,
            ) == class_at(mid, id) by {
                let k = choose|k: int| 0 <= k < mid.len() && (#[trigger] mid[k]).id == id;
                assert(self.classes@[k] == mid[k]);
                lemma_class_at(mid, k);
                lemma_class_at(self.classes@, k);
            }
            assert forall|id: ClassId|
                id != c.id && has_class(self.classes@, id) implies has_class(mid, id) by {
                let k = choose|k: int|
                    0 <= k < self.classes@.len() && (#[trigger] self.classes@[k]).id == id;
                assert(k < mid.len());
                assert(mid[k] == self.classes@[k]);
            }
            lemma_class_at(self.classes@, self.classes@.len() - 1);
        }
    }

    /// The registry after finalizing the in-progress builder of `pre` (if
    /// any) holds exactly what it held before, except that the builder's id
    /// now maps to the shape the builder described.
    pub open spec fn finalized_classes_ok(pre: Gc, post: Gc) -> bool {
        match pre.current_build {
            None => post.classes@ == pre.classes@,
            Some(b) => {
                &&& has_class(post.classes@, ClassId(b.id))
                &&& class_at(post.classes@, ClassId(b.id)) == b.built()
                &&& forall|id: ClassId|
                    id != ClassId(b.id) ==> (has_class(post.classes@, id) == has_class(
                        pre.classes@,
                        id,
                    ) && (has_class(pre.classes@, id) ==> class_at(post.classes@, id) == class_at(
                        pre.classes@,
                        id,
                    )))
            },
        }
    }

    /// Finalize the previously in-progress builder (if any) into the
    /// registry, then start a new builder for `id`. Refused — with nothing
    /// changed — exactly when the previous builder cannot be finalized
    /// (no size set, or an offset outside the instance or unaligned).
    pub fn add_class(&mut self, id: usize) -> (r: Result<(), GcError>)
        requires
            old(self).wf(),
        ensures
            final(self).wf(),
            final(self).allocated_objs@ == old(self).allocated_objs@,
            r is Ok <==> (old(self).current_build is None
                || old(self).current_build.unwrap().buildable()),
            r is Err ==> r == Err::<(), GcError>(GcError::ProtocolViolation) && *final(self) == *old(self),
            r is Ok ==> {
                &&& Gc::finalized_classes_ok(*old(self), *final(self))
                &&& final(self).current_build is Some
                &&& final(self).current_build.unwrap().id == id
                &&& final(self).current_build.unwrap().size is None
                &&& final(self).current_build.unwrap().ptrs@.len() == 0
            },
    {
        let ok = match &self.current_build {
            Some(b) => b.can_build(),
            None => true,
        };
        if !ok {
            return Err(GcError::ProtocolViolation);
        }
        match self.current_build.take() {
            Some(b) => {
                match b.build() {
                    Some(c) => {
                        self.insert_class(c);
                    },
                    None => {
                        proof {
                            assert(false);
                        }
                    },
                }
            },
            None => {},
        }
        self.current_build = Some(ClassBuilder::new(id));
        Ok(())
    }

    /// A read-only view of the in-progress builder, if any.
    pub fn get_class_builder(&self) -> (r: Option<&ClassBuilder>)
        ensures
            r is Some <==> self.current_build is Some,
            r is Some ==> *r.unwrap() == self.current_build.unwrap(),
    {
        self.current_build.as_ref()
    }

    /// Set the size on the in-progress builder. Refused when no shape
    /// definition is in progress.
    pub fn set_current_size(&mut self, size: usize) -> (r: Result<(), GcError>)
        ensures
            final(self).classes@ == old(self).classes@,
            final(self).allocated_objs@ == old(self).allocated_objs@,
            r is Ok <==> old(self).current_build is Some,
            r is Err ==> r == Err::<(), GcError>(GcError::ProtocolViolation) && *final(self) == *old(self),
            r is Ok ==> {
                &&& final(self).current_build is Some
                &&& final(self).current_build.unwrap().id == old(self).current_build.unwrap().id
                &&& final(self).current_build.unwrap().size == Some(size)
                &&& final(self).current_build.unwrap().ptrs@ == old(self).current_build.unwrap().ptrs@
            },
    {
        match self.current_build.take() {
            Some(mut b) => {
                b.set_size(size);
                self.current_build = Some(b);
                Ok(())
            },
            None => Err(GcError::ProtocolViolation),
        }
    }

    /// Append a pointer-field offset to the in-progress builder. Refused
    /// when no shape definition is in progress. Whether the offset fits the
    /// size is validated at finalize time, since the size may arrive later.
    pub fn add_current_ptr(&mut self, offset: usize) -> (r: Result<(), GcError>)
        ensures
            final(self).classes@ == old(self).classes@,
            final(self).allocated_objs@ == old(self).allocated_objs@,
            r is Ok <==> old(self).current_build is Some,
            r is Err ==> r == Err::<(), GcError>(GcError::ProtocolViolation) && *final(self) == *old(self),
            r is Ok ==> {
                &&& final(self).current_build is Some
                &&& final(self).current_build.unwrap().id == old(self).current_build.unwrap().id
                &&& final(self).current_build.unwrap().size == old(self).current_build.unwrap().size
                &&& final(self).current_build.unwrap().ptrs@ == old(self).current_build.unwrap().ptrs@.push(PointerOffset(offset))
            },
    {
        match self.current_build.take() {
            Some(mut b) => {
                b.add_ptr(offset);
                self.current_build = Some(b);
                Ok(())
            },
            None => Err(GcError::ProtocolViolation),
        }
    }

    /// Finalize the last in-progress builder, closing the current shape
    /// definition. With no builder in progress this is a no-op. Refused —
    /// with nothing changed — when the builder cannot be finalized.
    pub fn finish_building(&mut self) -> (r: Result<(), GcError>)
        requires
            old(self).wf(),
        ensures
            final(self).wf(),
            final(self).allocated_objs@ == old(self).allocated_objs@,
            r is Ok <==> (old(self).current_build is None
                || old(self).current_build.unwrap().buildable()),
            r is Err ==> r == Err::<(), GcError>(GcError::ProtocolViolation) && *final(self) == *old(self),
            r is Ok ==> Gc::finalized_classes_ok(*old(self), *final(self)),
            r is Ok ==> final(self).current_build is None,
    {
        let ok = match &self.current_build {
            Some(b) => b.can_build(),
            None => true,
        };
        if !ok {
            return Err(GcError::ProtocolViolation);
        }
        match self.current_build.take() {
            Some(b) => {
                match b.build() {
                    Some(c) => {
                        self.insert_class(c);
                    },
                    None => {
                        proof {
                            assert(false);
                        }
                    },
                }
                Ok(())
            },
            None => Ok(()),
        }
    }

    /// Record a fresh allocation: the address `addr` now holds an instance
    /// of the shape registered under `id`. Refused with `UnknownShape` when
    /// `id` has no finalized shape, and with `Inconsistency` when `addr` is
    /// already live in the tracker (the underlying allocator must never
    /// hand out an address that has not been reclaimed).
    pub fn allocate(&mut self, id: usize, addr: usize) -> (r: Result<ObjectLocation, GcError>)
        requires
            old(self).wf(),
        ensures
            final(self).wf(),
            final(self).classes@ == old(self).classes@,
            final(self).current_build == old(self).current_build,
            r is Ok <==> (has_class(old(self).classes@, ClassId(id)) && !old(self).is_tracked(
                ObjectLocation(addr),
            )),
            !has_class(old(self).classes@, ClassId(id)) ==> r == Err::<ObjectLocation, GcError>(
                GcError::UnknownShape,
            ),
            has_class(old(self).classes@, ClassId(id)) && old(self).is_tracked(ObjectLocation(addr))
                ==> r == Err::<ObjectLocation, GcError>(GcError::Inconsistency),
            r is Err ==> *final(self) == *old(self),
            r is Ok ==> r == Ok::<ObjectLocation, GcError>(ObjectLocation(addr)) && final(self).allocated_objs@ == old(self).allocated_objs@.push(
                (ObjectLocation(addr), ClassId(id)),
            ),
    {
        if self.find_class(ClassId(id)).is_none() {
            return Err(GcError::UnknownShape);
        }
        let loc = ObjectLocation(addr);
        if self.find_tracked(loc).is_some() {
            return Err(GcError::Inconsistency);
        }
        let ghost pre = self.allocated_objs@;
        self.allocated_objs.push((loc, ClassId(id)));
        proof {
            assert forall|i: int|
                0 <= i < self.allocated_objs@.len() implies has_class(
                self.classes@,
                (#[trigger] self.allocated_objs@[i]).1,
            ) by {
                if i < pre.len() {
                    assert(self.allocated_objs@[i] == pre[i]);
                }
            }
            assert forall|p: int, q: int|
                0 <= p < q < self.allocated_objs@.len() implies (
            #[trigger] self.allocated_objs@[p]).0 != (#[trigger] self.allocated_objs@[q]).0 by {
                if q < pre.len() {
                    assert(self.allocated_objs@[p] == pre[p]);
                    assert(self.allocated_objs@[q] == pre[q]);
                } else {
                    assert(self.allocated_objs@[p] == pre[p]);
                    assert(!has_addr(pre, loc));
                }
            }
        }
        Ok(loc)
    }

    /// The shape descriptor of the tracked object at `ptr`. The structural
    /// invariant guarantees the registry lookup succeeds for every tracked
    /// address, so an `Inconsistency` between tracker and registry can
    /// never arise here.
    pub fn class_for(&self, ptr: ObjectLocation) -> (r: &Class)
        requires
            self.wf(),
            self.is_tracked(ptr),
        ensures
            *r == class_at(self.classes@, class_id_at(self.allocated_objs@, ptr)),
            r.wf(),
    {
        let i = match self.find_tracked(ptr) {
            Some(i) => i,
            None => {
                proof {
                    assert(false);
                }
                0
            },
        };
        proof {
            lemma_class_id_at(self.allocated_objs@, i as int);
        }
        let cid = self.allocated_objs[i].1;
        let j = match self.find_class(cid) {
            Some(j) => j,
            None => {
                proof {
                    let k = choose|k: int|
                        0 <= k < self.allocated_objs@.len() && (#[trigger] self.allocated_objs@[k]).0
                            == ptr;
                    assert(has_class(self.classes@, self.allocated_objs@[k].1));
                    assert(false);
                }
                0
            },
        };
        proof {
            lemma_class_at(self.classes@, j as int);
        }
        &self.classes[j]
    }
}

} // verus!
