//! Reachability engine and sweeper.
//!
//! A collection cycle works on two word snapshots the caller takes while the
//! mutator is stopped: `stack_words`, every word of the scanned stack region
//! (the conservative root candidates), and `mem`, an address-to-word table
//! holding the current word at every pointer-field address of every tracked
//! object. Roots are the stack words that are live tracked addresses; an
//! object `a` points to `b` when the snapshot word of one of `a`'s declared
//! pointer fields is `b`'s address. The sweeper reclaims exactly the tracked
//! addresses that no chain of such edges connects to a root.
use crate::defs::{class_at, class_id_at, has_addr, ClassId, Gc, ObjectLocation};
use vstd::prelude::*;
use vstd::set_lib::lemma_len_subset;

verus! {

/// The word stored at address `a` in the snapshot table, if the table
/// covers `a` (first entry wins).
pub open spec fn mem_lookup(mem: Seq<(usize, usize)>, a: usize) -> Option<usize>
    decreases mem.len(),
{
    if mem.len() == 0 {
        None
    } else if mem[0].0 == a {
        Some(mem[0].1)
    } else {
        mem_lookup(mem.drop_first(), a)
    }
}

proof fn lemma_mem_lookup_skip(mem: Seq<(usize, usize)>, a: usize, i: int)
    requires
        0 <= i < mem.len(),
    ensures
        mem_lookup(mem.skip(i), a) == if mem[i].0 == a {
            Some(mem[i].1)
        } else {
            mem_lookup(mem.skip(i + 1), a)
        },
{
    assert(mem.skip(i)[0] == mem[i]);
    assert(mem.skip(i).drop_first() =~= mem.skip(i + 1));
}

/// Linear scan of the snapshot table for address `a`.
fn lookup_word(mem: &Vec<(usize, usize)>, a: usize) -> (r: Option<usize>)
    ensures
        r == mem_lookup(mem@, a),
{
    proof {
        assert(mem@.skip(0) =~= mem@);
    }
    let mut i: usize = 0;
    while i < mem.len()
        invariant
            i <= mem@.len(),
            mem_lookup(mem@, a) == mem_lookup(mem@.skip(i as int), a),
        decreases mem@.len() - i,
    {
        proof {
            lemma_mem_lookup_skip(mem@, a, i as int);
        }
        if mem[i].0 == a {
            return Some(mem[i].1);
        }
        i += 1;
    }
    proof {
        assert(mem@.skip(mem@.len() as int) =~= Seq::<(usize, usize)>::empty());
    }
    None
}

/// Is `a` one of the elements of `v`?
fn contains_loc(v: &Vec<ObjectLocation>, a: ObjectLocation) -> (r: bool)
    ensures
        r == v@.contains(a),
{
    let mut i: usize = 0;
    while i < v.len()
        invariant
            i <= v@.len(),
            forall|k: int| 0 <= k < i ==> #[trigger] v@[k] != a,
        decreases v@.len() - i,
    {
        if v[i] == a {
            return true;
        }
        i += 1;
    }
    false
}

/// A sequence of distinct tracked addresses can never outgrow the tracker.
proof fn lemma_seen_bounded(objs: Seq<(ObjectLocation, ClassId)>, seen: Seq<ObjectLocation>)
    requires
        seen.no_duplicates(),
        forall|k: int| 0 <= k < seen.len() ==> has_addr(objs, #[trigger] seen[k]),
    ensures
        seen.len() <= objs.len(),
{
    broadcast use vstd::set::group_set_axioms, vstd::seq_lib::seq_to_set_is_finite;

    let keys = objs.map_values(|e: (ObjectLocation, ClassId)| e.0);
    assert forall|k: int| 0 <= k < seen.len() implies keys.contains(#[trigger] seen[k]) by {
        let i = choose|i: int| 0 <= i < objs.len() && (#[trigger] objs[i]).0 == seen[k];
        assert(keys[i] == seen[k]);
    }
    assert(seen.to_set().subset_of(keys.to_set()));
    seen.unique_seq_to_set();
    keys.lemma_cardinality_of_set();
    lemma_len_subset(seen.to_set(), keys.to_set());
}

/// What `s.push(v)` holds is what `s` held, plus `v`.
proof fn lemma_push_contains<T>(s: Seq<T>, v: T)
    ensures
        forall|z: T| #[trigger] s.push(v).contains(z) <==> (s.contains(z) || z == v),
{
    assert forall|z: T| #[trigger] s.push(v).contains(z) implies (s.contains(z) || z == v) by {
        let k = choose|k: int| 0 <= k < s.push(v).len() && s.push(v)[k] == z;
        if k < s.len() {
            assert(s[k] == z);
        }
    }
    assert forall|z: T| (s.contains(z) || z == v) implies #[trigger] s.push(v).contains(z) by {
        if s.contains(z) {
            let k = choose|k: int| 0 <= k < s.len() && s[k] == z;
            assert(s.push(v)[k] == z);
        } else {
            assert(s.push(v)[s.len() as int] == z);
        }
    }
}

/// Appending a fresh element keeps a sequence duplicate-free.
proof fn lemma_push_no_dup<T>(s: Seq<T>, v: T)
    requires
        s.no_duplicates(),
        !s.contains(v),
    ensures
        s.push(v).no_duplicates(),
{
    assert forall|i: int, j: int| 0 <= i < j < s.push(v).len() implies s.push(v)[i] != s.push(
        v,
    )[j] by {
        if j < s.len() {
            assert(s.push(v)[i] == s[i]);
            assert(s.push(v)[j] == s[j]);
        } else {
            assert(s.push(v)[i] == s[i]);
            assert(s.push(v)[j] == v);
            assert(s[i] != v);
        }
    }
}

impl Gc {
    /// The declared pointer-field offsets of the tracked object at `a`.
    pub open spec fn ptrs_of(self, a: ObjectLocation) -> Seq<crate::defs::PointerOffset> {
        class_at(self.classes@, class_id_at(self.allocated_objs@, a)).ptr_locations@
    }

    /// One edge of the object graph under snapshot `mem`: some pointer
    /// field of tracked object `a` currently holds the address of tracked
    /// object `b`. A field address past the end of the address space can
    /// hold nothing.
    pub open spec fn succ(self, mem: Seq<(usize, usize)>, a: ObjectLocation, b: ObjectLocation) -> bool {
        &&& self.is_tracked(a)
        &&& self.is_tracked(b)
        &&& exists|j: int|
            0 <= j < self.ptrs_of(a).len() && a.0 + (#[trigger] self.ptrs_of(a)[j]).0 <= usize::MAX
                && mem_lookup(mem, (a.0 + self.ptrs_of(a)[j].0) as usize) == Some(b.0)
    }

    /// A conservative root: a scanned stack word that is a live tracked
    /// address. A word that merely happens to equal a tracked address
    /// counts — that is the conservative policy — while a word that is no
    /// tracked address roots nothing.
    pub open spec fn is_root(self, stack_words: Seq<usize>, a: ObjectLocation) -> bool {
        stack_words.contains(a.0) && self.is_tracked(a)
    }

    /// `p` is a chain of edges under `mem` that starts at a root.
    pub open spec fn is_path(
        self,
        stack_words: Seq<usize>,
        mem: Seq<(usize, usize)>,
        p: Seq<ObjectLocation>,
    ) -> bool {
        &&& p.len() > 0
        &&& self.is_root(stack_words, p[0])
        &&& forall|k: int| 0 <= k < p.len() - 1 ==> #[trigger] self.succ(mem, p[k], p[k + 1])
    }

    /// Transitive reachability: some root chain ends at `a`.
    pub open spec fn reachable(
        self,
        stack_words: Seq<usize>,
        mem: Seq<(usize, usize)>,
        a: ObjectLocation,
    ) -> bool {
        exists|p: Seq<ObjectLocation>| self.is_path(stack_words, mem, p) && p.last() == a
    }

    /// Every root is reachable (by the one-element chain).
    pub proof fn lemma_root_reachable(
        self,
        stack_words: Seq<usize>,
        mem: Seq<(usize, usize)>,
        a: ObjectLocation,
    )
        requires
            self.is_root(stack_words, a),
        ensures
            self.reachable(stack_words, mem, a),
    {
        let p = seq![a];
        assert(self.is_path(stack_words, mem, p));
        assert(p.last() == a);
    }

    /// Reachability is closed under one more edge.
    pub proof fn lemma_step_reachable(
        self,
        stack_words: Seq<usize>,
        mem: Seq<(usize, usize)>,
        a: ObjectLocation,
        b: ObjectLocation,
    )
        requires
            self.reachable(stack_words, mem, a),
            self.succ(mem, a, b),
        ensures
            self.reachable(stack_words, mem, b),
    {
        let p = choose|p: Seq<ObjectLocation>| self.is_path(stack_words, mem, p) && p.last() == a;
        let q = p.push(b);
        assert forall|k: int| 0 <= k < q.len() - 1 implies #[trigger] self.succ(
            mem,
            q[k],
            q[k + 1],
        ) by {
            if k < p.len() - 1 {
                assert(q[k] == p[k]);
                assert(q[k + 1] == p[k + 1]);
            } else {
                assert(q[k] == p[p.len() - 1]);
                assert(q[k + 1] == b);
            }
        }
        assert(self.is_path(stack_words, mem, q));
        assert(q.last() == b);
    }

    /// Any set of addresses that holds every root and is closed under the
    /// edges of the graph holds the end of every root chain.
    proof fn lemma_path_end_covered(
        self,
        stack_words: Seq<usize>,
        mem: Seq<(usize, usize)>,
        seen: Seq<ObjectLocation>,
        p: Seq<ObjectLocation>,
    )
        requires
            forall|r: ObjectLocation| self.is_root(stack_words, r) ==> seen.contains(r),
            forall|x: ObjectLocation, y: ObjectLocation|
                seen.contains(x) && #[trigger] self.succ(mem, x, y) ==> seen.contains(y),
            self.is_path(stack_words, mem, p),
        ensures
            seen.contains(p.last()),
        decreases p.len(),
    {
        if p.len() == 1 {
            assert(p.last() == p[0]);
        } else {
            let q = p.drop_last();
            assert(q[0] == p[0]);
            assert forall|k: int| 0 <= k < q.len() - 1 implies #[trigger] self.succ(
                mem,
                q[k],
                q[k + 1],
            ) by {
                assert(q[k] == p[k]);
                assert(q[k + 1] == p[k + 1]);
                assert(self.succ(mem, p[k], p[k + 1]));
            }
            self.lemma_path_end_covered(stack_words, mem, seen, q);
            let n = p.len() as int;
            assert(q.last() == p[n - 2]);
            assert(self.succ(mem, p[n - 2], p[(n - 2) + 1]));
            assert(p[(n - 2) + 1] == p.last());
        }
    }

    /// The mark phase: the set of tracked addresses reachable from the
    /// conservative roots, as a duplicate-free list.
    fn mark(&self, stack_words: &Vec<usize>, mem: &Vec<(usize, usize)>) -> (seen: Vec<
        ObjectLocation,
    >)
        requires
            self.wf(),
        ensures
            seen@.no_duplicates(),
            forall|a: ObjectLocation| #[trigger]
                seen@.contains(a) <==> self.reachable(stack_words@, mem@, a),
            forall|a: ObjectLocation| seen@.contains(a) ==> self.is_tracked(a),
    {
        let mut seen: Vec<ObjectLocation> = Vec::new();
        let mut work: Vec<ObjectLocation> = Vec::new();
        // Seed with the conservative roots: every scanned stack word that
        // is a live tracked address.
        let mut i: usize = 0;
        while i < stack_words.len()
            invariant
                self.wf(),
                i <= stack_words@.len(),
                seen@.no_duplicates(),
                seen@.len() <= self.allocated_objs@.len(),
                forall|k: int| 0 <= k < seen@.len() ==> self.is_tracked(#[trigger] seen@[k]),
                forall|k: int|
                    0 <= k < seen@.len() ==> self.reachable(
                        stack_words@,
                        mem@,
                        #[trigger] seen@[k],
                    ),
                forall|k: int| 0 <= k < work@.len() ==> seen@.contains(#[trigger] work@[k]),
                forall|a: ObjectLocation| seen@.contains(a) ==> work@.contains(a),
                forall|k: int|
                    0 <= k < i && self.is_tracked(ObjectLocation(#[trigger] stack_words@[k]))
                        ==> seen@.contains(ObjectLocation(stack_words@[k])),
            decreases stack_words@.len() - i,
        {
            let w = stack_words[i];
            let loc = ObjectLocation(w);
            if self.find_tracked(loc).is_some() {
                if !contains_loc(&seen, loc) {
                    proof {
                        assert(stack_words@.contains(w));
                        self.lemma_root_reachable(stack_words@, mem@, loc);
                        lemma_push_no_dup(seen@, loc);
                        lemma_push_contains(seen@, loc);
                        lemma_push_contains(work@, loc);
                        lemma_seen_bounded(self.allocated_objs@, seen@.push(loc));
                    }
                    seen.push(loc);
                    work.push(loc);
                }
            }
            i += 1;
        }
        proof {
            assert forall|a: ObjectLocation| self.is_root(stack_words@, a) implies seen@.contains(
                a,
            ) by {
                let k = choose|k: int|
                    0 <= k < stack_words@.len() && #[trigger] stack_words@[k] == a.0;
                assert(ObjectLocation(stack_words@[k]) == a);
            }
        }
        // Transitive closure over the pointer fields: pop an address,
        // follow each declared field's snapshot word, push what is tracked
        // and new.
        while work.len() > 0
            invariant
                self.wf(),
                seen@.no_duplicates(),
                seen@.len() <= self.allocated_objs@.len(),
                forall|k: int| 0 <= k < seen@.len() ==> self.is_tracked(#[trigger] seen@[k]),
                forall|k: int|
                    0 <= k < seen@.len() ==> self.reachable(
                        stack_words@,
                        mem@,
                        #[trigger] seen@[k],
                    ),
                forall|k: int| 0 <= k < work@.len() ==> seen@.contains(#[trigger] work@[k]),
                forall|a: ObjectLocation| self.is_root(stack_words@, a) ==> seen@.contains(a),
                forall|x: ObjectLocation, y: ObjectLocation|
                    seen@.contains(x) && !work@.contains(x) && #[trigger] self.succ(mem@, x, y)
                        ==> seen@.contains(y),
            decreases self.allocated_objs@.len() - seen@.len(), work@.len(),
        {
            let ghost work_pre = work@;
            let x = work.pop().unwrap();
            proof {
                assert(work_pre[work_pre.len() - 1] == x);
                assert(seen@.contains(x));
                assert forall|x2: ObjectLocation|
                    x2 != x && work_pre.contains(x2) implies work@.contains(x2) by {
                    let k = choose|k: int| 0 <= k < work_pre.len() && work_pre[k] == x2;
                    assert(k < work_pre.len() - 1);
                    assert(work@[k] == x2);
                }
            }
            let cls = self.class_for(x);
            let ghost offs = self.ptrs_of(x);
            let ghost seen_mid = seen@;
            let ghost work_mid = work@;
            let mut j: usize = 0;
            while j < cls.ptr_locations.len()
                invariant
                    self.wf(),
                    self.is_tracked(x),
                    seen@.contains(x),
                    seen@.len() >= seen_mid.len(),
                    work@.len() == work_mid.len() + seen@.len() - seen_mid.len(),
                    j <= offs.len(),
                    cls.ptr_locations@ == offs,
                    offs == self.ptrs_of(x),
                    seen@.no_duplicates(),
                    seen@.len() <= self.allocated_objs@.len(),
                    forall|k: int| 0 <= k < seen@.len() ==> self.is_tracked(#[trigger] seen@[k]),
                    forall|k: int|
                        0 <= k < seen@.len() ==> self.reachable(
                            stack_words@,
                            mem@,
                            #[trigger] seen@[k],
                        ),
                    forall|k: int| 0 <= k < work@.len() ==> seen@.contains(#[trigger] work@[k]),
                    forall|a: ObjectLocation| self.is_root(stack_words@, a) ==> seen@.contains(a),
                    forall|x2: ObjectLocation, y: ObjectLocation|
                        seen@.contains(x2) && !work@.contains(x2) && x2 != x && #[trigger] self.succ(
                            mem@,
                            x2,
                            y,
                        ) ==> seen@.contains(y),
                    forall|y: ObjectLocation|
                        self.is_tracked(y) && (exists|jj: int|
                            0 <= jj < j && x.0 + (#[trigger] offs[jj]).0 <= usize::MAX
                                && mem_lookup(mem@, (x.0 + offs[jj].0) as usize) == Some(y.0))
                            ==> seen@.contains(y),
                decreases offs.len() - j,
            {
                let off = cls.ptr_locations[j].0;
                match x.0.checked_add(off) {
                    Some(addr) => {
                        match lookup_word(mem, addr) {
                            Some(wv) => {
                                let y = ObjectLocation(wv);
                                if self.find_tracked(y).is_some() {
                                    if !contains_loc(&seen, y) {
                                        proof {
                                            assert(offs[j as int].0 == off);
                                            assert(self.succ(mem@, x, y));
                                            self.lemma_step_reachable(stack_words@, mem@, x, y);
                                            lemma_push_no_dup(seen@, y);
                                            lemma_push_contains(seen@, y);
                                            lemma_push_contains(work@, y);
                                            lemma_seen_bounded(
                                                self.allocated_objs@,
                                                seen@.push(y),
                                            );
                                        }
                                        seen.push(y);
                                        work.push(y);
                                    }
                                }
                            },
                            None => {},
                        }
                    },
                    None => {},
                }
                j += 1;
            }
            proof {
                assert forall|y: ObjectLocation| #[trigger]
                    self.succ(mem@, x, y) implies seen@.contains(y) by {
                    let jj = choose|jj: int|
                        0 <= jj < self.ptrs_of(x).len() && x.0 + (#[trigger] self.ptrs_of(x)[jj]).0
                            <= usize::MAX && mem_lookup(
                            mem@,
                            (x.0 + self.ptrs_of(x)[jj].0) as usize,
                        ) == Some(y.0);
                    assert(offs[jj] == self.ptrs_of(x)[jj]);
                }
            }
        }
        proof {
            assert forall|a: ObjectLocation| #[trigger]
                seen@.contains(a) <==> self.reachable(stack_words@, mem@, a) by {
                if seen@.contains(a) {
                    let k = choose|k: int| 0 <= k < seen@.len() && seen@[k] == a;
                    assert(self.reachable(stack_words@, mem@, seen@[k]));
                }
                if self.reachable(stack_words@, mem@, a) {
                    let p = choose|p: Seq<ObjectLocation>|
                        self.is_path(stack_words@, mem@, p) && p.last() == a;
                    assert forall|x: ObjectLocation, y: ObjectLocation|
                        seen@.contains(x) && #[trigger] self.succ(mem@, x, y) implies seen@.contains(
                        y,
                    ) by {
                        assert(!work@.contains(x));
                    }
                    self.lemma_path_end_covered(stack_words@, mem@, seen@, p);
                }
            }
        }
        seen
    }

    /// Is `fa` the address of some declared pointer field of some tracked
    /// object (restricted to the first `n` tracker entries)?
    pub open spec fn field_addr_upto(self, n: int, fa: usize) -> bool {
        exists|m: int, j: int|
            #![trigger self.ptrs_of(self.allocated_objs@[m].0)[j]]
            0 <= m < n && 0 <= j < self.ptrs_of(self.allocated_objs@[m].0).len()
                && self.allocated_objs@[m].0.0 + self.ptrs_of(self.allocated_objs@[m].0)[j].0
                <= usize::MAX && self.allocated_objs@[m].0.0 + self.ptrs_of(
                self.allocated_objs@[m].0,
            )[j].0 == fa
    }

    /// Is `fa` the address of some declared pointer field of some tracked
    /// object?
    pub open spec fn is_field_addr(self, fa: usize) -> bool {
        self.field_addr_upto(self.allocated_objs@.len() as int, fa)
    }

    /// The addresses of every pointer field of every tracked object: the
    /// exact set of heap words a collection cycle's `mem` snapshot must
    /// cover for the cycle to see every edge of the object graph.
    pub fn field_addresses(&self) -> (r: Vec<usize>)
        requires
            self.wf(),
        ensures
            forall|fa: usize| #[trigger] r@.contains(fa) <==> self.is_field_addr(fa),
    {
        let mut r: Vec<usize> = Vec::new();
        let mut i: usize = 0;
        while i < self.allocated_objs.len()
            invariant
                self.wf(),
                i <= self.allocated_objs@.len(),
                forall|fa: usize| #[trigger] r@.contains(fa) <==> self.field_addr_upto(i as int, fa),
            decreases self.allocated_objs@.len() - i,
        {
            let x = self.allocated_objs[i].0;
            proof {
                crate::defs::lemma_class_id_at(self.allocated_objs@, i as int);
            }
            let cls = self.class_for(x);
            let ghost offs = self.ptrs_of(x);
            let mut j: usize = 0;
            while j < cls.ptr_locations.len()
                invariant
                    self.wf(),
                    i < self.allocated_objs@.len(),
                    self.allocated_objs@[i as int].0 == x,
                    j <= offs.len(),
                    cls.ptr_locations@ == offs,
                    offs == self.ptrs_of(x),
                    forall|fa: usize| #[trigger]
                        r@.contains(fa) <==> (self.field_addr_upto(i as int, fa) || exists|jj: int|
                            0 <= jj < j && x.0 + (#[trigger] offs[jj]).0 <= usize::MAX && x.0
                                + offs[jj].0 == fa),
                decreases offs.len() - j,
            {
                let off = cls.ptr_locations[j].0;
                match x.0.checked_add(off) {
                    Some(fa) => {
                        proof {
                            lemma_push_contains(r@, fa);
                            assert(offs[j as int].0 == off);
                        }
                        r.push(fa);
                    },
                    None => {},
                }
                j += 1;
            }
            proof {
                assert forall|fa: usize| #[trigger]
                    r@.contains(fa) <==> self.field_addr_upto(i as int + 1, fa) by {
                    if r@.contains(fa) {
                        if !self.field_addr_upto(i as int, fa) {
                            let jj = choose|jj: int|
                                0 <= jj < offs.len() && x.0 + (#[trigger] offs[jj]).0 <= usize::MAX
                                    && x.0 + offs[jj].0 == fa;
                            assert(self.ptrs_of(self.allocated_objs@[i as int].0)[jj] == offs[jj]);
                        }
                    }
                    if self.field_addr_upto(i as int + 1, fa) {
                        let (m, jj): (int, int) = choose|m: int, jj: int|
                            #![trigger self.ptrs_of(self.allocated_objs@[m].0)[jj]]
                            0 <= m < i as int + 1 && 0 <= jj < self.ptrs_of(
                                self.allocated_objs@[m].0,
                            ).len() && self.allocated_objs@[m].0.0 + self.ptrs_of(
                                self.allocated_objs@[m].0,
                            )[jj].0 <= usize::MAX && self.allocated_objs@[m].0.0 + self.ptrs_of(
                                self.allocated_objs@[m].0,
                            )[jj].0 == fa;
                        if m < i as int {
                            assert(self.field_addr_upto(i as int, fa));
                        } else {
                            assert(offs[jj] == self.ptrs_of(self.allocated_objs@[m].0)[jj]);
                        }
                    }
                }
            }
            i += 1;
        }
        r
    }

    /// One full stop-the-world collection cycle over the given snapshots:
    /// mark everything reachable from the conservative roots, then sweep.
    /// The freed set is exactly (tracked before the cycle) minus (reachable
    /// this cycle) — never the difference in the other direction — and the
    /// survivors keep their recorded shape. The caller must release the
    /// memory of every returned address; each appears exactly once.
    pub fn mark_and_sweep(&mut self, stack_words: &Vec<usize>, mem: &Vec<(usize, usize)>) -> (freed:
        Vec<ObjectLocation>)
        requires
            old(self).wf(),
        ensures
            final(self).wf(),
            final(self).classes@ == old(self).classes@,
            final(self).current_build == old(self).current_build,
            forall|a: ObjectLocation| #[trigger]
                final(self).is_tracked(a) <==> (old(self).is_tracked(a) && old(self).reachable(
                    stack_words@,
                    mem@,
                    a,
                )),
            forall|a: ObjectLocation| #[trigger]
                final(self).is_tracked(a) ==> class_id_at(final(self).allocated_objs@, a)
                    == class_id_at(old(self).allocated_objs@, a),
            freed@.no_duplicates(),
            forall|a: ObjectLocation| #[trigger]
                freed@.contains(a) <==> (old(self).is_tracked(a) && !old(self).reachable(
                    stack_words@,
                    mem@,
                    a,
                )),
    {
        let seen = self.mark(stack_words, mem);
        let ghost objs = self.allocated_objs@;
        let mut kept: Vec<(ObjectLocation, ClassId)> = Vec::new();
        let mut freed: Vec<ObjectLocation> = Vec::new();
        let mut i: usize = 0;
        while i < self.allocated_objs.len()
            invariant
                self.wf(),
                objs == self.allocated_objs@,
                i <= objs.len(),
                seen@.no_duplicates(),
                forall|k: int|
                    0 <= k < kept@.len() ==> exists|m: int|
                        0 <= m < i && objs[m] == #[trigger] kept@[k],
                forall|k: int| 0 <= k < kept@.len() ==> seen@.contains((#[trigger] kept@[k]).0),
                forall|m: int|
                    0 <= m < i && seen@.contains((#[trigger] objs[m]).0) ==> has_addr(
                        kept@,
                        objs[m].0,
                    ),
                forall|p: int, q: int|
                    0 <= p < q < kept@.len() ==> (#[trigger] kept@[p]).0 != (#[trigger] kept@[q]).0,
                forall|k: int|
                    0 <= k < freed@.len() ==> exists|m: int|
                        0 <= m < i && objs[m].0 == #[trigger] freed@[k],
                forall|k: int| 0 <= k < freed@.len() ==> !seen@.contains(#[trigger] freed@[k]),
                forall|m: int|
                    0 <= m < i && !seen@.contains((#[trigger] objs[m]).0) ==> freed@.contains(
                        objs[m].0,
                    ),
                freed@.no_duplicates(),
            decreases objs.len() - i,
        {
            let e = self.allocated_objs[i];
            proof {
                assert forall|k: int| 0 <= k < kept@.len() implies (#[trigger] kept@[k]).0
                    != e.0 by {
                    let m = choose|m: int| 0 <= m < i && objs[m] == kept@[k];
                    assert(objs[m].0 != objs[i as int].0);
                }
                assert forall|k: int| 0 <= k < freed@.len() implies #[trigger] freed@[k]
                    != e.0 by {
                    let m = choose|m: int| 0 <= m < i && objs[m].0 == freed@[k];
                    assert(objs[m].0 != objs[i as int].0);
                }
            }
            let ghost kept_pre = kept@;
            let ghost freed_pre = freed@;
            if contains_loc(&seen, e.0) {
                kept.push(e);
                proof {
                    assert forall|a: ObjectLocation|
                        has_addr(kept_pre, a) implies has_addr(kept@, a) by {
                        let k = choose|k: int| 0 <= k < kept_pre.len() && (#[trigger] kept_pre[k]).0 == a;
                        assert(kept@[k] == kept_pre[k]);
                    }
                    assert(kept@[kept_pre.len() as int] == e);
                    assert(has_addr(kept@, e.0));
                }
            } else {
                freed.push(e.0);
                proof {
                    lemma_push_contains(freed_pre, e.0);
                    lemma_push_no_dup(freed_pre, e.0);
                }
            }
            i += 1;
        }
        self.allocated_objs = kept;
        proof {
            let post = self.allocated_objs@;
            assert forall|a: ObjectLocation| #[trigger]
                has_addr(post, a) implies (has_addr(objs, a) && seen@.contains(a)) by {
                let k = choose|k: int| 0 <= k < post.len() && (#[trigger] post[k]).0 == a;
                let m = choose|m: int| 0 <= m < objs.len() && objs[m] == post[k];
                assert(objs[m].0 == a);
            }
            assert forall|a: ObjectLocation|
                has_addr(objs, a) && seen@.contains(a) implies #[trigger] has_addr(post, a) by {
                let m = choose|m: int| 0 <= m < objs.len() && (#[trigger] objs[m]).0 == a;
                assert(has_addr(post, objs[m].0));
            }
            assert forall|a: ObjectLocation| #[trigger]
                has_addr(post, a) implies class_id_at(post, a) == class_id_at(objs, a) by {
                let k = choose|k: int| 0 <= k < post.len() && (#[trigger] post[k]).0 == a;
                let m = choose|m: int| 0 <= m < objs.len() && objs[m] == post[k];
                crate::defs::lemma_class_id_at(post, k);
                crate::defs::lemma_class_id_at(objs, m);
            }
            assert forall|i2: int|
                0 <= i2 < post.len() implies crate::defs::has_class(
                self.classes@,
                (#[trigger] post[i2]).1,
            ) by {
                let m = choose|m: int| 0 <= m < objs.len() && objs[m] == post[i2];
                assert(objs[m].1 == post[i2].1);
            }
            assert forall|a: ObjectLocation| #[trigger]
                freed@.contains(a) implies (has_addr(objs, a) && !old(self).reachable(
                stack_words@,
                mem@,
                a,
            )) by {
                let k = choose|k: int| 0 <= k < freed@.len() && freed@[k] == a;
                let m = choose|m: int| 0 <= m < objs.len() && objs[m].0 == freed@[k];
                assert(has_addr(objs, a));
            }
            assert forall|a: ObjectLocation|
                has_addr(objs, a) && !old(self).reachable(stack_words@, mem@, a) implies #[trigger]
                freed@.contains(a) by {
                let m = choose|m: int| 0 <= m < objs.len() && (#[trigger] objs[m]).0 == a;
                assert(!seen@.contains(objs[m].0));
            }
        }
        freed
    }
}

} // verus!
