//! A slot arena addressed by generational handles.
//!
//! Every slot carries a generation counter. A handle names a slot and the
//! generation the slot had when the handle was issued; it refers to a live value
//! only while the slot is occupied and its generation still matches.

use vstd::prelude::*;

verus! {

/// A handle into a [`Pool`]: the slot position and the generation it was issued for.
#[derive(Copy, Clone, Hash, Debug, PartialEq, Eq, Structural)]
pub struct PoolIndex {
    index: u32,
    generation: u32,
}

impl PoolIndex {
    pub closed spec fn spec_index(&self) -> u32 {
        self.index
    }

    pub closed spec fn spec_generation(&self) -> u32 {
        self.generation
    }

    /// Two handles are equal exactly when both their slot and generation agree.
    pub proof fn lemma_eq_fields(a: PoolIndex, b: PoolIndex)
        ensures
            (a == b) <==> (a.spec_index() == b.spec_index() && a.spec_generation()
                == b.spec_generation()),
    {
    }

    #[verifier::when_used_as_spec(spec_index)]
    pub fn index(&self) -> (r: u32)
        ensures
            r == self.spec_index(),
    {
        self.index
    }

    #[verifier::when_used_as_spec(spec_generation)]
    pub fn generation(&self) -> (r: u32)
        ensures
            r == self.spec_generation(),
    {
        self.generation
    }
}

/// The generation a slot moves to when it is filled again or emptied.
pub open spec fn next_generation(g: u32) -> u32 {
    if g == u32::MAX {
        0
    } else {
        (g + 1) as u32
    }
}

/// Number of occupied slots in `s`.
pub open spec fn count_occupied<T>(s: Seq<Option<T>>) -> nat
    decreases s.len(),
{
    if s.len() == 0 {
        0
    } else {
        count_occupied(s.drop_last()) + if s.last() is Some {
            1nat
        } else {
            0nat
        }
    }
}

proof fn lemma_count_occupied_bound<T>(s: Seq<Option<T>>)
    ensures
        count_occupied(s) <= s.len(),
    decreases s.len(),
{
    if s.len() > 0 {
        lemma_count_occupied_bound(s.drop_last());
    }
}

proof fn lemma_count_occupied_push<T>(s: Seq<Option<T>>, x: Option<T>)
    ensures
        count_occupied(s.push(x)) == count_occupied(s) + if x is Some {
            1nat
        } else {
            0nat
        },
{
    assert(s.push(x).drop_last() =~= s);
}

proof fn lemma_count_occupied_update<T>(s: Seq<Option<T>>, i: int, x: Option<T>)
    requires
        0 <= i < s.len(),
    ensures
        count_occupied(s.update(i, x)) + (if s[i] is Some {
            1int
        } else {
            0int
        }) == count_occupied(s) + (if x is Some {
            1int
        } else {
            0int
        }),
    decreases s.len(),
{
    let u = s.update(i, x);
    if i == s.len() - 1 {
        assert(u.drop_last() =~= s.drop_last());
    } else {
        assert(u.drop_last() =~= s.drop_last().update(i, x));
        lemma_count_occupied_update(s.drop_last(), i, x);
    }
}

proof fn lemma_count_occupied_take_step<T>(s: Seq<Option<T>>, i: int)
    requires
        0 <= i < s.len(),
    ensures
        count_occupied(s.take(i + 1)) == count_occupied(s.take(i)) + if s[i] is Some {
            1nat
        } else {
            0nat
        },
{
    assert(s.take(i + 1).drop_last() =~= s.take(i));
}

proof fn lemma_count_occupied_same_pattern<T>(a: Seq<Option<T>>, b: Seq<Option<T>>)
    requires
        a.len() == b.len(),
        forall|i: int| 0 <= i < a.len() ==> (a[i] is Some <==> b[i] is Some),
    ensures
        count_occupied(a) == count_occupied(b),
    decreases a.len(),
{
    if a.len() > 0 {
        lemma_count_occupied_same_pattern(a.drop_last(), b.drop_last());
    }
}

proof fn lemma_count_occupied_same_shape<T>(s: Seq<Option<T>>, i: int)
    requires
        0 <= i < s.len(),
    ensures
        forall|x: Option<T>|
            (x is Some <==> s[i] is Some) ==> #[trigger] count_occupied(s.update(i, x))
                == count_occupied(s),
{
    assert forall|x: Option<T>| (x is Some <==> s[i] is Some) implies #[trigger] count_occupied(
        s.update(i, x),
    ) == count_occupied(s) by {
        lemma_count_occupied_update(s, i, x);
    }
}

/// An arena of `T` values with stable, invalidation-safe handles.
pub struct Pool<T> {
    elements: Vec<Option<T>>,
    generations: Vec<u32>,
    free_slots: Vec<u32>,
}

impl<T> Pool<T> {
    /// The slots, occupied or empty, in index order.
    pub closed spec fn slots(&self) -> Seq<Option<T>> {
        self.elements@
    }

    /// The current generation of each slot.
    pub closed spec fn slot_generations(&self) -> Seq<u32> {
        self.generations@
    }

    /// The empty slots, in the order they will be reused (last first).
    pub closed spec fn free_list(&self) -> Seq<u32> {
        self.free_slots@
    }

    /// Internal consistency: set up by the constructors and kept by every method.
    pub closed spec fn wf(&self) -> bool {
        &&& self.elements@.len() == self.generations@.len()
        &&& self.elements@.len() <= u32::MAX
        &&& self.free_slots@.no_duplicates()
        &&& forall|k: int|
            0 <= k < self.free_slots@.len() ==> {
                &&& #[trigger] self.free_slots@[k] < self.elements@.len()
                &&& self.elements@[self.free_slots@[k] as int] is None
            }
        &&& forall|i: int|
            0 <= i < self.elements@.len() && #[trigger] self.elements@[i] is None
                ==> self.free_slots@.contains(i as u32)
        &&& self.free_slots@.len() + count_occupied(self.elements@) == self.elements@.len()
    }

    /// Whether `h` currently refers to a stored value.
    pub open spec fn is_live(&self, h: PoolIndex) -> bool {
        &&& h.spec_index() < self.slots().len()
        &&& self.slots()[h.spec_index() as int] is Some
        &&& self.slot_generations()[h.spec_index() as int] == h.spec_generation()
    }

    /// The value a live handle refers to.
    pub open spec fn value_of(&self, h: PoolIndex) -> T {
        self.slots()[h.spec_index() as int]->Some_0
    }

    /// Number of stored values.
    pub open spec fn live_count(&self) -> nat {
        count_occupied(self.slots())
    }

    /// The effect of `push(value)` returning `h`: the most recently freed slot is
    /// refilled under the next generation, or a new slot is appended at generation 1.
    pub open spec fn pushed(self, value: T, next: Self, h: PoolIndex) -> bool {
        if self.free_list().len() > 0 {
            let i = self.free_list().last();
            &&& h.spec_index() == i
            &&& h.spec_generation() == next_generation(self.slot_generations()[i as int])
            &&& next.slots() == self.slots().update(i as int, Some(value))
            &&& next.slot_generations() == self.slot_generations().update(
                i as int,
                h.spec_generation(),
            )
            &&& next.free_list() == self.free_list().drop_last()
        } else {
            &&& h.spec_index() == self.slots().len()
            &&& h.spec_generation() == 1
            &&& next.slots() == self.slots().push(Some(value))
            &&& next.slot_generations() == self.slot_generations().push(1)
            &&& next.free_list() == self.free_list()
        }
    }

    /// The effect of `remove(h)` returning `r`: a live handle's value is moved out,
    /// its slot emptied, its generation advanced and the slot queued for reuse;
    /// any other handle leaves the pool untouched.
    pub open spec fn removed(self, h: PoolIndex, next: Self, r: Option<T>) -> bool {
        if self.is_live(h) {
            let i = h.spec_index() as int;
            &&& r == Some(self.value_of(h))
            &&& next.slots() == self.slots().update(i, None)
            &&& next.slot_generations() == self.slot_generations().update(
                i,
                next_generation(h.spec_generation()),
            )
            &&& next.free_list() == self.free_list().push(h.spec_index())
        } else {
            &&& r is None
            &&& next.slots() == self.slots()
            &&& next.slot_generations() == self.slot_generations()
            &&& next.free_list() == self.free_list()
        }
    }

    pub fn new() -> (p: Self)
        ensures
            p.wf(),
            p.slots() == Seq::<Option<T>>::empty(),
            p.slot_generations() == Seq::<u32>::empty(),
            p.free_list() == Seq::<u32>::empty(),
            p.live_count() == 0,
    {
        Pool { elements: Vec::new(), generations: Vec::new(), free_slots: Vec::new() }
    }

    pub fn with_capacity(capacity: usize) -> (p: Self)
        ensures
            p.wf(),
            p.slots() == Seq::<Option<T>>::empty(),
            p.slot_generations() == Seq::<u32>::empty(),
            p.free_list() == Seq::<u32>::empty(),
            p.live_count() == 0,
    {
        Pool {
            elements: Vec::with_capacity(capacity),
            generations: Vec::with_capacity(capacity),
            free_slots: Vec::new(),
        }
    }

    pub fn len(&self) -> (r: usize)
        requires
            self.wf(),
        ensures
            r == self.live_count(),
    {
        self.elements.len() - self.free_slots.len()
    }

    /// Stores `element` and returns the handle that now refers to it.
    pub fn push(&mut self, element: T) -> (h: PoolIndex)
        requires
            old(self).wf(),
            old(self).live_count() < u32::MAX,
        ensures
            final(self).wf(),
            old(self).pushed(element, *final(self), h),
            final(self).is_live(h),
            final(self).value_of(h) == element,
            final(self).live_count() == old(self).live_count() + 1,
    {
        proof {
            lemma_count_occupied_bound(self.elements@);
        }
        if let Some(index) = self.free_slots.pop() {
            proof {
                let free = old(self).free_slots@;
                assert(free[free.len() - 1] == index);
                assert(free.drop_last() =~= self.free_slots@);
                lemma_count_occupied_update(self.elements@, index as int, Some(element));
                assert forall|k: int| 0 <= k < self.free_slots@.len() implies self.free_slots@[k]
                    != index by {
                    assert(free[k] == self.free_slots@[k]);
                }
                assert forall|i: int|
                    0 <= i < free.len() && #[trigger] free[i] == index implies i == free.len()
                        - 1 by {
                    assert(free.no_duplicates());
                }
            }
            let generation = self.generations[index as usize].wrapping_add(1);
            self.elements.set(index as usize, Some(element));
            self.generations.set(index as usize, generation);
            proof {
                let free = old(self).free_slots@;
                assert forall|i: int|
                    0 <= i < self.elements@.len() && #[trigger] self.elements@[i]
                        is None implies self.free_slots@.contains(i as u32) by {
                    assert(old(self).elements@[i] is None);
                    assert(free.contains(i as u32));
                    let k = choose|k: int| 0 <= k < free.len() && free[k] == i as u32;
                    assert(k != free.len() - 1);
                    assert(self.free_slots@[k] == i as u32);
                }
            }
            PoolIndex { index, generation }
        } else {
            let index = self.elements.len() as u32;
            self.elements.push(Some(element));
            self.generations.push(1);
            proof {
                lemma_count_occupied_push(old(self).elements@, Some(element));
                assert forall|i: int|
                    0 <= i < self.elements@.len() && #[trigger] self.elements@[i]
                        is None implies self.free_slots@.contains(i as u32) by {
                    assert(i < old(self).elements@.len());
                    assert(old(self).elements@[i] is None);
                }
            }
            PoolIndex { index, generation: 1 }
        }
    }

    /// The value `h` refers to, or `None` for a stale or unknown handle.
    pub fn get(&self, h: PoolIndex) -> (r: Option<&T>)
        requires
            self.wf(),
        ensures
            match r {
                Some(v) => self.is_live(h) && *v == self.value_of(h),
                None => !self.is_live(h),
            },
    {
        let i = h.index as usize;
        if i < self.elements.len() && self.generations[i] == h.generation {
            self.elements[i].as_ref()
        } else {
            None
        }
    }

    /// Mutable access to the value `h` refers to, or `None` for a stale or unknown
    /// handle. Only that value can change through the returned reference.
    pub fn get_mut(&mut self, h: PoolIndex) -> (r: Option<&mut T>)
        requires
            old(self).wf(),
        ensures
            final(self).wf(),
            final(self).slot_generations() == old(self).slot_generations(),
            final(self).free_list() == old(self).free_list(),
            match r {
                Some(v) => {
                    &&& old(self).is_live(h)
                    &&& *v == old(self).value_of(h)
                    &&& final(self).slots() == old(self).slots().update(
                        h.spec_index() as int,
                        Some(*final(v)),
                    )
                },
                None => !old(self).is_live(h) && final(self).slots() == old(self).slots(),
            },
    {
        let i = h.index as usize;
        if i < self.elements.len() && self.generations[i] == h.generation {
            proof {
                lemma_count_occupied_same_shape(self.elements@, i as int);
            }
            self.elements[i].as_mut()
        } else {
            None
        }
    }

    /// Moves the value `h` refers to out of the pool and invalidates every handle
    /// to its slot. A stale or unknown handle changes nothing and yields `None`.
    pub fn remove(&mut self, h: PoolIndex) -> (r: Option<T>)
        requires
            old(self).wf(),
        ensures
            final(self).wf(),
            old(self).removed(h, *final(self), r),
            !final(self).is_live(h),
            final(self).live_count() == if old(self).is_live(h) {
                old(self).live_count() - 1
            } else {
                old(self).live_count() as int
            },
    {
        let i = h.index as usize;
        if i < self.elements.len() && self.generations[i] == h.generation
            && self.elements[i].is_some() {
            proof {
                lemma_count_occupied_update(self.elements@, i as int, None);
            }
            self.generations.set(i, h.generation.wrapping_add(1));
            self.free_slots.push(h.index);
            let mut taken: Option<T> = None;
            self.elements.set_and_swap(i, &mut taken);
            proof {
                let free = old(self).free_slots@;
                assert(self.free_slots@.drop_last() =~= free);
                assert forall|k: int| 0 <= k < free.len() implies free[k] != h.index by {
                    assert(old(self).elements@[free[k] as int] is None);
                }
                assert(self.free_slots@.no_duplicates());
                assert forall|i2: int|
                    0 <= i2 < self.elements@.len() && #[trigger] self.elements@[i2]
                        is None implies self.free_slots@.contains(i2 as u32) by {
                    if i2 != i {
                        assert(old(self).elements@[i2] is None);
                        assert(free.contains(i2 as u32));
                        let k = choose|k: int| 0 <= k < free.len() && free[k] == i2 as u32;
                        assert(self.free_slots@[k] == i2 as u32);
                    } else {
                        assert(self.free_slots@[free.len() as int] == i2 as u32);
                    }
                }
            }
            taken
        } else {
            None
        }
    }

    /// Every stored value with its handle, in slot order.
    pub fn iter(&self) -> (r: Vec<(PoolIndex, &T)>)
        requires
            self.wf(),
        ensures
            r@.len() == self.live_count(),
            forall|k: int|
                0 <= k < r@.len() ==> {
                    &&& self.is_live(#[trigger] r@[k].0)
                    &&& *r@[k].1 == self.value_of(r@[k].0)
                },
            forall|k: int, l: int|
                0 <= k < l < r@.len() ==> r@[k].0.spec_index() < r@[l].0.spec_index(),
            forall|h: PoolIndex|
                self.is_live(h) ==> exists|k: int| 0 <= k < r@.len() && #[trigger] r@[k].0 == h,
    {
        let mut r: Vec<(PoolIndex, &T)> = Vec::new();
        let mut i: usize = 0;
        while i < self.elements.len()
            invariant
                self.wf(),
                0 <= i <= self.elements@.len(),
                r@.len() == count_occupied(self.elements@.take(i as int)),
                forall|k: int|
                    0 <= k < r@.len() ==> {
                        &&& (#[trigger] r@[k].0).spec_index() < i
                        &&& self.is_live(r@[k].0)
                        &&& *r@[k].1 == self.value_of(r@[k].0)
                    },
                forall|k: int, l: int|
                    0 <= k < l < r@.len() ==> r@[k].0.spec_index() < r@[l].0.spec_index(),
                forall|h: PoolIndex|
                    self.is_live(h) && h.spec_index() < i ==> exists|k: int|
                        0 <= k < r@.len() && #[trigger] r@[k].0 == h,
            decreases self.elements@.len() - i,
        {
            proof {
                lemma_count_occupied_take_step(self.elements@, i as int);
            }
            let ghost r0 = r@;
            if let Some(v) = self.elements[i].as_ref() {
                let h = PoolIndex { index: i as u32, generation: self.generations[i] };
                r.push((h, v));
                proof {
                    assert(r@[r@.len() - 1].0 == h);
                }
            }
            proof {
                assert forall|h: PoolIndex|
                    self.is_live(h) && h.spec_index() <= i implies exists|k: int|
                        0 <= k < r@.len() && #[trigger] r@[k].0 == h by {
                    if h.spec_index() < i {
                        let k = choose|k: int| 0 <= k < r0.len() && #[trigger] r0[k].0 == h;
                        assert(r@[k] == r0[k]);
                    } else {
                        assert(r@[r@.len() - 1].0 == h);
                    }
                }
            }
            i += 1;
        }
        proof {
            assert(self.elements@.take(i as int) =~= self.elements@);
        }
        r
    }

    /// Every stored value, mutably, with its handle, in slot order. Only the
    /// values change through the returned references.
    pub fn iter_mut(&mut self) -> (r: Vec<(PoolIndex, &mut T)>)
        requires
            old(self).wf(),
        ensures
            final(self).wf(),
            final(self).slot_generations() == old(self).slot_generations(),
            final(self).free_list() == old(self).free_list(),
            final(self).slots().len() == old(self).slots().len(),
            r@.len() == old(self).live_count(),
            forall|k: int|
                0 <= k < r@.len() ==> {
                    &&& old(self).is_live(#[trigger] r@[k].0)
                    &&& *r@[k].1 == old(self).value_of(r@[k].0)
                    &&& final(self).slots()[r@[k].0.spec_index() as int] == Some(*final(r@[k].1))
                },
            forall|k: int, l: int|
                0 <= k < l < r@.len() ==> r@[k].0.spec_index() < r@[l].0.spec_index(),
            forall|h: PoolIndex|
                old(self).is_live(h) ==> exists|k: int| 0 <= k < r@.len() && #[trigger] r@[k].0 == h,
            forall|i: int|
                0 <= i < old(self).slots().len() && #[trigger] old(self).slots()[i] is None
                    ==> final(self).slots()[i] is None,
    {
        let ghost old_elems = self.elements@;
        let gens = &self.generations;
        let whole: &mut [Option<T>] = self.elements.as_mut_slice();
        let ghost fw = final(whole)@;
        let mut rest = whole;
        let mut r: Vec<(PoolIndex, &mut T)> = Vec::new();
        let mut i: usize = 0;
        while rest.len() > 0
            invariant
                i + rest@.len() == old_elems.len(),
                rest@ == old_elems.subrange(i as int, old_elems.len() as int),
                gens@ == old(self).generations@,
                old_elems == old(self).elements@,
                old(self).wf(),
                forall|j: int| i <= j < fw.len() ==> fw[j] == final(rest)@[j - i],
                fw.len() == i + final(rest)@.len(),
                r@.len() == count_occupied(old_elems.take(i as int)),
                forall|k: int|
                    0 <= k < r@.len() ==> {
                        &&& (#[trigger] r@[k].0).spec_index() < i
                        &&& old(self).is_live(r@[k].0)
                        &&& *r@[k].1 == old(self).value_of(r@[k].0)
                        &&& fw[r@[k].0.spec_index() as int] == Some(*final(r@[k].1))
                    },
                forall|j: int| 0 <= j < i && #[trigger] old_elems[j] is None ==> fw[j] is None,
                forall|k: int, l: int|
                    0 <= k < l < r@.len() ==> r@[k].0.spec_index() < r@[l].0.spec_index(),
                forall|h: PoolIndex|
                    old(self).is_live(h) && h.spec_index() < i ==> exists|k: int|
                        0 <= k < r@.len() && #[trigger] r@[k].0 == h,
            decreases rest@.len(),
        {
            proof {
                lemma_count_occupied_take_step(old_elems, i as int);
            }
            let ghost r0 = r@;
            let ghost fr = final(rest)@;
            let (head, tail) = rest.split_at_mut(1);
            proof {
                assert(fr =~= final(head)@ + final(tail)@);
            }
            if let Some(slot) = head.first_mut() {
                proof {
                    assert(fw[i as int] == *final(slot));
                }
                if let Some(v) = slot.as_mut() {
                    let h = PoolIndex { index: i as u32, generation: gens[i] };
                    r.push((h, v));
                    proof {
                        assert(r@[r@.len() - 1].0 == h);
                    }
                }
            }
            proof {
                assert forall|j: int| i + 1 <= j < fw.len() implies fw[j] == final(tail)@[j - (i + 1)] by {
                    assert(fr[j - i] == final(tail)@[j - i - 1]);
                }
                assert forall|h: PoolIndex|
                    old(self).is_live(h) && h.spec_index() <= i implies exists|k: int|
                        0 <= k < r@.len() && #[trigger] r@[k].0 == h by {
                    if h.spec_index() < i {
                        let k = choose|k: int| 0 <= k < r0.len() && #[trigger] r0[k].0 == h;
                        assert(r@[k] == r0[k]);
                    } else {
                        assert(r@[r@.len() - 1].0 == h);
                    }
                }
            }
            rest = tail;
            i += 1;
        }
        // The remaining slice is empty, and so is whatever it will hold.
        let none_left = rest.first_mut();
        proof {
            assert(none_left.is_none());
            assert(old_elems.take(i as int) =~= old_elems);
            assert forall|j: int| 0 <= j < old_elems.len() implies (fw[j] is Some <==> old_elems[j]
                is Some) by {
                if old_elems[j] is Some {
                    let h = PoolIndex { index: j as u32, generation: gens@[j] };
                    assert(old(self).is_live(h));
                    let k = choose|k: int| 0 <= k < r@.len() && #[trigger] r@[k].0 == h;
                }
            }
            lemma_count_occupied_same_pattern(fw, old_elems);
        }
        r
    }
}


/// A handle that has been removed stays dead: it no longer resolves, the next
/// push that reuses its slot issues a different generation, and the old handle
/// does not resolve to the value stored there afterwards.
pub proof fn lemma_removed_handle_stays_stale<T>(
    before: Pool<T>,
    h: PoolIndex,
    removed: Pool<T>,
    r: Option<T>,
    v: T,
    refilled: Pool<T>,
    h2: PoolIndex,
)
    requires
        before.wf(),
        before.is_live(h),
        before.removed(h, removed, r),
        removed.pushed(v, refilled, h2),
    ensures
        !removed.is_live(h),
        h2.spec_index() == h.spec_index() ==> h2.spec_generation() != h.spec_generation(),
        !refilled.is_live(h),
{
}

} // verus!
