use vstd::prelude::*;

verus! {

/// Number of live slots in `s`.
pub open spec fn live_count(s: Seq<Option<u64>>) -> nat
    decreases s.len(),
{
    if s.len() == 0 {
        0
    } else {
        live_count(s.drop_last()) + if s.last() is Some {
            1nat
        } else {
            0nat
        }
    }
}

pub proof fn lemma_live_count_bound(s: Seq<Option<u64>>)
    ensures
        live_count(s) <= s.len(),
    decreases s.len(),
{
    if s.len() > 0 {
        lemma_live_count_bound(s.drop_last());
    }
}

pub proof fn lemma_live_count_push(s: Seq<Option<u64>>, x: Option<u64>)
    ensures
        live_count(s.push(x)) == live_count(s) + if x is Some {
            1nat
        } else {
            0nat
        },
{
    assert(s.push(x).drop_last() == s);
}

pub proof fn lemma_live_count_update(s: Seq<Option<u64>>, i: int, x: Option<u64>)
    requires
        0 <= i < s.len(),
    ensures
        live_count(s.update(i, x)) + (if s[i] is Some {
            1nat
        } else {
            0nat
        }) == live_count(s) + if x is Some {
            1nat
        } else {
            0nat
        },
    decreases s.len(),
{
    let t = s.update(i, x);
    if i == s.len() - 1 {
        assert(t.drop_last() == s.drop_last());
    } else {
        lemma_live_count_update(s.drop_last(), i, x);
        assert(t.drop_last() == s.drop_last().update(i, x));
    }
}

/// The ids of the live slots of `s`.
pub open spec fn live_set(s: Seq<Option<u64>>) -> Set<u64> {
    Set::new(|x: u64| (x as int) < s.len() && s[x as int] is Some)
}

/// The live slots counted one by one are the set of live ids.
pub proof fn lemma_live_set(s: Seq<Option<u64>>)
    requires
        s.len() <= u64::MAX,
    ensures
        live_set(s).finite(),
        live_set(s).len() == live_count(s),
    decreases s.len(),
{
    if s.len() == 0 {
        assert(live_set(s) =~= Set::<u64>::empty());
    } else {
        let p = s.drop_last();
        lemma_live_set(p);
        let last = (s.len() - 1) as u64;
        assert(!live_set(p).contains(last));
        if s.last() is Some {
            assert(live_set(s) =~= live_set(p).insert(last)) by {
                assert forall|x: u64| live_set(s).contains(x) implies live_set(p).insert(last).contains(x) by {
                    if x != last {
                        assert(p[x as int] == s[x as int]);
                    }
                }
                assert forall|x: u64| live_set(p).insert(last).contains(x) implies live_set(s).contains(x) by {
                    if x != last {
                        assert(p[x as int] == s[x as int]);
                    }
                }
            }
        } else {
            assert(live_set(s) =~= live_set(p)) by {
                assert forall|x: u64| live_set(s).contains(x) implies live_set(p).contains(x) by {
                    assert(x != last);
                    assert(p[x as int] == s[x as int]);
                }
                assert forall|x: u64| live_set(p).contains(x) implies live_set(s).contains(x) by {
                    assert(p[x as int] == s[x as int]);
                }
            }
        }
    }
}

/// A pool of slots with stable ids. A live slot holds an attribute-set
/// handle; freed ids are kept and handed out again first.
pub struct DataBlock {
    slots: Vec<Option<u64>>,
    deleted: Vec<u64>,
    count: u64,
    cap: u64,
}

impl View for DataBlock {
    type V = Seq<Option<u64>>;

    closed spec fn view(&self) -> Seq<Option<u64>> {
        self.slots@
    }
}

impl DataBlock {
    pub closed spec fn wf(&self) -> bool {
        &&& self.slots@.len() <= self.cap
        &&& self.count == live_count(self.slots@)
        &&& forall|k: int|
            0 <= k < self.deleted@.len() ==> #[trigger] self.deleted@[k] < self.slots@.len()
                && self.slots@[self.deleted@[k] as int] is None
        &&& self.deleted@.no_duplicates()
    }

    pub closed spec fn capacity(&self) -> u64 {
        self.cap
    }

    /// Ids handed out so far, freed or not.
    pub closed spec fn freed(&self) -> Seq<u64> {
        self.deleted@
    }

    /// Whether `id` is a live slot.
    pub open spec fn live(&self, id: u64) -> bool {
        id < self@.len() && self@[id as int] is Some
    }

    /// The id the next allocation hands out.
    pub closed spec fn next_id(&self) -> u64 {
        if self.deleted@.len() > 0 {
            self.deleted@.last()
        } else {
            self.slots@.len() as u64
        }
    }

    /// Ids fit the capacity, a 64-bit number.
    pub proof fn lemma_len(&self)
        requires
            self.wf(),
        ensures
            self@.len() <= self.capacity(),
    {
    }

    pub fn new(cap: u64) -> (r: Self)
        ensures
            r.wf(),
            r@ == Seq::<Option<u64>>::empty(),
            r.capacity() == cap,
    {
        DataBlock { slots: Vec::new(), deleted: Vec::new(), count: 0, cap }
    }

    /// Number of live slots.
    pub fn item_count(&self) -> (r: u64)
        requires
            self.wf(),
        ensures
            r == live_count(self@),
    {
        self.count
    }

    /// Number of slots handed out so far, live or freed.
    pub fn len(&self) -> (r: u64)
        ensures
            r == self@.len(),
    {
        self.slots.len() as u64
    }

    /// Number of slots the pool can hold before it grows.
    pub fn item_cap(&self) -> (r: u64)
        ensures
            r == self.capacity(),
    {
        self.cap
    }

    /// Number of freed ids waiting to be handed out again.
    pub fn deleted_count(&self) -> (r: u64)
        ensures
            r == self.freed().len(),
    {
        self.deleted.len() as u64
    }

    /// The `n`-th id that allocations will hand out from now on.
    pub fn reserved_idx(&self, n: u64) -> (r: u64)
        requires
            self.wf(),
            self@.len() + n < u64::MAX,
        ensures
            n < self.freed().len() ==> r == self.freed()[self.freed().len() - 1 - n],
            n >= self.freed().len() ==> r == self@.len() + (n - self.freed().len()),
    {
        let d = self.deleted.len() as u64;
        if n < d {
            self.deleted[(d - 1 - n) as usize]
        } else {
            self.slots.len() as u64 + (n - d)
        }
    }

    /// The handle in slot `id`, if live.
    pub fn get_item(&self, id: u64) -> (r: Option<u64>)
        ensures
            r == (if id < self@.len() {
                self@[id as int]
            } else {
                None::<u64>
            }),
    {
        if id < self.slots.len() as u64 {
            self.slots[id as usize]
        } else {
            None
        }
    }

    /// Takes a slot (a freed one first), stores `attr` in it and returns its id.
    pub fn allocate_item(&mut self, attr: u64) -> (r: u64)
        requires
            old(self).wf(),
            old(self)@.len() < u64::MAX,
        ensures
            final(self).wf(),
            r == old(self).next_id(),
            r <= old(self)@.len(),
            !old(self).live(r),
            final(self)@ == (if r < old(self)@.len() {
                old(self)@.update(r as int, Some(attr))
            } else {
                old(self)@.push(Some(attr))
            }),
            final(self).capacity() >= old(self).capacity(),
            final(self).capacity() > r,
            r < old(self).capacity() ==> final(self).capacity() == old(self).capacity(),
    {
        if self.deleted.len() > 0 {
            let id = self.deleted.pop().unwrap();
            proof {
                assert(old(self).deleted@[old(self).deleted@.len() - 1] == id);
                lemma_live_count_update(self.slots@, id as int, Some(attr));
                lemma_live_count_bound(self.slots@);
            }
            self.slots.set(id as usize, Some(attr));
            self.count = self.count + 1;
            proof {
                assert forall|k: int| 0 <= k < self.deleted@.len() implies #[trigger] self.deleted@[k]
                    < self.slots@.len() && self.slots@[self.deleted@[k] as int] is None by {
                    assert(old(self).deleted@[k] == self.deleted@[k]);
                    assert(self.deleted@[k] != id);
                }
                assert(self.deleted@.no_duplicates()) by {
                    assert forall|a: int, b: int| 0 <= a < self.deleted@.len() && 0 <= b < self.deleted@.len() && a != b implies self.deleted@[a] != self.deleted@[b] by {
                        assert(old(self).deleted@[a] == self.deleted@[a]);
                        assert(old(self).deleted@[b] == self.deleted@[b]);
                    }
                }
            }
            id
        } else {
            let id = self.slots.len() as u64;
            proof {
                lemma_live_count_push(self.slots@, Some(attr));
                lemma_live_count_bound(self.slots@);
            }
            self.slots.push(Some(attr));
            self.count = self.count + 1;
            if self.cap <= id {
                self.cap = id + 1;
            }
            id
        }
    }

    /// Takes slot `id` out of order (a freed slot, or one past the end, the
    /// gap left free) and stores `attr` in it.
    pub fn allocate_item_at(&mut self, id: u64, attr: u64)
        requires
            old(self).wf(),
            !old(self).live(id),
            id < u64::MAX,
        ensures
            final(self).wf(),
            final(self).live(id),
            final(self)@[id as int] == Some(attr),
            final(self)@.len() == if id < old(self)@.len() {
                old(self)@.len() as int
            } else {
                id + 1
            },
            forall|i: int| 0 <= i < final(self)@.len() && i != id ==> #[trigger] final(self)@[i] == if i < old(self)@.len() {
                old(self)@[i]
            } else {
                None
            },
            final(self).capacity() == if id < old(self).capacity() {
                old(self).capacity() as int
            } else {
                id + 1
            },
    {
        let len = self.slots.len() as u64;
        if id < len {
            let mut k: usize = 0;
            while k < self.deleted.len()
                invariant
                    k <= self.deleted@.len(),
                    forall|t: int| 0 <= t < k ==> #[trigger] self.deleted@[t] != id,
                ensures
                    k <= self.deleted@.len(),
                    forall|t: int| 0 <= t < k ==> #[trigger] self.deleted@[t] != id,
                    k < self.deleted@.len() ==> self.deleted@[k as int] == id,
                decreases self.deleted@.len() - k,
            {
                if self.deleted[k] == id {
                    break;
                }
                k = k + 1;
            }
            let ghost d = self.deleted@;
            if k < self.deleted.len() {
                self.deleted.remove(k);
                proof {
                    assert(self.deleted@ == d.remove(k as int));
                    assert forall|a: int, b: int| 0 <= a < self.deleted@.len() && 0 <= b < self.deleted@.len() && a != b implies self.deleted@[a] != self.deleted@[b] by {
                        let a2 = if a < k { a } else { a + 1 };
                        let b2 = if b < k { b } else { b + 1 };
                        assert(self.deleted@[a] == d[a2] && self.deleted@[b] == d[b2]);
                    }
                    assert forall|t: int| 0 <= t < self.deleted@.len() implies #[trigger] self.deleted@[t] != id by {
                        let t2 = if t < k { t } else { t + 1 };
                        assert(self.deleted@[t] == d[t2]);
                        assert(d[t2] != d[k as int]);
                    }
                }
            } else {
                proof {
                    assert forall|t: int| 0 <= t < self.deleted@.len() implies #[trigger] self.deleted@[t] != id by {}
                }
            }
            proof {
                lemma_live_count_update(self.slots@, id as int, Some(attr));
                lemma_live_count_bound(self.slots@.update(id as int, Some(attr)));
            }
            let ghost dd = self.deleted@;
            self.slots.set(id as usize, Some(attr));
            self.count = self.count + 1;
            proof {
                assert forall|t: int| 0 <= t < self.deleted@.len() implies #[trigger] self.deleted@[t]
                    < self.slots@.len() && self.slots@[self.deleted@[t] as int] is None by {
                    assert(dd[t] != id);
                    assert(d.contains(dd[t])) by {
                        if k < d.len() {
                            let t2 = if t < k { t } else { t + 1 };
                            assert(dd[t] == d[t2]);
                        } else {
                            assert(dd[t] == d[t]);
                        }
                    }
                    let q = choose|q: int| 0 <= q < d.len() && d[q] == dd[t];
                    assert(old(self).deleted@[q] == dd[t]);
                }
            }
        } else {
            let ghost s0 = self.slots@;
            while (self.slots.len() as u64) < id
                invariant
                    self.slots@.len() <= id,
                    self.slots@.len() >= s0.len(),
                    self.slots@.take(s0.len() as int) == s0,
                    forall|i: int| s0.len() <= i < self.slots@.len() ==> #[trigger] self.slots@[i] is None,
                    self.count == live_count(self.slots@),
                    self.deleted == old(self).deleted,
                    self.cap == old(self).cap,
                    old(self).slots@.len() <= old(self).cap,
                    s0 == old(self).slots@,
                decreases id - self.slots@.len(),
            {
                let ghost before = self.slots@;
                proof {
                    lemma_live_count_push(self.slots@, None);
                }
                self.slots.push(None);
                proof {
                    assert(self.slots@.take(s0.len() as int) =~= s0) by {
                        assert forall|i: int| 0 <= i < s0.len() implies self.slots@[i] == s0[i] by {
                            assert(before.take(s0.len() as int)[i] == s0[i]);
                        }
                    }
                }
            }
            proof {
                lemma_live_count_push(self.slots@, Some(attr));
                lemma_live_count_bound(self.slots@);
            }
            let ghost before = self.slots@;
            self.slots.push(Some(attr));
            self.count = self.count + 1;
            if self.cap <= id {
                self.cap = id + 1;
            }
            proof {
                assert forall|i: int| 0 <= i < self.slots@.len() && i != id implies #[trigger] self.slots@[i] == if i < old(self)@.len() {
                    old(self)@[i]
                } else {
                    None
                } by {
                    assert(self.slots@[i] == before[i]);
                    if i < s0.len() {
                        assert(before.take(s0.len() as int)[i] == s0[i]);
                    }
                }
                assert forall|t: int| 0 <= t < self.deleted@.len() implies #[trigger] self.deleted@[t]
                    < self.slots@.len() && self.slots@[self.deleted@[t] as int] is None by {
                    let x = self.deleted@[t];
                    assert(old(self).deleted@[t] == x);
                    assert(before.take(s0.len() as int)[x as int] == s0[x as int]);
                }
            }
        }
    }

    /// Stores `attr` in live slot `id`.
    pub fn set_item(&mut self, id: u64, attr: u64)
        requires
            old(self).wf(),
            old(self).live(id),
        ensures
            final(self).wf(),
            final(self)@ == old(self)@.update(id as int, Some(attr)),
            final(self).capacity() == old(self).capacity(),
            final(self).freed() == old(self).freed(),
    {
        proof {
            lemma_live_count_update(self.slots@, id as int, Some(attr));
        }
        let len = self.slots.len();
        assert(id < len);
        self.slots.set(id as usize, Some(attr));
        proof {
            assert forall|k: int| 0 <= k < self.deleted@.len() implies #[trigger] self.deleted@[k]
                < self.slots@.len() && self.slots@[self.deleted@[k] as int] is None by {
                assert(old(self).slots@[self.deleted@[k] as int] is None);
            }
        }
    }

    /// Frees live slot `id`; its id will be handed out again.
    pub fn delete_item(&mut self, id: u64)
        requires
            old(self).wf(),
            old(self).live(id),
        ensures
            final(self).wf(),
            final(self)@ == old(self)@.update(id as int, None),
            final(self).capacity() == old(self).capacity(),
    {
        proof {
            lemma_live_count_update(self.slots@, id as int, None);
            assert(!self.deleted@.contains(id));
        }
        let len = self.slots.len();
        assert(id < len);
        self.slots.set(id as usize, None);
        self.count = self.count - 1;
        self.deleted.push(id);
        proof {
            assert forall|k: int| 0 <= k < self.deleted@.len() implies #[trigger] self.deleted@[k]
                < self.slots@.len() && self.slots@[self.deleted@[k] as int] is None by {
                if k < old(self).deleted@.len() {
                    assert(old(self).deleted@[k] == self.deleted@[k]);
                }
            }
            assert(self.deleted@.no_duplicates()) by {
                assert forall|a: int, b: int| 0 <= a < self.deleted@.len() && 0 <= b < self.deleted@.len() && a != b implies self.deleted@[a] != self.deleted@[b] by {
                    if a < old(self).deleted@.len() && b < old(self).deleted@.len() {
                        assert(old(self).deleted@[a] == self.deleted@[a]);
                        assert(old(self).deleted@[b] == self.deleted@[b]);
                    } else if a < old(self).deleted@.len() {
                        assert(old(self).deleted@[a] == self.deleted@[a]);
                    } else if b < old(self).deleted@.len() {
                        assert(old(self).deleted@[b] == self.deleted@[b]);
                    }
                }
            }
        }
    }

    /// Grows the capacity to at least `cap`.
    pub fn ensure_cap(&mut self, cap: u64)
        requires
            old(self).wf(),
        ensures
            final(self).wf(),
            final(self)@ == old(self)@,
            final(self).capacity() == if cap > old(self).capacity() {
                cap
            } else {
                old(self).capacity()
            },
            final(self).freed() == old(self).freed(),
            final(self).next_id() == old(self).next_id(),
    {
        if cap > self.cap {
            self.cap = cap;
        }
    }
}

} // verus!
