use vstd::prelude::*;

use crate::join::lemma_push_contains;

verus! {

/// An owned handle: a counted strong reference to a cell of a `Handles`
/// table. It is not `Clone`: a new reference is made with `Handles::share`
/// and given back with `Handles::release`.
pub struct R {
    id: usize,
}

impl R {
    pub closed spec fn id(&self) -> usize {
        self.id
    }

    /// The index of the cell this handle refers to.
    pub fn index(&self) -> (r: usize)
        ensures
            r == self.id(),
    {
        self.id
    }
}

struct Slot<T> {
    value: Option<T>,
    strong: usize,
    destructors: Vec<usize>,
}

/// The cells behind owned handles. Each cell holds a value, a count of its
/// strong references, and the keys of the registries whose destructor is
/// registered on it; a cell dies when its last strong reference is released.
pub struct Handles<T> {
    slots: Vec<Slot<T>>,
}

impl<T> Handles<T> {
    pub closed spec fn len(&self) -> nat {
        self.slots@.len()
    }

    pub closed spec fn alive(&self, o: int) -> bool {
        0 <= o < self.slots@.len() && self.slots@[o].value is Some
    }

    pub closed spec fn value(&self, o: int) -> T {
        self.slots@[o].value->Some_0
    }

    /// A live cell lies within the table.
    pub proof fn lemma_alive_in_range(&self, o: int)
        requires
            self.alive(o),
        ensures
            0 <= o < self.len(),
    {
    }

    pub closed spec fn strong(&self, o: int) -> nat {
        self.slots@[o].strong as nat
    }

    /// The keys of the destructors registered on cell `o`.
    pub closed spec fn destructors(&self, o: int) -> Seq<usize> {
        self.slots@[o].destructors@
    }

    pub closed spec fn wf(&self) -> bool {
        &&& self.slots@.len() <= usize::MAX
        &&& forall|o: int|
            0 <= o < self.slots@.len() ==> {
                &&& (self.slots@[o].value is Some <==> self.slots@[o].strong > 0)
                &&& (#[trigger] self.slots@[o]).destructors@.no_duplicates()
                &&& (self.slots@[o].value is None ==> self.slots@[o].destructors@.len() == 0)
            }
    }

    pub fn new() -> (h: Handles<T>)
        ensures
            h.wf(),
            h.len() == 0,
    {
        Handles { slots: Vec::new() }
    }

    /// A new cell holding `t`, with one strong reference and no destructors.
    fn alloc_cell(&mut self, t: T) -> (r: R)
        requires
            old(self).wf(),
            old(self).len() < usize::MAX,
        ensures
            final(self).wf(),
            r.id() == old(self).len(),
            final(self).len() == old(self).len() + 1,
            final(self).alive(r.id() as int),
            final(self).value(r.id() as int) == t,
            final(self).strong(r.id() as int) == 1,
            final(self).destructors(r.id() as int).len() == 0,
            forall|o: int| 0 <= o < old(self).len() ==> final(self).alive(o) == old(self).alive(o)
                && final(self).value(o) == old(self).value(o) && final(self).strong(o) == old(self).strong(o)
                && final(self).destructors(o) == old(self).destructors(o),
    {
        let id = self.slots.len();
        self.slots.push(Slot { value: Some(t), strong: 1, destructors: Vec::new() });
        proof {
            assert forall|o: int| 0 <= o < self.slots@.len() implies {
                &&& (self.slots@[o].value is Some <==> self.slots@[o].strong > 0)
                &&& (#[trigger] self.slots@[o]).destructors@.no_duplicates()
                &&& (self.slots@[o].value is None ==> self.slots@[o].destructors@.len() == 0)
            } by {
                if o < id {
                    assert(self.slots@[o] == old(self).slots@[o]);
                }
            }
        }
        R { id }
    }

    /// Whether cell `o` is alive.
    pub fn is_alive(&self, o: usize) -> (r: bool)
        ensures
            r == self.alive(o as int),
    {
        o < self.slots.len() && self.slots[o].value.is_some()
    }

    /// A new strong reference to the cell of `r`.
    pub fn share(&mut self, r: &R) -> (r2: R)
        requires
            old(self).wf(),
            old(self).alive(r.id() as int),
            old(self).strong(r.id() as int) < usize::MAX,
        ensures
            final(self).wf(),
            r2.id() == r.id(),
            final(self).len() == old(self).len(),
            final(self).strong(r.id() as int) == old(self).strong(r.id() as int) + 1,
            forall|o: int| 0 <= o < old(self).len() ==> final(self).alive(o) == old(self).alive(o)
                && final(self).value(o) == old(self).value(o) && final(self).destructors(o) == old(self).destructors(o),
            forall|o: int| 0 <= o < old(self).len() && o != r.id() ==> final(self).strong(o) == old(self).strong(o),
    {
        let slot = &mut self.slots[r.id];
        slot.strong = slot.strong + 1;
        proof {
            assert forall|o: int| 0 <= o < self.slots@.len() implies {
                &&& (self.slots@[o].value is Some <==> self.slots@[o].strong > 0)
                &&& (#[trigger] self.slots@[o]).destructors@.no_duplicates()
                &&& (self.slots@[o].value is None ==> self.slots@[o].destructors@.len() == 0)
            } by {
                if o != r.id {
                    assert(self.slots@[o] == old(self).slots@[o]);
                }
            }
        }
        R { id: r.id }
    }

    /// The value in the cell of `r`.
    pub fn get(&self, r: &R) -> (v: &T)
        requires
            self.alive(r.id() as int),
        ensures
            *v == self.value(r.id() as int),
    {
        match &self.slots[r.id].value {
            Some(v) => v,
            None => vstd::pervasive::unreached(),
        }
    }

    /// Registers the destructor of registry `key` on cell `o`, unless it is
    /// already there.
    fn add_destructor(&mut self, o: usize, key: usize)
        requires
            old(self).wf(),
            old(self).alive(o as int),
        ensures
            final(self).wf(),
            final(self).len() == old(self).len(),
            forall|p: int| 0 <= p < old(self).len() ==> final(self).alive(p) == old(self).alive(p)
                && final(self).value(p) == old(self).value(p) && final(self).strong(p) == old(self).strong(p),
            forall|p: int| 0 <= p < old(self).len() && p != o ==> final(self).destructors(p) == old(self).destructors(p),
            forall|k: usize| #[trigger] final(self).destructors(o as int).contains(k) <==> (old(self).destructors(o as int).contains(k) || k == key),
    {
        let slot = &mut self.slots[o];
        let mut i: usize = 0;
        let mut found = false;
        while i < slot.destructors.len()
            invariant
                i <= slot.destructors@.len(),
                found ==> slot.destructors@.contains(key),
                !found ==> forall|j: int| 0 <= j < i ==> slot.destructors@[j] != key,
            decreases slot.destructors@.len() - i,
        {
            if slot.destructors[i] == key {
                found = true;
                assert(slot.destructors@[i as int] == key);
            }
            i = i + 1;
        }
        proof {
            if !found {
                assert(!slot.destructors@.contains(key));
            }
        }
        let ghost d0 = slot.destructors@;
        if !found {
            slot.destructors.push(key);
        }
        proof {
            assert forall|k: usize| #[trigger] slot.destructors@.contains(k) <==> (d0.contains(k) || k == key) by {
                if !found {
                    lemma_push_contains(d0, key, k);
                }
            }
            assert forall|p: int| 0 <= p < self.slots@.len() implies {
                &&& (self.slots@[p].value is Some <==> self.slots@[p].strong > 0)
                &&& (#[trigger] self.slots@[p]).destructors@.no_duplicates()
                &&& (self.slots@[p].value is None ==> self.slots@[p].destructors@.len() == 0)
            } by {
                if p != o {
                    assert(self.slots@[p] == old(self).slots@[p]);
                }
            }
        }
    }

    /// Unregisters the destructor of registry `key` from cell `o`.
    fn remove_destructor(&mut self, o: usize, key: usize)
        requires
            old(self).wf(),
            o < old(self).len(),
        ensures
            final(self).wf(),
            final(self).len() == old(self).len(),
            forall|p: int| 0 <= p < old(self).len() ==> final(self).alive(p) == old(self).alive(p)
                && final(self).value(p) == old(self).value(p) && final(self).strong(p) == old(self).strong(p),
            forall|p: int| 0 <= p < old(self).len() && p != o ==> final(self).destructors(p) == old(self).destructors(p),
            forall|k: usize| #[trigger] final(self).destructors(o as int).contains(k) <==> (old(self).destructors(o as int).contains(k) && k != key),
    {
        let slot = &mut self.slots[o];
        let ghost d0 = slot.destructors@;
        let mut i: usize = 0;
        while i < slot.destructors.len() && slot.destructors[i] != key
            invariant
                slot.destructors@ == d0,
                i <= d0.len(),
                forall|j: int| 0 <= j < i ==> d0[j] != key,
            decreases d0.len() - i,
        {
            i = i + 1;
        }
        if i < slot.destructors.len() {
            slot.destructors.remove(i);
            proof {
                assert(d0.no_duplicates());
                assert(d0[i as int] == key);
                let d1 = slot.destructors@;
                assert(d1 == d0.remove(i as int));
                assert forall|k: usize| #[trigger] d1.contains(k) <==> (d0.contains(k) && k != key) by {
                    if d1.contains(k) {
                        let j = choose|j: int| 0 <= j < d1.len() && d1[j] == k;
                        if j < i {
                            assert(d0[j] == k);
                        } else {
                            assert(d0[j + 1] == k);
                            assert(j + 1 != i);
                        }
                    }
                    if d0.contains(k) && k != key {
                        let j = choose|j: int| 0 <= j < d0.len() && d0[j] == k;
                        if j < i {
                            assert(d1[j] == k);
                        } else {
                            assert(j != i);
                            assert(d1[j - 1] == k);
                        }
                    }
                }
                assert(d1.no_duplicates()) by {
                    assert forall|a: int, b: int| 0 <= a < b < d1.len() implies d1[a] != d1[b] by {
                        let a0 = if a < i { a } else { a + 1 };
                        let b0 = if b < i { b } else { b + 1 };
                        assert(d1[a] == d0[a0] && d1[b] == d0[b0]);
                    }
                }
            }
        } else {
            proof {
                assert forall|k: usize| #[trigger] d0.contains(k) implies k != key by {
                    let j = choose|j: int| 0 <= j < d0.len() && d0[j] == k;
                }
            }
        }
        proof {
            assert forall|p: int| 0 <= p < self.slots@.len() implies {
                &&& (self.slots@[p].value is Some <==> self.slots@[p].strong > 0)
                &&& (#[trigger] self.slots@[p]).destructors@.no_duplicates()
                &&& (self.slots@[p].value is None ==> self.slots@[p].destructors@.len() == 0)
            } by {
                if p != o {
                    assert(self.slots@[p] == old(self).slots@[p]);
                }
            }
        }
    }

    /// Gives back the strong reference `r`. When it was the last one, the
    /// cell dies: its value is dropped and the keys of the destructors that
    /// were registered on it are returned, each once, for their registries
    /// to run; otherwise nothing is returned.
    pub fn release(&mut self, r: R) -> (fired: Vec<usize>)
        requires
            old(self).wf(),
            old(self).alive(r.id() as int),
        ensures
            final(self).wf(),
            final(self).len() == old(self).len(),
            old(self).strong(r.id() as int) > 1 ==> final(self).alive(r.id() as int)
                && final(self).value(r.id() as int) == old(self).value(r.id() as int)
                && final(self).strong(r.id() as int) == old(self).strong(r.id() as int) - 1
                && final(self).destructors(r.id() as int) == old(self).destructors(r.id() as int)
                && fired@.len() == 0,
            old(self).strong(r.id() as int) == 1 ==> !final(self).alive(r.id() as int)
                && final(self).destructors(r.id() as int).len() == 0
                && fired@ == old(self).destructors(r.id() as int),
            forall|p: int| 0 <= p < old(self).len() && p != r.id() ==> final(self).alive(p) == old(self).alive(p)
                && final(self).value(p) == old(self).value(p) && final(self).strong(p) == old(self).strong(p)
                && final(self).destructors(p) == old(self).destructors(p),
    {
        let o = r.id;
        let slot = &mut self.slots[o];
        let fired = if slot.strong == 1 {
            slot.strong = 0;
            slot.value = None;
            let mut keys: Vec<usize> = Vec::new();
            std::mem::swap(&mut keys, &mut slot.destructors);
            keys
        } else {
            slot.strong = slot.strong - 1;
            Vec::new()
        };
        proof {
            assert forall|p: int| 0 <= p < self.slots@.len() implies {
                &&& (self.slots@[p].value is Some <==> self.slots@[p].strong > 0)
                &&& (#[trigger] self.slots@[p]).destructors@.no_duplicates()
                &&& (self.slots@[p].value is None ==> self.slots@[p].destructors@.len() == 0)
            } by {
                if p != o {
                    assert(self.slots@[p] == old(self).slots@[p]);
                }
            }
        }
        fired
    }
}

} // verus!

verus! {

/// The value that `items` associates with owner `o`: that of its last
/// entry, if there is one.
pub open spec fn lookup<V>(items: Seq<(usize, V)>, o: usize) -> Option<V>
    decreases items.len(),
{
    if items.len() == 0 {
        None
    } else if items.last().0 == o {
        Some(items.last().1)
    } else {
        lookup(items.drop_last(), o)
    }
}

/// No two entries share an owner.
pub open spec fn unique_owners<V>(items: Seq<(usize, V)>) -> bool {
    forall|i: int, j: int| 0 <= i < j < items.len() ==> items[i].0 != items[j].0
}

pub proof fn lemma_lookup_absent<V>(items: Seq<(usize, V)>, o: usize)
    requires
        forall|i: int| 0 <= i < items.len() ==> items[i].0 != o,
    ensures
        lookup(items, o) is None,
    decreases items.len(),
{
    if items.len() > 0 {
        lemma_lookup_absent(items.drop_last(), o);
    }
}

pub proof fn lemma_lookup_at<V>(items: Seq<(usize, V)>, i: int)
    requires
        unique_owners(items),
        0 <= i < items.len(),
    ensures
        lookup(items, items[i].0) == Some(items[i].1),
    decreases items.len(),
{
    if i < items.len() - 1 {
        lemma_lookup_at(items.drop_last(), i);
    }
}

pub proof fn lemma_lookup_present<V>(items: Seq<(usize, V)>, o: usize)
    requires
        lookup(items, o) is Some,
    ensures
        exists|i: int| 0 <= i < items.len() && items[i].0 == o,
    decreases items.len(),
{
    if items.last().0 != o {
        lemma_lookup_present(items.drop_last(), o);
        let i = choose|i: int| 0 <= i < items.len() - 1 && items.drop_last()[i].0 == o;
        assert(items[i].0 == o);
    } else {
        assert(items[items.len() - 1].0 == o);
    }
}

pub proof fn lemma_lookup_remove<V>(items: Seq<(usize, V)>, i: int, o: usize)
    requires
        unique_owners(items),
        0 <= i < items.len(),
    ensures
        unique_owners(items.remove(i)),
        lookup(items.remove(i), o) == if o == items[i].0 {
            None
        } else {
            lookup(items, o)
        },
    decreases items.len(),
{
    let r = items.remove(i);
    assert forall|a: int, b: int| 0 <= a < b < r.len() implies r[a].0 != r[b].0 by {
        let a0 = if a < i { a } else { a + 1 };
        let b0 = if b < i { b } else { b + 1 };
        assert(r[a] == items[a0] && r[b] == items[b0]);
    }
    if o == items[i].0 {
        assert forall|j: int| 0 <= j < r.len() implies r[j].0 != o by {
            let j0 = if j < i { j } else { j + 1 };
            assert(r[j] == items[j0]);
        }
        lemma_lookup_absent(r, o);
    } else if i == items.len() - 1 {
        assert(r == items.drop_last());
    } else {
        assert(r.drop_last() == items.drop_last().remove(i));
        assert(r.last() == items.last());
        lemma_lookup_remove(items.drop_last(), i, o);
    }
}

/// A registry that attaches a value to each of its owners, cells of a
/// `Handles` table, without holding a strong reference to them. `key`
/// names its destructor, registered on each owner; `this` is the cell of
/// the component the registry belongs to.
pub struct ExpandoBase<V> {
    key: usize,
    this: usize,
    items: Vec<(usize, V)>,
}

/// The registry `e` and the cells of `h` agree on owner `o`: `o` has an
/// association exactly when it is alive and carries the registry's
/// destructor.
pub open spec fn link_at<T, V>(h: &Handles<T>, e: &ExpandoBase<V>, o: usize) -> bool {
    e.get(o) is Some <==> (h.alive(o as int) && h.destructors(o as int).contains(e.key()))
}

pub open spec fn linked<T, V>(h: &Handles<T>, e: &ExpandoBase<V>) -> bool {
    &&& e.wf()
    &&& forall|o: usize| #[trigger] link_at(h, e, o)
}

impl<V> ExpandoBase<V> {
    pub closed spec fn key(&self) -> usize {
        self.key
    }

    pub closed spec fn this(&self) -> usize {
        self.this
    }

    pub closed spec fn items(&self) -> Seq<(usize, V)> {
        self.items@
    }

    pub open spec fn wf(&self) -> bool {
        unique_owners(self.items())
    }

    /// The value attached to owner `o`, if any.
    pub open spec fn get(&self, o: usize) -> Option<V> {
        lookup(self.items(), o)
    }

    /// An empty registry with destructor key `key`, belonging to the
    /// component in cell `this`.
    pub fn new(key: usize, this: usize) -> (e: ExpandoBase<V>)
        ensures
            e.wf(),
            e.key() == key,
            e.this() == this,
            forall|o: usize| #[trigger] e.get(o) is None,
    {
        ExpandoBase { key, this, items: Vec::new() }
    }

    /// The cell of the component this registry belongs to, while that cell
    /// is alive.
    pub fn get_this<T>(&self, h: &Handles<T>) -> (r: Option<usize>)
        ensures
            r == if h.alive(self.this() as int) {
                Some(self.this())
            } else {
                None
            },
    {
        if h.is_alive(self.this) {
            Some(self.this)
        } else {
            None
        }
    }

    /// The value associated with owner `o`, if any.
    pub fn value_of(&self, o: usize) -> (r: Option<&V>)
        requires
            self.wf(),
        ensures
            match r {
                Some(v) => self.get(o) == Some(*v),
                None => self.get(o) is None,
            },
    {
        match self.position(o) {
            Some(i) => {
                proof {
                    lemma_lookup_at(self.items@, i as int);
                }
                Some(&self.items[i].1)
            },
            None => None,
        }
    }

    /// The owners with an association, in order of entry.
    pub fn iter(&self) -> (r: Vec<usize>)
        requires
            self.wf(),
        ensures
            r@.no_duplicates(),
            forall|o: usize| #[trigger] r@.contains(o) <==> self.get(o) is Some,
    {
        let mut r: Vec<usize> = Vec::new();
        let mut i: usize = 0;
        while i < self.items.len()
            invariant
                i <= self.items@.len(),
                unique_owners(self.items@),
                r@ == self.items@.take(i as int).map_values(|e: (usize, V)| e.0),
            decreases self.items@.len() - i,
        {
            r.push(self.items[i].0);
            i = i + 1;
            assert(r@ =~= self.items@.take(i as int).map_values(|e: (usize, V)| e.0));
        }
        proof {
            assert(self.items@.take(i as int) == self.items@);
            assert forall|a: int, b: int| 0 <= a < b < r@.len() implies r@[a] != r@[b] by {
                assert(r@[a] == self.items@[a].0 && r@[b] == self.items@[b].0);
            }
            assert forall|o: usize| #[trigger] r@.contains(o) <==> self.get(o) is Some by {
                if r@.contains(o) {
                    let j = choose|j: int| 0 <= j < r@.len() && r@[j] == o;
                    lemma_lookup_at(self.items@, j);
                }
                if self.get(o) is Some {
                    lemma_lookup_present(self.items@, o);
                    let j = choose|j: int| 0 <= j < self.items@.len() && self.items@[j].0 == o;
                    assert(r@[j] == o);
                }
            }
        }
        r
    }

    fn position(&self, o: usize) -> (r: Option<usize>)
        requires
            self.wf(),
        ensures
            match r {
                Some(i) => i < self.items@.len() && self.items@[i as int].0 == o,
                None => self.get(o) is None,
            },
    {
        let mut i: usize = 0;
        while i < self.items.len()
            invariant
                i <= self.items@.len(),
                forall|j: int| 0 <= j < i ==> self.items@[j].0 != o,
            decreases self.items@.len() - i,
        {
            if self.items[i].0 == o {
                return Some(i);
            }
            i = i + 1;
        }
        proof {
            lemma_lookup_absent(self.items@, o);
        }
        None
    }

    /// Takes the entry of owner `o` out, if there is one.
    fn take(&mut self, o: usize) -> (r: Option<V>)
        requires
            old(self).wf(),
        ensures
            final(self).wf(),
            final(self).key() == old(self).key(),
            final(self).this() == old(self).this(),
            r == old(self).get(o),
            final(self).get(o) is None,
            forall|p: usize| p != o ==> #[trigger] final(self).get(p) == old(self).get(p),
    {
        match self.position(o) {
            Some(i) => {
                proof {
                    lemma_lookup_at(self.items@, i as int);
                    assert forall|p: usize| true implies #[trigger] lookup(self.items@.remove(i as int), p)
                        == if p == o { None } else { lookup(self.items@, p) } by {
                        lemma_lookup_remove(self.items@, i as int, p);
                    }
                    lemma_lookup_remove(self.items@, i as int, o);
                }
                let (_, v) = self.items.remove(i);
                Some(v)
            },
            None => None,
        }
    }

    /// Associates with owner `o` the value `f` computes from the previous
    /// one, if any: the previous value is handed to `f`, and is no longer
    /// in the registry afterwards. On the first association of `o`,
    /// registers this registry's destructor on it.
    pub fn update<T, F: FnOnce(Option<V>) -> V>(&mut self, h: &mut Handles<T>, o: &R, f: F)
        requires
            old(h).wf(),
            linked(old(h), old(self)),
            old(h).alive(o.id() as int),
            f.requires((old(self).get(o.id()),)),
        ensures
            final(h).wf(),
            linked(final(h), final(self)),
            final(self).key() == old(self).key(),
            final(self).this() == old(self).this(),
            final(self).get(o.id()) is Some,
            f.ensures((old(self).get(o.id()),), final(self).get(o.id())->Some_0),
            forall|p: usize| p != o.id() ==> #[trigger] final(self).get(p) == old(self).get(p),
            final(h).len() == old(h).len(),
            forall|p: int| 0 <= p < old(h).len() ==> final(h).alive(p) == old(h).alive(p)
                && final(h).value(p) == old(h).value(p) && final(h).strong(p) == old(h).strong(p),
            forall|p: int, k: usize| 0 <= p < old(h).len() && k != old(self).key() ==>
                (#[trigger] final(h).destructors(p).contains(k) <==> old(h).destructors(p).contains(k)),
    {
        let oid = o.id;
        let ghost e0 = *self;
        let prev = self.take(oid);
        let ghost e1 = *self;
        if prev.is_none() {
            h.add_destructor(oid, self.key);
        }
        let v = f(prev);
        let ghost items1 = self.items@;
        self.items.push((oid, v));
        proof {
            assert(self.items@ == items1.push((oid, v)));
            assert(self.items@.drop_last() == items1);
            assert(lookup(self.items@, oid) == Some(v));
            assert(e1.items() == items1);
            assert forall|p: usize| p != oid implies #[trigger] lookup(self.items@, p) == e0.get(p) by {
                assert(self.items@.last().0 == oid);
                assert(lookup(self.items@, p) == lookup(items1, p));
                assert(e1.get(p) == e0.get(p));
            }
            assert(unique_owners(self.items@)) by {
                assert forall|a: int, b: int| 0 <= a < b < self.items@.len() implies self.items@[a].0
                    != self.items@[b].0 by {
                    if b == items1.len() {
                        if items1[a].0 == oid {
                            lemma_lookup_at(items1, a);
                        }
                    }
                }
            }
            assert forall|p: usize| #[trigger] link_at(h, self, p) by {
                assert(link_at(old(h), &e0, p));
                if p != oid {
                    assert(self.get(p) == e0.get(p));
                    if p < old(h).len() {
                        assert(h.destructors(p as int) == old(h).destructors(p as int));
                    }
                } else {
                    if prev.is_some() {
                        assert(h.destructors(p as int).contains(self.key) <==> old(h).destructors(p as int).contains(self.key));
                    }
                }
            }
        }
    }

    /// Associates `value` with owner `o`. A value it replaces is removed
    /// from the registry and returned, for the removal hook to be called
    /// with `(this, replaced)`.
    pub fn add<T>(&mut self, h: &mut Handles<T>, o: &R, value: V) -> (replaced: Option<V>)
        requires
            old(h).wf(),
            linked(old(h), old(self)),
            old(h).alive(o.id() as int),
        ensures
            final(h).wf(),
            linked(final(h), final(self)),
            final(self).key() == old(self).key(),
            final(self).this() == old(self).this(),
            final(self).get(o.id()) == Some(value),
            replaced == old(self).get(o.id()),
            forall|p: usize| p != o.id() ==> #[trigger] final(self).get(p) == old(self).get(p),
            final(h).len() == old(h).len(),
            forall|p: int| 0 <= p < old(h).len() ==> final(h).alive(p) == old(h).alive(p)
                && final(h).value(p) == old(h).value(p) && final(h).strong(p) == old(h).strong(p),
            forall|p: int, k: usize| 0 <= p < old(h).len() && k != old(self).key() ==>
                (#[trigger] final(h).destructors(p).contains(k) <==> old(h).destructors(p).contains(k)),
    {
        let oid = o.id;
        let ghost e0 = *self;
        let prev = self.take(oid);
        let ghost e1 = *self;
        if prev.is_none() {
            h.add_destructor(oid, self.key);
        }
        let v = value;
        let ghost items1 = self.items@;
        self.items.push((oid, v));
        proof {
            assert(self.items@ == items1.push((oid, v)));
            assert(self.items@.drop_last() == items1);
            assert(lookup(self.items@, oid) == Some(v));
            assert(e1.items() == items1);
            assert forall|p: usize| p != oid implies #[trigger] lookup(self.items@, p) == e0.get(p) by {
                assert(self.items@.last().0 == oid);
                assert(lookup(self.items@, p) == lookup(items1, p));
                assert(e1.get(p) == e0.get(p));
            }
            assert(unique_owners(self.items@)) by {
                assert forall|a: int, b: int| 0 <= a < b < self.items@.len() implies self.items@[a].0
                    != self.items@[b].0 by {
                    if b == items1.len() {
                        if items1[a].0 == oid {
                            lemma_lookup_at(items1, a);
                        }
                    }
                }
            }
            assert forall|p: usize| #[trigger] link_at(h, self, p) by {
                assert(link_at(old(h), &e0, p));
                if p != oid {
                    assert(self.get(p) == e0.get(p));
                    if p < old(h).len() {
                        assert(h.destructors(p as int) == old(h).destructors(p as int));
                    }
                } else {
                    if prev.is_some() {
                        assert(h.destructors(p as int).contains(self.key) <==> old(h).destructors(p as int).contains(self.key));
                    }
                }
            }
        }
        prev
    }

    /// Removes the association of owner `o` and returns its value: what the
    /// registry's destructor does when `o` dies, before the removal hook is
    /// called with `(this, value)`.
    pub fn destruct(&mut self, o: usize) -> (v: V)
        requires
            old(self).wf(),
            old(self).get(o) is Some,
        ensures
            final(self).wf(),
            final(self).key() == old(self).key(),
            final(self).this() == old(self).this(),
            v == old(self).get(o)->Some_0,
            final(self).get(o) is None,
            forall|p: usize| p != o ==> #[trigger] final(self).get(p) == old(self).get(p),
    {
        match self.take(o) {
            Some(v) => v,
            None => vstd::pervasive::unreached(),
        }
    }

    /// Unregisters this registry's destructor from every owner, so that no
    /// owner calls back into it once it is gone.
    pub fn detach<T>(self, h: &mut Handles<T>)
        requires
            old(h).wf(),
            linked(old(h), &self),
        ensures
            final(h).wf(),
            final(h).len() == old(h).len(),
            forall|p: int| 0 <= p < old(h).len() ==> final(h).alive(p) == old(h).alive(p)
                && final(h).value(p) == old(h).value(p) && final(h).strong(p) == old(h).strong(p),
            forall|p: int, k: usize| 0 <= p < old(h).len() ==>
                (#[trigger] final(h).destructors(p).contains(k) <==> old(h).destructors(p).contains(k) && k != self.key()),
    {
        let mut i: usize = 0;
        while i < self.items.len()
            invariant
                h.wf(),
                linked(old(h), &self),
                i <= self.items@.len(),
                h.len() == old(h).len(),
                forall|p: int| 0 <= p < old(h).len() ==> h.alive(p) == old(h).alive(p)
                    && h.value(p) == old(h).value(p) && h.strong(p) == old(h).strong(p),
                forall|p: int, k: usize| 0 <= p < old(h).len() ==>
                    (#[trigger] h.destructors(p).contains(k) <==> old(h).destructors(p).contains(k)
                        && !(k == self.key && exists|j: int| 0 <= j < i && self.items@[j].0 == p)),
            decreases self.items@.len() - i,
        {
            let o = self.items[i].0;
            proof {
                lemma_lookup_at(self.items@, i as int);
                assert(link_at(old(h), &self, o));
            }
            h.remove_destructor(o, self.key);
            proof {
                assert forall|p: int, k: usize| 0 <= p < old(h).len() implies
                    (#[trigger] h.destructors(p).contains(k) <==> old(h).destructors(p).contains(k)
                        && !(k == self.key && exists|j: int| 0 <= j < i + 1 && self.items@[j].0 == p)) by {
                    if k == self.key && p == o {
                        assert(self.items@[i as int].0 == p);
                    }
                    if exists|j: int| 0 <= j < i + 1 && self.items@[j].0 == p {
                        let j = choose|j: int| 0 <= j < i + 1 && self.items@[j].0 == p;
                        if j < i {
                        } else {
                            assert(p == o);
                        }
                    }
                }
            }
            i = i + 1;
        }
        proof {
            assert forall|p: int, k: usize| 0 <= p < old(h).len() implies
                (#[trigger] h.destructors(p).contains(k) <==> old(h).destructors(p).contains(k) && k != self.key) by {
                if k == self.key && old(h).destructors(p).contains(k) {
                    assert(old(h).alive(p));
                    assert(link_at(old(h), &self, p as usize));
                    lemma_lookup_present(self.items@, p as usize);
                }
            }
        }
    }
}

impl<V> ExpandoBase<Vec<V>> {
    /// Appends `value` to the list associated with owner `o`.
    pub fn add_multi<T>(&mut self, h: &mut Handles<T>, o: &R, value: V)
        requires
            old(h).wf(),
            linked(old(h), old(self)),
            old(h).alive(o.id() as int),
        ensures
            final(h).wf(),
            linked(final(h), final(self)),
            final(self).key() == old(self).key(),
            final(self).this() == old(self).this(),
            final(self).get(o.id()) is Some,
            final(self).get(o.id())->Some_0@ == match old(self).get(o.id()) {
                Some(l) => l@.push(value),
                None => seq![value],
            },
            forall|p: usize| p != o.id() ==> #[trigger] final(self).get(p) == old(self).get(p),
            final(h).len() == old(h).len(),
            forall|p: int| 0 <= p < old(h).len() ==> final(h).alive(p) == old(h).alive(p)
                && final(h).value(p) == old(h).value(p) && final(h).strong(p) == old(h).strong(p),
            forall|p: int, k: usize| 0 <= p < old(h).len() && k != old(self).key() ==>
                (#[trigger] final(h).destructors(p).contains(k) <==> old(h).destructors(p).contains(k)),
    {
        let f = move |prev: Option<Vec<V>>| -> (r: Vec<V>)
            ensures
                r@ == match prev {
                    Some(l) => l@.push(value),
                    None => seq![value],
                },
            {
                match prev {
                    Some(l) => {
                        let mut l = l;
                        l.push(value);
                        l
                    },
                    None => {
                        let l = vec![value];
                        assert(l@ =~= seq![value]);
                        l
                    },
                }
            };
        self.update(h, o, f);
    }
}

/// The callbacks of `items`, each with its owner: the owners in entry order,
/// and each owner's callbacks in the order they were added.
pub open spec fn calls<A>(items: Seq<(usize, Vec<A>)>) -> Seq<(usize, A)>
    decreases items.len(),
{
    if items.len() == 0 {
        Seq::empty()
    } else {
        calls(items.drop_last()) + items.last().1@.map_values(|a: A| (items.last().0, a))
    }
}

/// A registry whose value for each owner is the list of callbacks that the
/// owner registered; `call` hands them out, each with its owner.
pub struct CallbackExpando<A> {
    base: ExpandoBase<Vec<A>>,
}

impl<A: Copy> CallbackExpando<A> {
    pub closed spec fn base(&self) -> ExpandoBase<Vec<A>> {
        self.base
    }

    /// An empty registry with destructor key `key`, belonging to the
    /// component in cell `this`.
    pub fn new(key: usize, this: usize) -> (e: CallbackExpando<A>)
        ensures
            e.base().wf(),
            e.base().key() == key,
            e.base().this() == this,
            forall|o: usize| #[trigger] e.base().get(o) is None,
    {
        CallbackExpando { base: ExpandoBase::new(key, this) }
    }

    /// Registers callback `f` for owner `o`, after those it already has.
    pub fn add_callback<T>(&mut self, h: &mut Handles<T>, o: &R, f: A)
        requires
            old(h).wf(),
            linked(old(h), &old(self).base()),
            old(h).alive(o.id() as int),
        ensures
            final(h).wf(),
            linked(final(h), &final(self).base()),
            final(self).base().key() == old(self).base().key(),
            final(self).base().this() == old(self).base().this(),
            final(self).base().get(o.id()) is Some,
            final(self).base().get(o.id())->Some_0@ == match old(self).base().get(o.id()) {
                Some(l) => l@.push(f),
                None => seq![f],
            },
            forall|p: usize| p != o.id() ==> #[trigger] final(self).base().get(p) == old(self).base().get(p),
    {
        self.base.add_multi(h, o, f);
    }

    /// Unregisters this registry's destructor from every owner.
    pub fn detach<T>(self, h: &mut Handles<T>)
        requires
            old(h).wf(),
            linked(old(h), &self.base()),
        ensures
            final(h).wf(),
            final(h).len() == old(h).len(),
            forall|p: int| 0 <= p < old(h).len() ==> final(h).alive(p) == old(h).alive(p)
                && final(h).value(p) == old(h).value(p) && final(h).strong(p) == old(h).strong(p),
            forall|p: int, k: usize| 0 <= p < old(h).len() ==>
                (#[trigger] final(h).destructors(p).contains(k) <==> old(h).destructors(p).contains(k) && k != self.base().key()),
    {
        self.base.detach(h);
    }

    /// Every registered callback with its owner, owner by owner.
    pub fn call(&self) -> (r: Vec<(usize, A)>)
        ensures
            r@ == calls(self.base().items()),
    {
        let items = &self.base.items;
        let mut r: Vec<(usize, A)> = Vec::new();
        let mut i: usize = 0;
        while i < items.len()
            invariant
                i <= items@.len(),
                items@ == self.base().items(),
                r@ == calls(items@.take(i as int)),
            decreases items@.len() - i,
        {
            let o = items[i].0;
            let fs = &items[i].1;
            let ghost r0 = r@;
            let mut j: usize = 0;
            while j < fs.len()
                invariant
                    j <= fs@.len(),
                    r@ == r0 + fs@.take(j as int).map_values(|a: A| (o, a)),
                decreases fs@.len() - j,
            {
                r.push((o, fs[j]));
                j = j + 1;
                assert(fs@.take(j as int).map_values(|a: A| (o, a)) =~= fs@.take(j - 1).map_values(
                    |a: A| (o, a),
                ).push((o, fs@[j - 1])));
                assert(r@ =~= r0 + fs@.take(j as int).map_values(|a: A| (o, a)));
            }
            assert(fs@.take(j as int) == fs@);
            assert(items@.take(i + 1).drop_last() == items@.take(i as int));
            i = i + 1;
        }
        assert(items@.take(i as int) == items@);
        r
    }
}

impl R {
    /// A new cell of `h` holding `t`, and its first strong reference.
    pub fn new<T>(h: &mut Handles<T>, t: T) -> (r: R)
        requires
            old(h).wf(),
            old(h).len() < usize::MAX,
        ensures
            final(h).wf(),
            r.id() == old(h).len(),
            final(h).len() == old(h).len() + 1,
            final(h).alive(r.id() as int),
            final(h).value(r.id() as int) == t,
            final(h).strong(r.id() as int) == 1,
            final(h).destructors(r.id() as int).len() == 0,
            forall|o: int| 0 <= o < old(h).len() ==> final(h).alive(o) == old(h).alive(o)
                && final(h).value(o) == old(h).value(o) && final(h).strong(o) == old(h).strong(o)
                && final(h).destructors(o) == old(h).destructors(o),
    {
        h.alloc_cell(t)
    }
}

/// The registries `regs` are all those of `h`, and registry `i` has key `i`.
pub open spec fn registries_of<T, V>(h: &Handles<T>, regs: Seq<ExpandoBase<V>>) -> bool {
    &&& forall|i: int| 0 <= i < regs.len() ==> (#[trigger] regs[i]).key() == i && linked(h, &regs[i])
    &&& forall|p: int, k: usize| 0 <= p < h.len() && #[trigger] h.destructors(p).contains(k) ==> k < regs.len()
}

/// Gives back the strong reference `r` to an owner cell. When it was the
/// last one, the cell dies and each registry that holds an association for
/// it runs its destructor, exactly once, in the order the destructors were
/// registered: the association is removed, and when the registry's own
/// `this` cell is still alive its removal hook is due, with the arguments
/// `Some((this, value))`; when `this` is dead the hook is skipped (`None`)
/// and the value is dropped.
pub fn drop_owner<T, V>(h: &mut Handles<T>, regs: &mut Vec<ExpandoBase<V>>, r: R) -> (removed: Vec<Option<(usize, V)>>)
    requires
        old(h).wf(),
        old(h).alive(r.id() as int),
        registries_of(old(h), old(regs)@),
    ensures
        final(h).wf(),
        registries_of(final(h), final(regs)@),
        final(regs)@.len() == old(regs)@.len(),
        forall|i: int| 0 <= i < old(regs)@.len() ==> (#[trigger] final(regs)@[i]).this() == old(regs)@[i].this(),
        old(h).strong(r.id() as int) > 1 ==> final(regs)@ == old(regs)@ && removed@.len() == 0
            && final(h).alive(r.id() as int)
            && final(h).strong(r.id() as int) == old(h).strong(r.id() as int) - 1,
        old(h).strong(r.id() as int) == 1 ==> {
            let keys = old(h).destructors(r.id() as int);
            &&& !final(h).alive(r.id() as int)
            &&& keys.no_duplicates()
            &&& forall|i: int| 0 <= i < old(regs)@.len() ==>
                (#[trigger] old(regs)@[i].get(r.id()) is Some <==> keys.contains(i as usize))
            &&& forall|i: int, o: usize| 0 <= i < old(regs)@.len() ==>
                #[trigger] final(regs)@[i].get(o) == if o == r.id() { None } else { old(regs)@[i].get(o) }
            &&& removed@.len() == keys.len()
            &&& forall|k: int| 0 <= k < keys.len() ==> #[trigger] removed@[k] == if final(h).alive(
                old(regs)@[keys[k] as int].this() as int,
            ) {
                Some((old(regs)@[keys[k] as int].this(), old(regs)@[keys[k] as int].get(r.id())->Some_0))
            } else {
                None
            }
        },
{
    let o = r.id;
    let ghost h0 = *h;
    let ghost regs0 = regs@;
    let keys = h.release(r);
    let ghost h1 = *h;
    proof {
        assert(h0.slots@[o as int].destructors@.no_duplicates());
    }
    let mut removed: Vec<Option<(usize, V)>> = Vec::new();
    let mut k: usize = 0;
    while k < keys.len()
        invariant
            h.wf(),
            *h == h1,
            h0.wf(),
            h0.alive(o as int),
            k <= keys@.len(),
            regs@.len() == regs0.len(),
            keys@.len() == 0 ==> regs@ == regs0,
            keys@.len() > 0 ==> h0.strong(o as int) == 1 && keys@ == h0.destructors(o as int),
            keys@.no_duplicates(),
            registries_of(&h0, regs0),
            removed@.len() == k,
            forall|i: int| 0 <= i < regs0.len() ==> (#[trigger] regs@[i]).key() == i && regs@[i].this()
                == regs0[i].this() && regs@[i].wf(),
            forall|i: int, p: usize| 0 <= i < regs0.len() ==> #[trigger] regs@[i].get(p) == if p == o
                && keys@.take(k as int).contains(i as usize) {
                None
            } else {
                regs0[i].get(p)
            },
            forall|j: int| 0 <= j < k ==> #[trigger] removed@[j] == if h1.alive(regs0[keys@[j] as int].this() as int) {
                Some((regs0[keys@[j] as int].this(), regs0[keys@[j] as int].get(o)->Some_0))
            } else {
                None
            },
        decreases keys@.len() - k,
    {
        let i = keys[k];
        proof {
            assert(keys@[k as int] == i);
            assert(h0.destructors(o as int).contains(i));
            assert(0 <= o < h0.len());
            assert(i < regs0.len());
            assert(keys@.take(k as int + 1) == keys@.take(k as int).push(i));
            assert(!keys@.take(k as int).contains(i)) by {
                if keys@.take(k as int).contains(i) {
                    let j = choose|j: int| 0 <= j < k && keys@.take(k as int)[j] == i;
                    assert(keys@[j] == keys@[k as int]);
                }
            }
            assert(link_at(&h0, &regs0[i as int], o));
        }
        proof {
            assert(regs@[i as int].get(o) == regs0[i as int].get(o));
        }
        let e = &mut regs[i];
        let v = e.destruct(o);
        match e.get_this(h) {
            Some(this) => removed.push(Some((this, v))),
            None => removed.push(None),
        }
        proof {
            assert forall|i2: int, p: usize| 0 <= i2 < regs0.len() implies #[trigger] regs@[i2].get(p) == if p == o
                && keys@.take(k + 1).contains(i2 as usize) {
                None
            } else {
                regs0[i2].get(p)
            } by {
                crate::join::lemma_push_contains(keys@.take(k as int), i, i2 as usize);
            }
        }
        k = k + 1;
    }
    proof {
        assert(keys@.take(k as int) == keys@);
        if h0.strong(o as int) == 1 {
            assert(keys@ == h0.destructors(o as int));
            assert forall|i: int| 0 <= i < regs0.len() implies
                (#[trigger] regs0[i].get(o) is Some <==> keys@.contains(i as usize)) by {
                assert(link_at(&h0, &regs0[i], o));
            }
            assert forall|i: int, p: usize| 0 <= i < regs0.len() implies
                #[trigger] regs@[i].get(p) == if p == o { None } else { regs0[i].get(p) } by {
                assert(link_at(&h0, &regs0[i], o));
            }
        }
        assert forall|i: int| 0 <= i < regs0.len() implies #[trigger] linked(h, &regs@[i]) by {
            assert forall|p: usize| #[trigger] link_at(h, &regs@[i], p) by {
                assert(link_at(&h0, &regs0[i], p));
            }
        }
    }
    removed
}

} // verus!
