//! The entity store that holds one optional `Hierarchy` record per entity.

use vstd::prelude::*;

use crate::hierarchy::Hierarchy;

verus! {

/// An opaque, comparable identifier of an entity of a `World`.
#[derive(Clone, Copy, Debug, PartialEq, Eq, Hash, Structural)]
pub struct Entity {
    pub index: usize,
}

/// A store of entities; each entity holds at most one `Hierarchy` record.
pub struct World {
    pub(crate) slots: Vec<Option<Hierarchy>>,
    /// For each entity, its children in traversal order.
    pub(crate) kids: Ghost<Seq<Seq<Entity>>>,
}

impl World {
    /// The number of entities that were spawned.
    pub open(crate) spec fn size(&self) -> nat {
        self.slots@.len()
    }

    /// `e` was spawned in this world.
    pub open(crate) spec fn valid(&self, e: Entity) -> bool {
        e.index < self.slots@.len()
    }

    /// The hierarchy record of `e`, if it has one.
    pub open(crate) spec fn record(&self, e: Entity) -> Option<Hierarchy> {
        if self.valid(e) {
            self.slots@[e.index as int]
        } else {
            None
        }
    }

    /// `e` holds a hierarchy record.
    pub open(crate) spec fn has(&self, e: Entity) -> bool {
        self.record(e) is Some
    }

    /// The parent of `e`, if `e` holds a record and is attached.
    pub open(crate) spec fn parent_of(&self, e: Entity) -> Option<Entity> {
        match self.record(e) {
            Some(h) => h.parent,
            None => None,
        }
    }

    /// The children of `e` in traversal order, starting at its first child.
    pub open(crate) spec fn children_of(&self, e: Entity) -> Seq<Entity> {
        if self.valid(e) {
            self.kids@[e.index as int]
        } else {
            Seq::empty()
        }
    }

    /// The sibling links held by the record of `e`.
    pub open(crate) spec fn siblings_of(&self, e: Entity) -> Option<(Entity, Entity)> {
        self.record(e).unwrap().siblings
    }

    /// `s`, the children of `p`, is wired up in the records: every member
    /// names `p` as its parent, `p` names the head of `s` as its first child,
    /// and the members are joined into one circular list in the order of `s`.
    pub open(crate) spec fn list_linked(&self, p: Entity, s: Seq<Entity>) -> bool {
        &&& s.no_duplicates()
        &&& forall|j: int| 0 <= j < s.len() ==> self.has(#[trigger] s[j]) && self.parent_of(s[j]) == Some(p)
        &&& self.record(p).unwrap().first_child == (if s.len() == 0 { None } else { Some(s[0]) })
        &&& s.len() == 1 ==> self.siblings_of(s[0]) is None
        &&& s.len() >= 2 ==> forall|j: int|
            0 <= j < s.len() ==> #[trigger] self.siblings_of(s[j]) == Some(
                (s[prev_index(j, s.len() as int)], s[next_index(j, s.len() as int)]),
            )
    }

    /// `s` is joined into one circular sibling list in its own order; a list
    /// of one entity carries no sibling links.
    pub open(crate) spec fn circular(&self, s: Seq<Entity>) -> bool {
        &&& s.no_duplicates()
        &&& forall|j: int| 0 <= j < s.len() ==> self.has(#[trigger] s[j])
        &&& s.len() == 1 ==> self.siblings_of(s[0]) is None
        &&& s.len() >= 2 ==> forall|j: int|
            0 <= j < s.len() ==> #[trigger] self.siblings_of(s[j]) == Some(
                (s[prev_index(j, s.len() as int)], s[next_index(j, s.len() as int)]),
            )
    }

    /// `f` holds a record and is the first child of its parent, if any.
    pub open(crate) spec fn starts_list(&self, f: Entity) -> bool {
        &&& self.has(f)
        &&& match self.parent_of(f) {
            Some(p) => self.children_of(p).len() > 0 && self.children_of(p)[0] == f,
            None => true,
        }
    }

    /// The list that a traversal from `f` walks: the children of its
    /// parent, or `f` alone when it has none.
    pub open(crate) spec fn list_from(&self, f: Entity) -> Seq<Entity> {
        match self.parent_of(f) {
            Some(p) => self.children_of(p),
            None => seq![f],
        }
    }

    /// `h` is the record of some entity of this world.
    pub open(crate) spec fn holds(&self, h: Hierarchy) -> bool {
        exists|q: Entity| self.record(q) == Some(h)
    }

    /// The structural invariant of the hierarchy.
    pub open(crate) spec fn wf(&self) -> bool {
        &&& self.kids@.len() == self.slots@.len()
        &&& forall|e: Entity|
            self.valid(e) && !self.has(e) ==> (#[trigger] self.children_of(e)).len() == 0
        &&& forall|p: Entity| #[trigger] self.has(p) ==> self.list_linked(p, self.children_of(p))
        &&& forall|e: Entity| #[trigger] self.has(e) ==> match self.parent_of(e) {
            Some(p) => self.has(p) && self.children_of(p).contains(e),
            None => self.siblings_of(e) is None,
        }
    }

    /// `w2` is `w1` with `e` detached from its parent, if it had one; the
    /// remaining children of that parent keep their order.
    pub open(crate) spec fn unparented(w1: World, w2: World, e: Entity) -> bool {
        &&& w2.size() == w1.size()
        &&& forall|x: Entity| #[trigger] w2.has(x) == w1.has(x)
        &&& forall|x: Entity| x != e ==> #[trigger] w2.parent_of(x) == w1.parent_of(x)
        &&& w2.parent_of(e) is None
        &&& match w1.parent_of(e) {
            None => w2 == w1,
            Some(p) => {
                &&& forall|q: Entity| q != p ==> #[trigger] w2.children_of(q) == w1.children_of(q)
                &&& w2.children_of(p) == w1.children_of(p).remove(w1.children_of(p).index_of(e))
            },
        }
    }

    /// The children of `q` once `e` has left them: `e` is taken out of the
    /// list when `q` is its parent, and the list is kept as it is otherwise.
    pub open(crate) spec fn children_without(&self, e: Entity, q: Entity) -> Seq<Entity> {
        let c = self.children_of(q);
        if self.parent_of(e) == Some(q) {
            c.remove(c.index_of(e))
        } else {
            c
        }
    }

    /// `w2` is `w1` with `e` made the last child of `p`, after it left its
    /// former parent; both `e` and `p` hold a record in `w2`.
    pub open(crate) spec fn parented(w1: World, w2: World, e: Entity, p: Entity) -> bool {
        &&& w2.size() == w1.size()
        &&& forall|x: Entity| #[trigger] w2.has(x) == (w1.has(x) || x == e || x == p)
        &&& forall|x: Entity| x != e ==> #[trigger] w2.parent_of(x) == w1.parent_of(x)
        &&& w2.parent_of(e) == Some(p)
        &&& forall|q: Entity| q != p ==> #[trigger] w2.children_of(q) == w1.children_without(e, q)
        &&& w2.children_of(p) == w1.children_without(e, p).push(e)
    }

    /// An empty world.
    pub fn new() -> (w: World)
        ensures
            w.wf(),
            w.size() == 0,
    {
        World { slots: Vec::new(), kids: Ghost(Seq::empty()) }
    }

    /// Adds an entity that holds no hierarchy record yet.
    pub fn spawn(&mut self) -> (e: Entity)
        requires
            old(self).wf(),
            old(self).size() < usize::MAX,
        ensures
            final(self).wf(),
            e.index == old(self).size(),
            final(self).size() == old(self).size() + 1,
            !final(self).has(e),
            forall|x: Entity| old(self).valid(x) ==> #[trigger] final(self).record(x) == old(self).record(x),
            forall|x: Entity| #[trigger] final(self).children_of(x) == old(self).children_of(x),
    {
        let e = Entity { index: self.slots.len() };
        self.slots.push(None);
        self.kids = Ghost(self.kids@.push(Seq::empty()));
        proof {
            let w0 = *old(self);
            assert forall|x: Entity| #[trigger] self.has(x) implies w0.has(x) && self.record(x) == w0.record(x) by {}
            assert forall|x: Entity| #[trigger] self.children_of(x) == w0.children_of(x) by {
                if x.index == e.index {
                    assert(x == e);
                }
            }
            assert forall|x: Entity| #[trigger] self.has(x) implies self.list_linked(x, self.children_of(x)) by {
                assert(w0.list_linked(x, w0.children_of(x)));
                let s = self.children_of(x);
                assert forall|j: int| 0 <= j < s.len() implies self.siblings_of(s[j]) == w0.siblings_of(s[j]) by {
                    assert(w0.has(s[j]));
                }
            }
            assert forall|x: Entity| #[trigger] self.has(x) implies match self.parent_of(x) {
                Some(p) => self.has(p) && self.children_of(p).contains(x),
                None => self.siblings_of(x) is None,
            } by {
                assert(w0.has(x));
                if let Some(p) = w0.parent_of(x) {
                    assert(w0.has(p));
                }
            }
        }
        e
    }

    /// The hierarchy record of `e`, if it has one.
    pub fn get(&self, e: Entity) -> (r: Option<Hierarchy>)
        ensures
            r == self.record(e),
    {
        if e.index < self.slots.len() {
            self.slots[e.index]
        } else {
            None
        }
    }

    /// The hierarchy record of `e`, which has one.
    pub(crate) fn fetch(&self, e: Entity) -> (h: Hierarchy)
        requires
            self.has(e),
        ensures
            self.record(e) == Some(h),
    {
        self.slots[e.index].unwrap()
    }

    /// Stores `h` as the record of `e`.
    pub(crate) fn put(&mut self, e: Entity, h: Hierarchy)
        requires
            old(self).valid(e),
        ensures
            final(self).slots@ == old(self).slots@.update(e.index as int, Some(h)),
            final(self).kids == old(self).kids,
    {
        self.slots.set(e.index, Some(h));
    }
}

/// The index before `j` in a circular list of length `n`.
pub open spec fn prev_index(j: int, n: int) -> int {
    if j == 0 {
        n - 1
    } else {
        j - 1
    }
}

/// The index after `j` in a circular list of length `n`.
pub open spec fn next_index(j: int, n: int) -> int {
    if j + 1 == n {
        0
    } else {
        j + 1
    }
}

} // verus!
