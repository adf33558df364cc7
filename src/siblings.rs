//! Traversal of a circular sibling list.

use vstd::prelude::*;

use crate::world::{next_index, Entity, World};

verus! {

/// A forward walk over a circular sibling list, from a first child until
/// the walk would come back to it.
pub struct SiblingIterator<'a> {
    world: &'a World,
    first_entity: Option<Entity>,
    cursor: Option<Entity>,
    /// The list being walked, and how much of it was yielded.
    order: Ghost<Seq<Entity>>,
    pos: Ghost<nat>,
}

impl<'a> SiblingIterator<'a> {
    /// What the walk has yet to yield.
    pub closed spec fn remaining(&self) -> Seq<Entity> {
        self.order@.skip(self.pos@ as int)
    }

    /// The walk stands within a circular list of a well-formed world.
    pub closed spec fn inv(&self) -> bool {
        &&& self.world.wf()
        &&& self.pos@ <= self.order@.len()
        &&& self.cursor == (if self.pos@ < self.order@.len() {
            Some(self.order@[self.pos@ as int])
        } else {
            None
        })
        &&& match self.first_entity {
            None => self.order@.len() == 0,
            Some(f) => {
                &&& self.world.circular(self.order@)
                &&& self.order@.len() >= 1
                &&& self.order@[0] == f
            },
        }
    }

    /// A walk that starts at `first_entity`; it yields nothing when that is
    /// absent.
    pub fn new(world: &'a World, first_entity: Option<Entity>) -> (r: Self)
        requires
            world.wf(),
            first_entity matches Some(f) ==> world.starts_list(f),
        ensures
            r.inv(),
            r.remaining() == (match first_entity {
                Some(f) => world.list_from(f),
                None => Seq::empty(),
            }),
    {
        let ghost order = match first_entity {
            Some(f) => world.list_from(f),
            None => Seq::empty(),
        };
        proof {
            if let Some(f) = first_entity {
                if let Some(p) = world.parent_of(f) {
                    assert(world.list_linked(p, world.children_of(p)));
                } else {
                    assert(order[0] == f);
                    assert(order.no_duplicates());
                }
            }
        }
        let r = SiblingIterator { world, first_entity, cursor: first_entity, order: Ghost(order), pos: Ghost(0) };
        assert(r.remaining() == order);
        r
    }

    /// Yields the next entity of the walk, if any is left.
    pub fn next(&mut self) -> (r: Option<Entity>)
        requires
            old(self).inv(),
        ensures
            final(self).inv(),
            old(self).remaining().len() == 0 ==> r is None && final(self).remaining() == old(self).remaining(),
            old(self).remaining().len() > 0 ==> r == Some(old(self).remaining()[0])
                && final(self).remaining() == old(self).remaining().drop_first(),
    {
        let first_entity = match self.first_entity {
            Some(f) => f,
            None => return None,
        };
        let cursor = match self.cursor {
            Some(c) => c,
            None => return None,
        };
        let ghost s = self.order@;
        let ghost n = s.len() as int;
        let ghost k = self.pos@ as int;
        proof {
            assert(self.world.has(s[k]));
        }
        let h = self.world.fetch(cursor);
        match h.siblings {
            Some((_, next_sibling)) => {
                proof {
                    assert(n >= 2);
                    assert(next_sibling == s[next_index(k, n)]);
                    assert(next_sibling == first_entity <==> k + 1 == n);
                }
                if next_sibling == first_entity {
                    self.cursor = None;
                } else {
                    self.cursor = Some(next_sibling);
                }
            },
            None => {
                proof {
                    assert(n == 1);
                }
                self.cursor = None;
            },
        }
        self.pos = Ghost(self.pos@ + 1);
        assert(self.remaining() =~= old(self).remaining().drop_first());
        Some(cursor)
    }
}

} // verus!
