//! Hierarchy records and the operations that keep the sibling lists linked.

use vstd::prelude::*;

use crate::siblings::SiblingIterator;
use crate::relinking::{
    lemma_attach, lemma_detach, lemma_first_child_starts_list, lemma_same_record_same_children,
    lemma_unparented_children, siblings_after_append, siblings_after_removal,
};
use crate::world::{next_index, prev_index, Entity, World};

verus! {

/// The hierarchy record of one entity.
#[derive(Clone, Copy, Debug, PartialEq, Eq)]
pub struct Hierarchy {
    pub parent: Option<Entity>,
    pub first_child: Option<Entity>,
    /// The (previous, next) siblings in the parent's circular child list.
    pub siblings: Option<(Entity, Entity)>,
}

impl Hierarchy {
    /// Parents (or re-parents) `entity` to `parent_entity`: it leaves its
    /// former parent and becomes the last child of the new one.
    #[verifier::rlimit(40)]
    pub fn set_parent_entity(world: &mut World, entity: Entity, parent_entity: Entity)
        requires
            old(world).wf(),
            old(world).valid(entity),
            old(world).valid(parent_entity),
        ensures
            final(world).wf(),
            World::parented(*old(world), *final(world), entity, parent_entity),
    {
        Hierarchy::ensure_hierarchy_present(world, parent_entity);
        Hierarchy::ensure_hierarchy_present(world, entity);
        let ghost w_present = *world;
        Hierarchy::un_parent_entity(world, entity);
        let ghost w0 = *world;
        let ghost s = w0.children_of(parent_entity);
        proof {
            assert(w0.has(entity) && w0.has(parent_entity));
            assert(w0.list_linked(parent_entity, s));
            assert(w0.siblings_of(entity) is None);
            assert forall|t: int| 0 <= t < s.len() implies s[t] != entity by {
                assert(w0.parent_of(s[t]) == Some(parent_entity));
            }
            if s.len() >= 2 {
                assert(w0.has(s[0]) && w0.has(s[s.len() - 1]));
                assert(w0.siblings_of(s[0]) == Some((s[s.len() - 1], s[1])));
                assert(w0.siblings_of(s[s.len() - 1]) is Some);
            }
            if s.len() == 1 {
                assert(w0.has(s[0]));
            }
        }
        let h = world.fetch(entity);
        world.put(
            entity,
            Hierarchy {
                parent: Some(parent_entity),
                first_child: h.first_child,
                siblings: h.siblings,
            },
        );
        let ghost w_a = *world;
        proof {
            assert forall|x: Entity| w0.has(x) implies #[trigger] w_a.siblings_of(x) == w0.siblings_of(x)
                && w_a.has(x) && w_a.parent_of(x) == (if x == entity {
                Some(parent_entity)
            } else {
                w0.parent_of(x)
            }) && w_a.record(x).unwrap().first_child == w0.record(x).unwrap().first_child by {}
        }
        let ph = world.fetch(parent_entity);
        match ph.first_child {
            Some(first_child) => {
                let fh = world.fetch(first_child);
                match fh.siblings {
                    Some((old_previous, old_next)) => {
                        // Insert `entity` between the first child and its predecessor.
                        world.put(
                            first_child,
                            Hierarchy {
                                parent: fh.parent,
                                first_child: fh.first_child,
                                siblings: Some((entity, old_next)),
                            },
                        );
                        let bh = world.fetch(old_previous);
                        let (before, _) = bh.siblings.unwrap();
                        world.put(
                            old_previous,
                            Hierarchy {
                                parent: bh.parent,
                                first_child: bh.first_child,
                                siblings: Some((before, entity)),
                            },
                        );
                        let eh = world.fetch(entity);
                        world.put(
                            entity,
                            Hierarchy {
                                parent: eh.parent,
                                first_child: eh.first_child,
                                siblings: Some((old_previous, first_child)),
                            },
                        );
                        proof {
                            let w1 = *world;
                            assert forall|x: Entity| w0.has(x) implies #[trigger] w1.siblings_of(x)
                                == siblings_after_append(w0, s, entity, x) && w1.parent_of(x) == w_a.parent_of(x)
                                && w1.record(x).unwrap().first_child == w_a.record(x).unwrap().first_child by {
                                assert(w_a.has(x));
                            }
                        }
                    },
                    None => {
                        // The second child: the two point at each other both ways.
                        world.put(
                            first_child,
                            Hierarchy {
                                parent: fh.parent,
                                first_child: fh.first_child,
                                siblings: Some((entity, entity)),
                            },
                        );
                        let eh = world.fetch(entity);
                        world.put(
                            entity,
                            Hierarchy {
                                parent: eh.parent,
                                first_child: eh.first_child,
                                siblings: Some((first_child, first_child)),
                            },
                        );
                        proof {
                            let w1 = *world;
                            assert forall|x: Entity| w0.has(x) implies #[trigger] w1.siblings_of(x)
                                == siblings_after_append(w0, s, entity, x) && w1.parent_of(x) == w_a.parent_of(x)
                                && w1.record(x).unwrap().first_child == w_a.record(x).unwrap().first_child by {
                                assert(w_a.has(x));
                            }
                        }
                    },
                }
            },
            None => {
                world.put(
                    parent_entity,
                    Hierarchy {
                        parent: ph.parent,
                        first_child: Some(entity),
                        siblings: ph.siblings,
                    },
                );
                proof {
                    let w1 = *world;
                    assert forall|x: Entity| w0.has(x) implies #[trigger] w1.siblings_of(x)
                        == siblings_after_append(w0, s, entity, x) && w1.parent_of(x) == w_a.parent_of(x)
                        && (x != parent_entity ==> w1.record(x).unwrap().first_child == w_a.record(x).unwrap().first_child) by {
                        assert(w_a.has(x));
                    }
                }
            },
        }
        world.kids = Ghost(w0.kids@.update(parent_entity.index as int, s.push(entity)));
        proof {
            let w1 = *world;
            assert forall|x: Entity| #[trigger] w1.has(x) == w0.has(x) by {}
            lemma_attach(w0, w1, entity, parent_entity);
            lemma_unparented_children(w_present, w0, entity);
            let w_start = *old(world);
            assert forall|q: Entity| #[trigger] w_present.children_without(entity, q)
                == w_start.children_without(entity, q) by {}
            assert forall|q: Entity| q != parent_entity implies #[trigger] w1.children_of(q)
                == w_start.children_without(entity, q) by {
                if q.index == parent_entity.index {
                    assert(q == parent_entity);
                }
                assert(w1.children_of(q) == w0.children_of(q));
            }
            assert(w1.children_of(parent_entity) == w0.children_of(parent_entity).push(entity));
            assert forall|x: Entity| x != entity implies #[trigger] w1.parent_of(x) == w_start.parent_of(x) by {
                if w0.has(x) {
                } else {
                    assert(!w1.has(x));
                }
            }
        }
    }

    /// Gives `entity` an empty record unless it holds one.
    fn ensure_hierarchy_present(world: &mut World, entity: Entity)
        requires
            old(world).wf(),
            old(world).valid(entity),
        ensures
            final(world).wf(),
            final(world).size() == old(world).size(),
            forall|x: Entity| #[trigger] final(world).has(x) == (old(world).has(x) || x == entity),
            forall|x: Entity| #[trigger] final(world).parent_of(x) == old(world).parent_of(x),
            forall|x: Entity| #[trigger] final(world).children_of(x) == old(world).children_of(x),
    {
        if world.get(entity).is_none() {
            world.put(
                entity,
                Hierarchy {
                    parent: None,
                    first_child: None,
                    siblings: None,
                },
            );
            proof {
                let w0 = *old(world);
                let w1 = *world;
                assert forall|x: Entity| w0.has(x) implies #[trigger] w1.record(x) == w0.record(x) by {}
                assert forall|q: Entity| #[trigger] w1.has(q) implies w1.list_linked(q, w1.children_of(q)) by {
                    if q == entity {
                        assert(w0.children_of(entity).len() == 0);
                    } else {
                        assert(w0.list_linked(q, w0.children_of(q)));
                        let c = w0.children_of(q);
                        assert forall|j: int| 0 <= j < c.len() implies #[trigger] w1.record(c[j]) == w0.record(c[j]) by {
                            assert(w0.has(c[j]));
                        }
                    }
                }
                assert forall|x: Entity| #[trigger] w1.has(x) implies match w1.parent_of(x) {
                    Some(q) => w1.has(q) && w1.children_of(q).contains(x),
                    None => w1.siblings_of(x) is None,
                } by {
                    if x != entity {
                        assert(w0.has(x));
                    }
                }
                assert forall|x: Entity| w1.valid(x) && !w1.has(x) implies (#[trigger] w1.children_of(
                    x,
                )).len() == 0 by {
                    assert(w0.valid(x) && !w0.has(x));
                    assert(w0.children_of(x).len() == 0);
                    assert(w1.children_of(x) == w0.children_of(x));
                }
                assert(w1.kids@.len() == w1.slots@.len());
            }
        }
    }
    /// Detaches `entity` from its parent; nothing happens when it holds no
    /// record or has no parent.
    #[verifier::rlimit(40)]
    pub fn un_parent_entity(world: &mut World, entity: Entity)
        requires
            old(world).wf(),
        ensures
            final(world).wf(),
            World::unparented(*old(world), *final(world), entity),
    {
        let node = match world.get(entity) {
            Some(h) => h,
            None => return ,
        };
        let parent = match node.parent {
            Some(p) => p,
            None => return ,
        };
        let siblings = node.siblings;
        let ghost w0 = *world;
        let ghost s = w0.children_of(parent);
        let ghost i = s.index_of(entity);
        proof {
            assert(w0.has(entity));
            assert(w0.has(parent) && s.contains(entity));
            assert(w0.list_linked(parent, s));
            let n = s.len() as int;
            assert(0 <= i < n && s[i] == entity);
            if n >= 2 {
                assert(w0.siblings_of(s[i]) == Some((s[prev_index(i, n)], s[next_index(i, n)])));
                assert(w0.has(s[prev_index(i, n)]) && w0.has(s[next_index(i, n)]));
                assert(w0.siblings_of(s[prev_index(i, n)]) is Some);
                assert(w0.siblings_of(s[next_index(i, n)]) is Some);
                assert(s[prev_index(i, n)] != entity);
                assert(s[next_index(i, n)] != entity);
            }
            if n >= 3 {
                assert(s[prev_index(i, n)] != s[next_index(i, n)]);
            }
            if n == 2 {
                assert(prev_index(i, n) == next_index(i, n));
            }
            assert(s[0] == entity <==> i == 0);
        }
        world.put(
            entity,
            Hierarchy {
                parent: None,
                first_child: node.first_child,
                siblings: None,
            },
        );
        let ph = world.fetch(parent);
        let shift = match ph.first_child {
            Some(f) => f == entity,
            None => false,
        };
        if shift {
            let next_first = match siblings {
                Some((_, next)) => Some(next),
                None => None,
            };
            world.put(
                parent,
                Hierarchy {
                    parent: ph.parent,
                    first_child: next_first,
                    siblings: ph.siblings,
                },
            );
        }
        let ghost w_mid = *world;
        proof {
            assert forall|x: Entity| w0.has(x) implies #[trigger] w_mid.siblings_of(x) == (if x == entity {
                None
            } else {
                w0.siblings_of(x)
            }) && w_mid.has(x) && w_mid.parent_of(x) == (if x == entity {
                None
            } else {
                w0.parent_of(x)
            }) by {}
        }
        match siblings {
            None => {},
            Some((previous, next)) => {
                if previous == next {
                    let h = world.fetch(next);
                    world.put(
                        next,
                        Hierarchy {
                            parent: h.parent,
                            first_child: h.first_child,
                            siblings: None,
                        },
                    );
                    proof {
                        let w1 = *world;
                        assert forall|x: Entity| w0.has(x) implies #[trigger] w1.siblings_of(x)
                            == siblings_after_removal(w0, s, i, x) && w1.parent_of(x) == w_mid.parent_of(x) by {
                            assert(w_mid.has(x));
                        }
                    }
                } else {
                    let h = world.fetch(previous);
                    let (before, _) = h.siblings.unwrap();
                    world.put(
                        previous,
                        Hierarchy {
                            parent: h.parent,
                            first_child: h.first_child,
                            siblings: Some((before, next)),
                        },
                    );
                    let h = world.fetch(next);
                    let (_, after) = h.siblings.unwrap();
                    world.put(
                        next,
                        Hierarchy {
                            parent: h.parent,
                            first_child: h.first_child,
                            siblings: Some((previous, after)),
                        },
                    );
                    proof {
                        let w1 = *world;
                        assert forall|x: Entity| w0.has(x) implies #[trigger] w1.siblings_of(x)
                            == siblings_after_removal(w0, s, i, x) && w1.parent_of(x) == w_mid.parent_of(x) by {
                            assert(w_mid.has(x));
                        }
                    }
                }
            },
        }
        world.kids = Ghost(w0.kids@.update(parent.index as int, s.remove(i)));
        proof {
            let w1 = *world;
            assert forall|x: Entity| #[trigger] w1.has(x) == w0.has(x) by {}
            lemma_detach(w0, *world, parent, i);
        }
    }

    pub fn has_parent(&self) -> (r: bool)
        ensures
            r == self.parent is Some,
    {
        self.parent.is_some()
    }

    pub fn has_siblings(&self) -> (r: bool)
        ensures
            r == self.siblings is Some,
    {
        self.siblings.is_some()
    }

    pub fn has_children(&self) -> (r: bool)
        ensures
            r == self.first_child is Some,
    {
        self.first_child.is_some()
    }

    pub fn parent(&self) -> (r: Option<Entity>)
        ensures
            r == self.parent,
    {
        self.parent
    }

    /// The children of the entity whose record this is, in traversal order.
    pub fn children(&self, world: &World) -> (r: Vec<Entity>)
        requires
            world.wf(),
            world.holds(*self),
        ensures
            forall|q: Entity| world.record(q) == Some(*self) ==> r@ == #[trigger] world.children_of(q),
    {
        let ghost q0 = choose|q: Entity| world.record(q) == Some(*self);
        proof {
            lemma_first_child_starts_list(*world, q0);
        }
        let mut it = SiblingIterator::new(world, self.first_child);
        let mut v: Vec<Entity> = Vec::new();
        loop
            invariant
                it.inv(),
                v@ + it.remaining() == world.children_of(q0),
            ensures
                v@ == world.children_of(q0),
            decreases it.remaining().len(),
        {
            let ghost before = it.remaining();
            let ghost v0 = v@;
            match it.next() {
                Some(e) => {
                    v.push(e);
                    assert(v@ + it.remaining() =~= v0 + before);
                },
                None => {
                    assert(v@ =~= v0 + before);
                    break ;
                },
            }
        }
        proof {
            assert forall|q: Entity| world.record(q) == Some(*self) implies v@ == #[trigger] world.children_of(q) by {
                lemma_same_record_same_children(*world, *self, q, q0);
            }
        }
        v
    }
}

} // verus!
