//! Proofs that the link surgery of `set_parent_entity` and `un_parent_entity`
//! keeps a world well formed.

use vstd::prelude::*;

use crate::hierarchy::Hierarchy;
use crate::world::{next_index, prev_index, Entity, World};

verus! {

/// The index that `t`, an index of `s` other than `i`, has in `s.remove(i)`.
pub(crate) open spec fn shrink(t: int, i: int) -> int {
    if t < i {
        t
    } else {
        t - 1
    }
}

/// The sibling links of `x` after `s[i]` left the list `s`.
pub(crate) open spec fn siblings_after_removal(w: World, s: Seq<Entity>, i: int, x: Entity) -> Option<
    (Entity, Entity),
> {
    let n = s.len() as int;
    if x == s[i] {
        None
    } else if n == 2 && x == s[next_index(i, n)] {
        None
    } else if n >= 3 && x == s[prev_index(i, n)] {
        Some((w.siblings_of(x).unwrap().0, s[next_index(i, n)]))
    } else if n >= 3 && x == s[next_index(i, n)] {
        Some((s[prev_index(i, n)], w.siblings_of(x).unwrap().1))
    } else {
        w.siblings_of(x)
    }
}

/// The list that `s[i]` left stays wired up in `w1`.
pub(crate) proof fn lemma_detach_list(w0: World, w1: World, p: Entity, i: int)
    requires
        w0.wf(),
        w0.has(p),
        0 <= i < w0.children_of(p).len(),
        w1.slots@.len() == w0.slots@.len(),
        w1.kids@ == w0.kids@.update(p.index as int, w0.children_of(p).remove(i)),
        forall|x: Entity| #[trigger] w1.has(x) == w0.has(x),
        forall|x: Entity|
            w0.has(x) ==> #[trigger] w1.parent_of(x) == (if x == w0.children_of(p)[i] {
                None
            } else {
                w0.parent_of(x)
            }),
        forall|x: Entity|
            w0.has(x) && x != p ==> #[trigger] w1.record(x).unwrap().first_child == w0.record(
                x,
            ).unwrap().first_child,
        w1.record(p).unwrap().first_child == (if w0.children_of(p).len() == 1 {
            None
        } else {
            Some(w0.children_of(p).remove(i)[0])
        }),
        forall|x: Entity|
            w0.has(x) ==> #[trigger] w1.siblings_of(x) == siblings_after_removal(
                w0,
                w0.children_of(p),
                i,
                x,
            ),
    ensures
        w1.list_linked(p, w0.children_of(p).remove(i)),
{
    let s = w0.children_of(p);
    let n = s.len() as int;
    let e = s[i];
    let s2 = s.remove(i);
    assert(w0.list_linked(p, s));
    assert(s2.no_duplicates()) by {
        assert forall|a: int, b: int| 0 <= a < b < s2.len() implies s2[a] != s2[b] by {
            let ka = if a < i { a } else { a + 1 };
            let kb = if b < i { b } else { b + 1 };
            assert(s2[a] == s[ka] && s2[b] == s[kb]);
        }
    }
    assert forall|j: int| 0 <= j < s2.len() implies w1.has(#[trigger] s2[j]) && w1.parent_of(
        s2[j],
    ) == Some(p) by {
        let k = if j < i { j } else { j + 1 };
        assert(s2[j] == s[k]);
        assert(w0.has(s[k]));
    }
    if s2.len() == 1 {
        let k: int = if i == 0 { 1 } else { 0 };
        assert(s2[0] == s[k]);
        assert(w0.has(s[k]));
    }
    if s2.len() >= 2 {
        let m = n - 1;
        assert forall|j: int| 0 <= j < s2.len() implies #[trigger] w1.siblings_of(s2[j])
            == Some((s2[prev_index(j, m)], s2[next_index(j, m)])) by {
            let k = if j < i { j } else { j + 1 };
            assert(s2[j] == s[k]);
            assert(w0.has(s[k]));
            assert(w0.siblings_of(s[k]) == Some((s[prev_index(k, n)], s[next_index(k, n)])));
            assert(s[k] != e);
            let pi = prev_index(i, n);
            let ni = next_index(i, n);
            assert(s[pi] != s[ni]);
            if k == pi {
                assert(s2[next_index(j, m)] == s[ni]);
                assert(s2[prev_index(j, m)] == s[prev_index(k, n)]);
            } else if k == ni {
                assert(s2[prev_index(j, m)] == s[pi]);
                assert(s2[next_index(j, m)] == s[next_index(k, n)]);
            } else {
                assert(s[k] != s[pi] && s[k] != s[ni]);
                assert(s2[prev_index(j, m)] == s[prev_index(k, n)]);
                assert(s2[next_index(j, m)] == s[next_index(k, n)]);
            }
        }
    }
}

/// Field by field, `w1` is `w0` after `s[i]` was detached from `p`, whose
/// children are `s`; then `w1` is well formed.
pub(crate) proof fn lemma_detach(w0: World, w1: World, p: Entity, i: int)
    requires
        w0.wf(),
        w0.has(p),
        0 <= i < w0.children_of(p).len(),
        w1.slots@.len() == w0.slots@.len(),
        w1.kids@ == w0.kids@.update(p.index as int, w0.children_of(p).remove(i)),
        forall|x: Entity| #[trigger] w1.has(x) == w0.has(x),
        forall|x: Entity|
            w0.has(x) ==> #[trigger] w1.parent_of(x) == (if x == w0.children_of(p)[i] {
                None
            } else {
                w0.parent_of(x)
            }),
        forall|x: Entity|
            w0.has(x) && x != p ==> #[trigger] w1.record(x).unwrap().first_child == w0.record(
                x,
            ).unwrap().first_child,
        w1.record(p).unwrap().first_child == (if w0.children_of(p).len() == 1 {
            None
        } else {
            Some(w0.children_of(p).remove(i)[0])
        }),
        forall|x: Entity|
            w0.has(x) ==> #[trigger] w1.siblings_of(x) == siblings_after_removal(
                w0,
                w0.children_of(p),
                i,
                x,
            ),
    ensures
        w1.wf(),
{
    let s = w0.children_of(p);
    let n = s.len() as int;
    let e = s[i];
    let s2 = s.remove(i);
    assert(w0.list_linked(p, s));
    assert(w1.children_of(p) == s2);
    assert forall|t: int| 0 <= t < n && t != i implies s2[shrink(t, i)] == s[t] by {}
    assert forall|q: Entity| q != p implies #[trigger] w1.children_of(q) == w0.children_of(q) by {
        if q.index == p.index {
            assert(q == p);
        }
    }
    assert forall|q: Entity| #[trigger] w1.has(q) implies w1.list_linked(q, w1.children_of(q)) by {
        assert(w0.list_linked(q, w0.children_of(q)));
        if q == p {
            lemma_detach_list(w0, w1, p, i);
        } else {
            let c = w0.children_of(q);
            assert forall|j: int| 0 <= j < c.len() implies w1.has(#[trigger] c[j]) && w1.parent_of(
                c[j],
            ) == Some(q) && w1.siblings_of(c[j]) == w0.siblings_of(c[j]) by {
                assert(w0.has(c[j]));
                assert(w0.parent_of(c[j]) == Some(q));
                assert forall|t: int| 0 <= t < n implies s[t] != c[j] by {
                    assert(w0.parent_of(s[t]) == Some(p));
                }
            }
            if c.len() == 1 {
                assert(w1.siblings_of(c[0]) == w0.siblings_of(c[0]));
            }
        }
    }
    assert forall|x: Entity| #[trigger] w1.has(x) implies match w1.parent_of(x) {
        Some(q) => w1.has(q) && w1.children_of(q).contains(x),
        None => w1.siblings_of(x) is None,
    } by {
        assert(w0.has(x));
        if x != e {
            match w0.parent_of(x) {
                Some(q) => {
                    let t = choose|t: int| 0 <= t < w0.children_of(q).len() && w0.children_of(q)[t] == x;
                    if q == p {
                        assert(t != i);
                        assert(s2[shrink(t, i)] == x);
                    }
                },
                None => {
                    assert forall|t: int| 0 <= t < n implies s[t] != x by {
                        assert(w0.parent_of(s[t]) == Some(p));
                    }
                },
            }
        }
    }
    assert forall|x: Entity| w1.valid(x) && !w1.has(x) implies (#[trigger] w1.children_of(
        x,
    )).len() == 0 by {
        assert(x != p);
    }
}

/// The first child of `q` starts the list of its children.
pub(crate) proof fn lemma_first_child_starts_list(world: World, q: Entity)
    requires
        world.wf(),
        world.has(q),
    ensures
        match world.record(q).unwrap().first_child {
            Some(f) => world.starts_list(f) && world.list_from(f) == world.children_of(q),
            None => world.children_of(q) == Seq::<Entity>::empty(),
        },
{
    assert(world.list_linked(q, world.children_of(q)));
    let c = world.children_of(q);
    if let Some(f) = world.record(q).unwrap().first_child {
        assert(world.has(c[0]) && world.parent_of(c[0]) == Some(q));
    } else {
        assert(c =~= Seq::<Entity>::empty());
    }
}

/// Two entities that hold the same record have the same children.
pub(crate) proof fn lemma_same_record_same_children(world: World, h: Hierarchy, q: Entity, q0: Entity)
    requires
        world.wf(),
        world.record(q) == Some(h),
        world.record(q0) == Some(h),
    ensures
        world.children_of(q) == world.children_of(q0),
{
    assert(world.has(q) && world.has(q0));
    assert(world.list_linked(q, world.children_of(q)));
    assert(world.list_linked(q0, world.children_of(q0)));
    let c = world.children_of(q);
    let c0 = world.children_of(q0);
    if let Some(f) = h.first_child {
        assert(c.len() > 0 && c[0] == f);
        assert(world.has(c[0]) && world.parent_of(c[0]) == Some(q));
        assert(c0.len() > 0 && c0[0] == f);
        assert(world.has(c0[0]) && world.parent_of(c0[0]) == Some(q0));
    } else {
        assert(c =~= c0);
    }
}

/// After `e` is detached, each list of children is the former one without `e`.
pub(crate) proof fn lemma_unparented_children(w1: World, w2: World, e: Entity)
    requires
        World::unparented(w1, w2, e),
    ensures
        forall|q: Entity| #[trigger] w2.children_of(q) == w1.children_without(e, q),
{
}

/// The sibling links of `x` after `e` joined the end of the list `s`.
pub(crate) open spec fn siblings_after_append(w: World, s: Seq<Entity>, e: Entity, x: Entity) -> Option<
    (Entity, Entity),
> {
    let n = s.len() as int;
    if n == 1 && x == e {
        Some((s[0], s[0]))
    } else if n == 1 && x == s[0] {
        Some((e, e))
    } else if n >= 2 && x == e {
        Some((s[n - 1], s[0]))
    } else if n >= 2 && x == s[0] {
        Some((e, w.siblings_of(x).unwrap().1))
    } else if n >= 2 && x == s[n - 1] {
        Some((w.siblings_of(x).unwrap().0, e))
    } else {
        w.siblings_of(x)
    }
}

/// Field by field, `w1` is `w0` after the detached `e` joined the end of the
/// children of `p`; then `w1` is well formed.
pub(crate) proof fn lemma_attach(w0: World, w1: World, e: Entity, p: Entity)
    requires
        w0.wf(),
        w0.has(p),
        w0.has(e),
        w0.parent_of(e) is None,
        w1.slots@.len() == w0.slots@.len(),
        w1.kids@ == w0.kids@.update(p.index as int, w0.children_of(p).push(e)),
        forall|x: Entity| #[trigger] w1.has(x) == w0.has(x),
        forall|x: Entity|
            w0.has(x) ==> #[trigger] w1.parent_of(x) == (if x == e {
                Some(p)
            } else {
                w0.parent_of(x)
            }),
        forall|x: Entity|
            w0.has(x) && x != p ==> #[trigger] w1.record(x).unwrap().first_child == w0.record(
                x,
            ).unwrap().first_child,
        w1.record(p).unwrap().first_child == Some(w0.children_of(p).push(e)[0]),
        forall|x: Entity|
            w0.has(x) ==> #[trigger] w1.siblings_of(x) == siblings_after_append(
                w0,
                w0.children_of(p),
                e,
                x,
            ),
    ensures
        w1.wf(),
{
    let s = w0.children_of(p);
    let n = s.len() as int;
    let s2 = s.push(e);
    assert(w0.list_linked(p, s));
    assert(w0.siblings_of(e) is None);
    assert forall|t: int| 0 <= t < n implies s[t] != e by {
        assert(w0.parent_of(s[t]) == Some(p));
    }
    assert(w1.children_of(p) == s2);
    assert forall|q: Entity| q != p implies #[trigger] w1.children_of(q) == w0.children_of(q) by {
        if q.index == p.index {
            assert(q == p);
        }
    }
    assert forall|q: Entity| #[trigger] w1.has(q) implies w1.list_linked(q, w1.children_of(q)) by {
        assert(w0.list_linked(q, w0.children_of(q)));
        if q == p {
            assert(s2.no_duplicates()) by {
                assert forall|a: int, b: int| 0 <= a < b < s2.len() implies s2[a] != s2[b] by {
                    if b == n {
                        assert(s2[b] == e);
                    }
                }
            }
            assert forall|j: int| 0 <= j < s2.len() implies w1.has(#[trigger] s2[j]) && w1.parent_of(
                s2[j],
            ) == Some(p) by {
                if j < n {
                    assert(s2[j] == s[j]);
                    assert(w0.has(s[j]));
                }
            }
            if s2.len() >= 2 {
                let m = n + 1;
                assert forall|j: int| 0 <= j < s2.len() implies #[trigger] w1.siblings_of(s2[j])
                    == Some((s2[prev_index(j, m)], s2[next_index(j, m)])) by {
                    if j < n {
                        assert(s2[j] == s[j]);
                        assert(w0.has(s[j]));
                        if n >= 2 {
                            assert(w0.siblings_of(s[j]) == Some(
                                (s[prev_index(j, n)], s[next_index(j, n)]),
                            ));
                            assert(s[0] != s[n - 1]);
                        }
                    } else {
                        assert(s2[j] == e);
                    }
                }
            }
        } else {
            let c = w0.children_of(q);
            assert forall|j: int| 0 <= j < c.len() implies w1.has(#[trigger] c[j]) && w1.parent_of(
                c[j],
            ) == Some(q) && w1.siblings_of(c[j]) == w0.siblings_of(c[j]) by {
                assert(w0.has(c[j]));
                assert(w0.parent_of(c[j]) == Some(q));
                assert(c[j] != e);
                assert forall|t: int| 0 <= t < n implies s[t] != c[j] by {
                    assert(w0.parent_of(s[t]) == Some(p));
                }
            }
            if c.len() == 1 {
                assert(w1.siblings_of(c[0]) == w0.siblings_of(c[0]));
            }
        }
    }
    assert forall|x: Entity| #[trigger] w1.has(x) implies match w1.parent_of(x) {
        Some(q) => w1.has(q) && w1.children_of(q).contains(x),
        None => w1.siblings_of(x) is None,
    } by {
        assert(w0.has(x));
        if x == e {
            assert(s2[n] == e);
        } else {
            match w0.parent_of(x) {
                Some(q) => {
                    let t = choose|t: int| 0 <= t < w0.children_of(q).len() && w0.children_of(q)[t] == x;
                    if q == p {
                        assert(s2[t] == x);
                    }
                },
                None => {
                    assert forall|t: int| 0 <= t < n implies s[t] != x by {
                        assert(w0.parent_of(s[t]) == Some(p));
                    }
                },
            }
        }
    }
    assert forall|x: Entity| w1.valid(x) && !w1.has(x) implies (#[trigger] w1.children_of(
        x,
    )).len() == 0 by {
        assert(x != p);
    }
}

} // verus!
