//! Facts about the hierarchy that hold in every well-formed world and across
//! the two mutating operations.

use vstd::prelude::*;

use crate::world::{next_index, prev_index, Entity, World};

verus! {

/// The entity that the sibling link of `x` leads to; a sole child leads
/// back to itself.
pub open spec fn next_link(w: World, x: Entity) -> Entity {
    match w.siblings_of(x) {
        Some((_, n)) => n,
        None => x,
    }
}

/// The entity reached from `x` after following `k` sibling links.
pub open spec fn walk(w: World, x: Entity, k: nat) -> Entity
    decreases k,
{
    if k == 0 {
        x
    } else {
        next_link(w, walk(w, x, (k - 1) as nat))
    }
}

/// An entity carries sibling links exactly when its parent has two or more
/// children; an attached entity without them is the sole, and so the first,
/// child of its parent.
pub proof fn siblings_iff_two_or_more_children(w: World, e: Entity)
    requires
        w.wf(),
        w.has(e),
    ensures
        w.siblings_of(e) is Some <==> (w.parent_of(e) matches Some(p) && w.children_of(p).len() >= 2),
        w.parent_of(e) is Some <==> (w.siblings_of(e) is Some || (w.parent_of(e) matches Some(p)
            && w.record(p).unwrap().first_child == Some(e) && w.children_of(p) == seq![e])),
{
    if let Some(p) = w.parent_of(e) {
        let s = w.children_of(p);
        assert(w.list_linked(p, s));
        let i = choose|i: int| 0 <= i < s.len() && s[i] == e;
        if s.len() >= 2 {
            assert(w.siblings_of(s[i]) is Some);
        } else {
            assert(i == 0);
            assert(s =~= seq![e]);
        }
    }
}

/// Parenting `e` to `p` and then unparenting it leaves every list of
/// children as it was with `e` taken out; so the children of `p` are
/// restored when `e` was not among them before.
pub proof fn parent_then_unparent_restores(w0: World, w1: World, w2: World, e: Entity, p: Entity)
    requires
        w0.wf(),
        w1.wf(),
        World::parented(w0, w1, e, p),
        World::unparented(w1, w2, e),
    ensures
        forall|q: Entity| #[trigger] w2.children_of(q) == w0.children_without(e, q),
        w0.parent_of(e) != Some(p) ==> w2.children_of(p) == w0.children_of(p),
{
    let s = w1.children_of(p);
    let base = w0.children_without(e, p);
    assert(s == base.push(e));
    assert(w1.has(p));
    assert(w1.list_linked(p, s));
    let i = s.index_of(e);
    assert(s[base.len() as int] == e);
    assert(s.contains(e));
    assert(0 <= i < s.len() && s[i] == e);
    assert(i == base.len());
    assert(s.remove(i) =~= base);
}

/// Unparenting twice ends in the same world as unparenting once.
pub proof fn unparent_is_idempotent(w0: World, w1: World, w2: World, e: Entity)
    requires
        World::unparented(w0, w1, e),
        World::unparented(w1, w2, e),
    ensures
        w2 == w1,
{
}

/// When a parent has exactly two children, each names the other as both
/// its previous and its next sibling.
pub proof fn two_children_point_at_each_other(w: World, p: Entity)
    requires
        w.wf(),
        w.has(p),
        w.children_of(p).len() == 2,
    ensures
        w.siblings_of(w.children_of(p)[0]) == Some((w.children_of(p)[1], w.children_of(p)[1])),
        w.siblings_of(w.children_of(p)[1]) == Some((w.children_of(p)[0], w.children_of(p)[0])),
{
    let s = w.children_of(p);
    assert(w.list_linked(p, s));
    assert(w.siblings_of(s[0]) == Some((s[prev_index(0, 2)], s[next_index(0, 2)])));
    assert(w.siblings_of(s[1]) == Some((s[prev_index(1, 2)], s[next_index(1, 2)])));
}

proof fn lemma_walk_visits_in_order(w: World, p: Entity, k: nat)
    requires
        w.wf(),
        w.has(p),
        k < w.children_of(p).len(),
    ensures
        walk(w, w.children_of(p)[0], k) == w.children_of(p)[k as int],
    decreases k,
{
    let s = w.children_of(p);
    assert(w.list_linked(p, s));
    if k > 0 {
        lemma_walk_visits_in_order(w, p, (k - 1) as nat);
        assert(w.siblings_of(s[k - 1]) == Some((s[prev_index(k - 1, s.len() as int)], s[next_index(k - 1, s.len() as int)])));
    }
}

/// Following sibling links from the first child of `p` visits its children
/// in order and comes back to the first child after exactly as many steps
/// as there are children, and not before.
pub proof fn walk_returns_after_all_children(w: World, p: Entity)
    requires
        w.wf(),
        w.has(p),
        w.children_of(p).len() >= 1,
    ensures
        w.record(p).unwrap().first_child == Some(w.children_of(p)[0]),
        forall|k: nat| k < w.children_of(p).len() ==> #[trigger] walk(w, w.children_of(p)[0], k) == w.children_of(p)[k as int],
        forall|k: nat| 0 < k < w.children_of(p).len() ==> #[trigger] walk(w, w.children_of(p)[0], k) != w.children_of(p)[0],
        walk(w, w.children_of(p)[0], w.children_of(p).len()) == w.children_of(p)[0],
{
    let s = w.children_of(p);
    let n = s.len();
    assert(w.list_linked(p, s));
    assert forall|k: nat| k < n implies #[trigger] walk(w, s[0], k) == s[k as int] by {
        lemma_walk_visits_in_order(w, p, k);
    }
    lemma_walk_visits_in_order(w, p, (n - 1) as nat);
    assert(walk(w, s[0], n) == next_link(w, walk(w, s[0], (n - 1) as nat)));
    if n >= 2 {
        assert(w.siblings_of(s[n - 1]) == Some((s[prev_index(n - 1, n as int)], s[next_index(n - 1, n as int)])));
    } else {
        assert(w.siblings_of(s[0]) is None);
    }
}

} // verus!
