use scene_hierarchy::{Entity, Hierarchy, SiblingIterator, World};

fn spawn_many(world: &mut World, n: usize) -> Vec<Entity> {
    let mut v = Vec::new();
    for _ in 0..n {
        v.push(world.spawn());
    }
    v
}

fn children_of(world: &World, e: Entity) -> Vec<Entity> {
    world.get(e).unwrap().children(world)
}

#[test]
fn parent_one() {
    let mut world = World::new();
    let entities = spawn_many(&mut world, 2);
    let (e1, e2) = (entities[0], entities[1]);

    // Parent e2 to e1.
    Hierarchy::set_parent_entity(&mut world, e2, e1);

    // Check the hierarchy for the parent.
    let hierarchy = world.get(e1).unwrap();
    assert!(!hierarchy.has_parent());
    assert!(hierarchy.has_children());
    assert_eq!(hierarchy.children(&world), vec![e2]);

    // Check the hierarchy for the child.
    let hierarchy = world.get(e2).unwrap();
    assert!(hierarchy.has_parent());
    assert!(!hierarchy.has_children());
    assert_eq!(hierarchy.parent().unwrap(), e1);
    assert_eq!(hierarchy.children(&world), vec![]);
}

#[test]
fn parent_many() {
    let mut world = World::new();
    let entities = spawn_many(&mut world, 4);
    let (e1, e2, e3, e4) = (entities[0], entities[1], entities[2], entities[3]);

    // Parent all of [e2, e3, e4] to e1.
    Hierarchy::set_parent_entity(&mut world, e2, e1);
    Hierarchy::set_parent_entity(&mut world, e3, e1);
    Hierarchy::set_parent_entity(&mut world, e4, e1);

    let hierarchy = world.get(e1).unwrap();

    assert!(!hierarchy.has_parent());
    assert!(hierarchy.has_children());
    assert_eq!(hierarchy.children(&world), vec![e2, e3, e4]);
}

#[test]
fn remove_many_children() {
    let mut world = World::new();
    let entities = spawn_many(&mut world, 4);
    let (parent, e1, e2, e3) = (entities[0], entities[1], entities[2], entities[3]);

    // Parent all of [e1, e2, e3] to parent.
    Hierarchy::set_parent_entity(&mut world, e1, parent);
    Hierarchy::set_parent_entity(&mut world, e2, parent);
    Hierarchy::set_parent_entity(&mut world, e3, parent);

    assert_eq!(children_of(&world, parent), vec![e1, e2, e3]);

    Hierarchy::un_parent_entity(&mut world, e1);
    assert_eq!(children_of(&world, parent), vec![e2, e3]);

    Hierarchy::un_parent_entity(&mut world, e3);
    assert_eq!(children_of(&world, parent), vec![e2]);

    Hierarchy::un_parent_entity(&mut world, e2);
    assert_eq!(children_of(&world, parent), vec![]);

    let hierarchy = world.get(e1).unwrap();
    assert!(!hierarchy.has_children());
    assert_eq!(hierarchy.children(&world), vec![]);

    // Make sure the parent was cleared on e1, e2, and e3
    assert!(!world.get(e1).unwrap().has_parent());
    assert!(!world.get(e2).unwrap().has_parent());
    assert!(!world.get(e3).unwrap().has_parent());
}

#[test]
fn siblings_only_with_two_or_more_children() {
    let mut world = World::new();
    let v = spawn_many(&mut world, 4);
    let (p, a, b, c) = (v[0], v[1], v[2], v[3]);
    assert!(world.get(a).is_none());

    Hierarchy::set_parent_entity(&mut world, a, p);
    assert!(world.get(a).unwrap().has_parent());
    assert!(!world.get(a).unwrap().has_siblings());
    assert!(!world.get(p).unwrap().has_siblings());

    Hierarchy::set_parent_entity(&mut world, b, p);
    assert!(world.get(a).unwrap().has_siblings());
    assert!(world.get(b).unwrap().has_siblings());

    Hierarchy::set_parent_entity(&mut world, c, p);
    for e in [a, b, c] {
        assert!(world.get(e).unwrap().has_siblings());
    }

    Hierarchy::un_parent_entity(&mut world, b);
    assert!(!world.get(b).unwrap().has_siblings());
    assert!(!world.get(b).unwrap().has_parent());
    assert!(world.get(a).unwrap().has_siblings());

    Hierarchy::un_parent_entity(&mut world, a);
    assert!(!world.get(c).unwrap().has_siblings());
    assert!(world.get(c).unwrap().has_parent());
}

#[test]
fn parent_then_unparent_restores_children() {
    let mut world = World::new();
    let v = spawn_many(&mut world, 5);
    let (p, a, b, c, e) = (v[0], v[1], v[2], v[3], v[4]);
    Hierarchy::set_parent_entity(&mut world, a, p);
    Hierarchy::set_parent_entity(&mut world, b, p);
    Hierarchy::set_parent_entity(&mut world, c, p);
    let before = children_of(&world, p);

    Hierarchy::set_parent_entity(&mut world, e, p);
    assert_eq!(children_of(&world, p), vec![a, b, c, e]);
    Hierarchy::un_parent_entity(&mut world, e);
    assert_eq!(children_of(&world, p), before);
}

#[test]
fn unparent_twice_is_unparent_once() {
    let mut world = World::new();
    let v = spawn_many(&mut world, 4);
    let (p, a, b, c) = (v[0], v[1], v[2], v[3]);
    Hierarchy::set_parent_entity(&mut world, a, p);
    Hierarchy::set_parent_entity(&mut world, b, p);
    Hierarchy::set_parent_entity(&mut world, c, p);

    Hierarchy::un_parent_entity(&mut world, b);
    let once: Vec<Option<Hierarchy>> = v.iter().map(|e| world.get(*e)).collect();
    Hierarchy::un_parent_entity(&mut world, b);
    let twice: Vec<Option<Hierarchy>> = v.iter().map(|e| world.get(*e)).collect();
    assert_eq!(once, twice);
    assert_eq!(children_of(&world, p), vec![a, c]);
}

#[test]
fn unparent_without_record_does_nothing() {
    let mut world = World::new();
    let v = spawn_many(&mut world, 2);
    Hierarchy::un_parent_entity(&mut world, v[0]);
    assert!(world.get(v[0]).is_none());
    // An entity that this world never spawned.
    Hierarchy::un_parent_entity(&mut world, Entity { index: 7 });
    assert!(world.get(Entity { index: 7 }).is_none());
    // A root with a record.
    Hierarchy::set_parent_entity(&mut world, v[1], v[0]);
    Hierarchy::un_parent_entity(&mut world, v[0]);
    assert_eq!(children_of(&world, v[0]), vec![v[1]]);
}

#[test]
fn two_children_point_at_each_other() {
    let mut world = World::new();
    let v = spawn_many(&mut world, 3);
    let (p, a, b) = (v[0], v[1], v[2]);
    Hierarchy::set_parent_entity(&mut world, a, p);
    Hierarchy::set_parent_entity(&mut world, b, p);
    assert_eq!(world.get(a).unwrap().siblings, Some((b, b)));
    assert_eq!(world.get(b).unwrap().siblings, Some((a, a)));
    assert_eq!(world.get(p).unwrap().first_child, Some(a));
}

#[test]
fn links_of_three_children() {
    let mut world = World::new();
    let v = spawn_many(&mut world, 4);
    let (p, a, b, c) = (v[0], v[1], v[2], v[3]);
    Hierarchy::set_parent_entity(&mut world, a, p);
    Hierarchy::set_parent_entity(&mut world, b, p);
    Hierarchy::set_parent_entity(&mut world, c, p);
    assert_eq!(world.get(a).unwrap().siblings, Some((c, b)));
    assert_eq!(world.get(b).unwrap().siblings, Some((a, c)));
    assert_eq!(world.get(c).unwrap().siblings, Some((b, a)));
}

#[test]
fn walk_returns_to_first_child() {
    let mut world = World::new();
    let v = spawn_many(&mut world, 6);
    let p = v[0];
    for e in &v[1..] {
        Hierarchy::set_parent_entity(&mut world, *e, p);
    }
    Hierarchy::un_parent_entity(&mut world, v[3]);
    Hierarchy::set_parent_entity(&mut world, v[3], p);
    Hierarchy::un_parent_entity(&mut world, v[1]);
    let kids = children_of(&world, p);
    assert_eq!(kids, vec![v[2], v[4], v[5], v[3]]);

    let first = world.get(p).unwrap().first_child.unwrap();
    let mut cur = first;
    for k in 1..=kids.len() {
        cur = world.get(cur).unwrap().siblings.unwrap().1;
        if k < kids.len() {
            assert_ne!(cur, first);
            assert_eq!(cur, kids[k]);
        }
    }
    assert_eq!(cur, first);
}

#[test]
fn reparent_moves_between_parents() {
    let mut world = World::new();
    let v = spawn_many(&mut world, 5);
    let (p, q, a, b, c) = (v[0], v[1], v[2], v[3], v[4]);
    Hierarchy::set_parent_entity(&mut world, a, p);
    Hierarchy::set_parent_entity(&mut world, b, p);
    Hierarchy::set_parent_entity(&mut world, c, q);

    Hierarchy::set_parent_entity(&mut world, a, q);
    assert_eq!(children_of(&world, p), vec![b]);
    assert_eq!(children_of(&world, q), vec![c, a]);
    assert_eq!(world.get(a).unwrap().parent(), Some(q));

    // Parenting again to the same parent moves the child to the end.
    Hierarchy::set_parent_entity(&mut world, c, q);
    assert_eq!(children_of(&world, q), vec![a, c]);
}

#[test]
fn sibling_iterator_walks_once() {
    let mut world = World::new();
    let v = spawn_many(&mut world, 4);
    let p = v[0];
    for e in &v[1..] {
        Hierarchy::set_parent_entity(&mut world, *e, p);
    }
    let mut it = SiblingIterator::new(&world, Some(v[1]));
    assert_eq!(it.next(), Some(v[1]));
    assert_eq!(it.next(), Some(v[2]));
    assert_eq!(it.next(), Some(v[3]));
    assert_eq!(it.next(), None);
    assert_eq!(it.next(), None);

    let mut empty = SiblingIterator::new(&world, None);
    assert_eq!(empty.next(), None);

    // A root yields only itself.
    let mut root = SiblingIterator::new(&world, Some(p));
    assert_eq!(root.next(), Some(p));
    assert_eq!(root.next(), None);
}
