use bevy_core::Name;
use bevy_ecs::entity::Entity;
use bevy_ecs::world::World;
use bevy_hierarchy::BuildChildren;
use bevy_hierarchy::ChildBuild;
use entity_hierarchy::debug_entity_hierarchy;
use entity_hierarchy::HierarchyError;

fn seven_entity_tree() -> (World, Entity) {
    let mut world = World::default();
    let root = world
        .spawn(Name::new("root"))
        .with_children(|p| {
            p.spawn(Name::from("child_a")).with_children(|p| {
                p.spawn(Name::from("child_c"));
                p.spawn(Name::from("child_d"))
                    .with_children(|p| _ = p.spawn(Name::from("child_f")));
            });
            p.spawn(Name::from("child_b"))
                .with_children(|p| _ = p.spawn(Name::from("child_e")));
        })
        .id();
    (world, root)
}

#[test]
fn test_debug_entity_hierarchy() {
    let (world, root) = seven_entity_tree();

    let displayed = debug_entity_hierarchy(root, &world).render().unwrap();

    let expected = r#""root" (0v1): [Name, Children]
 ├"child_a" (1v1): [Name, Parent, Children]
 │├"child_c" (2v1): [Name, Parent]
 │└"child_d" (3v1): [Name, Parent, Children]
 │ └"child_f" (4v1): [Name, Parent]
 └"child_b" (5v1): [Name, Parent, Children]
  └"child_e" (6v1): [Name, Parent]
"#;

    assert_eq!(displayed, expected);
}

#[test]
fn unknown_root_is_an_error_not_a_panic() {
    let world = World::default();
    let absent = Entity::from_raw(7);
    let result = debug_entity_hierarchy(absent, &world).render();
    assert_eq!(result, Err(HierarchyError::UnknownRoot));
}

#[test]
fn unnamed_childless_entity_renders_id_only() {
    let mut world = World::default();
    let e = world.spawn_empty().id();
    let displayed = debug_entity_hierarchy(e, &world).render().unwrap();
    assert_eq!(displayed, "0v1\n");
}

#[test]
fn named_entity_renders_quoted_name_and_component_list() {
    let mut world = World::default();
    let e = world.spawn(Name::new("solo")).id();
    let displayed = debug_entity_hierarchy(e, &world).render().unwrap();
    assert_eq!(displayed, "\"solo\" (0v1): [Name]\n");
}

#[test]
fn one_line_per_visited_entity() {
    let (world, root) = seven_entity_tree();
    let displayed = debug_entity_hierarchy(root, &world).render().unwrap();
    assert_eq!(displayed.lines().count(), 7);
    assert!(displayed.ends_with('\n'));
}

#[test]
fn rendering_twice_is_byte_identical() {
    let (world, root) = seven_entity_tree();
    let first = debug_entity_hierarchy(root, &world).render().unwrap();
    let second = debug_entity_hierarchy(root, &world).render().unwrap();
    assert_eq!(first, second);
}

#[test]
fn multi_digit_entity_ids_render_in_decimal() {
    let mut world = World::default();
    let mut last = world.spawn_empty().id();
    for _ in 0..10 {
        last = world.spawn_empty().id();
    }
    let displayed = debug_entity_hierarchy(last, &world).render().unwrap();
    assert_eq!(displayed, "10v1\n");
}

#[test]
fn dangling_child_is_reported_as_malformed() {
    let mut world = World::default();
    let root = world
        .spawn(Name::new("root"))
        .with_children(|p| _ = p.spawn(Name::from("child")))
        .id();
    let child = {
        let mut found = None;
        let mut query = world.query::<(Entity, &Name)>();
        for (e, name) in query.iter(&world) {
            if name.as_str() == "child" {
                found = Some(e);
            }
        }
        found.unwrap()
    };
    // Despawning the child directly leaves the parent's child list with a
    // dead id: a store-invariant violation the renderer must report.
    world.despawn(child);
    let result = debug_entity_hierarchy(root, &world).render();
    assert_eq!(result, Err(HierarchyError::MalformedHierarchy));
}

#[test]
fn subtree_rendering_starts_at_the_requested_root() {
    let (world, root) = seven_entity_tree();
    let children = world.get::<bevy_hierarchy::Children>(root).unwrap();
    let child_b = children[1];
    let displayed = debug_entity_hierarchy(child_b, &world).render().unwrap();
    let expected = r#""child_b" (5v1): [Name, Parent, Children]
 └"child_e" (6v1): [Name, Parent]
"#;
    assert_eq!(displayed, expected);
}
