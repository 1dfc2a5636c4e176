use hamerons_stroke_render::effects::pass_through_descriptor;
use hamerons_stroke_render::{
    EffectDescriptor, EffectDomain, EffectGraph, EffectId, EffectInfluence, EffectNodeId,
    EffectRegistry, PaintPlaneClearValue, PaintPlaneDescriptor, PaintPlaneFormat, ScratchPlanePool,
    PASS_THROUGH_EFFECT_ID,
};
use std::collections::BTreeMap;

fn plane(format: PaintPlaneFormat) -> PaintPlaneDescriptor {
    PaintPlaneDescriptor {
        name: "plane",
        semantic: "test plane",
        format,
        clear: PaintPlaneClearValue::Zero,
    }
}

fn effect(id: u32, influence: EffectInfluence) -> EffectDescriptor {
    EffectDescriptor {
        id: EffectId(id),
        implementation_version: 1,
        domain: EffectDomain::MaterialSurface,
        influence,
        scratch_planes: Vec::new(),
    }
}

#[test]
fn graph_rejects_cycles_and_preserves_dependency_order() {
    let mut graph = EffectGraph::default();
    let a = graph.add_node(EffectId(1), 1);
    let b = graph.add_node(EffectId(2), 1);
    graph.add_dependency(b, a).unwrap();
    assert!(graph.add_dependency(a, b).is_err());
    let order = graph.topological_order().unwrap();
    assert!(
        order.iter().position(|id| *id == a).unwrap()
            < order.iter().position(|id| *id == b).unwrap()
    );
}

#[test]
fn scratch_pool_accounts_for_every_declared_plane() {
    let planes = [PaintPlaneDescriptor {
        name: "mask",
        semantic: "test scratch",
        format: PaintPlaneFormat::R32Float,
        clear: PaintPlaneClearValue::Zero,
    }];
    let expected = 64 * 64 * 4;
    let mut pool = ScratchPlanePool::with_budget(expected);
    let lease = pool.lease(&planes, 64, 1).unwrap();
    assert!(pool.lease(&planes, 64, 1).is_none());
    pool.release(lease);
    assert!(pool.lease(&planes, 64, 1).is_some());
    assert_eq!(pool.high_water_bytes(), expected);
}

#[test]
fn nonzero_radius_extension_changes_common_graph_influence() {
    let blur_id = EffectId(41);
    let mut registry = EffectRegistry::default();
    registry.register(pass_through_descriptor());
    registry.register(EffectDescriptor {
        id: blur_id,
        implementation_version: 7,
        domain: EffectDomain::LinearDisplayRgba,
        influence: EffectInfluence::Local { radius_px: 19 },
        scratch_planes: vec![PaintPlaneDescriptor {
            name: "ping",
            semantic: "mock blur scratch",
            format: PaintPlaneFormat::Rgba16Float,
            clear: PaintPlaneClearValue::Zero,
        }],
    });
    let mut graph = EffectGraph::default();
    graph.add_node(blur_id, 7);
    assert_eq!(
        graph.combined_influence(&registry),
        EffectInfluence::Local { radius_px: 19 }
    );
}

#[test]
fn a_refused_dependency_leaves_the_graph_as_it_was() {
    let mut graph = EffectGraph::default();
    let a = graph.add_node(EffectId(1), 1);
    let b = graph.add_node(EffectId(2), 1);
    graph.add_dependency(b, a).unwrap();
    let revision = graph.revision();
    assert!(graph.add_dependency(a, b).is_err());
    assert!(graph.add_dependency(a, a).is_err());
    assert_eq!(graph.revision(), revision);
    assert_eq!(graph.topological_order().unwrap(), vec![EffectNodeId(0), a, b]);
}

#[test]
fn unknown_nodes_cannot_be_connected() {
    let mut graph = EffectGraph::default();
    let a = graph.add_node(EffectId(1), 1);
    let mut other = EffectGraph::default();
    other.add_node(EffectId(1), 1);
    let stranger = other.add_node(EffectId(1), 1);
    assert!(graph.add_dependency(a, stranger).is_err());
    assert!(graph.add_dependency(stranger, a).is_err());
    assert!(!graph.set_enabled(stranger, false));
    assert!(graph.set_enabled(a, false));
}

#[test]
fn a_disabled_effect_has_no_influence() {
    let mut registry = EffectRegistry::default();
    registry.register(effect(5, EffectInfluence::Local { radius_px: 30 }));
    registry.register(effect(6, EffectInfluence::Global));
    let mut graph = EffectGraph::default();
    let near = graph.add_node(EffectId(5), 1);
    let far = graph.add_node(EffectId(6), 1);
    assert_eq!(graph.combined_influence(&registry), EffectInfluence::Global);
    graph.set_enabled(far, false);
    assert_eq!(
        graph.combined_influence(&registry),
        EffectInfluence::Local { radius_px: 30 }
    );
    graph.set_enabled(near, false);
    assert_eq!(
        graph.combined_influence(&registry),
        EffectInfluence::Local { radius_px: 0 }
    );
}

#[test]
fn graph_parts_restore_the_same_graph() {
    let mut graph = EffectGraph::default();
    let a = graph.add_node(EffectId(1), 1);
    let b = graph.add_node_with_parameters(EffectId(2), 3, vec![1, 2, 3]);
    graph.add_dependency(b, a).unwrap();
    let (revision, next_node, nodes, dependencies) = graph.persistence_parts();
    let nodes = nodes.clone();
    let dependencies = dependencies.clone();
    let restored =
        EffectGraph::from_persistence_parts(revision, next_node, nodes, dependencies).unwrap();
    assert_eq!(restored.revision(), graph.revision());
    assert_eq!(restored.nodes(), graph.nodes());
    assert_eq!(restored.topological_order(), graph.topological_order());
}

#[test]
fn graph_parts_with_a_cycle_are_refused() {
    let mut graph = EffectGraph::default();
    let a = graph.add_node(EffectId(1), 1);
    let b = graph.add_node(EffectId(2), 1);
    let mut dependencies = BTreeMap::new();
    dependencies.insert(a.0, vec![b]);
    dependencies.insert(b.0, vec![a]);
    let nodes = graph.nodes().clone();
    assert!(EffectGraph::from_persistence_parts(1, 9, nodes, dependencies).is_err());
}

#[test]
fn the_pass_through_effect_touches_nothing_around_a_pixel() {
    let descriptor = pass_through_descriptor();
    assert_eq!(descriptor.id, EffectId(PASS_THROUGH_EFFECT_ID));
    assert_eq!(descriptor.implementation_version, 1);
    assert_eq!(descriptor.domain, EffectDomain::LinearDisplayRgba);
    assert_eq!(descriptor.influence, EffectInfluence::Local { radius_px: 0 });
    assert!(descriptor.scratch_planes.is_empty());
}

#[test]
fn the_registry_lists_effects_by_ascending_number() {
    let mut registry = EffectRegistry::new();
    registry.register(effect(9, EffectInfluence::Global));
    registry.register(effect(2, EffectInfluence::Global));
    registry.register(effect(9, EffectInfluence::Local { radius_px: 3 }));
    let ids: Vec<u32> = registry.iter().iter().map(|item| item.id.0).collect();
    assert_eq!(ids, vec![2, 9]);
    assert_eq!(
        registry.get(EffectId(9)).unwrap().influence,
        EffectInfluence::Local { radius_px: 3 }
    );
    assert!(registry.get(EffectId(3)).is_none());
}

#[test]
fn plane_formats_cost_their_bytes() {
    assert_eq!(PaintPlaneFormat::Rgba8Unorm.bytes_per_pixel(), 4);
    assert_eq!(PaintPlaneFormat::Rgba16Float.bytes_per_pixel(), 8);
    assert_eq!(PaintPlaneFormat::R32Float.bytes_per_pixel(), 4);
    assert_eq!(
        PaintPlaneFormat::Custom { bytes_per_pixel: 13 }.bytes_per_pixel(),
        13
    );
}

#[test]
fn a_lease_covers_all_planes_of_all_tiles() {
    let planes = [
        plane(PaintPlaneFormat::R32Float),
        plane(PaintPlaneFormat::Rgba16Float),
    ];
    let mut pool = ScratchPlanePool::with_budget(1_000_000);
    let first = pool.lease(&planes, 16, 3).unwrap();
    assert_eq!(pool.leased_bytes(), 16 * 16 * 3 * 12);
    pool.set_budget(1);
    assert!(pool.lease(&planes, 1, 1).is_none());
    pool.release(first);
    assert_eq!(pool.leased_bytes(), 0);
    pool.release(first);
    assert_eq!(pool.leased_bytes(), 0);
    assert_eq!(pool.high_water_bytes(), 16 * 16 * 3 * 12);
}

#[test]
fn a_default_pool_admits_only_empty_leases() {
    let planes = [plane(PaintPlaneFormat::R32Float)];
    let mut pool = ScratchPlanePool::default();
    assert!(pool.lease(&planes, 1, 1).is_none());
    assert!(pool.lease(&planes, 0, 1).is_some());
}

#[test]
fn ties_are_ordered_as_the_nodes_were_added() {
    let mut graph = EffectGraph::default();
    let source = graph.add_node(EffectId(1), 1);
    let late = graph.add_node(EffectId(2), 1);
    let early = graph.add_node(EffectId(3), 1);
    let other = graph.add_node(EffectId(4), 1);
    graph.add_dependency(late, other).unwrap();
    graph.add_dependency(late, source).unwrap();
    graph.add_dependency(early, source).unwrap();
    let order = graph.topological_order().unwrap();
    let first = order[0];
    assert!(![source, late, early, other].contains(&first));
    assert_eq!(order, vec![first, source, other, early, late]);
}

#[test]
fn radii_of_chained_effects_add_up() {
    let mut registry = EffectRegistry::default();
    registry.register(effect(1, EffectInfluence::Local { radius_px: 10 }));
    let mut graph = EffectGraph::default();
    let a = graph.add_node(EffectId(1), 1);
    let b = graph.add_node(EffectId(1), 1);
    assert_eq!(
        graph.combined_influence(&registry),
        EffectInfluence::Local { radius_px: 10 }
    );
    graph.add_dependency(b, a).unwrap();
    assert_eq!(
        graph.combined_influence(&registry),
        EffectInfluence::Local { radius_px: 20 }
    );
}

#[test]
fn the_widest_path_through_the_effects_counts() {
    let mut registry = EffectRegistry::default();
    registry.register(effect(1, EffectInfluence::Local { radius_px: 10 }));
    registry.register(effect(2, EffectInfluence::Local { radius_px: 25 }));
    registry.register(effect(3, EffectInfluence::Local { radius_px: u32::MAX }));
    let mut graph = EffectGraph::default();
    let source = graph.add_node(EffectId(1), 1);
    let narrow = graph.add_node(EffectId(1), 1);
    let wide = graph.add_node(EffectId(2), 1);
    let sink = graph.add_node(EffectId(1), 1);
    graph.add_dependency(narrow, source).unwrap();
    graph.add_dependency(wide, source).unwrap();
    graph.add_dependency(sink, narrow).unwrap();
    graph.add_dependency(sink, wide).unwrap();
    assert_eq!(
        graph.combined_influence(&registry),
        EffectInfluence::Local { radius_px: 45 }
    );
    graph.set_enabled(wide, false);
    assert_eq!(
        graph.combined_influence(&registry),
        EffectInfluence::Local { radius_px: 30 }
    );
    let huge = graph.add_node(EffectId(3), 1);
    graph.add_dependency(huge, sink).unwrap();
    assert_eq!(
        graph.combined_influence(&registry),
        EffectInfluence::Local { radius_px: u32::MAX }
    );
}

#[test]
fn the_revision_moves_when_the_graph_changes_and_only_then() {
    let mut graph = EffectGraph::default();
    let a = graph.add_node(EffectId(1), 1);
    let before = graph.revision();
    let b = graph.add_node(EffectId(2), 1);
    assert_eq!(graph.revision(), before + 1);
    graph.add_dependency(b, a).unwrap();
    assert_eq!(graph.revision(), before + 2);
    graph.add_dependency(b, a).unwrap();
    assert_eq!(graph.revision(), before + 2);
    assert!(graph.set_enabled(a, true));
    assert_eq!(graph.revision(), before + 2);
    assert!(graph.set_enabled(a, false));
    assert_eq!(graph.revision(), before + 3);
}

#[test]
fn a_lease_comes_back_once_whatever_was_leased_meanwhile() {
    let planes = [plane(PaintPlaneFormat::R32Float)];
    let mut pool = ScratchPlanePool::with_budget(100_000);
    let first = pool.lease(&planes, 16, 1).unwrap();
    let second = pool.lease(&planes, 16, 2).unwrap();
    pool.release(first);
    assert_eq!(pool.leased_bytes(), 16 * 16 * 2 * 4);
    let third = pool.lease(&planes, 16, 3).unwrap();
    pool.release(first);
    assert_eq!(pool.leased_bytes(), 16 * 16 * 5 * 4);
    assert_eq!(pool.high_water_bytes(), 16 * 16 * 5 * 4);
    pool.release(second);
    pool.release(third);
    pool.release(first);
    assert_eq!(pool.leased_bytes(), 0);
}
