//! How far around a pixel the effects of a document read.
use crate::effects::{
    node_models, EffectDescriptor, EffectGraph, EffectGraphModel, EffectInfluence, EffectNodeId,
    EffectNodeModel, EffectRegistry,
};
use std::collections::BTreeMap;
use vstd::prelude::*;

verus! {

/// A radius as a 32-bit number, as far as that reaches.
pub open spec fn clipped(radius: nat) -> u32 {
    if radius > u32::MAX { u32::MAX } else { radius as u32 }
}

pub open spec fn larger(a: nat, b: nat) -> nat {
    if a < b { b } else { a }
}

impl EffectGraphModel {
    /// Position of the node that carries the identity.
    pub open spec fn node_position(self, id: EffectNodeId) -> int {
        choose|i: int| 0 <= i < self.nodes.len() && (#[trigger] self.nodes[i]).id == id
    }

    /// Local radius of the node at a position; zero where it takes no part.
    pub open spec fn node_radius(self, registry: Map<u64, EffectDescriptor>, i: int) -> nat {
        match self.node_influence(registry, i) {
            EffectInfluence::Local { radius_px } if self.participates(registry, i) =>
                radius_px as nat,
            _ => 0,
        }
    }

    /// Largest sum of local radii along the dependency paths of up to `depth` nodes
    /// that end at a node.
    pub open spec fn path_radius(
        self,
        registry: Map<u64, EffectDescriptor>,
        id: EffectNodeId,
        depth: nat,
    ) -> nat
        decreases depth, 0nat,
    {
        if depth == 0 {
            0
        } else {
            self.node_radius(registry, self.node_position(id)) + self.widest_path(
                registry,
                self.reads(id),
                (depth - 1) as nat,
            )
        }
    }

    /// Largest path radius among the listed nodes.
    pub open spec fn widest_path(
        self,
        registry: Map<u64, EffectDescriptor>,
        ids: Seq<EffectNodeId>,
        depth: nat,
    ) -> nat
        decreases depth, ids.len() + 1,
    {
        if ids.len() == 0 {
            0
        } else {
            larger(
                self.widest_path(registry, ids.drop_last(), depth),
                self.path_radius(registry, ids.last(), depth),
            )
        }
    }

    /// Identities of all nodes, in document order.
    pub open spec fn node_ids(self) -> Seq<EffectNodeId> {
        self.nodes.map_values(|node: EffectNodeModel| node.id)
    }

    /// Largest sum of local radii along any dependency path.
    pub open spec fn combined_radius(self, registry: Map<u64, EffectDescriptor>) -> nat {
        self.widest_path(registry, self.node_ids(), self.nodes.len())
    }

    /// Whether a node that takes part depends on the whole surface.
    pub open spec fn reads_globally(self, registry: Map<u64, EffectDescriptor>) -> bool {
        exists|i: int| #[trigger]
            self.participates(registry, i) && self.node_influence(registry, i) is Global
    }
}

/// Paths that end at the node at position `i` of a topological order have no more
/// than `i + 1` nodes.
proof fn lemma_depth_suffices(
    graph: EffectGraphModel,
    registry: Map<u64, EffectDescriptor>,
    order: Seq<EffectNodeId>,
    i: int,
    depth: nat,
)
    requires
        graph.ordered_by(order),
        0 <= i < order.len(),
        depth >= i + 1,
    ensures
        graph.path_radius(registry, order[i], depth) == graph.path_radius(
            registry,
            order[i],
            (i + 1) as nat,
        ),
    decreases 2 * i + 1, 0nat,
{
    let reads = graph.reads(order[i]);
    lemma_reads_depth(graph, registry, order, i, (depth - 1) as nat, reads.len());
    assert(reads.take(reads.len() as int) =~= reads);
}

proof fn lemma_reads_depth(
    graph: EffectGraphModel,
    registry: Map<u64, EffectDescriptor>,
    order: Seq<EffectNodeId>,
    i: int,
    depth: nat,
    count: nat,
)
    requires
        graph.ordered_by(order),
        0 <= i < order.len(),
        depth >= i,
        count <= graph.reads(order[i]).len(),
    ensures
        graph.widest_path(registry, graph.reads(order[i]).take(count as int), depth)
            == graph.widest_path(registry, graph.reads(order[i]).take(count as int), i as nat),
    decreases 2 * i, count,
{
    if count > 0 {
        let reads = graph.reads(order[i]);
        let listed = reads.take(count as int);
        assert(listed.drop_last() =~= reads.take(count - 1));
        lemma_reads_depth(graph, registry, order, i, depth, (count - 1) as nat);
        assert(crate::effects::among_first(order, i, graph.reads(order[i])[count - 1]));
        let j = choose|j: int|
            0 <= j < i && j < order.len() && #[trigger] order[j] == reads[count - 1];
        lemma_depth_suffices(graph, registry, order, j, depth);
        lemma_depth_suffices(graph, registry, order, j, i as nat);
    }
}

/// The node of a position is the one that its identity leads to.
proof fn lemma_node_position(graph: EffectGraphModel, i: int)
    requires
        graph.distinct_nodes(),
        0 <= i < graph.nodes.len(),
    ensures
        graph.node_position(graph.nodes[i].id) == i,
{
    let j = graph.node_position(graph.nodes[i].id);
    assert(0 <= j < graph.nodes.len() && graph.nodes[j].id == graph.nodes[i].id);
    if i < j {
        assert(graph.nodes[i].id != graph.nodes[j].id);
    } else if j < i {
        assert(graph.nodes[j].id != graph.nodes[i].id);
    }
}

impl EffectGraph {
    /// Local radius of the node with the identity; zero where it takes no part.
    fn radius_of(&self, registry: &EffectRegistry, id: EffectNodeId) -> (radius: u32)
        requires
            self.well_formed(),
            registry.well_formed(),
            self@.has_node(id),
        ensures
            radius == self@.node_radius(registry@, self@.node_position(id)),
    {
        let nodes = self.nodes();
        for n in 0..nodes.len()
            invariant
                self.well_formed(),
                registry.well_formed(),
                node_models(nodes@) == self@.nodes,
                forall|i: int| 0 <= i < n ==> (#[trigger] self@.nodes[i]).id != id,
        {
            assert(nodes@[n as int]@ == self@.nodes[n as int]);
            if nodes[n].id == id {
                proof {
                    lemma_node_position(self@, n as int);
                }
                if !nodes[n].enabled {
                    return 0;
                }
                return match registry.get(nodes[n].effect) {
                    Some(descriptor) => match descriptor.influence {
                        EffectInfluence::Local { radius_px } => radius_px,
                        EffectInfluence::Global => 0,
                    },
                    None => 0,
                };
            }
        }
        proof {
            assert(node_models(nodes@).len() == nodes@.len());
        }
        0
    }

    /// Whether a node that takes part depends on the whole surface.
    fn has_global_node(&self, registry: &EffectRegistry) -> (global: bool)
        requires
            registry.well_formed(),
        ensures
            global == self@.reads_globally(registry@),
    {
        let nodes = self.nodes();
        for n in 0..nodes.len()
            invariant
                registry.well_formed(),
                node_models(nodes@) == self@.nodes,
                forall|i: int|
                    i < n && #[trigger] self@.participates(registry@, i) ==> self@.node_influence(
                        registry@,
                        i,
                    ) is Local,
        {
            assert(nodes@[n as int]@ == self@.nodes[n as int]);
            if nodes[n].enabled {
                if let Some(descriptor) = registry.get(nodes[n].effect) {
                    assert(self@.participates(registry@, n as int));
                    match descriptor.influence {
                        EffectInfluence::Local { .. } => {},
                        EffectInfluence::Global => {
                            return true;
                        },
                    }
                }
            }
        }
        assert(node_models(nodes@).len() == nodes@.len());
        false
    }

    /// Largest sum of enabled local radii along a dependency path, or `Global` if
    /// any enabled node has global influence.
    pub fn combined_influence(&self, registry: &EffectRegistry) -> (influence: EffectInfluence)
        requires
            self.well_formed(),
            registry.well_formed(),
        ensures
            influence == if self@.reads_globally(registry@) {
                EffectInfluence::Global
            } else {
                EffectInfluence::Local { radius_px: clipped(self@.combined_radius(registry@)) }
            },
    {
        if self.has_global_node(registry) {
            return EffectInfluence::Global;
        }
        let ghost graph = self@;
        let ghost depth = graph.nodes.len();
        let order = match self.topological_order() {
            Some(order) => order,
            None => Vec::new(),
        };
        let mut radii: BTreeMap<u64, u32> = BTreeMap::new();
        for i in 0..order.len()
            invariant
                graph == self@,
                self.well_formed(),
                registry.well_formed(),
                graph.ordered_by(order@),
                depth == graph.nodes.len(),
                forall|j: int|
                    0 <= j < i ==> radii@.contains_key((#[trigger] order@[j]).0)
                        && radii@[order@[j].0] == clipped(
                        graph.path_radius(registry@, order@[j], depth),
                    ),
        {
            let id = order[i];
            assert(order@.contains(id));
            let own: u32 = self.radius_of(registry, id);
            let mut widest: u32 = 0;
            let ghost reads = graph.reads(id);
            match self.reads(id) {
                None => {
                    assert(reads.take(0) =~= reads);
                },
                Some(list) => {
                    for k in 0..list.len()
                        invariant
                            graph == self@,
                            graph.ordered_by(order@),
                            depth == graph.nodes.len(),
                            0 <= i < order@.len(),
                            id == order@[i as int],
                            reads == graph.reads(id),
                            list@ == reads,
                            forall|j: int|
                                0 <= j < i ==> radii@.contains_key((#[trigger] order@[j]).0)
                                    && radii@[order@[j].0] == clipped(
                                    graph.path_radius(registry@, order@[j], depth),
                                ),
                            widest == clipped(
                                graph.widest_path(registry@, reads.take(k as int), depth),
                            ),
                    {
                        proof {
                            let longer = reads.take(k + 1);
                            assert(longer.drop_last() =~= reads.take(k as int));
                            assert(longer.last() == reads[k as int]);
                            assert(crate::effects::among_first(
                                order@,
                                i as int,
                                graph.reads(order@[i as int])[k as int],
                            ));
                            let j = choose|j: int|
                                0 <= j < i && j < order@.len() && #[trigger] order@[j]
                                    == reads[k as int];
                            assert(radii@.contains_key(order@[j].0));
                        }
                        if let Some(radius) = radii.get(&list[k].0) {
                            if widest < *radius {
                                widest = *radius;
                            }
                        }
                    }
                    assert(reads.take(reads.len() as int) =~= reads);
                },
            }
            let radius: u32 = own.saturating_add(widest);
            proof {
                lemma_depth_suffices(graph, registry@, order@, i as int, depth);
                lemma_depth_suffices(graph, registry@, order@, i as int, depth + 1);
                assert(graph.path_radius(registry@, id, depth + 1) == own + graph.widest_path(
                    registry@,
                    reads,
                    depth,
                ));
                assert forall|j: int| 0 <= j < i implies (#[trigger] order@[j]).0 != id.0 by {
                    assert(order@[j] != order@[i as int]);
                }
            }
            radii.insert(id.0, radius);
        }
        let nodes = self.nodes();
        let ghost ids = graph.node_ids();
        let mut largest: u32 = 0;
        assert(node_models(nodes@).len() == nodes@.len());
        for n in 0..nodes.len()
            invariant
                graph == self@,
                graph.ordered_by(order@),
                depth == graph.nodes.len(),
                ids == graph.node_ids(),
                node_models(nodes@) == graph.nodes,
                nodes@.len() == graph.nodes.len(),
                forall|j: int|
                    0 <= j < order@.len() ==> radii@.contains_key((#[trigger] order@[j]).0)
                        && radii@[order@[j].0] == clipped(
                        graph.path_radius(registry@, order@[j], depth),
                    ),
                largest == clipped(graph.widest_path(registry@, ids.take(n as int), depth)),
        {
            proof {
                let longer = ids.take(n + 1);
                assert(longer.drop_last() =~= ids.take(n as int));
                assert(nodes@[n as int]@ == graph.nodes[n as int]);
                assert(longer.last() == graph.nodes[n as int].id);
                assert(graph.has_node(graph.nodes[n as int].id));
                assert(order@.contains(graph.nodes[n as int].id));
                let j = choose|j: int|
                    0 <= j < order@.len() && order@[j] == graph.nodes[n as int].id;
                assert(radii@.contains_key(order@[j].0));
            }
            if let Some(radius) = radii.get(&nodes[n].id.0) {
                if largest < *radius {
                    largest = *radius;
                }
            }
        }
        assert(ids.take(ids.len() as int) =~= ids);
        EffectInfluence::Local { radius_px: largest }
    }
}

} // verus!
