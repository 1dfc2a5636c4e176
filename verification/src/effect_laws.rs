//! What effect graphs do: how nodes read each other, and how far around they read.
use crate::document::StrokeDocument;
use crate::effects::{
    pass_through_descriptor, EffectDescriptor, EffectGraph, EffectGraphModel, EffectId,
    EffectInfluence, EffectNode, EffectNodeId, EffectRegistry,
};
use crate::maintenance::{effect_radius, work_planes};
use crate::paint::{PaintModelDescriptor, PaintPlaneDescriptor};
use std::collections::BTreeMap;
use vstd::prelude::*;

verus! {

/// A node that is added is enabled, has the effect, version and parameters it was given and
/// an identity of its own, comes last and reads nothing that others do not; all other nodes
/// stay as they are.
pub proof fn law_added_nodes_come_last(
    graph: EffectGraphModel,
    effect: EffectId,
    version: u32,
    parameters: Seq<u8>,
)
    ensures
        ({
            let after = graph.with_node(effect, version, parameters);
            let node = after.nodes.last();
            &&& after.nodes.len() == graph.nodes.len() + 1
            &&& forall|i: int|
                0 <= i < graph.nodes.len() ==> #[trigger] after.nodes[i] == graph.nodes[i]
            &&& node.id.0 == graph.next_node
            &&& after.next_node != graph.next_node
            &&& node.effect == effect
            &&& node.implementation_version == version
            &&& node.enabled
            &&& node.parameters == parameters
            &&& after.dependencies == graph.dependencies
        }),
{
}

/// Switching a node on or off changes that of this node and of nothing else.
pub proof fn law_switching_touches_one_node(
    graph: EffectGraphModel,
    id: EffectNodeId,
    enabled: bool,
    i: int,
)
    requires
        0 <= i < graph.nodes.len(),
    ensures
        ({
            let after = graph.with_enabled(id, enabled);
            let (before, node) = (graph.nodes[i], after.nodes[i]);
            &&& after.nodes.len() == graph.nodes.len()
            &&& before.id == id ==> node.enabled == enabled
            &&& before.id != id ==> node.enabled == before.enabled
            &&& node.id == before.id && node.effect == before.effect
                && node.implementation_version == before.implementation_version
                && node.parameters == before.parameters
            &&& after.dependencies == graph.dependencies
        }),
{
}

/// A dependency that is accepted is read last by its node, beside what the node read before,
/// and by no other node. One that is refused, or there already, changes what no node reads.
pub proof fn law_dependencies_are_read_by_their_node(
    graph: EffectGraphModel,
    node: EffectNodeId,
    dependency: EffectNodeId,
    other: EffectNodeId,
)
    ensures
        ({
            let after = graph.with_dependency(node, dependency);
            let accepted = graph.has_node(node) && graph.has_node(dependency) && node
                != dependency && !graph.reads(node).contains(dependency) && graph.with_edge(
                node,
                dependency,
            ).acyclic();
            &&& accepted ==> after.reads(node) == graph.reads(node).push(dependency)
            &&& !accepted ==> after.reads(node) == graph.reads(node)
            &&& other != node ==> after.reads(other) == graph.reads(other)
            &&& after.nodes == graph.nodes && after.next_node == graph.next_node
            &&& graph.acyclic() ==> after.acyclic()
        }),
{
    let after = graph.with_dependency(node, dependency);
    if graph.acyclic() {
        if graph.has_node(node) && graph.has_node(dependency) && node != dependency
            && !graph.reads(node).contains(dependency) {
            let edge = graph.with_edge(node, dependency);
            let base = if edge.acyclic() { edge } else { graph };
            let level = choose|level: spec_fn(EffectNodeId) -> nat| base.levelled_by(level);
            assert forall|id: EffectNodeId| #[trigger] after.reads(id) == base.reads(id) by {}
            assert forall|id: EffectNodeId, k: int|
                0 <= k < after.reads(id).len() implies level(#[trigger] after.reads(id)[k])
                < level(id) by {
                assert(after.reads(id) == base.reads(id));
                assert(level(base.reads(id)[k]) < level(id));
            }
            assert(after.levelled_by(level));
        }
    }
}

/// Effects run in an order in which every node comes after all that it reads; each node runs
/// once. There is such an order exactly where no node reads itself, directly or through
/// others.
pub proof fn law_nodes_run_after_what_they_read(
    graph: EffectGraph,
    order: Option<Vec<EffectNodeId>>,
    node: EffectNodeId,
    k: int,
)
    requires
        graph@.well_formed(),
        call_ensures(EffectGraph::topological_order, (&graph,), order),
        graph@.has_node(node),
    ensures
        order is Some <==> graph@.acyclic(),
        order is Some ==> {
            let ids = order->0@;
            &&& ids.contains(node)
            &&& ids.no_duplicates()
            &&& ids.len() == graph@.nodes.len()
            &&& 0 <= k < graph@.reads(node).len() ==> exists|i: int, j: int|
                0 <= i < j < ids.len() && #[trigger] ids[i] == graph@.reads(node)[k]
                    && #[trigger] ids[j] == node
        },
{
    if order is Some {
        let ids = order->0@;
        assert(ids.contains(node));
        let j = choose|j: int| 0 <= j < ids.len() && ids[j] == node;
        if 0 <= k < graph@.reads(node).len() {
            assert(crate::effects::among_first(ids, j, graph@.reads(ids[j])[k]));
            let i = choose|i: int|
                0 <= i < j && i < ids.len() && #[trigger] ids[i] == graph@.reads(ids[j])[k];
            assert(ids[i] == graph@.reads(node)[k] && ids[j] == node);
        }
    }
}

/// How far around a pixel the node at a position reads by itself: not at all where it is
/// switched off or its effect is unknown.
pub open spec fn own_radius(
    graph: EffectGraphModel,
    registry: Map<u64, EffectDescriptor>,
    i: int,
) -> nat {
    let node = graph.nodes[i];
    if node.enabled && registry.contains_key(node.effect.0 as u64) {
        match registry[node.effect.0 as u64].influence {
            EffectInfluence::Local { radius_px } => radius_px as nat,
            EffectInfluence::Global => 0,
        }
    } else {
        0
    }
}

/// Whether nodes, given by their positions, form a chain: each reads the next.
pub open spec fn is_chain(graph: EffectGraphModel, chain: Seq<int>) -> bool {
    &&& forall|k: int| 0 <= k < chain.len() ==> 0 <= #[trigger] chain[k] < graph.nodes.len()
    &&& forall|k: int|
        0 <= k < chain.len() - 1 ==> graph.reads(graph.nodes[#[trigger] chain[k]].id).contains(
            graph.nodes[chain[k + 1]].id,
        )
}

/// How far the nodes of a chain read together.
pub open spec fn chain_radius(
    graph: EffectGraphModel,
    registry: Map<u64, EffectDescriptor>,
    chain: Seq<int>,
) -> nat
    decreases chain.len(),
{
    if chain.len() == 0 {
        0
    } else {
        own_radius(graph, registry, chain[0]) + chain_radius(
            graph,
            registry,
            chain.drop_first(),
        )
    }
}

/// The radius of a node is its own.
proof fn lemma_node_radius(graph: EffectGraphModel, registry: Map<u64, EffectDescriptor>, i: int)
    requires
        graph.distinct_nodes(),
        0 <= i < graph.nodes.len(),
    ensures
        graph.node_position(graph.nodes[i].id) == i,
        graph.node_radius(registry, i) == own_radius(graph, registry, i),
{
    let id = graph.nodes[i].id;
    let found = graph.node_position(id);
    assert(graph.nodes[i].id == id);
    assert(0 <= found < graph.nodes.len() && graph.nodes[found].id == id);
    if found < i {
        assert(graph.nodes[found].id != graph.nodes[i].id);
    } else if i < found {
        assert(graph.nodes[i].id != graph.nodes[found].id);
    }
}

/// The widest of several paths is at least as wide as each.
proof fn lemma_widest(
    graph: EffectGraphModel,
    registry: Map<u64, EffectDescriptor>,
    ids: Seq<EffectNodeId>,
    depth: nat,
    id: EffectNodeId,
)
    requires
        ids.contains(id),
    ensures
        graph.widest_path(registry, ids, depth) >= graph.path_radius(registry, id, depth),
    decreases ids.len(),
{
    let k = choose|k: int| 0 <= k < ids.len() && ids[k] == id;
    if k < ids.len() - 1 {
        let front = ids.drop_last();
        assert(front[k] == id);
        lemma_widest(graph, registry, front, depth, id);
    }
}

/// The widest of several paths is one of them.
proof fn lemma_widest_is_one(
    graph: EffectGraphModel,
    registry: Map<u64, EffectDescriptor>,
    ids: Seq<EffectNodeId>,
    depth: nat,
) -> (k: int)
    requires
        ids.len() > 0,
    ensures
        0 <= k < ids.len(),
        graph.widest_path(registry, ids, depth) == graph.path_radius(registry, ids[k], depth),
    decreases ids.len(),
{
    let front = ids.drop_last();
    let last = ids.len() - 1;
    if front.len() == 0 || graph.widest_path(registry, front, depth) < graph.path_radius(
        registry,
        ids.last(),
        depth,
    ) {
        last
    } else {
        let k = lemma_widest_is_one(graph, registry, front, depth);
        assert(front[k] == ids[k]);
        k
    }
}

/// A chain reads no further than the path from its first node.
proof fn lemma_chain_within(
    graph: EffectGraphModel,
    registry: Map<u64, EffectDescriptor>,
    chain: Seq<int>,
    depth: nat,
)
    requires
        graph.distinct_nodes(),
        is_chain(graph, chain),
        0 < chain.len() <= depth,
    ensures
        chain_radius(graph, registry, chain) <= graph.path_radius(
            registry,
            graph.nodes[chain[0]].id,
            depth,
        ),
    decreases chain.len(),
{
    let first = graph.nodes[chain[0]].id;
    lemma_node_radius(graph, registry, chain[0]);
    let rest = chain.drop_first();
    if rest.len() > 0 {
        assert forall|k: int| 0 <= k < rest.len() implies 0 <= #[trigger] rest[k]
            < graph.nodes.len() by {
            assert(rest[k] == chain[k + 1]);
        }
        assert forall|k: int| 0 <= k < rest.len() - 1 implies graph.reads(
            graph.nodes[#[trigger] rest[k]].id,
        ).contains(graph.nodes[rest[k + 1]].id) by {
            assert(rest[k] == chain[k + 1] && rest[k + 1] == chain[k + 2]);
        }
        lemma_chain_within(graph, registry, rest, (depth - 1) as nat);
        assert(rest[0] == chain[1]);
        assert(graph.reads(graph.nodes[chain[0]].id).contains(graph.nodes[chain[0int + 1]].id));
        lemma_widest(
            graph,
            registry,
            graph.reads(first),
            (depth - 1) as nat,
            graph.nodes[chain[1]].id,
        );
    } else {
        assert(chain_radius(graph, registry, rest) == 0);
    }
}

/// Some chain reads as far as the path from its first node.
proof fn lemma_chain_reaches(
    graph: EffectGraphModel,
    registry: Map<u64, EffectDescriptor>,
    i: int,
    depth: nat,
) -> (chain: Seq<int>)
    requires
        graph.distinct_nodes(),
        graph.known_dependencies(),
        0 <= i < graph.nodes.len(),
        depth > 0,
    ensures
        is_chain(graph, chain),
        0 < chain.len() <= depth,
        chain[0] == i,
        chain_radius(graph, registry, chain) == graph.path_radius(
            registry,
            graph.nodes[i].id,
            depth,
        ),
    decreases depth,
{
    let id = graph.nodes[i].id;
    let reads = graph.reads(id);
    lemma_node_radius(graph, registry, i);
    if depth == 1 || reads.len() == 0 {
        let chain = seq![i];
        assert(chain.drop_first() =~= Seq::empty());
        reveal_with_fuel(chain_radius, 2);
        if reads.len() > 0 {
            lemma_no_depth(graph, registry, reads);
        }
        chain
    } else {
        let k = lemma_widest_is_one(graph, registry, reads, (depth - 1) as nat);
        assert(graph.has_node(reads[k])) by {
            assert(graph.dependencies.contains_key(id.0));
            assert(graph.has_node(graph.dependencies[id.0][k]));
        }
        let j = choose|j: int| 0 <= j < graph.nodes.len() && (#[trigger] graph.nodes[j]).id
            == reads[k];
        let rest = lemma_chain_reaches(graph, registry, j, (depth - 1) as nat);
        let chain = seq![i] + rest;
        assert(chain.drop_first() =~= rest);
        assert forall|n: int| 0 <= n < chain.len() implies 0 <= #[trigger] chain[n]
            < graph.nodes.len() by {
            if n > 0 {
                assert(chain[n] == rest[n - 1]);
            }
        }
        assert forall|n: int| 0 <= n < chain.len() - 1 implies graph.reads(
            graph.nodes[#[trigger] chain[n]].id,
        ).contains(graph.nodes[chain[n + 1]].id) by {
            if n == 0 {
                assert(chain[1] == rest[0]);
                assert(reads.contains(reads[k]));
            } else {
                assert(chain[n] == rest[n - 1] && chain[n + 1] == rest[n]);
            }
        }
        chain
    }
}

/// At depth zero nothing is read.
proof fn lemma_no_depth(
    graph: EffectGraphModel,
    registry: Map<u64, EffectDescriptor>,
    ids: Seq<EffectNodeId>,
)
    ensures
        graph.widest_path(registry, ids, 0) == 0,
    decreases ids.len(),
{
    if ids.len() > 0 {
        lemma_no_depth(graph, registry, ids.drop_last());
        reveal_with_fuel(EffectGraphModel::path_radius, 2);
        reveal_with_fuel(EffectGraphModel::widest_path, 2);
        assert(graph.path_radius(registry, ids.last(), 0) == 0);
    }
}

/// Where an enabled node reads everywhere, so do all effects together. Otherwise they read as
/// far as the chain of nodes that reads the furthest: no chain reads further, and one reads
/// as far, as long as the radius fits.
pub proof fn law_effects_read_as_far_as_their_longest_chain(
    graph: EffectGraph,
    registry: EffectRegistry,
    influence: EffectInfluence,
    chain: Seq<int>,
)
    requires
        graph.well_formed(),
        registry.well_formed(),
        call_ensures(EffectGraph::combined_influence, (&graph, &registry), influence),
        is_chain(graph@, chain),
        chain.len() <= graph@.nodes.len(),
    ensures
        influence is Global <==> exists|i: int|
            {
                &&& 0 <= i < graph@.nodes.len()
                &&& (#[trigger] graph@.nodes[i]).enabled
                &&& registry@.contains_key(graph@.nodes[i].effect.0 as u64)
                &&& registry@[graph@.nodes[i].effect.0 as u64].influence is Global
            },
        influence matches EffectInfluence::Local { radius_px } ==> {
            &&& chain_radius(graph@, registry@, chain) <= radius_px || radius_px == u32::MAX
            &&& radius_px > 0 ==> exists|widest: Seq<int>|
                {
                    &&& #[trigger] is_chain(graph@, widest)
                    &&& widest.len() <= graph@.nodes.len()
                    &&& chain_radius(graph@, registry@, widest) >= radius_px
                    &&& radius_px < u32::MAX ==> chain_radius(graph@, registry@, widest)
                        == radius_px
                }
        },
{
    let model = graph@;
    let depth = model.nodes.len();
    let ids = model.node_ids();
    if exists|i: int|
        {
            &&& 0 <= i < model.nodes.len()
            &&& (#[trigger] model.nodes[i]).enabled
            &&& registry@.contains_key(model.nodes[i].effect.0 as u64)
            &&& registry@[model.nodes[i].effect.0 as u64].influence is Global
        } {
        let i = choose|i: int|
            {
                &&& 0 <= i < model.nodes.len()
                &&& (#[trigger] model.nodes[i]).enabled
                &&& registry@.contains_key(model.nodes[i].effect.0 as u64)
                &&& registry@[model.nodes[i].effect.0 as u64].influence is Global
            };
        assert(model.participates(registry@, i) && model.node_influence(registry@, i) is Global);
        assert(model.reads_globally(registry@));
    }
    if model.reads_globally(registry@) {
        let i = choose|i: int| #[trigger]
            model.participates(registry@, i) && model.node_influence(registry@, i) is Global;
        assert(model.nodes[i].enabled);
    } else {
        if chain.len() > 0 {
            lemma_chain_within(model, registry@, chain, depth);
            assert(ids[chain[0]] == model.nodes[chain[0]].id);
            lemma_widest(model, registry@, ids, depth, model.nodes[chain[0]].id);
        }
        if depth > 0 {
            let k = lemma_widest_is_one(model, registry@, ids, depth);
            let widest = lemma_chain_reaches(model, registry@, k, depth);
            assert(ids[k] == model.nodes[k].id);
            assert(is_chain(model, widest));
        }
    }
}

/// The radius by which invalidations spread is the one that effects read together, and none
/// where they read everywhere.
pub proof fn law_invalidations_spread_as_far_as_effects_read(
    document: StrokeDocument,
    registry: EffectRegistry,
    radius: u32,
    graph: EffectGraph,
    influence: EffectInfluence,
)
    requires
        document.well_formed(),
        graph.well_formed(),
        registry.well_formed(),
        graph@ == document@.effects,
        call_ensures(effect_radius, (&document, &registry), radius),
        call_ensures(EffectGraph::combined_influence, (&graph, &registry), influence),
    ensures
        match influence {
            EffectInfluence::Global => radius == 0,
            EffectInfluence::Local { radius_px } => radius == radius_px,
        },
{
}

/// The planes that a pass works on are those of the model and then those of every enabled
/// node with a known effect, in the order of the nodes: the ones of the node at a position
/// stand together.
pub proof fn law_passes_work_on_the_planes_of_enabled_nodes(
    model: PaintModelDescriptor,
    document: StrokeDocument,
    registry: EffectRegistry,
    planes: Vec<PaintPlaneDescriptor>,
    i: int,
)
    requires
        registry.well_formed(),
        call_ensures(work_planes, (&model, &document, &registry), planes),
        0 <= i < document@.effects.nodes.len(),
        document@.effects.nodes[i].enabled,
        registry@.contains_key(document@.effects.nodes[i].effect.0 as u64),
    ensures
        ({
            let own = registry@[document@.effects.nodes[i].effect.0 as u64].scratch_planes@;
            let base = model.scratch_planes@;
            &&& base.len() <= planes@.len()
            &&& planes@.take(base.len() as int) == base
            &&& exists|at: int|
                base.len() <= at && at + own.len() <= planes@.len() && #[trigger] planes@.skip(
                    at,
                ).take(own.len() as int) == own
        }),
{
    let graph = document@.effects;
    let base = model.scratch_planes@;
    let all = crate::maintenance::node_planes(graph, registry@, graph.nodes.len());
    let own = registry@[graph.nodes[i].effect.0 as u64].scratch_planes@;
    assert(planes@ == base + all);
    assert(planes@.take(base.len() as int) =~= base);
    let before = crate::maintenance::node_planes(graph, registry@, i as nat);
    let with = crate::maintenance::node_planes(graph, registry@, (i + 1) as nat);
    assert(with == before + own);
    lemma_planes_stay(graph, registry@, (i + 1) as nat, graph.nodes.len());
    let at = base.len() + before.len();
    assert forall|k: int| 0 <= k < own.len() implies planes@.skip(at as int).take(
        own.len() as int,
    )[k] == own[k] by {
        assert(planes@[at + k] == all[before.len() + k]);
        assert(all.take(with.len() as int)[before.len() + k] == with[before.len() + k]);
    }
    assert(planes@.skip(at as int).take(own.len() as int) =~= own);
}

/// The planes of earlier nodes stay where they are.
proof fn lemma_planes_stay(
    graph: EffectGraphModel,
    registry: Map<u64, EffectDescriptor>,
    few: nat,
    many: nat,
)
    requires
        few <= many,
    ensures
        ({
            let early = crate::maintenance::node_planes(graph, registry, few);
            let all = crate::maintenance::node_planes(graph, registry, many);
            early.len() <= all.len() && all.take(early.len() as int) == early
        }),
    decreases many - few,
{
    let early = crate::maintenance::node_planes(graph, registry, few);
    let all = crate::maintenance::node_planes(graph, registry, many);
    if few == many {
        assert(all.take(early.len() as int) =~= early);
    } else {
        lemma_planes_stay(graph, registry, few, (many - 1) as nat);
        let before = crate::maintenance::node_planes(graph, registry, (many - 1) as nat);
        assert(all.take(before.len() as int) =~= before);
        assert(all.take(early.len() as int) =~= before.take(early.len() as int));
    }
}

/// Nodes that read nothing run first, in the order of the nodes.
pub proof fn law_sources_run_first_and_in_order(
    graph: EffectGraph,
    order: Option<Vec<EffectNodeId>>,
    i: int,
    j: int,
)
    requires
        graph@.well_formed(),
        call_ensures(EffectGraph::topological_order, (&graph,), order),
        order is Some,
        0 <= i < graph@.nodes.len(),
        graph@.reads(graph@.nodes[i].id).len() == 0,
        0 <= j < graph@.nodes.len(),
        graph@.reads(graph@.nodes[j].id).len() > 0 || i < j,
    ensures
        exists|a: int, b: int|
            0 <= a < b < order->0@.len() && #[trigger] order->0@[a] == graph@.nodes[i].id
                && #[trigger] order->0@[b] == graph@.nodes[j].id,
{
    let model = graph@;
    let ids = order->0@;
    let all = model.node_ids();
    let keep = |id: EffectNodeId| model.reads(id).len() == 0;
    let sources = model.sources();
    assert(sources == all.filter(keep));
    let (first, second) = (model.nodes[i].id, model.nodes[j].id);
    assert(all[i] == first && all[j] == second);
    lemma_filter_places(all, keep);
    let a = choose|a: int| 0 <= a < sources.len() && #[trigger] sources[a] == first;
    assert(ids[a] == sources[a]) by {
        assert(ids.take(sources.len() as int) == sources);
        assert(ids.take(sources.len() as int)[a] == ids[a]);
    }
    assert(model.has_node(second));
    assert(ids.contains(second));
    if keep(second) {
        lemma_filter_order(all, keep, i, j);
        let (p, q) = choose|p: int, q: int|
            0 <= p < q < sources.len() && #[trigger] sources[p] == first && #[trigger] sources[q]
                == second;
        assert(ids.take(sources.len() as int)[p] == ids[p]);
        assert(ids.take(sources.len() as int)[q] == ids[q]);
        assert(ids[p] == first && ids[q] == second);
    } else {
        let b = choose|b: int| 0 <= b < ids.len() && ids[b] == second;
        if b < sources.len() {
            assert(ids.take(sources.len() as int)[b] == ids[b]);
            assert(keep(sources[b]));
        }
        assert(ids[a] == first && ids[b] == second);
    }
}

/// What a filter keeps is kept, and what it does not keep is not there.
proof fn lemma_filter_places(ids: Seq<EffectNodeId>, keep: spec_fn(EffectNodeId) -> bool)
    ensures
        forall|i: int|
            0 <= i < ids.len() && keep(#[trigger] ids[i]) ==> exists|a: int|
                0 <= a < ids.filter(keep).len() && #[trigger] ids.filter(keep)[a] == ids[i],
        forall|a: int| 0 <= a < ids.filter(keep).len() ==> keep(#[trigger] ids.filter(keep)[a]),
    decreases ids.len(),
{
    reveal(Seq::filter);
    if ids.len() > 0 {
        let front = ids.drop_last();
        lemma_filter_places(front, keep);
        let few = front.filter(keep);
        let all = ids.filter(keep);
        assert forall|i: int| 0 <= i < ids.len() && keep(#[trigger] ids[i]) implies exists|a: int|
            0 <= a < all.len() && #[trigger] all[a] == ids[i] by {
            if i < front.len() {
                assert(front[i] == ids[i]);
                let a = choose|a: int| 0 <= a < few.len() && #[trigger] few[a] == front[i];
                assert(all[a] == ids[i]);
            } else {
                assert(all[few.len() as int] == ids[i]);
            }
        }
    }
}

/// What a filter keeps stays in order.
proof fn lemma_filter_order(
    ids: Seq<EffectNodeId>,
    keep: spec_fn(EffectNodeId) -> bool,
    i: int,
    j: int,
)
    requires
        0 <= i < j < ids.len(),
        keep(ids[i]),
        keep(ids[j]),
    ensures
        exists|p: int, q: int|
            0 <= p < q < ids.filter(keep).len() && #[trigger] ids.filter(keep)[p] == ids[i]
                && #[trigger] ids.filter(keep)[q] == ids[j],
    decreases ids.len(),
{
    reveal(Seq::filter);
    let front = ids.drop_last();
    let few = front.filter(keep);
    let all = ids.filter(keep);
    if j < front.len() {
        lemma_filter_order(front, keep, i, j);
        let (p, q) = choose|p: int, q: int|
            0 <= p < q < few.len() && #[trigger] few[p] == front[i] && #[trigger] few[q]
                == front[j];
        assert(all[p] == ids[i] && all[q] == ids[j]);
    } else {
        lemma_filter_places(front, keep);
        assert(front[i] == ids[i]);
        let p = choose|p: int| 0 <= p < few.len() && #[trigger] few[p] == front[i];
        assert(all[p] == ids[i] && all[few.len() as int] == ids[j]);
    }
}

/// A graph is put together from parts exactly where no two nodes share an identity, what is
/// read is there, and nothing reads itself through others. It keeps its nodes and what they
/// read, and hands out identities that no node has.
pub proof fn law_graphs_are_put_together_from_sound_parts(
    revision: u64,
    next_node: u64,
    nodes: Vec<EffectNode>,
    dependencies: BTreeMap<u64, Vec<EffectNodeId>>,
    result: Result<EffectGraph, &'static str>,
    i: int,
)
    requires
        call_ensures(
            EffectGraph::from_persistence_parts,
            (revision, next_node, nodes, dependencies),
            result,
        ),
    ensures
        result matches Ok(graph) ==> {
            &&& graph@.nodes == crate::effects::node_models(nodes@)
            &&& graph@.dependencies == crate::effects::dependency_models(dependencies@)
            &&& graph@.next_node >= next_node
            &&& 0 <= i < nodes@.len() ==> nodes@[i].id.0 < graph@.next_node || nodes@[i].id.0
                == u64::MAX
            &&& graph@.revision >= 1
            &&& revision >= 1 ==> graph@.revision == revision
            &&& graph@.acyclic()
            &&& forall|a: int, b: int|
                0 <= a < b < nodes@.len() ==> (#[trigger] nodes@[a]).id != (
                #[trigger] nodes@[b]).id
        },
        (exists|a: int, b: int|
            0 <= a < b < nodes@.len() && (#[trigger] nodes@[a]).id == (#[trigger] nodes@[b]).id)
            ==> result is Err,
{
    let models = crate::effects::node_models(nodes@);
    crate::effects::lemma_identity_above(models);
    if result is Ok {
        let graph = result->Ok_0;
        if 0 <= i < nodes@.len() {
            assert(models[i] == nodes@[i]@);
        }
        assert forall|a: int, b: int| 0 <= a < b < nodes@.len() implies (
        #[trigger] nodes@[a]).id != (#[trigger] nodes@[b]).id by {
            assert(models[a] == nodes@[a]@ && models[b] == nodes@[b]@);
            assert(graph@.nodes[a].id != graph@.nodes[b].id);
        }
    }
}

/// The built-in effect changes nothing around a pixel and needs no memory.
pub proof fn law_the_built_in_effect_passes_through(descriptor: EffectDescriptor)
    requires
        call_ensures(pass_through_descriptor, (), descriptor),
    ensures
        descriptor.id.0 == 0,
        descriptor.influence == (EffectInfluence::Local { radius_px: 0 }),
        descriptor.scratch_planes@.len() == 0,
{
}

} // verus!
