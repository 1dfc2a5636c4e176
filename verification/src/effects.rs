//! Non-destructive effects: descriptors, the dependency graph of a document,
//! and the scratch memory that effect passes lease.
use crate::ordered::{ascending, lists, ordered_ids};
use crate::paint::PaintPlaneDescriptor;
use std::collections::{BTreeMap, BTreeSet};
use vstd::prelude::*;

verus! {

broadcast use vstd::laws_cmp::group_laws_cmp;

/// Identifier number of the production no-op effect, which exercises the same
/// graph and tile path as later blur.
pub const PASS_THROUGH_EFFECT_ID: u32 = 0;

/// Stable identity of a non-destructive canvas effect implementation.
#[derive(Clone, Copy, Debug, PartialEq, Eq, Hash, Structural)]
pub struct EffectId(pub u32);

/// Surface domain in which an effect operates.
#[derive(Clone, Copy, Debug, PartialEq, Eq, Structural)]
pub enum EffectDomain {
    /// Native material planes declared by the selected paint model.
    MaterialSurface,
    /// Premultiplied linear RGBA after paint-model display resolve.
    LinearDisplayRgba,
}

/// Spatial dependency used by tile invalidation and halo allocation.
#[derive(Clone, Copy, Debug, PartialEq, Eq, Structural)]
pub enum EffectInfluence {
    /// Each output pixel reads a bounded neighborhood.
    Local {
        /// Maximum read radius in physical pixels.
        radius_px: u32,
    },
    /// Output may depend on the complete surface.
    Global,
}

/// Descriptor consumed by the effect graph without knowing paint channels.
#[derive(Clone, Debug, PartialEq, Eq)]
pub struct EffectDescriptor {
    /// Stable effect implementation identifier.
    pub id: EffectId,
    /// Version persisted with effect parameters.
    pub implementation_version: u32,
    /// Native material or resolved display-color domain.
    pub domain: EffectDomain,
    /// Tile dependency expansion required by the effect.
    pub influence: EffectInfluence,
    /// Scratch planes leased while this effect executes.
    pub scratch_planes: Vec<PaintPlaneDescriptor>,
}

/// Registry boundary for pass-through, blur, drying, and later material effects.
pub struct EffectRegistry {
    effects: BTreeMap<u64, EffectDescriptor>,
}

impl View for EffectRegistry {
    type V = Map<u64, EffectDescriptor>;

    closed spec fn view(&self) -> Map<u64, EffectDescriptor> {
        self.effects@
    }
}

impl EffectRegistry {
    /// Every descriptor is filed under its own identifier.
    pub open spec fn well_formed(&self) -> bool {
        forall|key: u64| #[trigger] self@.contains_key(key) ==> self@[key].id.0 == key
    }

    /// Creates a registry without effects.
    pub fn new() -> (registry: Self)
        ensures
            registry.well_formed(),
            registry@ == Map::<u64, EffectDescriptor>::empty(),
    {
        EffectRegistry { effects: BTreeMap::new() }
    }

    /// Registers or replaces an effect implementation descriptor.
    pub fn register(&mut self, descriptor: EffectDescriptor)
        requires
            old(self).well_formed(),
        ensures
            final(self).well_formed(),
            final(self)@ == old(self)@.insert(descriptor.id.0 as u64, descriptor),
    {
        self.effects.insert(descriptor.id.0 as u64, descriptor);
    }

    /// Returns the descriptor for `id`.
    pub fn get(&self, id: EffectId) -> (descriptor: Option<&EffectDescriptor>)
        requires
            self.well_formed(),
        ensures
            match descriptor {
                Some(found) => self@.contains_key(id.0 as u64) && self@[id.0 as u64] == *found
                    && found.id == id,
                None => !self@.contains_key(id.0 as u64),
            },
    {
        let key: u64 = id.0 as u64;
        self.effects.get(&key)
    }

    /// Lists the registered effect implementations by ascending identifier.
    pub fn iter(&self) -> (descriptors: Vec<&EffectDescriptor>)
        ensures
            descriptors@ == ascending(self@.dom()).map_values(|key: u64| &self@[key]),
            lists(ascending(self@.dom()), self@.dom()),
    {
        let keys = ordered_ids(&self.effects);
        let mut descriptors: Vec<&EffectDescriptor> = Vec::new();
        for i in 0..keys.len()
            invariant
                lists(keys@, self@.dom()),
                descriptors@ == keys@.take(i as int).map_values(|key: u64| &self@[key]),
        {
            assert(keys@.contains(keys@[i as int]));
            assert(self@.dom().contains(keys@[i as int]));
            match self.effects.get(&keys[i]) {
                Some(found) => descriptors.push(found),
                None => {},
            }
            assert(descriptors@ =~= keys@.take(i + 1).map_values(|key: u64| &self@[key]));
        }
        assert(keys@.take(keys@.len() as int) =~= keys@);
        descriptors
    }
}

impl Default for EffectRegistry {
    fn default() -> (registry: Self)
        ensures
            registry.well_formed(),
            registry@ == Map::<u64, EffectDescriptor>::empty(),
    {
        EffectRegistry::new()
    }
}

/// Descriptor of the production no-op effect.
pub fn pass_through_descriptor() -> (descriptor: EffectDescriptor)
    ensures
        descriptor.id == EffectId(PASS_THROUGH_EFFECT_ID),
        descriptor.implementation_version == 1,
        descriptor.domain == EffectDomain::LinearDisplayRgba,
        descriptor.influence == (EffectInfluence::Local { radius_px: 0 }),
        descriptor.scratch_planes@.len() == 0,
{
    EffectDescriptor {
        id: EffectId(PASS_THROUGH_EFFECT_ID),
        implementation_version: 1,
        domain: EffectDomain::LinearDisplayRgba,
        influence: EffectInfluence::Local { radius_px: 0 },
        scratch_planes: Vec::new(),
    }
}

/// Stable identity of one configured effect node in a document.
#[derive(Clone, Copy, Debug, PartialEq, Eq, Hash, Structural)]
pub struct EffectNodeId(pub u64);

/// Versioned document record for one non-destructive effect invocation.
#[derive(Debug, PartialEq, Eq)]
pub struct EffectNode {
    /// Identity used by dependency edges.
    pub id: EffectNodeId,
    /// Registered effect implementation.
    pub effect: EffectId,
    /// Implementation version persisted with the document.
    pub implementation_version: u32,
    /// Disabled nodes stay serializable but do not influence invalidation.
    pub enabled: bool,
    /// Versioned, implementation-owned non-destructive parameters.
    pub parameters: Vec<u8>,
}

/// Mathematical value of an [`EffectNode`].
#[verifier::ext_equal]
pub struct EffectNodeModel {
    pub id: EffectNodeId,
    pub effect: EffectId,
    pub implementation_version: u32,
    pub enabled: bool,
    pub parameters: Seq<u8>,
}

impl View for EffectNode {
    type V = EffectNodeModel;

    open spec fn view(&self) -> EffectNodeModel {
        EffectNodeModel {
            id: self.id,
            effect: self.effect,
            implementation_version: self.implementation_version,
            enabled: self.enabled,
            parameters: self.parameters@,
        }
    }
}

impl Clone for EffectNode {
    fn clone(&self) -> (copy: Self)
        ensures
            copy@ == self@,
    {
        EffectNode {
            id: self.id,
            effect: self.effect,
            implementation_version: self.implementation_version,
            enabled: self.enabled,
            parameters: copy_bytes(&self.parameters),
        }
    }
}

impl EffectNode {
    /// Whether two nodes agree in every field.
    pub fn same_as(&self, other: &EffectNode) -> (same: bool)
        ensures
            same == (self@ == other@),
    {
        self.id == other.id && self.effect == other.effect && self.implementation_version
            == other.implementation_version && self.enabled == other.enabled && same_bytes(
            &self.parameters,
            &other.parameters,
        )
    }
}

/// Copies a byte sequence.
pub fn copy_bytes(bytes: &Vec<u8>) -> (copy: Vec<u8>)
    ensures
        copy@ == bytes@,
{
    let mut copy: Vec<u8> = Vec::with_capacity(bytes.len());
    for i in 0..bytes.len()
        invariant
            copy@ == bytes@.take(i as int),
    {
        copy.push(bytes[i]);
        assert(copy@ =~= bytes@.take(i + 1));
    }
    assert(copy@ =~= bytes@);
    copy
}

/// Whether two byte sequences are equal.
pub fn same_bytes(a: &Vec<u8>, b: &Vec<u8>) -> (same: bool)
    ensures
        same == (a@ == b@),
{
    if a.len() != b.len() {
        return false;
    }
    for i in 0..a.len()
        invariant
            a@.len() == b@.len(),
            forall|j: int| 0 <= j < i ==> a@[j] == b@[j],
    {
        if a[i] != b[i] {
            return false;
        }
    }
    assert(a@ =~= b@);
    true
}

/// The nodes of a node list, as values.
pub open spec fn node_models(nodes: Seq<EffectNode>) -> Seq<EffectNodeModel> {
    nodes.map_values(|node: EffectNode| node@)
}

/// Whether two node lists hold the same nodes in the same order.
pub fn same_nodes(a: &Vec<EffectNode>, b: &Vec<EffectNode>) -> (same: bool)
    ensures
        same == (node_models(a@) == node_models(b@)),
{
    if a.len() != b.len() {
        assert(node_models(a@).len() != node_models(b@).len());
        return false;
    }
    for i in 0..a.len()
        invariant
            a@.len() == b@.len(),
            forall|j: int| 0 <= j < i ==> a@[j]@ == b@[j]@,
    {
        if !a[i].same_as(&b[i]) {
            assert(node_models(a@)[i as int] != node_models(b@)[i as int]);
            return false;
        }
    }
    assert(node_models(a@) =~= node_models(b@));
    true
}

/// Whether one of the first `count` entries of `ids` is `id`.
pub open spec fn among_first(ids: Seq<EffectNodeId>, count: int, id: EffectNodeId) -> bool {
    exists|j: int| 0 <= j < count && j < ids.len() && #[trigger] ids[j] == id
}

/// Mathematical value of an [`EffectGraph`].
#[verifier::ext_equal]
pub struct EffectGraphModel {
    /// Revision used to invalidate derived effect surfaces.
    pub revision: u64,
    /// Identity that the next added node receives.
    pub next_node: u64,
    /// Configured nodes in document order.
    pub nodes: Seq<EffectNodeModel>,
    /// For each node that ever had dependencies, the nodes it reads from.
    pub dependencies: Map<u64, Seq<EffectNodeId>>,
}

impl EffectGraphModel {
    /// The graph of a new document: the no-op effect alone.
    pub open spec fn initial() -> Self {
        EffectGraphModel {
            revision: 1,
            next_node: 1,
            nodes: seq![
                EffectNodeModel {
                    id: EffectNodeId(0),
                    effect: EffectId(PASS_THROUGH_EFFECT_ID),
                    implementation_version: 1,
                    enabled: true,
                    parameters: Seq::empty(),
                },
            ],
            dependencies: Map::empty(),
        }
    }

    /// Whether some node carries the identity.
    pub open spec fn has_node(self, id: EffectNodeId) -> bool {
        exists|i: int| 0 <= i < self.nodes.len() && (#[trigger] self.nodes[i]).id == id
    }

    /// The nodes that `id` reads from.
    pub open spec fn reads(self, id: EffectNodeId) -> Seq<EffectNodeId> {
        if self.dependencies.contains_key(id.0) {
            self.dependencies[id.0]
        } else {
            Seq::empty()
        }
    }

    /// No two nodes share an identity.
    pub open spec fn distinct_nodes(self) -> bool {
        forall|i: int, j: int|
            0 <= i < j < self.nodes.len() ==> (#[trigger] self.nodes[i]).id != (
            #[trigger] self.nodes[j]).id
    }

    /// Every edge joins two nodes of the graph.
    pub open spec fn known_dependencies(self) -> bool {
        &&& forall|key: u64| #[trigger]
            self.dependencies.contains_key(key) ==> self.has_node(EffectNodeId(key))
        &&& forall|key: u64, k: int|
            self.dependencies.contains_key(key) && 0 <= k < self.dependencies[key].len()
                ==> self.has_node(#[trigger] self.dependencies[key][k])
    }

    /// The next identity is above all others, unless the largest of all is taken.
    pub open spec fn counter_ahead(self) -> bool {
        self.has_node(EffectNodeId(u64::MAX)) || forall|i: int|
            0 <= i < self.nodes.len() ==> (#[trigger] self.nodes[i]).id.0 < self.next_node
    }

    /// Node identities are unique, edges join nodes of the graph, and the next
    /// identity is above all others.
    pub open spec fn well_formed(self) -> bool {
        self.distinct_nodes() && self.known_dependencies() && self.counter_ahead()
    }

    /// Whether `level` places every node above all the nodes it reads from.
    pub open spec fn levelled_by(self, level: spec_fn(EffectNodeId) -> nat) -> bool {
        forall|id: EffectNodeId, k: int|
            0 <= k < self.reads(id).len() ==> level(#[trigger] self.reads(id)[k]) < level(id)
    }

    /// No node reads from itself, directly or through others.
    pub open spec fn acyclic(self) -> bool {
        exists|level: spec_fn(EffectNodeId) -> nat| self.levelled_by(level)
    }

    /// The graph with `dependency -> node` added.
    pub open spec fn with_edge(self, node: EffectNodeId, dependency: EffectNodeId) -> Self {
        EffectGraphModel {
            dependencies: self.dependencies.insert(node.0, self.reads(node).push(dependency)),
            ..self
        }
    }

    /// The graph after a dependency was asked for: with the edge where both nodes are
    /// known, it is new and closes no cycle. Where it would close one, the node is
    /// left with the dependencies that it had.
    pub open spec fn with_dependency(self, node: EffectNodeId, dependency: EffectNodeId) -> Self {
        if !self.has_node(node) || !self.has_node(dependency) || node == dependency || self.reads(
            node,
        ).contains(dependency) {
            self
        } else if self.with_edge(node, dependency).acyclic() {
            EffectGraphModel {
                revision: self.revision.wrapping_add(1),
                ..self.with_edge(node, dependency)
            }
        } else {
            EffectGraphModel {
                dependencies: self.dependencies.insert(node.0, self.reads(node)),
                ..self
            }
        }
    }

    /// Whether two graphs have the same nodes, and each of them reads the same.
    pub open spec fn same_structure(self, other: Self) -> bool {
        &&& self.nodes == other.nodes
        &&& forall|id: EffectNodeId| #[trigger] self.reads(id) == other.reads(id)
    }

    /// The graph with one more enabled node, which reads from nothing.
    pub open spec fn with_node(
        self,
        effect: EffectId,
        implementation_version: u32,
        parameters: Seq<u8>,
    ) -> Self {
        EffectGraphModel {
            revision: self.revision.wrapping_add(1),
            next_node: self.next_node.wrapping_add(1),
            nodes: self.nodes.push(
                EffectNodeModel {
                    id: EffectNodeId(self.next_node),
                    effect,
                    implementation_version,
                    enabled: true,
                    parameters,
                },
            ),
            ..self
        }
    }

    /// The graph with the named node switched on or off.
    pub open spec fn with_enabled(self, id: EffectNodeId, enabled: bool) -> Self {
        let nodes = self.nodes.map_values(
            |node: EffectNodeModel|
                if node.id == id {
                    EffectNodeModel { enabled, ..node }
                } else {
                    node
                },
        );
        EffectGraphModel {
            revision: if nodes == self.nodes { self.revision } else {
                self.revision.wrapping_add(1)
            },
            nodes,
            ..self
        }
    }

    /// Whether node `i` is enabled and its effect is registered.
    pub open spec fn participates(self, registry: Map<u64, EffectDescriptor>, i: int) -> bool {
        &&& 0 <= i < self.nodes.len()
        &&& self.nodes[i].enabled
        &&& registry.contains_key(self.nodes[i].effect.0 as u64)
    }

    /// Influence that the registered effect of node `i` declares.
    pub open spec fn node_influence(
        self,
        registry: Map<u64, EffectDescriptor>,
        i: int,
    ) -> EffectInfluence {
        registry[self.nodes[i].effect.0 as u64].influence
    }

    /// Smallest identity above all node identities, as far as the counter reaches.
    pub open spec fn identity_above(nodes: Seq<EffectNodeModel>) -> u64
        decreases nodes.len(),
    {
        if nodes.len() == 0 {
            1
        } else {
            let last = nodes.last().id.0.saturating_add(1);
            if nodes.len() == 1 {
                last
            } else {
                let before = Self::identity_above(nodes.drop_last());
                if before < last { last } else { before }
            }
        }
    }

    /// Identities of the nodes that read from no other node, in document order.
    pub open spec fn sources(self) -> Seq<EffectNodeId> {
        self.nodes.map_values(|node: EffectNodeModel| node.id).filter(
            |id: EffectNodeId| self.reads(id).len() == 0,
        )
    }

    /// Whether all that a node reads from stands among the first `next` of a queue.
    pub open spec fn reads_among(
        self,
        queue: Seq<EffectNodeId>,
        next: int,
        id: EffectNodeId,
    ) -> bool {
        forall|k: int|
            0 <= k < self.reads(id).len() ==> among_first(
                queue,
                next,
                #[trigger] self.reads(id)[k],
            )
    }

    /// Tells the nodes outside a queue that need only its first `next` entries.
    pub open spec fn becomes_ready(self, queue: Seq<EffectNodeId>, next: int) -> spec_fn(
        EffectNodeId,
    ) -> bool {
        |id: EffectNodeId| !queue.contains(id) && self.reads_among(queue, next, id)
    }

    /// Nodes outside a queue that need only its first `next` entries, in document
    /// order.
    pub open spec fn readied(self, queue: Seq<EffectNodeId>, next: int) -> Seq<EffectNodeId> {
        self.nodes.map_values(|node: EffectNodeModel| node.id).filter(
            self.becomes_ready(queue, next),
        )
    }

    /// A queue continued: each entry in turn is followed, at the end of the queue,
    /// by the nodes that it makes ready.
    pub open spec fn continued(self, queue: Seq<EffectNodeId>, next: nat) -> Seq<EffectNodeId>
        decreases self.nodes.len() - next,
    {
        if next >= queue.len() || next >= self.nodes.len() {
            queue
        } else {
            self.continued(queue + self.readied(queue, (next + 1) as int), next + 1)
        }
    }

    /// The topological order of an acyclic graph: nodes that read from nothing
    /// first, then the others as soon as they are ready, ties in document order.
    pub open spec fn stable_order(self) -> Seq<EffectNodeId> {
        self.continued(self.sources(), 0)
    }

    /// Whether `order` is a topological order: every node once, each after all
    /// that it reads from, those that read from nothing first and in document
    /// order.
    pub open spec fn ordered_by(self, order: Seq<EffectNodeId>) -> bool {
        &&& order.no_duplicates()
        &&& order.len() == self.nodes.len()
        &&& forall|id: EffectNodeId| #[trigger] order.contains(id) <==> self.has_node(id)
        &&& forall|i: int, k: int|
            0 <= i < order.len() && 0 <= k < self.reads(order[i]).len() ==> among_first(
                order,
                i,
                #[trigger] self.reads(order[i])[k],
            )
        &&& self.sources().is_prefix_of(order)
    }
}

/// Ordered dependency graph for material and display-surface effects.
#[derive(Debug)]
pub struct EffectGraph {
    revision: u64,
    next_node: u64,
    nodes: Vec<EffectNode>,
    dependencies: BTreeMap<u64, Vec<EffectNodeId>>,
}

/// The dependency lists of a map, as values.
pub open spec fn dependency_models(dependencies: Map<u64, Vec<EffectNodeId>>) -> Map<
    u64,
    Seq<EffectNodeId>,
> {
    dependencies.map_values(|list: Vec<EffectNodeId>| list@)
}

impl View for EffectGraph {
    type V = EffectGraphModel;

    closed spec fn view(&self) -> EffectGraphModel {
        EffectGraphModel {
            revision: self.revision,
            next_node: self.next_node,
            nodes: node_models(self.nodes@),
            dependencies: dependency_models(self.dependencies@),
        }
    }
}

/// A node of an unordered remainder, each of whose members reads from another
/// member, contradicts every levelling.
proof fn lemma_no_level_below(
    graph: EffectGraphModel,
    level: spec_fn(EffectNodeId) -> nat,
    rest: Set<EffectNodeId>,
    id: EffectNodeId,
)
    requires
        rest.contains(id),
        forall|member: EffectNodeId| #[trigger]
            rest.contains(member) ==> exists|k: int|
                0 <= k < graph.reads(member).len() && rest.contains(
                    #[trigger] graph.reads(member)[k],
                ),
    ensures
        !graph.levelled_by(level),
    decreases level(id),
{
    if graph.levelled_by(level) {
        let k = choose|k: int|
            0 <= k < graph.reads(id).len() && rest.contains(#[trigger] graph.reads(id)[k]);
        lemma_no_level_below(graph, level, rest, graph.reads(id)[k]);
    }
}

/// The identity above all others is above each of them that is not the largest.
pub proof fn lemma_identity_above(nodes: Seq<EffectNodeModel>)
    ensures
        forall|i: int|
            0 <= i < nodes.len() ==> (#[trigger] nodes[i]).id.0 < EffectGraphModel::identity_above(
                nodes,
            ) || nodes[i].id.0 == u64::MAX,
    decreases nodes.len(),
{
    if nodes.len() > 0 {
        let front = nodes.drop_last();
        lemma_identity_above(front);
        assert forall|i: int| 0 <= i < nodes.len() implies (#[trigger] nodes[i]).id.0
            < EffectGraphModel::identity_above(nodes) || nodes[i].id.0 == u64::MAX by {
            if i < front.len() {
                assert(front[i] == nodes[i]);
            }
        }
    }
}

/// A graph with a topological order is acyclic.
proof fn lemma_ordered_is_acyclic(graph: EffectGraphModel, order: Seq<EffectNodeId>)
    requires
        graph.well_formed(),
        graph.ordered_by(order),
    ensures
        graph.acyclic(),
{
    let level = |id: EffectNodeId|
        if order.contains(id) { order.index_of(id) as nat } else { 0nat };
    assert forall|id: EffectNodeId, k: int| 0 <= k < graph.reads(id).len() implies level(
        #[trigger] graph.reads(id)[k],
    ) < level(id) by {
        assert(graph.dependencies.contains_key(id.0));
        assert(graph.has_node(EffectNodeId(id.0)));
        assert(order.contains(id));
        let i = order.index_of(id);
        assert(order[i] == id);
        assert(among_first(order, i, graph.reads(order[i])[k]));
        let j = choose|j: int|
            0 <= j < i && j < order.len() && #[trigger] order[j] == graph.reads(order[i])[k];
        assert(order.contains(order[j]));
        assert(order.index_of(order[j]) == j);
    }
    assert(graph.levelled_by(level));
}

impl EffectGraph {
    /// Node identities are unique, edges join nodes of the graph, and no node
    /// reads from itself through any path.
    pub open spec fn well_formed(&self) -> bool {
        self@.well_formed() && self@.acyclic()
    }

    /// Revision used to invalidate derived effect surfaces.
    pub fn revision(&self) -> (revision: u64)
        ensures
            revision == self@.revision,
    {
        self.revision
    }

    /// Configured nodes in stable document order.
    pub fn nodes(&self) -> (nodes: &Vec<EffectNode>)
        ensures
            node_models(nodes@) == self@.nodes,
    {
        &self.nodes
    }

    /// The nodes that a node reads from, where it ever read from any.
    pub(crate) fn reads(&self, id: EffectNodeId) -> (list: Option<&Vec<EffectNodeId>>)
        ensures
            match list {
                Some(list) => list@ == self@.reads(id) && self@.dependencies.contains_key(id.0),
                None => self@.reads(id).len() == 0 && !self@.dependencies.contains_key(id.0),
            },
    {
        self.dependencies.get(&id.0)
    }

    fn contains(&self, id: EffectNodeId) -> (found: bool)
        ensures
            found == self@.has_node(id),
    {
        for i in 0..self.nodes.len()
            invariant
                forall|j: int| 0 <= j < i ==> self@.nodes[j].id != id,
        {
            if self.nodes[i].id == id {
                assert(self@.nodes[i as int].id == id);
                return true;
            }
        }
        false
    }

    fn all_reads_done(&self, id: EffectNodeId, done: &BTreeSet<u64>) -> (all: bool)
        ensures
            all == forall|k: int|
                0 <= k < self@.reads(id).len() ==> done@.contains(
                    (#[trigger] self@.reads(id)[k]).0,
                ),
    {
        match self.reads(id) {
            None => true,
            Some(list) => {
                for k in 0..list.len()
                    invariant
                        list@ == self@.reads(id),
                        forall|j: int|
                            0 <= j < k ==> done@.contains((#[trigger] self@.reads(id)[j]).0),
                {
                    if !done.contains(&list[k].0) {
                        assert(!done@.contains(self@.reads(id)[k as int].0));
                        return false;
                    }
                }
                true
            },
        }
    }

    /// Stable topological order, or `None` when the graph contains a cycle.
    pub fn topological_order(&self) -> (order: Option<Vec<EffectNodeId>>)
        requires
            self@.well_formed(),
        ensures
            order is Some <==> self@.acyclic(),
            order matches Some(ids) ==> self@.ordered_by(ids@) && ids@ == self@.stable_order(),
    {
        let ghost graph = self@;
        let ghost all = graph.nodes.map_values(|node: EffectNodeModel| node.id);
        let mut queue: Vec<EffectNodeId> = Vec::new();
        let mut placed: Vec<bool> = Vec::new();
        for i in 0..self.nodes.len()
            invariant
                graph == self@,
                graph.well_formed(),
                placed@.len() == i,
                queue@ == graph.nodes.take(i as int).map_values(
                    |node: EffectNodeModel| node.id,
                ).filter(|id: EffectNodeId| graph.reads(id).len() == 0),
                forall|j: int|
                    0 <= j < i ==> (#[trigger] placed@[j] <==> graph.reads(
                        graph.nodes[j].id,
                    ).len() == 0),
        {
            let id = self.nodes[i].id;
            let ready = match self.reads(id) {
                Some(list) => list.len() == 0,
                None => true,
            };
            proof {
                let before = graph.nodes.take(i as int).map_values(
                    |node: EffectNodeModel| node.id,
                );
                let after = graph.nodes.take(i + 1).map_values(|node: EffectNodeModel| node.id);
                assert(after =~= before.push(id));
                assert(after.drop_last() =~= before);
                reveal(Seq::filter);
            }
            if ready {
                queue.push(id);
            }
            placed.push(ready);
        }
        proof {
            assert(graph.nodes.take(graph.nodes.len() as int) =~= graph.nodes);
        }
        assert(queue@ == graph.sources());
        proof {
            lemma_sources(graph, placed@);
        }
        let mut done: BTreeSet<u64> = BTreeSet::new();
        let mut next: usize = 0;
        while next < queue.len()
            invariant
                graph == self@,
                all == graph.nodes.map_values(|node: EffectNodeModel| node.id),
                placed@.len() == graph.nodes.len(),
                partial_order(graph, queue@, placed@, next as int, done@),
                graph.continued(queue@, next as nat) == graph.stable_order(),
            decreases graph.nodes.len() - next,
        {
            proof {
                lemma_partial_order_fits(graph, queue@, placed@, next as int, done@);
            }
            let id = queue[next];
            let ghost done_before = done@;
            let ghost settled = queue@;
            done.insert(id.0);
            next = next + 1;
            let ghost wanted = graph.becomes_ready(settled, next as int);
            proof {
                lemma_advance(graph, queue@, next - 1, done_before);
                reveal(Seq::filter);
                assert(all.take(0) =~= Seq::<EffectNodeId>::empty());
                assert(queue@ =~= settled + all.take(0).filter(wanted));
            }
            for i in 0..self.nodes.len()
                invariant
                    graph == self@,
                    all == graph.nodes.map_values(|node: EffectNodeModel| node.id),
                    next <= settled.len(),
                    wanted == graph.becomes_ready(settled, next as int),
                    queue@ == settled + all.take(i as int).filter(wanted),
                    placed@.len() == graph.nodes.len(),
                    0 < next <= queue@.len(),
                    placed_nodes(graph, queue@, placed@),
                    done_prefix(queue@, next as int, done@),
                    reads_precede(graph, queue@, next as int),
                    graph.sources().is_prefix_of(queue@),
                    graph.well_formed(),
                    forall|j: int|
                        0 <= j < i && !#[trigger] placed@[j] ==> !reads_within(
                            graph,
                            graph.nodes[j].id,
                            done@,
                        ),
            {
                let node = self.nodes[i].id;
                proof {
                    lemma_readiness(graph, settled, queue@, placed@, next as int, done@, i as int);
                    assert(all.take(i + 1) =~= all.take(i as int).push(node));
                    assert(all.take(i + 1).drop_last() =~= all.take(i as int));
                    reveal(Seq::filter);
                }
                if !placed[i] && self.all_reads_done(node, &done) {
                    let ghost before = queue@;
                    let ghost placed_before = placed@;
                    placed.set(i, true);
                    queue.push(node);
                    proof {
                        lemma_place(graph, before, placed_before, next as int, done@, i as int);
                        assert forall|j: int| 0 <= j < i + 1 && !#[trigger] placed@[j] implies !reads_within(
                            graph,
                            graph.nodes[j].id,
                            done@,
                        ) by {
                            assert(!placed_before[j]);
                        }
                        assert(queue@ =~= settled + all.take(i + 1).filter(wanted));
                    }
                }
            }
            proof {
                assert(all.take(all.len() as int) =~= all);
                assert(queue@ == settled + graph.readied(settled, next as int));
            }
        }
        if queue.len() == self.nodes.len() {
            proof {
                lemma_complete_order(graph, queue@, placed@, done@);
                lemma_ordered_is_acyclic(graph, queue@);
            }
            Some(queue)
        } else {
            proof {
                lemma_stuck_order(graph, queue@, placed@, done@);
            }
            None
        }
    }

    /// The parts a saved document keeps: revision, identity counter, nodes and
    /// dependency lists.
    pub fn persistence_parts(&self) -> (parts: (
        u64,
        u64,
        &Vec<EffectNode>,
        &BTreeMap<u64, Vec<EffectNodeId>>,
    ))
        ensures
            parts.0 == self@.revision,
            parts.1 == self@.next_node,
            node_models(parts.2@) == self@.nodes,
            dependency_models(parts.3@) == self@.dependencies,
    {
        (self.revision, self.next_node, &self.nodes, &self.dependencies)
    }

    fn has_repeated_node(nodes: &Vec<EffectNode>) -> (repeated: bool)
        ensures
            repeated == exists|i: int, j: int|
                0 <= i < j < nodes@.len() && (#[trigger] nodes@[i]).id == (
                #[trigger] nodes@[j]).id,
    {
        let mut seen: BTreeSet<u64> = BTreeSet::new();
        for j in 0..nodes.len()
            invariant
                forall|raw: u64| #[trigger]
                    seen@.contains(raw) <==> exists|i: int|
                        0 <= i < j && (#[trigger] nodes@[i]).id.0 == raw,
                forall|a: int, b: int|
                    0 <= a < b < j ==> (#[trigger] nodes@[a]).id != (#[trigger] nodes@[b]).id,
        {
            if !seen.insert(nodes[j].id.0) {
                let ghost i = choose|i: int|
                    0 <= i < j && (#[trigger] nodes@[i]).id.0 == nodes@[j as int].id.0;
                assert(nodes@[i].id == nodes@[j as int].id);
                return true;
            }
            assert forall|a: int| 0 <= a < j implies (#[trigger] nodes@[a]).id != nodes@[
                j as int
            ].id by {
                assert(nodes@[a].id.0 != nodes@[j as int].id.0);
            }
        }
        false
    }

    fn has_unknown_dependency(&self) -> (unknown: bool)
        ensures
            unknown == !self@.known_dependencies(),
    {
        let keys = ordered_ids(&self.dependencies);
        for n in 0..keys.len()
            invariant
                lists(keys@, self.dependencies@.dom()),
                forall|m: int| 0 <= m < n ==> self@.has_node(EffectNodeId(#[trigger] keys@[m])),
                forall|m: int, k: int|
                    0 <= m < n && 0 <= k < self@.dependencies[keys@[m]].len() ==> self@.has_node(
                        #[trigger] self@.dependencies[keys@[m]][k],
                    ),
        {
            assert(keys@.contains(keys@[n as int]));
            assert(self.dependencies@.dom().contains(keys@[n as int]));
            let key: u64 = keys[n];
            assert(self@.dependencies.contains_key(key));
            if !self.contains(EffectNodeId(key)) {
                return true;
            }
            match self.dependencies.get(&key) {
                None => {},
                Some(list) => {
                    for k in 0..list.len()
                        invariant
                            self@.dependencies.contains_key(key),
                            list@ == self@.dependencies[key],
                            forall|j: int|
                                0 <= j < k ==> self@.has_node(
                                    #[trigger] self@.dependencies[key][j],
                                ),
                    {
                        if !self.contains(list[k]) {
                            assert(!self@.has_node(self@.dependencies[key][k as int]));
                            return true;
                        }
                    }
                },
            }
        }
        proof {
            assert forall|key: u64| #[trigger]
                self@.dependencies.contains_key(key) implies self@.has_node(
                EffectNodeId(key),
            ) && (forall|k: int|
                0 <= k < self@.dependencies[key].len() ==> self@.has_node(
                    #[trigger] self@.dependencies[key][k],
                )) by {
                assert(self.dependencies@.dom().contains(key));
                let m = choose|m: int| 0 <= m < keys@.len() && keys@[m] == key;
                assert(self@.has_node(EffectNodeId(keys@[m])));
            }
        }
        false
    }

    /// Rebuilds a graph from the parts of a saved document.
    pub fn from_persistence_parts(
        revision: u64,
        next_node: u64,
        nodes: Vec<EffectNode>,
        dependencies: BTreeMap<u64, Vec<EffectNodeId>>,
    ) -> (result: Result<Self, &'static str>)
        ensures
            ({
                let graph = EffectGraphModel {
                    revision: if revision == 0 { 1 } else { revision },
                    next_node: {
                        let above = EffectGraphModel::identity_above(node_models(nodes@));
                        if next_node < above { above } else { next_node }
                    },
                    nodes: node_models(nodes@),
                    dependencies: dependency_models(dependencies@),
                };
                if !graph.distinct_nodes() {
                    &&& result matches Err(message)
                    &&& message@ == "effect graph contains duplicate node ids"@
                } else if !graph.known_dependencies() {
                    &&& result matches Err(message)
                    &&& message@ == "effect graph contains an unknown dependency id"@
                } else if !graph.acyclic() {
                    &&& result matches Err(message)
                    &&& message@ == "effect graph contains a cycle"@
                } else {
                    &&& result matches Ok(restored)
                    &&& restored.well_formed()
                    &&& restored@ == graph
                }
            }),
    {
        let mut above: u64 = 1;
        for i in 0..nodes.len()
            invariant
                above == EffectGraphModel::identity_above(node_models(nodes@).take(i as int)),
        {
            let next: u64 = nodes[i].id.0.saturating_add(1);
            proof {
                let longer = node_models(nodes@).take(i + 1);
                assert(longer.drop_last() =~= node_models(nodes@).take(i as int));
                assert(longer.last() == nodes@[i as int]@);
            }
            if i == 0 || above < next {
                above = next;
            }
        }
        assert(node_models(nodes@).take(nodes@.len() as int) =~= node_models(nodes@));
        let graph = EffectGraph {
            revision: if revision == 0 { 1 } else { revision },
            next_node: if next_node < above { above } else { next_node },
            nodes,
            dependencies,
        };
        if Self::has_repeated_node(&graph.nodes) {
            proof {
                let (i, j) = choose|i: int, j: int|
                    0 <= i < j < graph.nodes@.len() && (#[trigger] graph.nodes@[i]).id == (
                    #[trigger] graph.nodes@[j]).id;
                assert(graph@.nodes[i].id == graph@.nodes[j].id);
            }
            return Err("effect graph contains duplicate node ids");
        }
        proof {
            assert forall|i: int, j: int| 0 <= i < j < graph@.nodes.len() implies (
            #[trigger] graph@.nodes[i]).id != (#[trigger] graph@.nodes[j]).id by {
                assert(graph.nodes@[i].id != graph.nodes@[j].id);
            }
        }
        proof {
            lemma_identity_above(graph@.nodes);
            if !graph@.has_node(EffectNodeId(u64::MAX)) {
                assert forall|i: int| 0 <= i < graph@.nodes.len() implies (
                #[trigger] graph@.nodes[i]).id.0 < graph@.next_node by {
                    assert(graph@.nodes[i].id != EffectNodeId(u64::MAX));
                }
            }
        }
        if graph.has_unknown_dependency() {
            return Err("effect graph contains an unknown dependency id");
        }
        if graph.topological_order().is_none() {
            return Err("effect graph contains a cycle");
        }
        Ok(graph)
    }

    /// Appends a registered node and returns its document identity.
    pub fn add_node(&mut self, effect: EffectId, implementation_version: u32) -> (id: EffectNodeId)
        requires
            old(self).well_formed(),
            old(self)@.has_node(EffectNodeId(u64::MAX)) ==> !old(self)@.has_node(
                EffectNodeId(old(self)@.next_node),
            ),
        ensures
            final(self).well_formed(),
            id == EffectNodeId(old(self)@.next_node),
            final(self)@ == old(self)@.with_node(effect, implementation_version, Seq::empty()),
    {
        self.add_node_with_parameters(effect, implementation_version, Vec::new())
    }

    /// Appends a registered node with persisted implementation parameters.
    pub fn add_node_with_parameters(
        &mut self,
        effect: EffectId,
        implementation_version: u32,
        parameters: Vec<u8>,
    ) -> (id: EffectNodeId)
        requires
            old(self).well_formed(),
            old(self)@.has_node(EffectNodeId(u64::MAX)) ==> !old(self)@.has_node(
                EffectNodeId(old(self)@.next_node),
            ),
        ensures
            final(self).well_formed(),
            id == EffectNodeId(old(self)@.next_node),
            final(self)@ == old(self)@.with_node(effect, implementation_version, parameters@),
    {
        let ghost before = self@;
        assert(!before.has_node(EffectNodeId(before.next_node)));
        let id = EffectNodeId(self.next_node);
        self.next_node = self.next_node.wrapping_add(1);
        self.nodes.push(
            EffectNode { id, effect, implementation_version, enabled: true, parameters },
        );
        self.revision = self.revision.wrapping_add(1);
        proof {
            assert(self@.nodes =~= before.nodes.push(self@.nodes.last()));
            lemma_node_added(before, self@);
        }
        id
    }

    /// Adds a `dependency -> node` edge, rejecting cycles and unknown nodes.
    pub fn add_dependency(
        &mut self,
        node: EffectNodeId,
        dependency: EffectNodeId,
    ) -> (result: Result<(), &'static str>)
        requires
            old(self).well_formed(),
        ensures
            final(self).well_formed(),
            ({
                let graph = old(self)@;
                if !graph.has_node(node) || !graph.has_node(dependency) {
                    &&& result matches Err(message)
                    &&& message@ == "effect dependency references an unknown node"@
                } else if node == dependency {
                    &&& result matches Err(message)
                    &&& message@ == "effect node cannot depend on itself"@
                } else if graph.reads(node).contains(dependency) {
                    &&& result is Ok
                } else if graph.with_edge(node, dependency).acyclic() {
                    &&& result is Ok
                } else {
                    &&& result matches Err(message)
                    &&& message@ == "effect dependency would create a cycle"@
                }
            }),
            final(self)@ == old(self)@.with_dependency(node, dependency),
    {
        let ghost before = self@;
        if !self.contains(node) || !self.contains(dependency) {
            return Err("effect dependency references an unknown node");
        }
        if node == dependency {
            return Err("effect node cannot depend on itself");
        }
        let mut list = match self.dependencies.remove(&node.0) {
            Some(list) => list,
            None => Vec::new(),
        };
        assert(list@ == before.reads(node));
        let mut known = false;
        for k in 0..list.len()
            invariant
                known == exists|j: int| 0 <= j < k && list@[j] == dependency,
        {
            if list[k] == dependency {
                known = true;
            }
        }
        assert(known == list@.contains(dependency));
        if known {
            self.dependencies.insert(node.0, list);
            assert(self@.dependencies =~= before.dependencies);
            return Ok(());
        }
        list.push(dependency);
        self.dependencies.insert(node.0, list);
        proof {
            assert(self@.dependencies =~= before.with_edge(node, dependency).dependencies);
            assert(self@ == before.with_edge(node, dependency));
            lemma_edge_added(before, node, dependency);
        }
        if self.topological_order().is_none() {
            let mut list = match self.dependencies.remove(&node.0) {
                Some(list) => list,
                None => Vec::new(),
            };
            assert(list@ == before.reads(node).push(dependency));
            list.pop();
            assert(list@ =~= before.reads(node));
            self.dependencies.insert(node.0, list);
            proof {
                assert(self@.dependencies =~= before.dependencies.insert(
                    node.0,
                    before.reads(node),
                ));
                lemma_same_reads(before, self@);
            }
            return Err("effect dependency would create a cycle");
        }
        self.revision = self.revision.wrapping_add(1);
        proof {
            lemma_same_reads(before.with_edge(node, dependency), self@);
        }
        Ok(())
    }

    /// Enables or disables a node without deleting its versioned parameters.
    pub fn set_enabled(&mut self, id: EffectNodeId, enabled: bool) -> (found: bool)
        requires
            old(self).well_formed(),
        ensures
            final(self).well_formed(),
            found == old(self)@.has_node(id),
            final(self)@ == old(self)@.with_enabled(id, enabled),
    {
        let ghost before = self@;
        let count: usize = self.nodes.len();
        for i in 0..count
            invariant
                count == self.nodes@.len(),
                self@ == before,
                before == old(self)@,
                self.well_formed(),
                forall|j: int| 0 <= j < i ==> (#[trigger] before.nodes[j]).id != id,
        {
            if self.nodes[i].id == id {
                assert(before.nodes[i as int].id == id);
                let ghost target = before.with_enabled(id, enabled);
                proof {
                    assert forall|j: int| i < j < before.nodes.len() implies (
                    #[trigger] before.nodes[j]).id != id by {
                        assert(before.nodes[i as int].id != before.nodes[j].id);
                    }
                }
                if self.nodes[i].enabled != enabled {
                    self.nodes[i].enabled = enabled;
                    self.revision = self.revision.wrapping_add(1);
                    proof {
                        assert(self@.nodes =~= target.nodes);
                        assert(target.nodes[i as int] != before.nodes[i as int]);
                        lemma_same_identities(before, self@);
                    }
                } else {
                    assert(before.nodes =~= target.nodes);
                }
                return true;
            }
        }
        proof {
            assert(before.nodes =~= before.with_enabled(id, enabled).nodes);
        }
        false
    }
}

/// Exactly the marked nodes stand in the queue, each once.
spec fn placed_nodes(
    graph: EffectGraphModel,
    queue: Seq<EffectNodeId>,
    placed: Seq<bool>,
) -> bool {
    &&& queue.no_duplicates()
    &&& forall|k: int| 0 <= k < queue.len() ==> graph.has_node(#[trigger] queue[k])
    &&& forall|i: int|
        0 <= i < graph.nodes.len() ==> (#[trigger] placed[i] <==> queue.contains(
            graph.nodes[i].id,
        ))
}

/// `done` holds the identities of the first `next` queue entries.
spec fn done_prefix(queue: Seq<EffectNodeId>, next: int, done: Set<u64>) -> bool {
    &&& next <= queue.len()
    &&& forall|raw: u64| #[trigger]
        done.contains(raw) <==> among_first(queue, next, EffectNodeId(raw))
}

/// Whatever a queued node reads from stands before it among the first `next`.
spec fn reads_precede(graph: EffectGraphModel, queue: Seq<EffectNodeId>, next: int) -> bool {
    forall|i: int, k: int|
        0 <= i < queue.len() && 0 <= k < graph.reads(queue[i]).len() ==> {
            &&& among_first(queue, i, #[trigger] graph.reads(queue[i])[k])
            &&& among_first(queue, next, graph.reads(queue[i])[k])
        }
}

/// Whether all that a node reads from is in `done`.
spec fn reads_within(graph: EffectGraphModel, id: EffectNodeId, done: Set<u64>) -> bool {
    forall|k: int|
        0 <= k < graph.reads(id).len() ==> done.contains((#[trigger] graph.reads(id)[k]).0)
}

/// State between two steps of the ordering loop.
spec fn partial_order(
    graph: EffectGraphModel,
    queue: Seq<EffectNodeId>,
    placed: Seq<bool>,
    next: int,
    done: Set<u64>,
) -> bool {
    &&& graph.well_formed()
    &&& placed_nodes(graph, queue, placed)
    &&& 0 <= next
    &&& done_prefix(queue, next, done)
    &&& reads_precede(graph, queue, next)
    &&& graph.sources().is_prefix_of(queue)
    &&& forall|i: int|
        0 <= i < graph.nodes.len() && !#[trigger] placed[i] ==> !reads_within(
            graph,
            graph.nodes[i].id,
            done,
        )
}

/// Filtering keeps the entries of a sequence distinct.
proof fn lemma_filter_distinct(ids: Seq<EffectNodeId>, keep: spec_fn(EffectNodeId) -> bool)
    requires
        ids.no_duplicates(),
    ensures
        ids.filter(keep).no_duplicates(),
    decreases ids.len(),
{
    reveal(Seq::filter);
    if ids.len() > 0 {
        let front = ids.drop_last();
        lemma_filter_distinct(front, keep);
        assert forall|k: int| 0 <= k < front.filter(keep).len() implies front.filter(keep)[k]
            != ids.last() by {
            assert(front.filter(keep).contains(front.filter(keep)[k]));
            front.lemma_filter_contains_rev(keep, front.filter(keep)[k]);
            let j = choose|j: int| 0 <= j < front.len() && front[j] == front.filter(keep)[k];
            assert(ids[j] == front[j]);
        }
    }
}

/// The sources alone are a state from which the ordering loop can start.
proof fn lemma_sources(graph: EffectGraphModel, placed: Seq<bool>)
    requires
        graph.well_formed(),
        placed.len() == graph.nodes.len(),
        forall|j: int|
            0 <= j < graph.nodes.len() ==> (#[trigger] placed[j] <==> graph.reads(
                graph.nodes[j].id,
            ).len() == 0),
    ensures
        partial_order(graph, graph.sources(), placed, 0, Set::empty()),
{
    let ids = graph.nodes.map_values(|node: EffectNodeModel| node.id);
    let keep = |id: EffectNodeId| graph.reads(id).len() == 0;
    let queue = graph.sources();
    assert(queue == ids.filter(keep));
    assert forall|i: int, j: int| 0 <= i < j < ids.len() implies ids[i] != ids[j] by {
        assert(graph.nodes[i].id != graph.nodes[j].id);
    }
    lemma_filter_distinct(ids, keep);
    assert forall|k: int| 0 <= k < queue.len() implies graph.has_node(#[trigger] queue[k])
        && graph.reads(queue[k]).len() == 0 by {
        assert(queue.contains(queue[k]));
        ids.lemma_filter_contains_rev(keep, queue[k]);
        ids.lemma_filter_pred(keep, k);
        let j = choose|j: int| 0 <= j < ids.len() && ids[j] == queue[k];
        assert(graph.nodes[j].id == queue[k]);
    }
    assert forall|i: int| 0 <= i < graph.nodes.len() implies (#[trigger] placed[i]
        <==> queue.contains(graph.nodes[i].id)) by {
        assert(ids[i] == graph.nodes[i].id);
        if placed[i] {
            ids.lemma_filter_contains(keep, i);
        }
        if queue.contains(graph.nodes[i].id) {
            let k = choose|k: int| 0 <= k < queue.len() && queue[k] == graph.nodes[i].id;
            assert(graph.reads(queue[k]).len() == 0);
        }
    }
    assert forall|i: int| 0 <= i < graph.nodes.len() && !#[trigger] placed[i] implies !reads_within(
        graph,
        graph.nodes[i].id,
        Set::empty(),
    ) by {
        let first = graph.reads(graph.nodes[i].id)[0];
        assert(!Set::<u64>::empty().contains(first.0));
    }
}

/// A queue of distinct nodes is no longer than the node list.
proof fn lemma_partial_order_fits(
    graph: EffectGraphModel,
    queue: Seq<EffectNodeId>,
    placed: Seq<bool>,
    next: int,
    done: Set<u64>,
)
    requires
        partial_order(graph, queue, placed, next, done),
    ensures
        queue.len() <= graph.nodes.len(),
        queue.len() == graph.nodes.len() ==> forall|id: EffectNodeId|
            graph.has_node(id) ==> #[trigger] queue.contains(id),
{
    let ids = graph.nodes.map_values(|node: EffectNodeModel| node.id);
    assert forall|i: int, j: int| 0 <= i < j < ids.len() implies ids[i] != ids[j] by {
        assert(graph.nodes[i].id != graph.nodes[j].id);
    }
    ids.unique_seq_to_set();
    queue.unique_seq_to_set();
    assert forall|id: EffectNodeId| queue.to_set().contains(id) implies ids.to_set().contains(
        id,
    ) by {
        let k = choose|k: int| 0 <= k < queue.len() && queue[k] == id;
        assert(graph.has_node(queue[k]));
        let i = choose|i: int| 0 <= i < graph.nodes.len() && (#[trigger] graph.nodes[i]).id == id;
        assert(ids[i] == id);
    }
    vstd::seq_lib::seq_to_set_is_finite(queue);
    vstd::seq_lib::seq_to_set_is_finite(ids);
    vstd::set_lib::lemma_len_subset(queue.to_set(), ids.to_set());
    if queue.len() == graph.nodes.len() {
        vstd::set_lib::lemma_subset_equality(queue.to_set(), ids.to_set());
        assert forall|id: EffectNodeId| graph.has_node(id) implies #[trigger] queue.contains(
            id,
        ) by {
            let i = choose|i: int|
                0 <= i < graph.nodes.len() && (#[trigger] graph.nodes[i]).id == id;
            assert(ids[i] == id);
            assert(ids.to_set().contains(id));
            assert(queue.to_set().contains(id));
        }
    }
}

/// While nodes are taken up in document order, the marks and what is done tell
/// which of them become ready.
proof fn lemma_readiness(
    graph: EffectGraphModel,
    settled: Seq<EffectNodeId>,
    queue: Seq<EffectNodeId>,
    placed: Seq<bool>,
    next: int,
    done: Set<u64>,
    i: int,
)
    requires
        graph.well_formed(),
        placed_nodes(graph, queue, placed),
        done_prefix(queue, next, done),
        0 <= i < graph.nodes.len(),
        0 <= next <= settled.len(),
        queue == settled + graph.nodes.map_values(|node: EffectNodeModel| node.id).take(i).filter(
            graph.becomes_ready(settled, next),
        ),
    ensures
        graph.becomes_ready(settled, next)(graph.nodes[i].id) <==> !placed[i] && reads_within(
            graph,
            graph.nodes[i].id,
            done,
        ),
{
    let all = graph.nodes.map_values(|node: EffectNodeModel| node.id);
    let wanted = graph.becomes_ready(settled, next);
    let added = all.take(i).filter(wanted);
    let id = graph.nodes[i].id;
    if settled.contains(id) {
        let k = choose|k: int| 0 <= k < settled.len() && settled[k] == id;
        assert(queue[k] == id);
    }
    if queue.contains(id) {
        let k = choose|k: int| 0 <= k < queue.len() && queue[k] == id;
        if k >= settled.len() {
            assert(added[k - settled.len()] == id);
            assert(added.contains(id));
            all.take(i).lemma_filter_contains_rev(wanted, id);
            let j = choose|j: int| 0 <= j < i && all.take(i)[j] == id;
            assert(graph.nodes[j].id == graph.nodes[i].id);
        }
    }
    assert forall|any: EffectNodeId| #[trigger] among_first(settled, next, any) <==> done.contains(
        any.0,
    ) by {
        if among_first(settled, next, any) {
            let j = choose|j: int| 0 <= j < next && j < settled.len() && #[trigger] settled[j]
                == any;
            assert(queue[j] == any);
            assert(among_first(queue, next, EffectNodeId(any.0)));
        }
        if done.contains(any.0) {
            assert(among_first(queue, next, EffectNodeId(any.0)));
            let j = choose|j: int| 0 <= j < next && j < queue.len() && #[trigger] queue[j] == any;
            assert(settled[j] == any);
        }
    }
    if graph.reads_among(settled, next, id) {
        assert forall|k: int| 0 <= k < graph.reads(id).len() implies done.contains(
            (#[trigger] graph.reads(id)[k]).0,
        ) by {
            assert(among_first(settled, next, graph.reads(id)[k]));
        }
    }
    if reads_within(graph, id, done) {
        assert forall|k: int| 0 <= k < graph.reads(id).len() implies among_first(
            settled,
            next,
            #[trigger] graph.reads(id)[k],
        ) by {
            assert(done.contains(graph.reads(id)[k].0));
        }
    }
}

/// Queueing a node all of whose reads are done keeps the queue in order.
proof fn lemma_place(
    graph: EffectGraphModel,
    queue: Seq<EffectNodeId>,
    placed: Seq<bool>,
    next: int,
    done: Set<u64>,
    i: int,
)
    requires
        graph.well_formed(),
        placed.len() == graph.nodes.len(),
        0 <= i < graph.nodes.len(),
        0 <= next,
        placed_nodes(graph, queue, placed),
        done_prefix(queue, next, done),
        reads_precede(graph, queue, next),
        graph.sources().is_prefix_of(queue),
        !placed[i],
        reads_within(graph, graph.nodes[i].id, done),
    ensures
        placed_nodes(graph, queue.push(graph.nodes[i].id), placed.update(i, true)),
        done_prefix(queue.push(graph.nodes[i].id), next, done),
        reads_precede(graph, queue.push(graph.nodes[i].id), next),
        graph.sources().is_prefix_of(queue.push(graph.nodes[i].id)),
{
    let id = graph.nodes[i].id;
    let longer = queue.push(id);
    assert forall|count: int, any: EffectNodeId| count <= queue.len() implies (#[trigger] among_first(
        longer,
        count,
        any,
    ) <==> among_first(queue, count, any)) by {
        if among_first(queue, count, any) {
            let j = choose|j: int| 0 <= j < count && j < queue.len() && #[trigger] queue[j] == any;
            assert(longer[j] == any);
        }
        if among_first(longer, count, any) {
            let j = choose|j: int|
                0 <= j < count && j < longer.len() && #[trigger] longer[j] == any;
            assert(queue[j] == any);
        }
    }
    assert(!queue.contains(id));
    assert(graph.has_node(id));
    assert forall|k: int| 0 <= k < longer.len() implies graph.has_node(#[trigger] longer[k]) by {
        if k < queue.len() {
            assert(longer[k] == queue[k]);
        }
    }
    assert forall|j: int| 0 <= j < graph.nodes.len() implies (#[trigger] placed.update(i, true)[j]
        <==> longer.contains(graph.nodes[j].id)) by {
        if j == i {
            assert(longer[queue.len() as int] == id);
        } else {
            assert(placed[j] <==> queue.contains(graph.nodes[j].id));
            assert(graph.nodes[j].id != id) by {
                if i < j {
                    assert(graph.nodes[i].id != graph.nodes[j].id);
                } else {
                    assert(graph.nodes[j].id != graph.nodes[i].id);
                }
            }
            if queue.contains(graph.nodes[j].id) {
                let k = choose|k: int| 0 <= k < queue.len() && queue[k] == graph.nodes[j].id;
                assert(longer[k] == graph.nodes[j].id);
            }
        }
    }
    assert forall|a: int, k: int|
        0 <= a < longer.len() && 0 <= k < graph.reads(longer[a]).len() implies among_first(
        longer,
        a,
        #[trigger] graph.reads(longer[a])[k],
    ) && among_first(longer, next, graph.reads(longer[a])[k]) by {
        if a < queue.len() {
            assert(longer[a] == queue[a]);
            assert(among_first(queue, a, graph.reads(queue[a])[k]));
        } else {
            let read = graph.reads(id)[k];
            assert(done.contains(read.0));
            assert(among_first(queue, next, EffectNodeId(read.0)));
            let j = choose|j: int| 0 <= j < next && j < queue.len() && #[trigger] queue[j] == read;
            assert(longer[j] == read);
        }
    }
    assert forall|j: int| 0 <= j < graph.sources().len() implies graph.sources()[j]
        == longer[j] by {
        assert(graph.sources()[j] == queue[j]);
    }
}

/// Processing the next queue entry extends what is done by that entry.
proof fn lemma_advance(
    graph: EffectGraphModel,
    queue: Seq<EffectNodeId>,
    next: int,
    done: Set<u64>,
)
    requires
        0 <= next < queue.len(),
        done_prefix(queue, next, done),
        reads_precede(graph, queue, next),
    ensures
        done_prefix(queue, next + 1, done.insert(queue[next].0)),
        reads_precede(graph, queue, next + 1),
{
    let more = done.insert(queue[next].0);
    assert forall|any: EffectNodeId| among_first(queue, next, any) implies #[trigger] among_first(
        queue,
        next + 1,
        any,
    ) by {
        let j = choose|j: int| 0 <= j < next && j < queue.len() && #[trigger] queue[j] == any;
        assert(queue[j] == any);
    }
    assert forall|raw: u64| #[trigger] more.contains(raw) <==> among_first(
        queue,
        next + 1,
        EffectNodeId(raw),
    ) by {
        assert(done.contains(raw) <==> among_first(queue, next, EffectNodeId(raw)));
        if raw == queue[next].0 {
            assert(queue[next] == EffectNodeId(raw));
        }
        if among_first(queue, next + 1, EffectNodeId(raw)) {
            let j = choose|j: int|
                0 <= j < next + 1 && j < queue.len() && #[trigger] queue[j] == EffectNodeId(raw);
            if j < next {
                assert(among_first(queue, next, EffectNodeId(raw)));
            }
        }
    }
    assert forall|i: int, k: int|
        0 <= i < queue.len() && 0 <= k < graph.reads(queue[i]).len() implies among_first(
        queue,
        i,
        #[trigger] graph.reads(queue[i])[k],
    ) && among_first(queue, next + 1, graph.reads(queue[i])[k]) by {
        assert(among_first(queue, next, graph.reads(queue[i])[k]));
    }
}

/// A queue that took in every node and processed it is a topological order.
proof fn lemma_complete_order(
    graph: EffectGraphModel,
    queue: Seq<EffectNodeId>,
    placed: Seq<bool>,
    done: Set<u64>,
)
    requires
        partial_order(graph, queue, placed, queue.len() as int, done),
        queue.len() == graph.nodes.len(),
    ensures
        graph.ordered_by(queue),
{
    lemma_partial_order_fits(graph, queue, placed, queue.len() as int, done);
    assert forall|id: EffectNodeId| #[trigger] queue.contains(id) implies graph.has_node(id) by {
        let k = choose|k: int| 0 <= k < queue.len() && queue[k] == id;
        assert(graph.has_node(queue[k]));
    }
}

/// Nodes left over when the queue ran dry lie on cycles.
proof fn lemma_stuck_order(
    graph: EffectGraphModel,
    queue: Seq<EffectNodeId>,
    placed: Seq<bool>,
    done: Set<u64>,
)
    requires
        partial_order(graph, queue, placed, queue.len() as int, done),
        placed.len() == graph.nodes.len(),
        queue.len() != graph.nodes.len(),
    ensures
        !graph.acyclic(),
{
    lemma_partial_order_fits(graph, queue, placed, queue.len() as int, done);
    let rest = Set::new(|id: EffectNodeId| graph.has_node(id) && !queue.contains(id));
    assert forall|member: EffectNodeId| #[trigger] rest.contains(member) implies exists|k: int|
        0 <= k < graph.reads(member).len() && rest.contains(
            #[trigger] graph.reads(member)[k],
        ) by {
        let i = choose|i: int|
            0 <= i < graph.nodes.len() && (#[trigger] graph.nodes[i]).id == member;
        assert(!placed[i]);
        let k = choose|k: int|
            0 <= k < graph.reads(member).len() && !done.contains(
                (#[trigger] graph.reads(member)[k]).0,
            );
        let read = graph.reads(member)[k];
        assert(graph.dependencies.contains_key(member.0));
        assert(graph.has_node(graph.dependencies[member.0][k]));
        assert(!queue.contains(read)) by {
            if queue.contains(read) {
                let j = choose|j: int| 0 <= j < queue.len() && queue[j] == read;
                assert(among_first(queue, queue.len() as int, EffectNodeId(read.0)));
            }
        }
        assert(rest.contains(graph.reads(member)[k]));
    }
    if forall|i: int| 0 <= i < graph.nodes.len() ==> #[trigger] placed[i] {
        let ids = graph.nodes.map_values(|node: EffectNodeModel| node.id);
        assert forall|i: int, j: int| 0 <= i < j < ids.len() implies ids[i] != ids[j] by {
            assert(graph.nodes[i].id != graph.nodes[j].id);
        }
        ids.unique_seq_to_set();
        queue.unique_seq_to_set();
        assert forall|id: EffectNodeId| ids.to_set().contains(id) implies queue.to_set().contains(
            id,
        ) by {
            let i = choose|i: int| 0 <= i < ids.len() && ids[i] == id;
            assert(placed[i]);
        }
        vstd::seq_lib::seq_to_set_is_finite(queue);
        vstd::set_lib::lemma_len_subset(ids.to_set(), queue.to_set());
    }
    let i = choose|i: int| 0 <= i < graph.nodes.len() && !#[trigger] placed[i];
    let id = graph.nodes[i].id;
    assert(rest.contains(id));
    assert forall|level: spec_fn(EffectNodeId) -> nat| !graph.levelled_by(level) by {
        lemma_no_level_below(graph, level, rest, id);
    }
}

/// A graph that reads the same keeps its levels.
proof fn lemma_same_reads(before: EffectGraphModel, after: EffectGraphModel)
    requires
        before.well_formed(),
        before.nodes == after.nodes,
        before.next_node == after.next_node,
        forall|id: EffectNodeId| #[trigger] after.reads(id) == before.reads(id),
        forall|key: u64| #[trigger]
            after.dependencies.contains_key(key) ==> before.has_node(EffectNodeId(key)),
    ensures
        after.well_formed(),
        before.acyclic() == after.acyclic(),
{
    assert forall|key: u64, k: int|
        after.dependencies.contains_key(key) && 0 <= k
            < after.dependencies[key].len() implies after.has_node(
        #[trigger] after.dependencies[key][k],
    ) by {
        assert(after.reads(EffectNodeId(key)) == before.reads(EffectNodeId(key)));
        assert(before.dependencies.contains_key(key));
        assert(before.has_node(before.dependencies[key][k]));
    }
    assert forall|key: u64| #[trigger] after.dependencies.contains_key(key) implies after.has_node(
        EffectNodeId(key),
    ) by {
        assert(before.has_node(EffectNodeId(key)));
    }
    assert forall|level: spec_fn(EffectNodeId) -> nat| before.levelled_by(
        level,
    ) == after.levelled_by(level) by {
        assert forall|id: EffectNodeId, k: int| 0 <= k < before.reads(id).len() implies (level(
            #[trigger] before.reads(id)[k],
        ) < level(id)) == (level(after.reads(id)[k]) < level(id)) by {
        }
        if before.levelled_by(level) {
            assert forall|id: EffectNodeId, k: int| 0 <= k < after.reads(id).len() implies level(
                #[trigger] after.reads(id)[k],
            ) < level(id) by {
                assert(level(before.reads(id)[k]) < level(id));
            }
        }
        if after.levelled_by(level) {
            assert forall|id: EffectNodeId, k: int| 0 <= k < before.reads(id).len() implies level(
                #[trigger] before.reads(id)[k],
            ) < level(id) by {
                assert(level(after.reads(id)[k]) < level(id));
            }
        }
    }
}

/// Nodes that keep their identities keep the graph well formed and acyclic.
proof fn lemma_same_identities(before: EffectGraphModel, after: EffectGraphModel)
    requires
        before.well_formed(),
        before.acyclic(),
        before.nodes.len() == after.nodes.len(),
        before.next_node == after.next_node,
        before.dependencies == after.dependencies,
        forall|i: int|
            0 <= i < before.nodes.len() ==> (#[trigger] after.nodes[i]).id == before.nodes[i].id,
    ensures
        after.well_formed(),
        after.acyclic(),
{
    assert forall|id: EffectNodeId| before.has_node(id) implies #[trigger] after.has_node(id) by {
        let i = choose|i: int|
            0 <= i < before.nodes.len() && (#[trigger] before.nodes[i]).id == id;
        assert(after.nodes[i].id == id);
    }
    assert forall|i: int, j: int| 0 <= i < j < after.nodes.len() implies (
    #[trigger] after.nodes[i]).id != (#[trigger] after.nodes[j]).id by {
        assert(before.nodes[i].id != before.nodes[j].id);
    }
    assert(after.counter_ahead()) by {
        if !after.has_node(EffectNodeId(u64::MAX)) {
            assert forall|i: int| 0 <= i < after.nodes.len() implies (#[trigger] after.nodes[i]).id.0
                < after.next_node by {
                assert(before.nodes[i].id.0 < before.next_node);
            }
        }
    }
    let level = choose|level: spec_fn(EffectNodeId) -> nat| before.levelled_by(level);
    assert(after.levelled_by(level)) by {
        assert forall|id: EffectNodeId, k: int| 0 <= k < after.reads(id).len() implies level(
            #[trigger] after.reads(id)[k],
        ) < level(id) by {
            assert(level(before.reads(id)[k]) < level(id));
        }
    }
}

/// One more node with a fresh identity keeps the graph well formed and acyclic.
proof fn lemma_node_added(before: EffectGraphModel, after: EffectGraphModel)
    requires
        before.well_formed(),
        before.acyclic(),
        before.dependencies == after.dependencies,
        after.nodes.len() == before.nodes.len() + 1,
        after.nodes == before.nodes.push(after.nodes.last()),
        !before.has_node(after.nodes.last().id),
        after.nodes.last().id.0 == before.next_node,
        after.next_node == before.next_node.wrapping_add(1),
    ensures
        after.well_formed(),
        after.acyclic(),
{
    assert forall|id: EffectNodeId| before.has_node(id) implies #[trigger] after.has_node(id) by {
        let i = choose|i: int|
            0 <= i < before.nodes.len() && (#[trigger] before.nodes[i]).id == id;
        assert(after.nodes[i].id == id);
    }
    assert forall|i: int, j: int| 0 <= i < j < after.nodes.len() implies (
    #[trigger] after.nodes[i]).id != (#[trigger] after.nodes[j]).id by {
        assert(after.nodes[i] == before.nodes[i]);
        if j < before.nodes.len() {
            assert(before.nodes[i].id != before.nodes[j].id);
        } else {
            assert(before.nodes[i].id != after.nodes.last().id);
        }
    }
    assert(after.counter_ahead()) by {
        let last = after.nodes.len() - 1;
        assert(after.nodes[last].id.0 == before.next_node);
        if !after.has_node(EffectNodeId(u64::MAX)) {
            assert(!before.has_node(EffectNodeId(u64::MAX)));
            assert(after.nodes[last].id != EffectNodeId(u64::MAX));
            assert forall|i: int| 0 <= i < after.nodes.len() implies (#[trigger] after.nodes[i]).id.0
                < after.next_node by {
                if i < last {
                    assert(after.nodes[i] == before.nodes[i]);
                    assert(before.nodes[i].id.0 < before.next_node);
                }
            }
        }
    }
    let level = choose|level: spec_fn(EffectNodeId) -> nat| before.levelled_by(level);
    assert(after.levelled_by(level)) by {
        assert forall|id: EffectNodeId, k: int| 0 <= k < after.reads(id).len() implies level(
            #[trigger] after.reads(id)[k],
        ) < level(id) by {
            assert(level(before.reads(id)[k]) < level(id));
        }
    }
}

/// An edge between nodes of the graph keeps the graph well formed.
proof fn lemma_edge_added(
    before: EffectGraphModel,
    node: EffectNodeId,
    dependency: EffectNodeId,
)
    requires
        before.well_formed(),
        before.has_node(node),
        before.has_node(dependency),
    ensures
        before.with_edge(node, dependency).well_formed(),
{
    let after = before.with_edge(node, dependency);
    assert forall|id: EffectNodeId| before.has_node(id) implies #[trigger] after.has_node(id) by {
        let i = choose|i: int|
            0 <= i < before.nodes.len() && (#[trigger] before.nodes[i]).id == id;
        assert(after.nodes[i].id == id);
    }
    assert forall|key: u64| #[trigger] after.dependencies.contains_key(key) implies after.has_node(
        EffectNodeId(key),
    ) by {
        if key != node.0 {
            assert(before.dependencies.contains_key(key));
        }
    }
    assert forall|key: u64, k: int|
        after.dependencies.contains_key(key) && 0 <= k
            < after.dependencies[key].len() implies after.has_node(
        #[trigger] after.dependencies[key][k],
    ) by {
        if key != node.0 {
            assert(before.has_node(before.dependencies[key][k]));
        } else if k < before.reads(node).len() {
            assert(before.dependencies.contains_key(key));
            assert(before.has_node(before.dependencies[key][k]));
        }
    }
}

impl Default for EffectGraph {
    fn default() -> (graph: Self)
        ensures
            graph.well_formed(),
            graph@ == EffectGraphModel::initial(),
    {
        let mut nodes: Vec<EffectNode> = Vec::new();
        nodes.push(
            EffectNode {
                id: EffectNodeId(0),
                effect: EffectId(PASS_THROUGH_EFFECT_ID),
                implementation_version: 1,
                enabled: true,
                parameters: Vec::new(),
            },
        );
        let graph = EffectGraph { revision: 1, next_node: 1, nodes, dependencies: BTreeMap::new() };
        proof {
            assert(graph@.nodes =~= EffectGraphModel::initial().nodes);
            assert(graph@.dependencies =~= EffectGraphModel::initial().dependencies);
            assert(graph@.levelled_by(|id: EffectNodeId| 0nat));
        }
        graph
    }
}

impl Clone for EffectGraph {
    fn clone(&self) -> (copy: Self)
        ensures
            copy@ == self@,
    {
        let mut nodes: Vec<EffectNode> = Vec::new();
        for i in 0..self.nodes.len()
            invariant
                nodes@.len() == i,
                forall|j: int| 0 <= j < i ==> (#[trigger] nodes@[j])@ == self.nodes@[j]@,
        {
            nodes.push(self.nodes[i].clone());
        }
        let dependencies = copy_dependencies(&self.dependencies);
        let copy = EffectGraph {
            revision: self.revision,
            next_node: self.next_node,
            nodes,
            dependencies,
        };
        assert(copy@.nodes =~= self@.nodes);
        copy
    }
}

/// Whether two lists name the same nodes in the same order.
fn same_ids(a: &Vec<EffectNodeId>, b: &Vec<EffectNodeId>) -> (same: bool)
    ensures
        same == (a@ == b@),
{
    if a.len() != b.len() {
        return false;
    }
    for i in 0..a.len()
        invariant
            a@.len() == b@.len(),
            forall|j: int| 0 <= j < i ==> a@[j] == b@[j],
    {
        if a[i] != b[i] {
            return false;
        }
    }
    assert(a@ =~= b@);
    true
}

/// Whether every dependency list of one map is in the other.
fn lists_within(
    a: &BTreeMap<u64, Vec<EffectNodeId>>,
    b: &BTreeMap<u64, Vec<EffectNodeId>>,
) -> (within: bool)
    ensures
        within == forall|key: u64| #[trigger]
            a@.contains_key(key) ==> b@.contains_key(key) && b@[key]@ == a@[key]@,
{
    let keys = ordered_ids(a);
    for n in 0..keys.len()
        invariant
            lists(keys@, a@.dom()),
            forall|m: int|
                0 <= m < n ==> b@.contains_key(#[trigger] keys@[m]) && b@[keys@[m]]@
                    == a@[keys@[m]]@,
    {
        assert(keys@.contains(keys@[n as int]));
        assert(a@.dom().contains(keys@[n as int]));
        assert(a@.contains_key(keys@[n as int]));
        match (a.get(&keys[n]), b.get(&keys[n])) {
            (Some(first), Some(second)) => {
                if !same_ids(first, second) {
                    return false;
                }
            },
            _ => {
                return false;
            },
        }
    }
    assert forall|key: u64| #[trigger] a@.contains_key(key) implies b@.contains_key(key)
        && b@[key]@ == a@[key]@ by {
        assert(a@.dom().contains(key));
        assert(keys@.contains(key));
        let m = choose|m: int| 0 <= m < keys@.len() && keys@[m] == key;
        assert(b@.contains_key(keys@[m]));
    }
    true
}

impl EffectGraph {
    /// Whether two graphs agree in every part.
    pub fn same_as(&self, other: &EffectGraph) -> (same: bool)
        ensures
            same == (self@ == other@),
    {
        let same = self.revision == other.revision && self.next_node == other.next_node
            && same_nodes(&self.nodes, &other.nodes) && lists_within(
            &self.dependencies,
            &other.dependencies,
        ) && lists_within(&other.dependencies, &self.dependencies);
        proof {
            let (a, b) = (self@.dependencies, other@.dependencies);
            if same {
                assert forall|key: u64| a.contains_key(key) <==> b.contains_key(key) by {
                    assert(self.dependencies@.contains_key(key) == a.contains_key(key));
                    assert(other.dependencies@.contains_key(key) == b.contains_key(key));
                }
                assert(a =~= b) by {
                    assert forall|key: u64| #[trigger] a.contains_key(key) implies a[key]
                        == b[key] by {
                        assert(self.dependencies@.contains_key(key));
                    }
                }
            }
            if self@ == other@ {
                assert forall|key: u64| #[trigger]
                    self.dependencies@.contains_key(key) implies other.dependencies@.contains_key(
                    key,
                ) && other.dependencies@[key]@ == self.dependencies@[key]@ by {
                    assert(a.contains_key(key) && a[key] == self.dependencies@[key]@);
                    assert(b.contains_key(key) && b[key] == other.dependencies@[key]@);
                }
                assert forall|key: u64| #[trigger]
                    other.dependencies@.contains_key(key) implies self.dependencies@.contains_key(
                    key,
                ) && self.dependencies@[key]@ == other.dependencies@[key]@ by {
                    assert(b.contains_key(key) && b[key] == other.dependencies@[key]@);
                    assert(a.contains_key(key) && a[key] == self.dependencies@[key]@);
                }
            }
        }
        same
    }
}

/// Copies a map of dependency lists.
pub fn copy_dependencies(dependencies: &BTreeMap<u64, Vec<EffectNodeId>>) -> (copy: BTreeMap<
    u64,
    Vec<EffectNodeId>,
>)
    ensures
        dependency_models(copy@) == dependency_models(dependencies@),
{
    let keys = ordered_ids(dependencies);
    let mut copy: BTreeMap<u64, Vec<EffectNodeId>> = BTreeMap::new();
    for n in 0..keys.len()
        invariant
            lists(keys@, dependencies@.dom()),
            forall|key: u64| #[trigger]
                copy@.contains_key(key) <==> exists|m: int|
                    0 <= m < n && #[trigger] keys@[m] == key,
            forall|key: u64| #[trigger]
                copy@.contains_key(key) ==> dependencies@.contains_key(key) && copy@[key]@
                    == dependencies@[key]@,
    {
        assert(keys@.contains(keys@[n as int]));
        assert(dependencies@.dom().contains(keys@[n as int]));
        match dependencies.get(&keys[n]) {
            None => {},
            Some(list) => {
                let mut items: Vec<EffectNodeId> = Vec::new();
                for k in 0..list.len()
                    invariant
                        items@ == list@.take(k as int),
                {
                    items.push(list[k]);
                    assert(items@ =~= list@.take(k + 1));
                }
                assert(items@ =~= list@);
                copy.insert(keys[n], items);
            },
        }
    }
    proof {
        assert forall|key: u64| #[trigger] dependencies@.contains_key(key) implies copy@.contains_key(
            key,
        ) by {
            assert(dependencies@.dom().contains(key));
            let m = choose|m: int| 0 <= m < keys@.len() && keys@[m] == key;
            assert(keys@[m] == key);
        }
        assert(dependency_models(copy@) =~= dependency_models(dependencies@));
    }
    copy
}

/// The revision moves on by one exactly where a change to a graph changes its nodes or
/// its edges, and stays otherwise.
pub proof fn law_revision_follows_changes(
    graph: EffectGraphModel,
    effect: EffectId,
    implementation_version: u32,
    parameters: Seq<u8>,
    node: EffectNodeId,
    dependency: EffectNodeId,
    enabled: bool,
)
    ensures
        revision_follows(graph, graph.with_node(effect, implementation_version, parameters)),
        revision_follows(graph, graph.with_dependency(node, dependency)),
        revision_follows(graph, graph.with_enabled(node, enabled)),
{
    let grown = graph.with_node(effect, implementation_version, parameters);
    assert(grown.nodes.len() == graph.nodes.len() + 1);
    let linked = graph.with_dependency(node, dependency);
    if linked.revision != graph.revision {
        assert(linked.reads(node) == graph.reads(node).push(dependency));
        assert(linked.reads(node).len() == graph.reads(node).len() + 1);
    } else {
        assert forall|id: EffectNodeId| #[trigger] linked.reads(id) == graph.reads(id) by {
            if linked != graph && graph.with_edge(node, dependency).acyclic() {
                assert(linked.revision == graph.revision.wrapping_add(1));
            }
        }
    }
    let switched = graph.with_enabled(node, enabled);
    assert(switched.dependencies == graph.dependencies);
}

/// Whether a revision moved on by one where the structure changed, and stayed where it
/// did not.
pub open spec fn revision_follows(before: EffectGraphModel, after: EffectGraphModel) -> bool {
    after.revision == if after.same_structure(before) {
        before.revision
    } else {
        before.revision.wrapping_add(1)
    }
}

} // verus!
