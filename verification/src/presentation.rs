//! How layers reach the screen: through the resolved live overlay or directly
//! from cached tiles, never both ways.
use crate::extraction::{LayerRun, OverlayLayer};
use crate::geometry::LayerId;
use crate::ordered::lists;
use crate::overlay::holds_layer;
use vstd::prelude::*;

verus! {

/// Whether the live overlay shows a layer in a view. `ready` says that pipelines,
/// bindings and the view's draw list are at hand.
pub open spec fn overlay_shows(active_layers: Seq<LayerId>, layer: LayerId, ready: bool) -> bool {
    ready && active_layers.contains(layer)
}

/// Layers that the live overlay shows in a view, as positions.
pub open spec fn overlay_positions(
    overlay: Seq<OverlayLayer>,
    active_layers: Seq<LayerId>,
    ready: bool,
) -> Set<usize> {
    Set::new(
        |i: usize|
            i < overlay.len() && overlay_shows(active_layers, overlay[i as int].layer, ready),
    )
}

/// Whether a run of tiles is drawn directly in a view.
pub open spec fn drawn_directly(run: LayerRun, live: Seq<LayerId>, ready: bool) -> bool {
    ready && !live.contains(run.layer)
}

/// Runs of tiles that are drawn directly in a view, as positions.
pub open spec fn direct_positions(runs: Seq<LayerRun>, live: Seq<LayerId>, ready: bool) -> Set<
    usize,
> {
    Set::new(|i: usize| i < runs.len() && drawn_directly(runs[i as int], live, ready))
}

/// Layers that stand at the listed positions.
pub open spec fn layers_at(overlay: Seq<OverlayLayer>, positions: Seq<usize>) -> Seq<LayerId> {
    positions.map_values(|i: usize| overlay[i as int].layer)
}

/// Layers that are drawn through the live overlay in one view.
#[derive(Debug)]
pub struct OverlayQueue {
    /// Positions of the layers among those of the document.
    pub positions: Vec<usize>,
    /// The layers themselves.
    pub layers: Vec<LayerId>,
}

/// Chooses the layers that the live overlay shows in a view.
pub fn queue_overlay(
    overlay: &Vec<OverlayLayer>,
    active_layers: &Vec<LayerId>,
    ready: bool,
) -> (queue: OverlayQueue)
    ensures
        lists(queue.positions@, overlay_positions(overlay@, active_layers@, ready)),
        queue.layers@ == layers_at(overlay@, queue.positions@),
{
    let mut positions: Vec<usize> = Vec::new();
    let mut layers: Vec<LayerId> = Vec::new();
    for i in 0..overlay.len()
        invariant
            forall|a: int, b: int|
                0 <= a < b < positions@.len() ==> (#[trigger] positions@[a]) < (
                #[trigger] positions@[b]),
            forall|a: int| 0 <= a < positions@.len() ==> (#[trigger] positions@[a]) < i,
            forall|k: usize| #[trigger]
                positions@.contains(k) <==> k < i && overlay_shows(
                    active_layers@,
                    overlay@[k as int].layer,
                    ready,
                ),
            layers@ == layers_at(overlay@, positions@),
    {
        let ghost before = positions@;
        if ready && holds_layer(active_layers, overlay[i].layer) {
            positions.push(i);
            layers.push(overlay[i].layer);
            assert(layers@ =~= layers_at(overlay@, positions@));
            assert forall|k: usize| #[trigger] positions@.contains(k) <==> before.contains(k)
                || k == i by {
                lemma_contains_pushed(before, i, k);
            }
        }
    }
    let queue = OverlayQueue { positions, layers };
    assert(lists(queue.positions@, overlay_positions(overlay@, active_layers@, ready)));
    queue
}

/// A longer list holds what it held, and the new position.
proof fn lemma_contains_pushed(list: Seq<usize>, pushed: usize, k: usize)
    ensures
        list.push(pushed).contains(k) <==> list.contains(k) || k == pushed,
{
    if list.contains(k) {
        let a = choose|a: int| 0 <= a < list.len() && list[a] == k;
        assert(list.push(pushed)[a] == k);
    }
    assert(list.push(pushed)[list.len() as int] == pushed);
    if list.push(pushed).contains(k) && k != pushed {
        let a = choose|a: int| 0 <= a < list.push(pushed).len() && list.push(pushed)[a] == k;
        assert(list[a] == k);
    }
}

/// Runs of tiles that are drawn in one view.
#[derive(Debug)]
pub struct TileQueue {
    /// Positions of the runs that are drawn directly.
    pub direct: Vec<usize>,
    /// Whether tiles reach the screen, directly or through the live overlay.
    pub presented: bool,
}

/// Chooses the runs of tiles that are drawn directly in a view. `live` are the
/// layers that the live overlay shows there; their tiles are part of it.
pub fn queue_tiles(runs: &Vec<LayerRun>, live: &Vec<LayerId>, ready: bool) -> (queue: TileQueue)
    ensures
        lists(queue.direct@, direct_positions(runs@, live@, ready)),
        queue.presented == (ready && runs@.len() > 0),
{
    let mut direct: Vec<usize> = Vec::new();
    for i in 0..runs.len()
        invariant
            forall|a: int, b: int|
                0 <= a < b < direct@.len() ==> (#[trigger] direct@[a]) < (#[trigger] direct@[b]),
            forall|a: int| 0 <= a < direct@.len() ==> (#[trigger] direct@[a]) < i,
            forall|k: usize| #[trigger]
                direct@.contains(k) <==> k < i && drawn_directly(runs@[k as int], live@, ready),
    {
        let ghost before = direct@;
        if ready && !holds_layer(live, runs[i].layer) {
            direct.push(i);
            assert forall|k: usize| #[trigger] direct@.contains(k) <==> before.contains(k)
                || k == i by {
                lemma_contains_pushed(before, i, k);
            }
        }
    }
    let queue = TileQueue { direct, presented: ready && runs.len() > 0 };
    assert(lists(queue.direct@, direct_positions(runs@, live@, ready)));
    queue
}

/// A layer is never drawn both through the live overlay and directly from its
/// tiles, and its tiles are drawn one of the two ways.
pub proof fn law_layers_are_drawn_once(
    overlay: Seq<OverlayLayer>,
    active_layers: Seq<LayerId>,
    overlay_ready: bool,
    positions: Seq<usize>,
    run: LayerRun,
)
    requires
        lists(positions, overlay_positions(overlay, active_layers, overlay_ready)),
        exists|i: int| 0 <= i < overlay.len() <= usize::MAX && (#[trigger] overlay[i]).layer
            == run.layer,
    ensures
        drawn_directly(run, layers_at(overlay, positions), true) != overlay_shows(
            active_layers,
            run.layer,
            overlay_ready,
        ),
{
    let live = layers_at(overlay, positions);
    let shown = overlay_positions(overlay, active_layers, overlay_ready);
    if live.contains(run.layer) {
        let k = choose|k: int| 0 <= k < live.len() && live[k] == run.layer;
        assert(positions.contains(positions[k]));
        assert(shown.contains(positions[k]));
    }
    if overlay_shows(active_layers, run.layer, overlay_ready) {
        let i = choose|i: int| 0 <= i < overlay.len() && (#[trigger] overlay[i]).layer
            == run.layer;
        assert(shown.contains(i as usize));
        let k = choose|k: int| 0 <= k < positions.len() && positions[k] == i as usize;
        assert(live[k] == run.layer);
    }
}

} // verus!
