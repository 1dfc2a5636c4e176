//! Layer lists: finding, inserting, moving and changing layers.
use crate::geometry::LayerId;
use crate::scalar::Scalar;
use crate::strokes::LayerModel;
use vstd::prelude::*;

verus! {

/// Position of the first layer with the identity, or the number of layers.
pub open spec fn layer_position(layers: Seq<LayerModel>, id: LayerId) -> int
    decreases layers.len(),
{
    if layers.len() == 0 {
        0
    } else if layers[0].id == id {
        0
    } else {
        1 + layer_position(layers.drop_first(), id)
    }
}

/// Whether some layer has the identity.
pub open spec fn has_layer(layers: Seq<LayerModel>, id: LayerId) -> bool {
    layer_position(layers, id) < layers.len()
}

/// Tells all layers but those with one identity.
pub open spec fn other_layer(id: LayerId) -> spec_fn(LayerModel) -> bool {
    |layer: LayerModel| layer.id != id
}

/// The layers without those of one identity.
pub open spec fn layers_without(layers: Seq<LayerModel>, id: LayerId) -> Seq<LayerModel> {
    layers.filter(other_layer(id))
}

/// The layers with one inserted, at the top when the position is beyond it.
pub open spec fn layers_inserted(
    layers: Seq<LayerModel>,
    index: usize,
    layer: LayerModel,
) -> Seq<LayerModel> {
    layers.insert(if index < layers.len() { index as int } else { layers.len() as int }, layer)
}

/// The layers with the named one moved, to the top when the position is beyond it.
pub open spec fn layers_moved(layers: Seq<LayerModel>, id: LayerId, index: usize) -> Seq<
    LayerModel,
> {
    if has_layer(layers, id) {
        let current = layer_position(layers, id);
        layers_inserted(layers.remove(current), index, layers[current])
    } else {
        layers
    }
}

/// The layers with the named one replaced.
pub open spec fn layer_replaced(
    layers: Seq<LayerModel>,
    id: LayerId,
    change: spec_fn(LayerModel) -> LayerModel,
) -> Seq<LayerModel> {
    if has_layer(layers, id) {
        let i = layer_position(layers, id);
        layers.update(i, change(layers[i]))
    } else {
        layers
    }
}

/// Sets a layer's visibility.
pub open spec fn setting_visible(visible: bool) -> spec_fn(LayerModel) -> LayerModel {
    |layer: LayerModel| LayerModel { visible, ..layer }
}

/// Sets a layer's opacity.
pub open spec fn setting_opacity(opacity: Scalar) -> spec_fn(LayerModel) -> LayerModel {
    |layer: LayerModel| LayerModel { opacity, ..layer }
}

/// Sets a layer's name.
pub open spec fn setting_name(name: Seq<char>) -> spec_fn(LayerModel) -> LayerModel {
    |layer: LayerModel| LayerModel { name, ..layer }
}

/// What [`layer_position`] finds: the first layer with the identity.
pub proof fn lemma_layer_position(layers: Seq<LayerModel>, id: LayerId)
    ensures
        0 <= layer_position(layers, id) <= layers.len(),
        has_layer(layers, id) ==> layers[layer_position(layers, id)].id == id,
        forall|j: int|
            0 <= j < layer_position(layers, id) ==> (#[trigger] layers[j]).id != id,
    decreases layers.len(),
{
    if layers.len() > 0 && layers[0].id != id {
        let rest = layers.drop_first();
        lemma_layer_position(rest, id);
        assert forall|j: int| 0 <= j < layer_position(layers, id) implies (
        #[trigger] layers[j]).id != id by {
            if j > 0 {
                assert(rest[j - 1] == layers[j]);
            }
        }
    }
}

/// The position of the first layer with an identity is determined by that.
pub proof fn lemma_layer_position_is(layers: Seq<LayerModel>, id: LayerId, i: int)
    requires
        0 <= i <= layers.len(),
        i < layers.len() ==> layers[i].id == id,
        forall|j: int| 0 <= j < i ==> (#[trigger] layers[j]).id != id,
    ensures
        layer_position(layers, id) == i,
{
    lemma_layer_position(layers, id);
    let p = layer_position(layers, id);
    if p < i {
        assert(layers[p].id != id);
    }
    if i < p {
        assert(layers[i].id != id);
    }
}

/// No two layers share an identity.
pub open spec fn distinct_layers(layers: Seq<LayerModel>) -> bool {
    forall|i: int, j: int|
        0 <= i < j < layers.len() ==> (#[trigger] layers[i]).id != (#[trigger] layers[j]).id
}

/// Replacing a layer keeps its identity and that of all others.
pub proof fn lemma_layer_replaced(
    layers: Seq<LayerModel>,
    id: LayerId,
    change: spec_fn(LayerModel) -> LayerModel,
)
    requires
        has_layer(layers, id),
        change(layers[layer_position(layers, id)]).id == id,
    ensures
        layer_position(layer_replaced(layers, id, change), id) == layer_position(layers, id),
        distinct_layers(layers) ==> distinct_layers(layer_replaced(layers, id, change)),
{
    lemma_layer_position(layers, id);
    let i = layer_position(layers, id);
    let replaced = layer_replaced(layers, id, change);
    assert forall|j: int| 0 <= j < i implies (#[trigger] replaced[j]).id != id by {
        assert(layers[j].id != id);
    }
    lemma_layer_position_is(replaced, id, i);
    if distinct_layers(layers) {
        assert forall|a: int, b: int| 0 <= a < b < replaced.len() implies (
        #[trigger] replaced[a]).id != (#[trigger] replaced[b]).id by {
            assert(layers[a].id != layers[b].id);
        }
    }
}

/// Changing a layer and changing it back restores the layers.
pub proof fn lemma_layer_edit_reversible(
    layers: Seq<LayerModel>,
    id: LayerId,
    change: spec_fn(LayerModel) -> LayerModel,
    back: spec_fn(LayerModel) -> LayerModel,
)
    requires
        has_layer(layers, id),
        change(layers[layer_position(layers, id)]).id == id,
        back(change(layers[layer_position(layers, id)])) == layers[layer_position(layers, id)],
    ensures
        layer_replaced(layer_replaced(layers, id, change), id, back) == layers,
{
    lemma_layer_position(layers, id);
    lemma_layer_replaced(layers, id, change);
    assert(layer_replaced(layer_replaced(layers, id, change), id, back) =~= layers);
}

/// A new top layer is what inserting it at the top gives.
pub proof fn lemma_layer_on_top(layers: Seq<LayerModel>, layer: LayerModel)
    requires
        layers.len() <= usize::MAX,
    ensures
        layers.push(layer) == layers_inserted(layers, layers.len() as usize, layer),
{
    assert(layers.push(layer) =~= layers.insert(layers.len() as int, layer));
}

/// Filtering the identity of a new top layer out again restores the layers.
pub proof fn lemma_layer_taken_off(layers: Seq<LayerModel>, layer: LayerModel)
    requires
        !has_layer(layers, layer.id),
    ensures
        layers_without(layers.push(layer), layer.id) == layers,
{
    let pushed = layers.push(layer);
    lemma_layer_position(layers, layer.id);
    lemma_filter_all(layers, layer.id);
    assert(pushed.drop_last() =~= layers);
    assert(pushed.last() == layer);
    reveal(Seq::filter);
}

/// A new top layer with a new identity keeps identities distinct.
pub proof fn lemma_layer_on_top_distinct(layers: Seq<LayerModel>, layer: LayerModel)
    requires
        distinct_layers(layers),
        !has_layer(layers, layer.id),
    ensures
        distinct_layers(layers.push(layer)),
{
    let pushed = layers.push(layer);
    lemma_layer_position(layers, layer.id);
    assert forall|a: int, b: int| 0 <= a < b < pushed.len() implies (#[trigger] pushed[a]).id != (
    #[trigger] pushed[b]).id by {
        assert(pushed[a] == layers[a]);
        if b < layers.len() {
            assert(layers[a].id != layers[b].id);
        }
    }
}

/// Filtering out an identity that no layer has changes nothing.
pub proof fn lemma_filter_all(layers: Seq<LayerModel>, id: LayerId)
    requires
        forall|i: int| 0 <= i < layers.len() ==> (#[trigger] layers[i]).id != id,
    ensures
        layers_without(layers, id) == layers,
    decreases layers.len(),
{
    reveal(Seq::filter);
    if layers.len() > 0 {
        assert forall|i: int| 0 <= i < layers.drop_last().len() implies (
        #[trigger] layers.drop_last()[i]).id != id by {
            assert(layers[i].id != id);
        }
        lemma_filter_all(layers.drop_last(), id);
        assert(layers[layers.len() - 1].id != id);
        assert(layers.drop_last().push(layers.last()) =~= layers);
    } else {
        assert(layers_without(layers, id) =~= layers);
    }
}

/// A moved layer stands at its target, and moving it back restores the order.
pub proof fn lemma_moved(layers: Seq<LayerModel>, id: LayerId, index: usize)
    requires
        distinct_layers(layers),
        has_layer(layers, id),
        index < layers.len(),
        layers.len() <= usize::MAX,
    ensures
        distinct_layers(layers_moved(layers, id, index)),
        layer_position(layers_moved(layers, id, index), id) == index,
        layers_moved(
            layers_moved(layers, id, index),
            id,
            layer_position(layers, id) as usize,
        ) == layers,
{
    lemma_layer_position(layers, id);
    let p = layer_position(layers, id);
    let rest = layers.remove(p);
    let moved = layers_moved(layers, id, index);
    assert(moved =~= rest.insert(index as int, layers[p]));
    assert forall|j: int| 0 <= j < rest.len() implies rest[j] == layers[if j < p { j } else {
        j + 1
    }] && (#[trigger] rest[j]).id != id by {
        let k = if j < p { j } else { j + 1 };
        if k < p {
            assert(layers[k].id != layers[p].id);
        } else {
            assert(layers[p].id != layers[k].id);
        }
    }
    assert forall|a: int, b: int| 0 <= a < b < moved.len() implies (#[trigger] moved[a]).id != (
    #[trigger] moved[b]).id by {
        let x = if a < index { a } else { a - 1 };
        let y = if b < index { b } else { b - 1 };
        if a == index {
            assert(moved[b] == rest[y]);
        } else if b == index {
            assert(moved[a] == rest[x]);
        } else {
            assert(moved[a] == rest[x]);
            assert(moved[b] == rest[y]);
            let u = if x < p { x } else { x + 1 };
            let v = if y < p { y } else { y + 1 };
            assert(layers[u].id != layers[v].id);
        }
    }
    assert forall|j: int| 0 <= j < index implies (#[trigger] moved[j]).id != id by {
        assert(moved[j] == rest[j]);
    }
    lemma_layer_position_is(moved, id, index as int);
    assert(moved.remove(index as int) =~= rest);
    assert(layers_moved(moved, id, p as usize) =~= layers);
}

/// A layer of a list is found under its identity.
pub proof fn lemma_layer_found(layers: Seq<LayerModel>, i: int)
    requires
        0 <= i < layers.len(),
    ensures
        has_layer(layers, layers[i].id),
{
    let id = layers[i].id;
    lemma_layer_position(layers, id);
    if !has_layer(layers, id) {
        assert(layers[i].id != id);
    }
}

/// Replacing a layer by one of the same identity takes none out and brings none in.
pub proof fn lemma_found_after_replacing(
    layers: Seq<LayerModel>,
    id: LayerId,
    change: spec_fn(LayerModel) -> LayerModel,
    wanted: LayerId,
)
    requires
        forall|layer: LayerModel| (#[trigger] change(layer)).id == layer.id,
    ensures
        has_layer(layer_replaced(layers, id, change), wanted) == has_layer(layers, wanted),
{
    let after = layer_replaced(layers, id, change);
    lemma_layer_position(layers, id);
    lemma_layer_position(layers, wanted);
    lemma_layer_position(after, wanted);
    if has_layer(layers, wanted) {
        let i = layer_position(layers, wanted);
        assert(after[i].id == layers[i].id);
        lemma_layer_found(after, i);
    }
    if has_layer(after, wanted) {
        let i = layer_position(after, wanted);
        assert(after[i].id == layers[i].id);
        lemma_layer_found(layers, i);
    }
}

/// Moving a layer takes none out and brings none in.
pub proof fn lemma_found_after_moving(
    layers: Seq<LayerModel>,
    id: LayerId,
    index: usize,
    wanted: LayerId,
)
    ensures
        has_layer(layers_moved(layers, id, index), wanted) == has_layer(layers, wanted),
{
    lemma_layer_position(layers, id);
    if has_layer(layers, id) {
        let p = layer_position(layers, id);
        let rest = layers.remove(p);
        lemma_found_after_inserting(rest, index, layers[p], wanted);
        lemma_layer_position(layers, wanted);
        lemma_layer_position(rest, wanted);
        if has_layer(layers, wanted) && wanted != id {
            let i = layer_position(layers, wanted);
            let k = if i < p { i } else { i - 1 };
            assert(rest[k] == layers[i]);
            lemma_layer_found(rest, k);
        }
        if has_layer(rest, wanted) {
            let k = layer_position(rest, wanted);
            let i = if k < p { k } else { k + 1 };
            assert(layers[i] == rest[k]);
            lemma_layer_found(layers, i);
        }
    }
}

/// Inserting a layer brings it in, and takes none out.
pub proof fn lemma_found_after_inserting(
    layers: Seq<LayerModel>,
    index: usize,
    layer: LayerModel,
    wanted: LayerId,
)
    ensures
        has_layer(layers_inserted(layers, index, layer), wanted) == (wanted == layer.id
            || has_layer(layers, wanted)),
{
    let target = if index < layers.len() { index as int } else { layers.len() as int };
    let after = layers_inserted(layers, index, layer);
    assert(after[target] == layer);
    lemma_layer_found(after, target);
    lemma_layer_position(layers, wanted);
    lemma_layer_position(after, wanted);
    if has_layer(layers, wanted) {
        let i = layer_position(layers, wanted);
        let j = if i < target { i } else { i + 1 };
        assert(after[j] == layers[i]);
        lemma_layer_found(after, j);
    }
    if has_layer(after, wanted) && wanted != layer.id {
        let j = layer_position(after, wanted);
        let i = if j < target { j } else { j - 1 };
        assert(layers[i] == after[j]);
        lemma_layer_found(layers, i);
    }
}

/// Taking an identity out takes no other out, and brings none in.
pub proof fn lemma_found_after_removing(layers: Seq<LayerModel>, id: LayerId, wanted: LayerId)
    ensures
        has_layer(layers_without(layers, id), wanted) == (wanted != id && has_layer(
            layers,
            wanted,
        )),
{
    let after = layers_without(layers, id);
    lemma_layer_position(layers, wanted);
    lemma_layer_position(after, wanted);
    if has_layer(layers, wanted) && wanted != id {
        let i = layer_position(layers, wanted);
        layers.lemma_filter_contains(other_layer(id), i);
        let k = choose|k: int| 0 <= k < after.len() && after[k] == layers[i];
        lemma_layer_found(after, k);
    }
    if has_layer(after, wanted) {
        let k = layer_position(after, wanted);
        layers.lemma_filter_pred(other_layer(id), k);
        assert(after.contains(after[k]));
        layers.lemma_filter_contains_rev(other_layer(id), after[k]);
        let i = choose|i: int| 0 <= i < layers.len() && layers[i] == after[k];
        lemma_layer_found(layers, i);
    }
}

} // verus!
