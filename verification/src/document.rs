//! The authoritative document: layers that own strokes and editable paths,
//! raster references, projection, camera and the AI session context.
//!
//! Samples, path positions, reference placements and the camera carry
//! floating-point geometry, so the document is generic over them: what the
//! document itself decides (which layer owns what, and when a request is
//! refused) depends on identifiers alone.
use std::collections::BTreeMap;
use vstd::prelude::*;

use crate::ids::fresh_id;
use crate::ordered::{ascending_of, sorted_keys};
use crate::path::EditablePath;

verus! {

broadcast use vstd::std_specs::btree::group_btree_axioms;

#[verifier::external_type_specification]
#[verifier::external_body]
pub struct ExJsonError(serde_json::Error);

/// How the document's canvas maps to space.
#[derive(Debug, Clone, Copy, PartialEq, Eq, Structural)]
pub enum ProjectionMode {
    Flat,
    InfiniteFlat,
    Cylindrical360,
    Spherical,
    Fisheye,
    Custom,
}

/// Aspects of the artwork the artist wants preserved or left open.
#[derive(Debug, Clone, PartialEq, Default)]
pub struct IntentLocks {
    pub preserve: Vec<String>,
    pub flexible: Vec<String>,
}

/// Time from the first to the last sample of a stroke, 0 when the stroke has
/// no samples or its last sample is not later than its first.
pub open spec fn duration_spec(first_ms: Option<u64>, last_ms: Option<u64>) -> u64 {
    match (first_ms, last_ms) {
        (Some(first), Some(last)) => if last >= first { (last - first) as u64 } else { 0 },
        _ => 0,
    }
}

/// The duration of a stroke from the timestamps of its first and last samples.
pub fn stroke_duration_ms(first_ms: Option<u64>, last_ms: Option<u64>) -> (d: u64)
    ensures
        d == duration_spec(first_ms, last_ms),
{
    match (first_ms, last_ms) {
        (Some(first), Some(last)) => if last >= first {
            last - first
        } else {
            0
        },
        _ => 0,
    }
}

/// A named layer listing the strokes and paths it owns.
#[derive(Debug, Clone, PartialEq)]
pub struct Layer {
    pub id: u128,
    pub name: String,
    pub visible: bool,
    pub stroke_ids: Vec<u128>,
    pub path_ids: Vec<u128>,
}

impl Layer {
    /// A visible, empty layer with a fresh id.
    pub fn new(name: String) -> (layer: Layer)
        ensures
            layer.name@ == name@,
            layer.visible,
            layer.stroke_ids@ == Seq::<u128>::empty(),
            layer.path_ids@ == Seq::<u128>::empty(),
    {
        Layer { id: fresh_id(), name, visible: true, stroke_ids: Vec::new(), path_ids: Vec::new() }
    }
}

/// A stroke on a layer: the brush it is drawn with and its time-stamped
/// input samples.
#[derive(Debug, Clone, PartialEq)]
pub struct Stroke<S> {
    pub id: u128,
    pub layer_id: u128,
    pub brush_id: String,
    pub points: Vec<S>,
}

impl<S> Stroke<S> {
    /// A stroke with a fresh id.
    pub fn new(layer_id: u128, brush_id: String, points: Vec<S>) -> (stroke: Stroke<S>)
        ensures
            stroke.layer_id == layer_id,
            stroke.brush_id@ == brush_id@,
            stroke.points@ == points@,
    {
        Stroke { id: fresh_id(), layer_id, brush_id, points }
    }
}

/// Where a path came from: drawn by hand, or traced from a raster
/// reference starting at a seed pixel.
#[derive(Debug, Clone, Copy, PartialEq, Eq, Structural)]
pub enum PathOrigin {
    Manual,
    TracePulse { reference_id: u128, seed_pixel_x: u32, seed_pixel_y: u32, seed_node_index: usize },
}

/// An editable path placed on a layer.
#[derive(Debug, Clone, PartialEq)]
pub struct PathObject<P> {
    pub layer_id: u128,
    pub geometry: EditablePath<P>,
    pub brush_id: Option<String>,
    pub visible: bool,
    pub origin: PathOrigin,
}

impl<P> PathObject<P> {
    /// A visible path on `layer_id` with no brush assigned.
    pub fn new(layer_id: u128, geometry: EditablePath<P>, origin: PathOrigin) -> (object: PathObject<P>)
        ensures
            object.layer_id == layer_id,
            object.geometry == geometry,
            object.brush_id is None,
            object.visible,
            object.origin == origin,
    {
        PathObject { layer_id, geometry, brush_id: None, visible: true, origin }
    }

    /// A path object is identified by its geometry.
    pub fn id(&self) -> (id: u128)
        ensures
            id == self.geometry.id,
    {
        self.geometry.id
    }
}

/// The artist's intent for the AI session and the references in use.
#[derive(Debug, Clone, PartialEq, Default)]
pub struct AiSessionContext {
    pub artist_intent: Option<String>,
    pub intent_locks: IntentLocks,
    pub active_reference_ids: Vec<u128>,
}

/// Why a document edit was refused, or could not be stored or read back.
#[derive(Debug)]
pub enum DocumentError {
    MissingLayer(u128),
    Serialize(serde_json::Error),
    Deserialize(serde_json::Error),
}

/// The document: layers, strokes with samples of type `S`, paths with
/// positions of type `P`, raster references `R` and a camera `C`.
#[derive(Debug, Clone, PartialEq)]
pub struct Document<S, P, R, C> {
    pub id: u128,
    pub title: String,
    pub projection: ProjectionMode,
    pub camera: C,
    pub layers: BTreeMap<u128, Layer>,
    pub strokes: BTreeMap<u128, Stroke<S>>,
    pub paths: BTreeMap<u128, PathObject<P>>,
    pub raster_references: BTreeMap<u128, R>,
    pub ai: AiSessionContext,
}

/// `after` is `before` with `id` appended to its strokes.
pub open spec fn gains_stroke(before: Layer, after: Layer, id: u128) -> bool {
    &&& after.id == before.id
    &&& after.name == before.name
    &&& after.visible == before.visible
    &&& after.stroke_ids@ == before.stroke_ids@.push(id)
    &&& after.path_ids@ == before.path_ids@
}

/// `after` is `before` with `id` appended to its paths.
pub open spec fn gains_path(before: Layer, after: Layer, id: u128) -> bool {
    &&& after.id == before.id
    &&& after.name == before.name
    &&& after.visible == before.visible
    &&& after.stroke_ids@ == before.stroke_ids@
    &&& after.path_ids@ == before.path_ids@.push(id)
}

/// Membership in `stored`, as a predicate.
pub open spec fn held_in(stored: Set<u128>) -> spec_fn(u128) -> bool {
    |id: u128| stored.contains(id)
}

/// The strokes drawn for the layers `keys` of `layers`, in that order: for
/// each visible layer, the stroke ids it lists that are in `stored`, in the
/// order the layer lists them; hidden layers contribute nothing.
pub open spec fn render_order(layers: Map<u128, Layer>, keys: Seq<u128>, stored: Set<u128>) -> Seq<u128>
    decreases keys.len(),
{
    if keys.len() == 0 {
        Seq::empty()
    } else {
        let earlier = render_order(layers, keys.drop_last(), stored);
        let layer = layers[keys.last()];
        if layer.visible {
            earlier + layer.stroke_ids@.filter(held_in(stored))
        } else {
            earlier
        }
    }
}

proof fn lemma_filter_step(s: Seq<u128>, pred: spec_fn(u128) -> bool, j: int)
    requires
        0 <= j < s.len(),
    ensures
        s.take(j + 1).filter(pred) == if pred(s[j]) {
            s.take(j).filter(pred).push(s[j])
        } else {
            s.take(j).filter(pred)
        },
{
    reveal(Seq::filter);
    assert(s.take(j + 1).drop_last() =~= s.take(j));
    assert(s.take(j + 1).last() == s[j]);
}

impl<S, P, R, C> Document<S, P, R, C> {
    /// Ownership is consistent: every layer is stored under its own id, and
    /// every stroke and path is stored under its own id, on a layer of the
    /// document whose list names it.
    pub open spec fn wf(&self) -> bool {
        &&& forall|k: u128| #[trigger] self.layers@.contains_key(k) ==> self.layers@[k].id == k
        &&& forall|k: u128| #[trigger]
            self.strokes@.contains_key(k) ==> {
                let owner = self.strokes@[k].layer_id;
                &&& self.strokes@[k].id == k
                &&& self.layers@.contains_key(owner)
                &&& self.layers@[owner].stroke_ids@.contains(k)
            }
        &&& forall|k: u128| #[trigger]
            self.paths@.contains_key(k) ==> {
                let owner = self.paths@[k].layer_id;
                &&& self.paths@[k].geometry.id == k
                &&& self.layers@.contains_key(owner)
                &&& self.layers@[owner].path_ids@.contains(k)
            }
    }

    /// Identity, title, projection, camera and AI context agree.
    pub open spec fn same_header(&self, other: Self) -> bool {
        &&& self.id == other.id
        &&& self.title == other.title
        &&& self.projection == other.projection
        &&& self.camera == other.camera
        &&& self.ai == other.ai
    }

    /// An empty document with a fresh id on an infinite flat canvas.
    pub fn new(title: String, camera: C) -> (document: Self)
        ensures
            document.title@ == title@,
            document.projection == ProjectionMode::InfiniteFlat,
            document.camera == camera,
            document.layers@ == Map::<u128, Layer>::empty(),
            document.strokes@ == Map::<u128, Stroke<S>>::empty(),
            document.paths@ == Map::<u128, PathObject<P>>::empty(),
            document.raster_references@ == Map::<u128, R>::empty(),
            document.ai.artist_intent is None,
            document.ai.intent_locks.preserve@ == Seq::<String>::empty(),
            document.ai.intent_locks.flexible@ == Seq::<String>::empty(),
            document.ai.active_reference_ids@ == Seq::<u128>::empty(),
            document.wf(),
    {
        Document {
            id: fresh_id(),
            title,
            projection: ProjectionMode::InfiniteFlat,
            camera,
            layers: BTreeMap::new(),
            strokes: BTreeMap::new(),
            paths: BTreeMap::new(),
            raster_references: BTreeMap::new(),
            ai: AiSessionContext {
                artist_intent: None,
                intent_locks: IntentLocks { preserve: Vec::new(), flexible: Vec::new() },
                active_reference_ids: Vec::new(),
            },
        }
    }

    /// Stores `layer` under its id and returns the id.
    pub fn add_layer(&mut self, layer: Layer) -> (id: u128)
        ensures
            id == layer.id,
            final(self).layers@ == old(self).layers@.insert(id, layer),
            final(self).strokes == old(self).strokes,
            final(self).paths == old(self).paths,
            final(self).raster_references == old(self).raster_references,
            final(self).same_header(*old(self)),
            old(self).wf() && !old(self).layers@.contains_key(id) ==> final(self).wf(),
    {
        let id = layer.id;
        self.layers.insert(id, layer);
        proof {
            if old(self).wf() && !old(self).layers@.contains_key(id) {
                assert forall|k: u128| #[trigger] self.strokes@.contains_key(k) implies
                    self.layers@[self.strokes@[k].layer_id].stroke_ids@.contains(k) by {
                    assert(old(self).layers@.contains_key(self.strokes@[k].layer_id));
                }
                assert forall|k: u128| #[trigger] self.paths@.contains_key(k) implies
                    self.layers@[self.paths@[k].layer_id].path_ids@.contains(k) by {
                    assert(old(self).layers@.contains_key(self.paths@[k].layer_id));
                }
            }
        }
        id
    }

    /// Adds `stroke` to the layer it names, which lists it; refused, with the
    /// document unchanged, when that layer does not exist.
    pub fn add_stroke(&mut self, stroke: Stroke<S>) -> (r: Result<u128, DocumentError>)
        ensures
            r is Ok <==> old(self).layers@.contains_key(stroke.layer_id),
            r is Err ==> r == Err::<u128, DocumentError>(DocumentError::MissingLayer(stroke.layer_id))
                && *final(self) == *old(self),
            r is Ok ==> {
                let owner = stroke.layer_id;
                &&& r == Ok::<u128, DocumentError>(stroke.id)
                &&& final(self).strokes@ == old(self).strokes@.insert(stroke.id, stroke)
                &&& final(self).layers@.dom() == old(self).layers@.dom()
                &&& gains_stroke(old(self).layers@[owner], final(self).layers@[owner], stroke.id)
                &&& forall|k: u128| k != owner && #[trigger] old(self).layers@.contains_key(k)
                    ==> final(self).layers@[k] == old(self).layers@[k]
                &&& final(self).paths == old(self).paths
                &&& final(self).raster_references == old(self).raster_references
                &&& final(self).same_header(*old(self))
            },
            old(self).wf() ==> final(self).wf(),
    {
        let owner = stroke.layer_id;
        if !self.layers.contains_key(&owner) {
            return Err(DocumentError::MissingLayer(owner));
        }
        let id = stroke.id;
        let mut layer = self.layers.remove(&owner).unwrap();
        layer.stroke_ids.push(id);
        self.layers.insert(owner, layer);
        self.strokes.insert(id, stroke);
        proof {
            assert(self.layers@ == old(self).layers@.insert(owner, layer));
            if old(self).wf() {
                assert forall|k: u128| #[trigger] self.layers@.contains_key(k) implies self.layers@[k].id == k by {
                    assert(old(self).layers@.contains_key(k));
                }
                assert forall|k: u128| #[trigger] self.strokes@.contains_key(k) implies {
                    let o = self.strokes@[k].layer_id;
                    &&& self.strokes@[k].id == k
                    &&& self.layers@.contains_key(o)
                    &&& self.layers@[o].stroke_ids@.contains(k)
                } by {
                    if k == id {
                        assert(layer.stroke_ids@.last() == id);
                    } else {
                        assert(old(self).strokes@.contains_key(k));
                        let o = self.strokes@[k].layer_id;
                        if o == owner {
                            let j = old(self).layers@[o].stroke_ids@.index_of(k);
                            assert(layer.stroke_ids@[j] == k);
                        }
                    }
                }
                assert forall|k: u128| #[trigger] self.paths@.contains_key(k) implies {
                    let o = self.paths@[k].layer_id;
                    &&& self.layers@.contains_key(o)
                    &&& self.layers@[o].path_ids@.contains(k)
                } by {
                    assert(old(self).paths@.contains_key(k));
                }
            }
        }
        Ok(id)
    }

    /// Adds `path` to the layer it names, which lists it under the path's
    /// id; refused, with the document unchanged, when that layer does not
    /// exist.
    pub fn add_path(&mut self, path: PathObject<P>) -> (r: Result<u128, DocumentError>)
        ensures
            r is Ok <==> old(self).layers@.contains_key(path.layer_id),
            r is Err ==> r == Err::<u128, DocumentError>(DocumentError::MissingLayer(path.layer_id))
                && *final(self) == *old(self),
            r is Ok ==> {
                let owner = path.layer_id;
                let id = path.geometry.id;
                &&& r == Ok::<u128, DocumentError>(id)
                &&& final(self).paths@ == old(self).paths@.insert(id, path)
                &&& final(self).layers@.dom() == old(self).layers@.dom()
                &&& gains_path(old(self).layers@[owner], final(self).layers@[owner], id)
                &&& forall|k: u128| k != owner && #[trigger] old(self).layers@.contains_key(k)
                    ==> final(self).layers@[k] == old(self).layers@[k]
                &&& final(self).strokes == old(self).strokes
                &&& final(self).raster_references == old(self).raster_references
                &&& final(self).same_header(*old(self))
            },
            old(self).wf() ==> final(self).wf(),
    {
        let owner = path.layer_id;
        if !self.layers.contains_key(&owner) {
            return Err(DocumentError::MissingLayer(owner));
        }
        let id = path.id();
        let mut layer = self.layers.remove(&owner).unwrap();
        layer.path_ids.push(id);
        self.layers.insert(owner, layer);
        self.paths.insert(id, path);
        proof {
            assert(self.layers@ == old(self).layers@.insert(owner, layer));
            if old(self).wf() {
                assert forall|k: u128| #[trigger] self.layers@.contains_key(k) implies self.layers@[k].id == k by {
                    assert(old(self).layers@.contains_key(k));
                }
                assert forall|k: u128| #[trigger] self.paths@.contains_key(k) implies {
                    let o = self.paths@[k].layer_id;
                    &&& self.paths@[k].geometry.id == k
                    &&& self.layers@.contains_key(o)
                    &&& self.layers@[o].path_ids@.contains(k)
                } by {
                    if k == id {
                        assert(layer.path_ids@.last() == id);
                    } else {
                        assert(old(self).paths@.contains_key(k));
                        let o = self.paths@[k].layer_id;
                        if o == owner {
                            let j = old(self).layers@[o].path_ids@.index_of(k);
                            assert(layer.path_ids@[j] == k);
                        }
                    }
                }
                assert forall|k: u128| #[trigger] self.strokes@.contains_key(k) implies {
                    let o = self.strokes@[k].layer_id;
                    &&& self.layers@.contains_key(o)
                    &&& self.layers@[o].stroke_ids@.contains(k)
                } by {
                    assert(old(self).strokes@.contains_key(k));
                }
            }
        }
        Ok(id)
    }

    /// The strokes a renderer draws, in drawing order: the visible layers
    /// in ascending id order, each contributing the strokes it lists that
    /// the document holds, in the layer's order.
    pub fn strokes_in_render_order(&self) -> (ids: Vec<u128>)
        ensures
            ids@ == render_order(self.layers@, ascending_of(self.layers@.dom()), self.strokes@.dom()),
    {
        let keys = sorted_keys(&self.layers);
        let ghost stored = self.strokes@.dom();
        let mut ids: Vec<u128> = Vec::new();
        let mut i: usize = 0;
        while i < keys.len()
            invariant
                i <= keys@.len(),
                keys@.to_set() == self.layers@.dom(),
                stored == self.strokes@.dom(),
                ids@ == render_order(self.layers@, keys@.take(i as int), stored),
            decreases keys@.len() - i,
        {
            let key = keys[i];
            assert(keys@.to_set().contains(key)) by {
                assert(keys@.contains(key));
            }
            let layer = self.layers.get(&key).unwrap();
            assert(keys@.take(i + 1).drop_last() =~= keys@.take(i as int));
            if layer.visible {
                let ghost before = ids@;
                let mut j: usize = 0;
                while j < layer.stroke_ids.len()
                    invariant
                        j <= layer.stroke_ids@.len(),
                        stored == self.strokes@.dom(),
                        ids@ == before + layer.stroke_ids@.take(j as int).filter(held_in(stored)),
                    decreases layer.stroke_ids@.len() - j,
                {
                    let id = layer.stroke_ids[j];
                    proof {
                        lemma_filter_step(layer.stroke_ids@, held_in(stored), j as int);
                    }
                    if self.strokes.contains_key(&id) {
                        ids.push(id);
                    }
                    j = j + 1;
                }
                assert(layer.stroke_ids@.take(j as int) =~= layer.stroke_ids@);
            }
            i = i + 1;
        }
        assert(keys@.take(i as int) =~= keys@);
        ids
    }

    /// Stores `reference` under `reference_id`, the id the reference carries,
    /// and returns that id.
    pub fn add_raster_reference(&mut self, reference_id: u128, reference: R) -> (id: u128)
        ensures
            id == reference_id,
            final(self).raster_references@ == old(self).raster_references@.insert(id, reference),
            final(self).layers == old(self).layers,
            final(self).strokes == old(self).strokes,
            final(self).paths == old(self).paths,
            final(self).same_header(*old(self)),
            old(self).wf() ==> final(self).wf(),
    {
        self.raster_references.insert(reference_id, reference);
        reference_id
    }
}

} // verus!
