use blackmamba_paint::document::{
    stroke_duration_ms, Document, DocumentError, Layer, PathObject, PathOrigin, ProjectionMode,
    Stroke,
};
use blackmamba_paint::path::EditablePath;

#[derive(Debug, Clone, Copy, PartialEq)]
struct Vec2 {
    x: f64,
    y: f64,
}

impl Vec2 {
    fn new(x: f64, y: f64) -> Self {
        Vec2 { x, y }
    }
}

#[derive(Debug, Clone, Copy, PartialEq)]
struct Sample {
    x: f64,
    y: f64,
    pressure: f32,
    timestamp_ms: u64,
}

#[derive(Debug, Clone, Copy, PartialEq)]
struct Camera {
    x: f64,
    y: f64,
    zoom: f64,
}

type TestDocument = Document<Sample, Vec2, String, Camera>;

fn camera() -> Camera {
    Camera { x: 0.0, y: 0.0, zoom: 1.0 }
}

#[test]
fn path_is_owned_by_layer_and_preserves_tracepulse_seed() {
    let mut document: TestDocument = Document::new("trace path".to_string(), camera());
    let layer_id = document.add_layer(Layer::new("trace".to_string()));
    let reference_id = 0x5eed_u128;
    let path = EditablePath::from_polyline(vec![Vec2::new(1.0, 2.0), Vec2::new(3.0, 4.0)]);
    let object = PathObject::new(
        layer_id,
        path,
        PathOrigin::TracePulse {
            reference_id,
            seed_pixel_x: 7,
            seed_pixel_y: 9,
            seed_node_index: 1,
        },
    );
    let path_id = document.add_path(object).unwrap();

    assert_eq!(document.layers[&layer_id].path_ids, vec![path_id]);
    assert!(matches!(
        document.paths[&path_id].origin,
        PathOrigin::TracePulse {
            reference_id: id,
            seed_pixel_x: 7,
            seed_pixel_y: 9,
            seed_node_index: 1,
        } if id == reference_id
    ));
}

fn duration_ms(stroke: &Stroke<Sample>) -> u64 {
    stroke_duration_ms(
        stroke.points.first().map(|p| p.timestamp_ms),
        stroke.points.last().map(|p| p.timestamp_ms),
    )
}

#[test]
fn stroke_is_time_native() {
    let layer = Layer::new("ink".to_string());
    let stroke = Stroke::new(
        layer.id,
        "pencil".to_string(),
        vec![
            Sample { x: 0.0, y: 0.0, pressure: 0.4, timestamp_ms: 100 },
            Sample { x: 50.0, y: 10.0, pressure: 0.9, timestamp_ms: 350 },
        ],
    );
    assert_eq!(duration_ms(&stroke), 250);
}

#[test]
fn stroke_duration_saturates_and_is_zero_without_samples() {
    assert_eq!(stroke_duration_ms(Some(100), Some(350)), 250);
    assert_eq!(stroke_duration_ms(Some(350), Some(100)), 0);
    assert_eq!(stroke_duration_ms(None, None), 0);
    let empty: Stroke<Sample> = Stroke::new(1, "pencil".to_string(), Vec::new());
    assert_eq!(duration_ms(&empty), 0);
}

#[test]
fn stroke_on_a_layer_is_listed_by_that_layer() {
    let mut document: TestDocument = Document::new("ink".to_string(), camera());
    let layer_id = document.add_layer(Layer::new("ink".to_string()));
    let points = vec![
        Sample { x: 0.0, y: 0.0, pressure: 0.4, timestamp_ms: 100 },
        Sample { x: 50.0, y: 10.0, pressure: 0.9, timestamp_ms: 350 },
    ];
    let stroke = Stroke::new(layer_id, "pencil".to_string(), points);
    let stroke_id = stroke.id;
    assert_eq!(document.add_stroke(stroke).unwrap(), stroke_id);

    let stored = &document.strokes[&stroke_id];
    assert_eq!(stored.points.len(), 2);
    assert_eq!(stored.brush_id, "pencil");
    assert_eq!(duration_ms(stored), 250);
    assert_eq!(document.layers[&layer_id].stroke_ids, vec![stroke_id]);
    assert!(document.layers[&layer_id].path_ids.is_empty());
}

#[test]
fn stroke_on_a_missing_layer_is_refused_and_changes_nothing() {
    let mut document: TestDocument = Document::new("strict".to_string(), camera());
    let layer_id = document.add_layer(Layer::new("ink".to_string()));
    let missing = layer_id.wrapping_add(1);
    let before = document.clone();

    let result = document.add_stroke(Stroke::new(missing, "graphite".to_string(), Vec::new()));
    assert!(matches!(result, Err(DocumentError::MissingLayer(id)) if id == missing));
    assert_eq!(document, before);

    let path = EditablePath::from_polyline(vec![Vec2::new(0.0, 0.0)]);
    let result = document.add_path(PathObject::new(missing, path, PathOrigin::Manual));
    assert!(matches!(result, Err(DocumentError::MissingLayer(id)) if id == missing));
    assert_eq!(document, before);
}

#[test]
fn new_document_is_empty_on_an_infinite_canvas() {
    let document: TestDocument = Document::new("blank".to_string(), camera());
    assert_eq!(document.title, "blank");
    assert_eq!(document.projection, ProjectionMode::InfiniteFlat);
    assert!(document.layers.is_empty());
    assert!(document.strokes.is_empty());
    assert!(document.paths.is_empty());
    assert!(document.raster_references.is_empty());
    assert!(document.ai.artist_intent.is_none());
    assert!(document.ai.intent_locks.preserve.is_empty());
    assert_eq!(document.camera, camera());
}

#[test]
fn layers_keep_their_own_lists_and_references_are_stored_by_id() {
    let mut document: TestDocument = Document::new("two layers".to_string(), camera());
    let a = document.add_layer(Layer::new("a".to_string()));
    let b = document.add_layer(Layer::new("b".to_string()));
    let s1 = document.add_stroke(Stroke::new(a, "ink".to_string(), Vec::new())).unwrap();
    let s2 = document.add_stroke(Stroke::new(b, "ink".to_string(), Vec::new())).unwrap();
    let s3 = document.add_stroke(Stroke::new(a, "ink".to_string(), Vec::new())).unwrap();
    assert_eq!(document.layers[&a].stroke_ids, vec![s1, s3]);
    assert_eq!(document.layers[&b].stroke_ids, vec![s2]);

    let id = document.add_raster_reference(77, "ref.png".to_string());
    assert_eq!(id, 77);
    assert_eq!(document.raster_references[&77], "ref.png");
    assert_eq!(document.strokes.len(), 3);
}

#[test]
fn a_new_layer_is_visible_and_empty() {
    let layer = Layer::new("construction".to_string());
    assert_eq!(layer.name, "construction");
    assert!(layer.visible);
    assert!(layer.stroke_ids.is_empty());
    assert!(layer.path_ids.is_empty());
    let object: PathObject<Vec2> = PathObject::new(
        layer.id,
        EditablePath::from_polyline(vec![Vec2::new(1.0, 1.0)]),
        PathOrigin::Manual,
    );
    assert_eq!(object.id(), object.geometry.id);
    assert!(object.brush_id.is_none());
    assert!(object.visible);
}

#[test]
fn render_order_skips_hidden_layers_and_missing_strokes() {
    let mut document: TestDocument = Document::new("render".to_string(), camera());
    let mut hidden = Layer::new("hidden".to_string());
    hidden.id = 10;
    hidden.visible = false;
    let mut low = Layer::new("low".to_string());
    low.id = 5;
    let mut high = Layer::new("high".to_string());
    high.id = 20;
    document.add_layer(high);
    document.add_layer(hidden);
    document.add_layer(low);

    let mut ids = Vec::new();
    for (layer, stroke_id) in [(20u128, 1u128), (10, 2), (5, 3), (20, 4), (5, 5)] {
        let mut stroke: Stroke<Sample> = Stroke::new(layer, "ink".to_string(), Vec::new());
        stroke.id = stroke_id;
        ids.push(document.add_stroke(stroke).unwrap());
    }
    assert_eq!(ids, vec![1, 2, 3, 4, 5]);
    // a listed id the document no longer holds is skipped
    document.layers.get_mut(&5).unwrap().stroke_ids.push(99);

    assert_eq!(document.strokes_in_render_order(), vec![3, 5, 1, 4]);
}
