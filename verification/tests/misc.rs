use blackmamba_paint::brush::{check_brush_id, BrushError};
use blackmamba_paint::reference::{next_z_index, order_hits, ReferenceHit};
use blackmamba_paint::storage::{check_package_header, StorageError, BMPAINT_MAGIC, BMPAINT_VERSION};
use blackmamba_paint::text::{contains_text, normalize, trim};
use blackmamba_paint::trace::PixelCoord;

#[test]
fn package_headers_are_checked_magic_first() {
    assert_eq!(check_package_header(BMPAINT_MAGIC.to_string(), BMPAINT_VERSION), Ok(()));
    assert_eq!(check_package_header(BMPAINT_MAGIC.to_string(), 0), Ok(()));
    assert_eq!(
        check_package_header(BMPAINT_MAGIC.to_string(), BMPAINT_VERSION + 1),
        Err(StorageError::UnsupportedVersion(BMPAINT_VERSION + 1))
    );
    assert_eq!(
        check_package_header("PNG".to_string(), 99),
        Err(StorageError::InvalidMagic("PNG".to_string()))
    );
}

#[test]
fn brush_ids_must_not_be_blank() {
    assert_eq!(check_brush_id("graphite"), Ok(()));
    assert_eq!(check_brush_id("  \t"), Err(BrushError::EmptyBrushId));
    assert_eq!(check_brush_id(""), Err(BrushError::EmptyBrushId));
}

#[test]
fn new_references_stack_above_existing_ones() {
    assert_eq!(next_z_index(&Vec::new()), 0);
    assert_eq!(next_z_index(&vec![0]), 1);
    assert_eq!(next_z_index(&vec![3, -2, 7, 1]), 8);
    assert_eq!(next_z_index(&vec![-5, -9]), -4);
    assert_eq!(next_z_index(&vec![i64::MAX, 4]), i64::MAX);
}

fn hit(reference_id: u128, z_index: i64) -> ReferenceHit {
    ReferenceHit { reference_id, asset_id: 0, pixel: PixelCoord::new(5, 5), z_index }
}

#[test]
fn hits_are_ordered_topmost_first() {
    let ordered = order_hits(&vec![hit(1, 2), hit(2, 9), hit(3, 2), hit(4, -1)]);
    let ids: Vec<u128> = ordered.iter().map(|h| h.reference_id).collect();
    assert_eq!(ids, vec![2, 3, 1, 4]);
}

#[test]
fn text_is_trimmed_lowercased_and_searched() {
    assert_eq!(trim("  Hello World \n"), "Hello World");
    assert_eq!(trim(" \t "), "");
    assert_eq!(normalize("  Shape ANGULARITY ".to_string()), "shape angularity");
    assert!(contains_text("modernist architecture", "architect"));
    assert!(contains_text("abc", ""));
    assert!(!contains_text("abc", "abcd"));
    assert!(!contains_text("geometry", "geometric"));
}
