use blackmamba_paint::raster::{
    check_dimensions, decode_asset, decode_reference, decode_with_dimensions, raster_from_decoded,
    raster_from_rgba8, AssetBlob, RasterDecodeError,
};
use std::collections::BTreeMap;
use blackmamba_paint::trace::{PixelCoord, RasterImage, Rgba, TraceError};
use image::{DynamicImage, ImageFormat, RgbaImage};
use std::io::Cursor;

fn two_pixel_png() -> Vec<u8> {
    let rgba = RgbaImage::from_raw(2, 1, vec![255, 0, 0, 255, 0, 128, 255, 64]).unwrap();
    let image = DynamicImage::ImageRgba8(rgba);
    let mut bytes = Cursor::new(Vec::new());
    image.write_to(&mut bytes, ImageFormat::Png).unwrap();
    bytes.into_inner()
}

fn asset(bytes: Vec<u8>) -> AssetBlob {
    AssetBlob::new("pixels.png".to_string(), "image/png".to_string(), bytes)
}

#[test]
fn package_asset_decodes_to_tracepulse_rgba_exactly() {
    let decoded = decode_asset(&asset(two_pixel_png())).unwrap();
    assert_eq!(decoded.width, 2);
    assert_eq!(decoded.height, 1);
    assert_eq!(
        decoded.pixel(PixelCoord::new(0, 0)).unwrap(),
        Rgba { r: 255, g: 0, b: 0, a: 255 }
    );
    assert_eq!(
        decoded.pixel(PixelCoord::new(1, 0)).unwrap(),
        Rgba { r: 0, g: 128, b: 255, a: 64 }
    );
}

fn package_with(blob: AssetBlob) -> (BTreeMap<u128, AssetBlob>, u128) {
    let id = blob.id;
    (BTreeMap::from([(id, blob)]), id)
}

#[test]
fn reference_resolves_its_asset_and_validates_dimensions() {
    let (assets, asset_id) = package_with(asset(two_pixel_png()));
    let decoded = decode_reference(&assets, asset_id, 2, 1).unwrap();
    assert_eq!((decoded.width, decoded.height), (2, 1));
}

#[test]
fn stale_reference_dimensions_are_rejected() {
    let (assets, asset_id) = package_with(asset(two_pixel_png()));
    assert!(matches!(
        decode_reference(&assets, asset_id, 3, 1),
        Err(RasterDecodeError::DimensionMismatch {
            reference_width: 3,
            reference_height: 1,
            decoded_width: 2,
            decoded_height: 1,
        })
    ));
}

#[test]
fn missing_asset_is_explicit() {
    let assets: BTreeMap<u128, AssetBlob> = BTreeMap::new();
    let missing_id = 0x1234_5678_u128;
    assert!(matches!(
        decode_reference(&assets, missing_id, 1, 1),
        Err(RasterDecodeError::MissingAsset(id)) if id == missing_id
    ));
}

#[test]
fn dimensions_are_checked_on_a_single_asset() {
    let decoded = decode_with_dimensions(&asset(two_pixel_png()), 2, 1).unwrap();
    assert_eq!(decoded.pixel(PixelCoord::new(1, 0)), Some(Rgba { r: 0, g: 128, b: 255, a: 64 }));
    assert!(matches!(
        decode_with_dimensions(&asset(two_pixel_png()), 2, 2),
        Err(RasterDecodeError::DimensionMismatch { decoded_width: 2, decoded_height: 1, .. })
    ));
}

#[test]
fn corrupt_bytes_are_not_an_image() {
    let result = decode_asset(&asset(vec![1, 2, 3, 4]));
    assert!(matches!(
        result,
        Err(RasterDecodeError::Image(_)) | Err(RasterDecodeError::Io(_))
    ));
}

#[test]
fn samples_group_into_rgba_pixels() {
    let raw = vec![1, 2, 3, 4, 5, 6, 7, 8, 9];
    let image = raster_from_rgba8(2, 1, &raw).unwrap();
    assert_eq!(image.pixel(PixelCoord::new(0, 0)), Some(Rgba { r: 1, g: 2, b: 3, a: 4 }));
    assert_eq!(image.pixel(PixelCoord::new(1, 0)), Some(Rgba { r: 5, g: 6, b: 7, a: 8 }));
    assert_eq!(
        raster_from_rgba8(3, 1, &raw).unwrap_err(),
        TraceError::InvalidPixelCount { expected: 3, actual: 2 }
    );
}

#[test]
fn new_assets_keep_their_name_type_and_bytes() {
    let blob = AssetBlob::new("a.png".to_string(), "image/png".to_string(), vec![9, 8]);
    assert_eq!(blob.name, "a.png");
    assert_eq!(blob.media_type, "image/png");
    assert_eq!(blob.bytes, vec![9, 8]);
}

#[test]
fn decoded_samples_become_the_image_and_errors_pass_through() {
    let image = raster_from_decoded(Ok((1, 2, vec![1, 2, 3, 4, 5, 6, 7, 8]))).unwrap();
    assert_eq!((image.width, image.height), (1, 2));
    assert_eq!(image.pixel(PixelCoord::new(0, 1)), Some(Rgba { r: 5, g: 6, b: 7, a: 8 }));
    assert!(matches!(
        raster_from_decoded(Ok((2, 2, vec![0; 8]))),
        Err(RasterDecodeError::Trace(TraceError::InvalidPixelCount { expected: 4, actual: 2 }))
    ));
    assert!(matches!(
        raster_from_decoded(Ok((u32::MAX, 2, Vec::new()))),
        Err(RasterDecodeError::Trace(TraceError::ImageTooLarge))
    ));
    assert!(matches!(
        raster_from_decoded(Err(RasterDecodeError::MissingAsset(9))),
        Err(RasterDecodeError::MissingAsset(9))
    ));
}

#[test]
fn dimensions_are_checked_on_the_decoded_image() {
    let image = RasterImage::filled(3, 2, Rgba::white()).unwrap();
    assert!(check_dimensions(Ok(image.clone()), 3, 2).is_ok());
    assert!(matches!(
        check_dimensions(Ok(image), 2, 2),
        Err(RasterDecodeError::DimensionMismatch {
            reference_width: 2,
            reference_height: 2,
            decoded_width: 3,
            decoded_height: 2,
        })
    ));
    assert!(matches!(
        check_dimensions(Err(RasterDecodeError::MissingAsset(4)), 1, 1),
        Err(RasterDecodeError::MissingAsset(4))
    ));
}
