//! Decoding of stored image assets into traceable raster images.
use std::collections::BTreeMap;
use vstd::prelude::*;

use crate::ids::fresh_id;
use crate::trace::{pixel_count, PixelCoord, RasterImage, Rgba, TraceError};

verus! {

broadcast use vstd::std_specs::btree::group_btree_axioms;

#[verifier::external_type_specification]
#[verifier::external_body]
pub struct ExImageError(image::ImageError);

#[verifier::external_type_specification]
#[verifier::external_body]
pub struct ExIoError(std::io::Error);

/// An encoded image stored alongside a document.
#[derive(Debug, Clone)]
pub struct AssetBlob {
    pub id: u128,
    pub name: String,
    pub media_type: String,
    pub bytes: Vec<u8>,
}

impl AssetBlob {
    /// A blob with a fresh id.
    pub fn new(name: String, media_type: String, bytes: Vec<u8>) -> (blob: AssetBlob)
        ensures
            blob.name@ == name@,
            blob.media_type@ == media_type@,
            blob.bytes@ == bytes@,
    {
        AssetBlob { id: fresh_id(), name, media_type, bytes }
    }
}

/// Why an asset could not be turned into a raster image.
#[derive(Debug)]
pub enum RasterDecodeError {
    MissingAsset(u128),
    DimensionMismatch { reference_width: u32, reference_height: u32, decoded_width: u32, decoded_height: u32 },
    Io(std::io::Error),
    Image(image::ImageError),
    Trace(TraceError),
}

/// Calls `image::ImageReader::new(Cursor::new(bytes)).with_guessed_format()`,
/// then `decode()`, converts the image with `to_rgba8()` and hands back its
/// `dimensions()` and `into_raw()` samples. Claimed: a failure is reported as
/// the `Io` error of format detection or the `Image` error of decoding.
/// Not stated: which images come back. The `image` crate consults detection
/// and decoding hooks that any code in the process may register, so the
/// outcome is not a function of the bytes alone.
#[verifier::external_body]
fn decode_rgba8(bytes: &Vec<u8>) -> (r: Result<(u32, u32, Vec<u8>), RasterDecodeError>)
    ensures
        r matches Err(e) ==> e is Io || e is Image,
{
    let reader = match image::ImageReader::new(std::io::Cursor::new(bytes.as_slice())).with_guessed_format() {
        Ok(reader) => reader,
        Err(error) => return Err(RasterDecodeError::Io(error)),
    };
    let decoded = match reader.decode() {
        Ok(image) => image.to_rgba8(),
        Err(error) => return Err(RasterDecodeError::Image(error)),
    };
    let (width, height) = decoded.dimensions();
    Ok((width, height, decoded.into_raw()))
}

/// Colours read from consecutive groups of four samples (red, green, blue,
/// alpha); a trailing incomplete group is ignored.
pub open spec fn rgba_pixels(raw: Seq<u8>) -> Seq<Rgba> {
    Seq::new(
        raw.len() / 4,
        |i: int| Rgba { r: raw[4 * i], g: raw[4 * i + 1], b: raw[4 * i + 2], a: raw[4 * i + 3] },
    )
}

/// A raster image from decoded RGBA samples.
pub fn raster_from_rgba8(width: u32, height: u32, raw: &Vec<u8>) -> (r: Result<RasterImage, TraceError>)
    ensures
        match r {
            Ok(image) => {
                &&& pixel_count(width, height) == Some(rgba_pixels(raw@).len())
                &&& image.spec_width() == width
                &&& image.spec_height() == height
                &&& image@ == rgba_pixels(raw@)
                &&& image.wf()
            },
            Err(TraceError::ImageTooLarge) => pixel_count(width, height) is None,
            Err(TraceError::InvalidPixelCount { expected, actual }) => {
                &&& pixel_count(width, height) == Some(expected as nat)
                &&& actual == rgba_pixels(raw@).len()
                &&& expected != actual
            },
            Err(_) => false,
        },
{
    let mut pixels: Vec<Rgba> = Vec::new();
    let len = raw.len();
    let count = len / 4;
    let mut i: usize = 0;
    while i < count
        invariant
            len == raw@.len(),
            count == raw@.len() / 4,
            i <= count,
            pixels@ == rgba_pixels(raw@).take(i as int),
        decreases count - i,
    {
        proof {
            vstd::arithmetic::div_mod::lemma_fundamental_div_mod(raw@.len() as int, 4);
            assert(4 * i + 3 < raw@.len()) by (nonlinear_arith)
                requires
                    i < count,
                    raw@.len() == 4 * count + raw@.len() % 4,
                    raw@.len() % 4 >= 0,
            ;
        }
        let base = 4 * i;
        pixels.push(Rgba { r: raw[base], g: raw[base + 1], b: raw[base + 2], a: raw[base + 3] });
        i = i + 1;
        assert(pixels@ =~= rgba_pixels(raw@).take(i as int));
    }
    assert(rgba_pixels(raw@).take(count as int) =~= rgba_pixels(raw@));
    RasterImage::new(width, height, pixels)
}

/// What `raster_from_rgba8` makes of `width` x `height` decoded samples `raw`.
pub open spec fn rgba8_raster(width: u32, height: u32, raw: Seq<u8>, r: Result<RasterImage, TraceError>) -> bool {
    match r {
        Ok(image) => {
            &&& pixel_count(width, height) == Some(rgba_pixels(raw).len())
            &&& image.spec_width() == width
            &&& image.spec_height() == height
            &&& image@ == rgba_pixels(raw)
            &&& image.wf()
        },
        Err(TraceError::ImageTooLarge) => pixel_count(width, height) is None,
        Err(TraceError::InvalidPixelCount { expected, actual }) => {
            &&& pixel_count(width, height) == Some(expected as nat)
            &&& actual == rgba_pixels(raw).len()
            &&& expected != actual
        },
        Err(_) => false,
    }
}

/// `d` is an outcome the image decoder may give for `bytes`: something a
/// call of the decoder on them returns.
pub closed spec fn decoder_may_return(bytes: Vec<u8>, d: Result<(u32, u32, Vec<u8>), RasterDecodeError>) -> bool {
    call_ensures(decode_rgba8, (&bytes,), d)
}

/// `image` is the `width` x `height` image whose pixels are the samples
/// `raw` grouped in fours, in order, row by row.
pub open spec fn image_of_samples(image: RasterImage, width: u32, height: u32, raw: Seq<u8>) -> bool {
    &&& image.spec_width() == width
    &&& image.spec_height() == height
    &&& image@ == rgba_pixels(raw)
    &&& image.wf()
}

/// `r` is what becomes of the decoder outcome `d`: its samples as an image
/// (or the error building that image reports), or its error unchanged.
pub open spec fn decoded_into(
    d: Result<(u32, u32, Vec<u8>), RasterDecodeError>,
    r: Result<RasterImage, RasterDecodeError>,
) -> bool {
    match d {
        Ok((width, height, raw)) => match r {
            Ok(image) => image_of_samples(image, width, height, raw@),
            Err(RasterDecodeError::Trace(e)) => rgba8_raster(width, height, raw@, Err(e)),
            Err(_) => false,
        },
        Err(e) => r == Err::<RasterImage, RasterDecodeError>(e),
    }
}

/// An image in `r` is made of the samples of the decoder outcome `d`.
pub open spec fn samples_behind(
    d: Result<(u32, u32, Vec<u8>), RasterDecodeError>,
    r: Result<RasterImage, RasterDecodeError>,
) -> bool {
    r matches Ok(image) ==> (d matches Ok((width, height, raw)) && image_of_samples(image, width, height, raw@))
}

/// The pixel at `coord` of an image made of decoded samples is the four
/// samples at its row-major position: red, green, blue and alpha.
pub proof fn lemma_decoded_pixel(image: RasterImage, width: u32, height: u32, raw: Seq<u8>, coord: PixelCoord)
    requires
        image_of_samples(image, width, height, raw),
        coord.x < width,
        coord.y < height,
    ensures
        ({
            let i = coord.y * width + coord.x;
            image.pixel_spec(coord) == Some(Rgba { r: raw[4 * i], g: raw[4 * i + 1], b: raw[4 * i + 2], a: raw[4 * i + 3] })
        }),
{
    image.lemma_in_bounds_index(coord);
}

/// Turns the outcome of decoding (width, height and RGBA samples, or the
/// decoding error) into a raster image: the samples become the image
/// `raster_from_rgba8` builds, and a decoding error is passed on unchanged.
pub fn raster_from_decoded(decoded: Result<(u32, u32, Vec<u8>), RasterDecodeError>) -> (r: Result<
    RasterImage,
    RasterDecodeError,
>)
    ensures
        decoded_into(decoded, r),
{
    match decoded {
        Ok((width, height, raw)) => match raster_from_rgba8(width, height, &raw) {
            Ok(image) => Ok(image),
            Err(error) => Err(RasterDecodeError::Trace(error)),
        },
        Err(error) => Err(error),
    }
}

/// What decoding can give, whatever the decoder returned: a well-formed
/// image, a decoding error, or an image error for samples that do not fit
/// their stated size.
pub open spec fn decode_outcome(r: Result<RasterImage, RasterDecodeError>) -> bool {
    match r {
        Ok(image) => image.wf(),
        Err(RasterDecodeError::Io(_)) => true,
        Err(RasterDecodeError::Image(_)) => true,
        Err(RasterDecodeError::Trace(TraceError::ImageTooLarge)) => true,
        Err(RasterDecodeError::Trace(TraceError::InvalidPixelCount { expected, actual })) => expected != actual,
        Err(_) => false,
    }
}

/// Decodes an asset into an RGBA raster image (`raster_from_decoded` of
/// what the decoder returns).
pub fn decode_asset(asset: &AssetBlob) -> (r: Result<RasterImage, RasterDecodeError>)
    ensures
        decode_outcome(r),
        exists|d: Result<(u32, u32, Vec<u8>), RasterDecodeError>| #[trigger]
            decoder_may_return(asset.bytes, d) && decoded_into(d, r),
{
    let d = decode_rgba8(&asset.bytes);
    let ghost dv = d;
    assert(decoder_may_return(asset.bytes, dv));
    raster_from_decoded(d)
}

/// Checks a decoded image against the pixel size a reference expects: an
/// image of that size is returned, one of another size is reported with both
/// sizes, and a decoding error is passed on unchanged.
pub fn check_dimensions(
    decoded: Result<RasterImage, RasterDecodeError>,
    expected_width: u32,
    expected_height: u32,
) -> (r: Result<RasterImage, RasterDecodeError>)
    ensures
        match decoded {
            Ok(image) => if image.spec_width() == expected_width && image.spec_height() == expected_height {
                r == Ok::<RasterImage, RasterDecodeError>(image)
            } else {
                r == Err::<RasterImage, RasterDecodeError>(
                    RasterDecodeError::DimensionMismatch {
                        reference_width: expected_width,
                        reference_height: expected_height,
                        decoded_width: image.spec_width(),
                        decoded_height: image.spec_height(),
                    },
                )
            },
            Err(e) => r == Err::<RasterImage, RasterDecodeError>(e),
        },
{
    match decoded {
        Ok(image) => {
            if image.width() != expected_width || image.height() != expected_height {
                return Err(RasterDecodeError::DimensionMismatch {
                    reference_width: expected_width,
                    reference_height: expected_height,
                    decoded_width: image.width(),
                    decoded_height: image.height(),
                });
            }
            Ok(image)
        },
        Err(error) => Err(error),
    }
}

/// What decoding and checking against an expected pixel size can give,
/// whatever the decoder returned: a well-formed image of that size, a
/// mismatch naming both sizes, or a decoding error.
pub open spec fn checked_decode(
    expected_width: u32,
    expected_height: u32,
    r: Result<RasterImage, RasterDecodeError>,
) -> bool {
    match r {
        Ok(image) => image.wf() && image.spec_width() == expected_width && image.spec_height() == expected_height,
        Err(RasterDecodeError::DimensionMismatch { reference_width, reference_height, decoded_width, decoded_height }) => {
            &&& reference_width == expected_width
            &&& reference_height == expected_height
            &&& (decoded_width != expected_width || decoded_height != expected_height)
        },
        Err(e) => decode_outcome(Err(e)),
    }
}

/// Decodes an asset and checks that it has the pixel size a reference
/// expects (`check_dimensions` of `decode_asset`); a size mismatch is
/// reported with both sizes.
pub fn decode_with_dimensions(asset: &AssetBlob, expected_width: u32, expected_height: u32) -> (r: Result<
    RasterImage,
    RasterDecodeError,
>)
    ensures
        checked_decode(expected_width, expected_height, r),
        exists|d: Result<(u32, u32, Vec<u8>), RasterDecodeError>| #[trigger]
            decoder_may_return(asset.bytes, d) && samples_behind(d, r),
{
    let decoded = decode_asset(asset);
    let ghost d = choose|d: Result<(u32, u32, Vec<u8>), RasterDecodeError>|
        #[trigger] decoder_may_return(asset.bytes, d) && decoded_into(d, decoded);
    let r = check_dimensions(decoded, expected_width, expected_height);
    assert(decoder_may_return(asset.bytes, d) && samples_behind(d, r));
    r
}

/// Decodes the asset a raster reference points at and checks it against the
/// reference's pixel size; a missing asset is reported by its id.
pub fn decode_reference(
    assets: &BTreeMap<u128, AssetBlob>,
    asset_id: u128,
    pixel_width: u32,
    pixel_height: u32,
) -> (r: Result<RasterImage, RasterDecodeError>)
    ensures
        match assets@.get(asset_id) {
            None => r matches Err(RasterDecodeError::MissingAsset(id)) && id == asset_id,
            Some(asset) => {
                &&& checked_decode(pixel_width, pixel_height, r)
                &&& exists|d: Result<(u32, u32, Vec<u8>), RasterDecodeError>| #[trigger]
                    decoder_may_return(asset.bytes, d) && samples_behind(d, r)
            },
        },
{
    match assets.get(&asset_id) {
        Some(asset) => {
            let r = decode_with_dimensions(asset, pixel_width, pixel_height);
            proof {
                let d = choose|d: Result<(u32, u32, Vec<u8>), RasterDecodeError>|
                    #[trigger] decoder_may_return(asset.bytes, d) && samples_behind(d, r);
                assert(assets@.get(asset_id) == Some(*asset));
                assert(decoder_may_return(asset.bytes, d) && samples_behind(d, r));
                let a = assets@.get(asset_id).unwrap();
                assert(a == *asset);
                assert(decoder_may_return(a.bytes, d));
                assert(checked_decode(pixel_width, pixel_height, r));
            }
            r
        },
        None => Err(RasterDecodeError::MissingAsset(asset_id)),
    }
}

} // verus!
