//! Where a mesh's colours come from.
use crate::scalar::Scalar;
use std::path::PathBuf;
use vstd::prelude::*;

verus! {

/// `std::path::PathBuf`, carried through as it is: nothing here reads a path.
#[verifier::external_type_specification]
#[verifier::external_body]
pub struct ExPathBuf(PathBuf);

/// `PathBuf::clone`, which `Texture`'s own `clone` calls. Nothing is claimed of
/// the copy.
pub assume_specification[ <PathBuf as Clone>::clone ](path: &PathBuf) -> (copy: PathBuf)
;

/// An image that has not been decoded yet.
#[derive(Clone)]
pub enum Texture {
    /// The bytes of an encoded image.
    Raw(Vec<u8>),
    /// The place of an image file.
    Path(PathBuf),
}

/// A decoded image: rows of pixels from the top down, each pixel four bytes,
/// red, green, blue and alpha.
pub struct Raster {
    width: u32,
    height: u32,
    pixels: Vec<u8>,
}

impl Raster {
    /// The number of pixels in a row.
    pub closed spec fn columns(self) -> nat {
        self.width as nat
    }

    /// The number of rows.
    pub closed spec fn rows(self) -> nat {
        self.height as nat
    }

    /// The bytes of all pixels, row after row.
    pub closed spec fn bytes(self) -> Seq<u8> {
        self.pixels@
    }

    /// The image has a pixel, and four bytes for each.
    #[verifier::type_invariant]
    spec fn well_formed(self) -> bool {
        &&& self.width > 0
        &&& self.height > 0
        &&& self.pixels@.len() == 4 * self.width * self.height
    }

    /// The colour of the pixel in the given column of the given row.
    pub open spec fn pixel(self, column: int, row: int) -> [u8; 4] {
        let at = 4 * (row * self.columns() + column);
        [self.bytes()[at], self.bytes()[at + 1], self.bytes()[at + 2], self.bytes()[at + 3]]
    }

    /// An image of the given size over the given bytes; `None` where the image
    /// would have no pixel, or the bytes are more or fewer than four for each.
    pub fn new(width: u32, height: u32, pixels: Vec<u8>) -> (made: Option<Raster>)
        ensures
            made is Some <==> width > 0 && height > 0 && pixels.len() == 4 * width * height,
            made matches Some(raster) ==> {
                &&& raster.columns() == width
                &&& raster.rows() == height
                &&& raster.bytes() == pixels@
            },
    {
        if width == 0 || height == 0 {
            return None;
        }
        assert(width * height <= 0xffff_ffff * 0xffff_ffff) by (nonlinear_arith)
            requires
                width <= 0xffff_ffff,
                height <= 0xffff_ffff,
        ;
        let wanted: u128 = 4 * (width as u128 * height as u128);
        assert(wanted == 4 * width * height) by (nonlinear_arith)
            requires
                wanted == 4 * (width * height),
        ;
        if pixels.len() as u128 != wanted {
            return None;
        }
        Some(Raster { width, height, pixels })
    }

    /// The number of pixels in a row.
    pub fn width(&self) -> (w: u32)
        ensures
            w == self.columns(),
            w > 0,
    {
        proof {
            use_type_invariant(self);
        }
        self.width
    }

    /// The number of rows.
    pub fn height(&self) -> (h: u32)
        ensures
            h == self.rows(),
            h > 0,
    {
        proof {
            use_type_invariant(self);
        }
        self.height
    }

    /// The colour of the pixel in the given column of the given row.
    pub fn get_pixel(&self, column: u32, row: u32) -> (color: [u8; 4])
        requires
            column < self.columns(),
            row < self.rows(),
        ensures
            color == self.pixel(column as int, row as int),
    {
        proof {
            use_type_invariant(self);
        }
        let ghost w = self.width as int;
        let ghost h = self.height as int;
        assert(0 <= row * w + column < w * h && 0 <= row * w <= w * h) by (nonlinear_arith)
            requires
                0 <= row < h,
                0 <= column < w,
        ;
        assert(self.pixels@.len() == 4 * (w * h)) by (nonlinear_arith)
            requires
                self.pixels@.len() == 4 * w * h,
        ;
        let length: usize = self.pixels.len();
        assert(4 * (row * w + column) + 3 < length);
        let at: usize = 4 * (row as usize * self.width as usize + column as usize);
        let color = [self.pixels[at], self.pixels[at + 1], self.pixels[at + 2], self.pixels[at + 3]];
        assert(color =~= self.pixel(column as int, row as int));
        color
    }
}

/// The pixel that a texture coordinate falls on along one axis of an image
/// `size` pixels long: the size times the coordinate, with what follows the
/// point cut off, and brought into the image. A coordinate that is negative
/// or a NaN falls on the first pixel.
pub open spec fn texel(coordinate: Scalar, size: u32) -> int {
    let scaled = Scalar::of_integer(size as int).times(coordinate).truncated();
    if scaled < size - 1 {
        scaled as int
    } else {
        size - 1
    }
}

/// The pixel that a texture coordinate falls on along one axis.
pub fn texel_index(coordinate: Scalar, size: u32) -> (index: u32)
    requires
        size > 0,
    ensures
        index == texel(coordinate, size),
        index < size,
{
    let scaled: u32 = Scalar::from_u32(size).mul(coordinate).truncate();
    if scaled < size - 1 {
        scaled
    } else {
        size - 1
    }
}

/// `image::ImageError`, carried through as it is.
#[verifier::external_type_specification]
#[verifier::external_body]
pub struct ExImageError(image::ImageError);

/// Why no image came out of the bytes of a texture.
#[derive(Debug)]
pub enum TextureError {
    /// The decoder refused the bytes.
    Decode(image::ImageError),
    /// The decoder gave an image without a pixel, or without four bytes for
    /// each pixel.
    Malformed,
}

/// `image::load_from_memory`, followed by `DynamicImage::to_rgba8` and the
/// size and the bytes of what that gives. Nothing is claimed of the outcome:
/// `decode_raw` checks what comes back.
#[verifier::external_body]
fn load_rgba(bytes: &[u8]) -> (out: Result<(u32, u32, Vec<u8>), image::ImageError>) {
    let rgba = image::load_from_memory(bytes)?.to_rgba8();
    Ok((rgba.width(), rgba.height(), rgba.into_raw()))
}

/// The image that the given outcome of a decoder stands for.
pub fn raster_of(outcome: Result<(u32, u32, Vec<u8>), image::ImageError>) -> (made: Result<
    Raster,
    TextureError,
>)
    ensures
        match outcome {
            Ok((width, height, pixels)) => match made {
                Ok(raster) => {
                    &&& width > 0 && height > 0 && pixels.len() == 4 * width * height
                    &&& raster.columns() == width
                    &&& raster.rows() == height
                    &&& raster.bytes() == pixels@
                },
                Err(e) => e is Malformed && !(width > 0 && height > 0 && pixels.len() == 4 * width
                    * height),
            },
            Err(refusal) => made == Err::<Raster, TextureError>(TextureError::Decode(refusal)),
        },
{
    match outcome {
        Ok((width, height, pixels)) => match Raster::new(width, height, pixels) {
            Some(raster) => Ok(raster),
            None => Err(TextureError::Malformed),
        },
        Err(refusal) => Err(TextureError::Decode(refusal)),
    }
}

/// Decodes the bytes of an encoded image. Whether the bytes decode, and to
/// what, is the decoder's to say; an image that comes out has a pixel, and
/// four bytes for each.
pub fn decode_raw(bytes: &[u8]) -> (made: Result<Raster, TextureError>)
    ensures
        made matches Ok(raster) ==> raster.columns() > 0 && raster.rows() > 0
            && raster.bytes().len() == 4 * raster.columns() * raster.rows(),
{
    raster_of(load_rgba(bytes))
}

} // verus!
