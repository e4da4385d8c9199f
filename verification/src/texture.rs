//! Image textures: a decoded picture and the lookup of its pixels.

use vstd::prelude::*;

verus! {

/// A picture of 8-bit red, green and blue samples, stored row by row from
/// the top, three bytes to a pixel.
pub struct ImageTexture {
    width: u32,
    height: u32,
    data: Vec<u8>,
}

/// Where the first byte of the pixel in column `i` of row `j` stands in a
/// picture `width` pixels wide.
pub open spec fn pixel_offset(width: int, i: int, j: int) -> int {
    3 * (j * width + i)
}

/// The last column or row of a picture when `i` lies beyond it, else `i`.
pub open spec fn clamp_index(i: int, size: int) -> int {
    if i >= size { size - 1 } else { i }
}

/// Decodes the contents of a picture file into width, height and samples.
///
/// Trusted: the body calls the `image` crate. `ImageFormat::from_path` takes
/// the format from the extension of `file_name`,
/// `load_from_memory_with_format` decodes `contents` in that format, and
/// `DynamicImage::into_rgb8` with `ImageBuffer::width`, `height` and
/// `into_raw` hands out the result. `None` stands for any error of the
/// first two. Nothing is claimed of what comes back: the caller checks it.
#[verifier::external_body]
fn decode_rgb8(file_name: &str, contents: &[u8]) -> (out: Option<(u32, u32, Vec<u8>)>) {
    let format = image::ImageFormat::from_path(file_name).ok()?;
    let decoded = image::load_from_memory_with_format(contents, format).ok()?;
    let rgb = decoded.into_rgb8();
    Some((rgb.width(), rgb.height(), rgb.into_raw()))
}

proof fn lemma_offset_in_range(width: int, height: int, i: int, j: int)
    requires
        0 <= i < width,
        0 <= j < height,
    ensures
        0 <= j * width + i < width * height,
        0 <= j * width <= width * height,
        pixel_offset(width, i, j) + 3 <= 3 * width * height,
{
    assert(j * width + i < width * height) by (nonlinear_arith)
        requires
            0 <= i < width,
            0 <= j < height,
    ;
    assert(0 <= j * width <= width * height) by (nonlinear_arith)
        requires
            0 <= width,
            0 <= j < height,
    ;
    assert(3 * (j * width + i) + 3 <= 3 * width * height) by (nonlinear_arith)
        requires
            j * width + i < width * height,
    ;
}

impl ImageTexture {
    #[verifier::type_invariant]
    spec fn holds_every_sample(self) -> bool {
        self.data@.len() == 3 * self.width * self.height
    }

    /// The width of the picture in pixels.
    pub closed spec fn columns(self) -> int {
        self.width as int
    }

    /// The height of the picture in pixels.
    pub closed spec fn rows(self) -> int {
        self.height as int
    }

    /// The samples, row by row.
    pub closed spec fn samples(self) -> Seq<u8> {
        self.data@
    }

    /// The picture has three samples for each of its pixels.
    pub open spec fn well_formed(self) -> bool {
        self.samples().len() == 3 * self.columns() * self.rows()
    }

    /// The colour of the pixel in column `i` of row `j`.
    pub open spec fn pixel(self, i: int, j: int) -> (u8, u8, u8) {
        let at = pixel_offset(self.columns(), i, j);
        (self.samples()[at], self.samples()[at + 1], self.samples()[at + 2])
    }

    /// A texture of the given size over the given samples, if there are
    /// exactly three of them for every pixel.
    pub fn from_raw(width: u32, height: u32, data: Vec<u8>) -> (out: Option<ImageTexture>)
        ensures
            out is Some <==> data@.len() == 3 * width * height,
            out matches Some(t) ==> t.well_formed() && t.columns() == width && t.rows() == height
                && t.samples() == data@,
    {
        assert(0 <= width * height <= 0xffff_ffff * 0xffff_ffff) by (nonlinear_arith)
            requires
                0 <= width <= 0xffff_ffff,
                0 <= height <= 0xffff_ffff,
        ;
        assert(3 * width * height == 3 * (width * height)) by (nonlinear_arith);
        let pixels: u64 = width as u64 * height as u64;
        let wanted: u128 = 3 * (pixels as u128);
        if data.len() as u128 == wanted {
            Some(ImageTexture { width, height, data })
        } else {
            None
        }
    }

    /// The texture held by a picture file, given the file's name and
    /// contents. The format is taken from the name's extension. `None` where
    /// the contents cannot be decoded in that format.
    pub fn new_from_file(file_name: &str, contents: &[u8]) -> (out: Option<ImageTexture>)
        ensures
            out matches Some(t) ==> t.well_formed(),
    {
        ImageTexture::from_decoded(decode_rgb8(file_name, contents))
    }

    /// The texture that a decoded picture amounts to: none where decoding
    /// gave nothing, else the texture of the decoded width, height and
    /// samples, if there are exactly three samples for every pixel.
    pub fn from_decoded(decoded: Option<(u32, u32, Vec<u8>)>) -> (out: Option<ImageTexture>)
        ensures
            out is Some <==> (decoded matches Some(d) && d.2@.len() == 3 * d.0 * d.1),
            out matches Some(t) ==> decoded matches Some(d) && t.well_formed() && t.columns()
                == d.0 && t.rows() == d.1 && t.samples() == d.2@,
    {
        match decoded {
            Some((width, height, data)) => ImageTexture::from_raw(width, height, data),
            None => None,
        }
    }

    /// The width of the picture in pixels.
    pub fn width(&self) -> (w: u32)
        ensures
            w == self.columns(),
    {
        self.width
    }

    /// The height of the picture in pixels.
    pub fn height(&self) -> (h: u32)
        ensures
            h == self.rows(),
    {
        self.height
    }

    /// The colour of the pixel in column `i` of row `j`.
    pub fn get_pixel(&self, i: u32, j: u32) -> (rgb: (u8, u8, u8))
        requires
            i < self.columns(),
            j < self.rows(),
        ensures
            rgb == self.pixel(i as int, j as int),
    {
        let ghost w = self.width as int;
        let ghost h = self.height as int;
        proof {
            use_type_invariant(self);
            lemma_offset_in_range(w, h, i as int, j as int);
            assert(3 * w * h == 3 * (w * h)) by (nonlinear_arith);
            assert(0 <= w * h <= 0xffff_ffff * 0xffff_ffff) by (nonlinear_arith)
                requires
                    0 <= w <= 0xffff_ffff,
                    0 <= h <= 0xffff_ffff,
            ;
        }
        let len: usize = self.data.len();
        assert(pixel_offset(w, i as int, j as int) + 3 <= len);
        let row_start: u64 = j as u64 * self.width as u64;
        assert(row_start == j as int * w);
        let at: u64 = 3 * (row_start + i as u64);
        let at: usize = at as usize;
        (self.data[at], self.data[at + 1], self.data[at + 2])
    }

    /// The colour at column `i` and row `j`, where a column or a row beyond
    /// the picture stands for the last one.
    pub fn get_color_value(&self, i: u32, j: u32) -> (rgb: (u8, u8, u8))
        requires
            self.columns() > 0,
            self.rows() > 0,
        ensures
            rgb == self.pixel(
                clamp_index(i as int, self.columns()),
                clamp_index(j as int, self.rows()),
            ),
    {
        let mut i: u32 = i;
        let mut j: u32 = j;
        if i >= self.width {
            i = self.width - 1;
        }
        if j >= self.height {
            j = self.height - 1;
        }
        self.get_pixel(i, j)
    }
}

} // verus!
