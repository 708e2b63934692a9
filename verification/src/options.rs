//! What a run is asked to do.

use crate::flate::DeflateBackend;
use crate::plan::ImageOptions;
use vstd::prelude::*;

verus! {

/// Target resolution, 130 dots per inch, as the bits of a single-precision
/// number.
pub const TARGET_DPI: u32 = 0x4302_0000;

/// JPEG quality.
pub const JPEG_QUALITY: u8 = 78;

/// How far above the target an image has to be to be resized: 1.15, as the
/// bits of a single-precision number.
pub const DPI_MARGIN: u32 = 0x3F93_3333;

/// What a run is asked to do. By default accessibility data is preserved and
/// no image changes its encoding. Made with `default` and the `with_` methods.
///
/// `pack_object_streams` needs PDF 1.5: a reader that is older cannot open the
/// output at all.
#[derive(Debug, Clone, Copy)]
#[non_exhaustive]
pub struct OptimizeOptions {
    /// Target resolution for downsampled images, in dots per inch, as the bits
    /// of a single-precision number. Zero or less leaves every image alone.
    pub target_dpi: u32,
    /// Quality at which JPEG images are encoded, from 1 to 100.
    pub jpeg_quality: u8,
    /// Images are resized only where their resolution exceeds the target by
    /// this factor, as the bits of a single-precision number.
    pub dpi_margin: u32,
    /// Remove the structure tree, which screen readers navigate by.
    pub strip_accessibility: bool,
    /// Pack objects into object streams.
    pub pack_object_streams: bool,
    /// Resize losslessly compressed images.
    pub downsample_flate_images: bool,
    /// Subset embedded fonts. Kept for callers: no pass of this library acts
    /// on it.
    pub subset_fonts: bool,
    /// Convert Type 1 fonts to the compact font format. Kept for callers: the
    /// conversion is in [`crate::type1`], and no pass acts on this.
    pub convert_type1: bool,
    /// Recompress bilevel images. Kept for callers: no pass of this library
    /// acts on it.
    pub recompress_bitonal_images: bool,
    /// Consent to turn losslessly compressed images into JPEG.
    pub allow_lossy_reencode: bool,
    /// Make color images whose channels are equal gray.
    pub collapse_gray_images: bool,
    /// Encoder of the final passes.
    pub deflate_backend: DeflateBackend,
}

/// The default options: numeric fields are set, not zero.
pub open spec fn default_options() -> OptimizeOptions {
    OptimizeOptions {
        target_dpi: TARGET_DPI,
        jpeg_quality: JPEG_QUALITY,
        dpi_margin: DPI_MARGIN,
        strip_accessibility: false,
        pack_object_streams: true,
        downsample_flate_images: true,
        subset_fonts: true,
        convert_type1: false,
        recompress_bitonal_images: false,
        allow_lossy_reencode: false,
        collapse_gray_images: false,
        deflate_backend: DeflateBackend::Zlib,
    }
}

impl Default for OptimizeOptions {
    /// The sweet spot.
    fn default() -> (r: OptimizeOptions)
        ensures
            r == default_options(),
    {
        OptimizeOptions {
            target_dpi: TARGET_DPI,
            jpeg_quality: JPEG_QUALITY,
            dpi_margin: DPI_MARGIN,
            strip_accessibility: false,
            pack_object_streams: true,
            downsample_flate_images: true,
            subset_fonts: true,
            convert_type1: false,
            recompress_bitonal_images: false,
            allow_lossy_reencode: false,
            collapse_gray_images: false,
            deflate_backend: DeflateBackend::Zlib,
        }
    }
}

impl OptimizeOptions {
    /// Sets the target resolution, by the bits of a single-precision number.
    #[must_use]
    pub fn with_target_dpi(self, dpi: u32) -> (r: OptimizeOptions)
        ensures
            r == (OptimizeOptions { target_dpi: dpi, ..self }),
    {
        let mut r: OptimizeOptions = self;
        r.target_dpi = dpi;
        r
    }

    /// Sets the JPEG quality.
    #[must_use]
    pub fn with_jpeg_quality(self, quality: u8) -> (r: OptimizeOptions)
        ensures
            r == (OptimizeOptions { jpeg_quality: quality, ..self }),
    {
        let mut r: OptimizeOptions = self;
        r.jpeg_quality = quality;
        r
    }

    /// Sets the margin, by the bits of a single-precision number.
    #[must_use]
    pub fn with_dpi_margin(self, margin: u32) -> (r: OptimizeOptions)
        ensures
            r == (OptimizeOptions { dpi_margin: margin, ..self }),
    {
        let mut r: OptimizeOptions = self;
        r.dpi_margin = margin;
        r
    }

    /// Removes the structure tree, or keeps it.
    #[must_use]
    pub fn with_strip_accessibility(self, strip: bool) -> (r: OptimizeOptions)
        ensures
            r == (OptimizeOptions { strip_accessibility: strip, ..self }),
    {
        let mut r: OptimizeOptions = self;
        r.strip_accessibility = strip;
        r
    }

    /// Packs objects into object streams, or writes them out.
    #[must_use]
    pub fn with_pack_object_streams(self, pack: bool) -> (r: OptimizeOptions)
        ensures
            r == (OptimizeOptions { pack_object_streams: pack, ..self }),
    {
        let mut r: OptimizeOptions = self;
        r.pack_object_streams = pack;
        r
    }

    /// Resizes losslessly compressed images, or leaves them.
    #[must_use]
    pub fn with_downsample_flate_images(self, downsample: bool) -> (r: OptimizeOptions)
        ensures
            r == (OptimizeOptions { downsample_flate_images: downsample, ..self }),
    {
        let mut r: OptimizeOptions = self;
        r.downsample_flate_images = downsample;
        r
    }

    /// Subsets embedded fonts, or leaves them.
    #[must_use]
    pub fn with_subset_fonts(self, subset: bool) -> (r: OptimizeOptions)
        ensures
            r == (OptimizeOptions { subset_fonts: subset, ..self }),
    {
        let mut r: OptimizeOptions = self;
        r.subset_fonts = subset;
        r
    }

    /// Converts Type 1 fonts, or leaves them.
    #[must_use]
    pub fn with_convert_type1(self, convert: bool) -> (r: OptimizeOptions)
        ensures
            r == (OptimizeOptions { convert_type1: convert, ..self }),
    {
        let mut r: OptimizeOptions = self;
        r.convert_type1 = convert;
        r
    }

    /// Recompresses bilevel images, or leaves them.
    #[must_use]
    pub fn with_recompress_bitonal_images(self, recompress: bool) -> (r: OptimizeOptions)
        ensures
            r == (OptimizeOptions { recompress_bitonal_images: recompress, ..self }),
    {
        let mut r: OptimizeOptions = self;
        r.recompress_bitonal_images = recompress;
        r
    }

    /// Gives or withholds consent to lossy encodings.
    #[must_use]
    pub fn with_allow_lossy_reencode(self, allow: bool) -> (r: OptimizeOptions)
        ensures
            r == (OptimizeOptions { allow_lossy_reencode: allow, ..self }),
    {
        let mut r: OptimizeOptions = self;
        r.allow_lossy_reencode = allow;
        r
    }

    /// Makes color images whose channels are equal gray, or leaves them.
    #[must_use]
    pub fn with_collapse_gray_images(self, collapse: bool) -> (r: OptimizeOptions)
        ensures
            r == (OptimizeOptions { collapse_gray_images: collapse, ..self }),
    {
        let mut r: OptimizeOptions = self;
        r.collapse_gray_images = collapse;
        r
    }

    /// Sets the encoder of the final passes.
    #[must_use]
    pub fn with_deflate_backend(self, backend: DeflateBackend) -> (r: OptimizeOptions)
        ensures
            r == (OptimizeOptions { deflate_backend: backend, ..self }),
    {
        let mut r: OptimizeOptions = self;
        r.deflate_backend = backend;
        r
    }

    /// What the options say of images.
    pub open spec fn images(self) -> ImageOptions {
        ImageOptions {
            quality: self.jpeg_quality,
            downsample_flate: self.downsample_flate_images,
            allow_lossy: self.allow_lossy_reencode,
        }
    }

    /// What the options say of images.
    pub fn image_options(self) -> (r: ImageOptions)
        ensures
            r == self.images(),
    {
        ImageOptions {
            quality: self.jpeg_quality,
            downsample_flate: self.downsample_flate_images,
            allow_lossy: self.allow_lossy_reencode,
        }
    }
}

/// The single-precision number with these bits is zero or less.
pub open spec fn at_most_zero(bits: u32) -> bool {
    bits == 0 || 0x8000_0000 <= bits <= 0xFF80_0000
}

/// Whether the single-precision number with these bits is zero or less.
pub fn is_at_most_zero(bits: u32) -> (r: bool)
    ensures
        r == at_most_zero(bits),
{
    bits == 0 || (0x8000_0000 <= bits && bits <= 0xFF80_0000)
}

} // verus!
