//! What the command line asks for.

use crate::flate::DeflateBackend;
use crate::options::{default_options, OptimizeOptions};
use crate::text::{contains_sub, has_sub};
use vstd::prelude::*;
use vstd::string::{StringExecFns, StringSliceAdditionalSpecFns};

verus! {

/// How far into a file its header is looked for. Junk before the header is
/// allowed; most readers tolerate as much.
pub const HEADER_SCAN_LIMIT: usize = 1024;

/// A pair of flags `--flag` and `--no-flag`.
#[derive(Clone, Copy)]
pub struct Switch {
    pub yes: bool,
    pub no: bool,
}

/// What a pair of flags comes down to.
pub open spec fn resolved_switch(yes: bool, no: bool, library_default: bool) -> bool {
    yes || (!no && library_default)
}

/// Folds a pair of flags to one value. Of two flags the last wins before they
/// get here, so at most one is set; where none is, the default stands.
pub fn resolve(yes: bool, no: bool, library_default: bool) -> (r: bool)
    ensures
        r == resolved_switch(yes, no, library_default),
        yes ==> r,
        no && !yes ==> !r,
        !yes && !no ==> r == library_default,
{
    if yes {
        true
    } else if no {
        false
    } else {
        library_default
    }
}

/// What the command line says of the options.
pub struct Choices {
    /// The bits of a single-precision number.
    pub target_dpi: u32,
    pub jpeg_quality: u8,
    /// The bits of a single-precision number.
    pub dpi_margin: u32,
    pub strip_accessibility: Switch,
    pub pack_object_streams: Switch,
    pub downsample_flate_images: Switch,
    pub subset_fonts: Switch,
    pub convert_type1: Switch,
    pub recompress_bitonal_images: Switch,
    pub allow_lossy: Switch,
    pub collapse_gray_images: Switch,
    pub deflate_backend: Option<DeflateBackend>,
}

/// What a pair of flags comes down to.
pub open spec fn chosen(s: Switch, library_default: bool) -> bool {
    resolved_switch(s.yes, s.no, library_default)
}

/// The options that the command line asks for.
pub open spec fn chosen_options(c: Choices) -> OptimizeOptions {
    let d = default_options();
    OptimizeOptions {
        target_dpi: c.target_dpi,
        jpeg_quality: c.jpeg_quality,
        dpi_margin: c.dpi_margin,
        strip_accessibility: chosen(c.strip_accessibility, d.strip_accessibility),
        pack_object_streams: chosen(c.pack_object_streams, d.pack_object_streams),
        downsample_flate_images: chosen(c.downsample_flate_images, d.downsample_flate_images),
        subset_fonts: chosen(c.subset_fonts, d.subset_fonts),
        convert_type1: chosen(c.convert_type1, d.convert_type1),
        recompress_bitonal_images: chosen(c.recompress_bitonal_images, d.recompress_bitonal_images),
        allow_lossy_reencode: chosen(c.allow_lossy, d.allow_lossy_reencode),
        collapse_gray_images: chosen(c.collapse_gray_images, d.collapse_gray_images),
        deflate_backend: match c.deflate_backend {
            Some(b) => b,
            None => d.deflate_backend,
        },
    }
}

/// Folds a pair of flags to one value.
fn choose_switch(s: Switch, library_default: bool) -> (r: bool)
    ensures
        r == chosen(s, library_default),
{
    resolve(s.yes, s.no, library_default)
}

/// The options that the command line asks for.
pub fn options_from(c: &Choices) -> (r: OptimizeOptions)
    ensures
        r == chosen_options(*c),
{
    let d = OptimizeOptions::default();
    let backend = match c.deflate_backend {
        Some(b) => b,
        None => d.deflate_backend,
    };
    d.with_target_dpi(c.target_dpi).with_jpeg_quality(c.jpeg_quality).with_dpi_margin(
        c.dpi_margin,
    ).with_strip_accessibility(
        choose_switch(c.strip_accessibility, d.strip_accessibility),
    ).with_pack_object_streams(
        choose_switch(c.pack_object_streams, d.pack_object_streams),
    ).with_downsample_flate_images(
        choose_switch(c.downsample_flate_images, d.downsample_flate_images),
    ).with_subset_fonts(choose_switch(c.subset_fonts, d.subset_fonts)).with_convert_type1(
        choose_switch(c.convert_type1, d.convert_type1),
    ).with_recompress_bitonal_images(
        choose_switch(c.recompress_bitonal_images, d.recompress_bitonal_images),
    ).with_allow_lossy_reencode(
        choose_switch(c.allow_lossy, d.allow_lossy_reencode),
    ).with_collapse_gray_images(
        choose_switch(c.collapse_gray_images, d.collapse_gray_images),
    ).with_deflate_backend(backend)
}

/// The file has the header of a PDF near its start.
pub open spec fn has_header(input: Seq<u8>) -> bool {
    let n = if input.len() < HEADER_SCAN_LIMIT {
        input.len() as int
    } else {
        HEADER_SCAN_LIMIT as int
    };
    has_sub(input.take(n), "%PDF-".spec_bytes())
}

/// Whether the file has the header of a PDF near its start.
pub fn is_pdf(input: &[u8]) -> (r: bool)
    ensures
        r == has_header(input@),
{
    let n: usize = if input.len() < HEADER_SCAN_LIMIT {
        input.len()
    } else {
        HEADER_SCAN_LIMIT
    };
    proof {
        reveal_strlit("%PDF-");
        assert("%PDF-".is_ascii());
    }
    let mark = "%PDF-".as_bytes();
    proof {
        assert(mark@.len() == 5);
    }
    let head = vstd::slice::slice_subrange(input, 0, n);
    proof {
        assert(head@ =~= input@.take(n as int));
    }
    contains_sub(head, mark)
}

/// Where the result goes.
#[derive(Clone, Copy, PartialEq, Eq, Structural, Debug)]
pub enum Destination {
    /// The path that was given.
    Given,
    /// The input itself.
    InPlace,
    /// A file beside the input.
    Beside,
}

/// Where the result goes: to the path that was given, else over the input
/// where that is forced, else beside it.
pub fn choose_destination(output_given: bool, force: bool) -> (r: Destination)
    ensures
        output_given ==> r == Destination::Given,
        !output_given && force ==> r == Destination::InPlace,
        !output_given && !force ==> r == Destination::Beside,
{
    if output_given {
        Destination::Given
    } else if force {
        Destination::InPlace
    } else {
        Destination::Beside
    }
}

/// Whether the result may be written: the input is overwritten only where
/// that is forced.
pub fn may_write(is_input: bool, force: bool) -> (r: bool)
    ensures
        r == (!is_input || force),
{
    !is_input || force
}

/// `on` or `off`.
pub open spec fn on_off_text(v: bool) -> Seq<char> {
    if v {
        "on"@
    } else {
        "off"@
    }
}

/// `on` or `off`.
fn on_off(v: bool) -> (r: &'static str)
    ensures
        r@ == on_off_text(v),
{
    if v {
        "on"
    } else {
        "off"
    }
}

/// The defaults of the flags, as the help shows them.
pub open spec fn blurb(d: OptimizeOptions) -> Seq<char> {
    "Boolean defaults:\n  strip-accessibility "@ + on_off_text(d.strip_accessibility)
        + ",\n  pack-object-streams "@ + on_off_text(d.pack_object_streams)
        + ",\n  downsample-flate-images "@ + on_off_text(d.downsample_flate_images)
        + ", subset-fonts "@ + on_off_text(d.subset_fonts) + ",\n  convert-type1 "@ + on_off_text(
        d.convert_type1,
    ) + ", recompress-bitonal-images "@ + on_off_text(d.recompress_bitonal_images)
        + ",\n  allow-lossy "@ + on_off_text(d.allow_lossy_reencode) + ", collapse-gray-images "@
        + on_off_text(d.collapse_gray_images)
}

/// The defaults of the flags, as the help shows them: always those that the
/// library has.
pub fn defaults_blurb() -> (r: String)
    ensures
        r@ == blurb(default_options()),
{
    let d = OptimizeOptions::default();
    let mut s: String = String::from_str("Boolean defaults:\n  strip-accessibility ");
    s.append(on_off(d.strip_accessibility));
    s.append(",\n  pack-object-streams ");
    s.append(on_off(d.pack_object_streams));
    s.append(",\n  downsample-flate-images ");
    s.append(on_off(d.downsample_flate_images));
    s.append(", subset-fonts ");
    s.append(on_off(d.subset_fonts));
    s.append(",\n  convert-type1 ");
    s.append(on_off(d.convert_type1));
    s.append(", recompress-bitonal-images ");
    s.append(on_off(d.recompress_bitonal_images));
    s.append(",\n  allow-lossy ");
    s.append(on_off(d.allow_lossy_reencode));
    s.append(", collapse-gray-images ");
    s.append(on_off(d.collapse_gray_images));
    s
}

} // verus!
