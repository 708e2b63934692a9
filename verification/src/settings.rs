//! What the switches of a command do to the options.

use crate::cli::{chosen_options, has_header, Choices, Switch};
use crate::flate::DeflateBackend;
use crate::options::{at_most_zero, default_options, OptimizeOptions};
use crate::text::{find_from, lemma_find_from, occurs_at};
use vstd::prelude::*;
use vstd::string::StringSliceAdditionalSpecFns;

verus! {

/// An option follows its own switch: what is asked for is on, what is asked
/// against is off, and else it is as it is by default.
pub open spec fn follows(s: Switch, by_default: bool, option: bool) -> bool {
    &&& s.yes ==> option
    &&& !s.yes && s.no ==> !option
    &&& !s.yes && !s.no ==> option == by_default
}

/// Each option follows the switch of its name and no other. By default images
/// of every kind are resized, fonts are subset and objects are packed;
/// nothing is removed, and nothing that loses or converts is done.
pub proof fn options_follow_their_switches(c: Choices)
    ensures
        ({
            let o = chosen_options(c);
            &&& follows(c.strip_accessibility, false, o.strip_accessibility)
            &&& follows(c.pack_object_streams, true, o.pack_object_streams)
            &&& follows(c.downsample_flate_images, true, o.downsample_flate_images)
            &&& follows(c.subset_fonts, true, o.subset_fonts)
            &&& follows(c.convert_type1, false, o.convert_type1)
            &&& follows(c.recompress_bitonal_images, false, o.recompress_bitonal_images)
            &&& follows(c.allow_lossy, false, o.allow_lossy_reencode)
            &&& follows(c.collapse_gray_images, false, o.collapse_gray_images)
            &&& o.target_dpi == c.target_dpi
            &&& o.jpeg_quality == c.jpeg_quality
            &&& o.dpi_margin == c.dpi_margin
            &&& c.deflate_backend is Some ==> o.deflate_backend == c.deflate_backend->0
            &&& c.deflate_backend is None ==> o.deflate_backend == DeflateBackend::Zlib
        }),
{
}

/// Image passes get the quality and the consents that the options have.
pub proof fn image_passes_get_the_options(o: OptimizeOptions)
    ensures
        o.images().quality == o.jpeg_quality,
        o.images().downsample_flate == o.downsample_flate_images,
        o.images().allow_lossy == o.allow_lossy_reencode,
{
}

/// The bits of a single-precision number that is not above zero: zero, or the
/// sign is set and it is a number, down to the negative infinity.
pub proof fn bits_tell_the_sign(bits: u32)
    ensures
        bits & 0x8000_0000 == 0 && bits != 0 ==> !at_most_zero(bits),
        bits == 0 ==> at_most_zero(bits),
        bits & 0x8000_0000 != 0 && bits & 0x7FFF_FFFF <= 0x7F80_0000 ==> at_most_zero(bits),
        bits & 0x7FFF_FFFF > 0x7F80_0000 ==> !at_most_zero(bits),
{
    assert(bits & 0x8000_0000 == 0 <==> bits < 0x8000_0000) by (bit_vector);
    assert(bits >= 0x8000_0000 ==> bits & 0x7FFF_FFFF == bits - 0x8000_0000) by (bit_vector);
    assert(bits < 0x8000_0000 ==> bits & 0x7FFF_FFFF == bits) by (bit_vector);
}

/// A file is taken for a PDF where its header stands whole within the first
/// 1024 bytes, and nowhere else.
pub proof fn header_stands_at_the_front(input: Seq<u8>)
    ensures
        has_header(input) <==> exists|i: int|
            0 <= i && i + 5 <= 1024 && #[trigger] occurs_at(input, "%PDF-".spec_bytes(), i),
{
    let needle = "%PDF-".spec_bytes();
    reveal_strlit("%PDF-");
    assert("%PDF-".is_ascii());
    assert(needle.len() == 5);
    let n: int = if input.len() < 1024 {
        input.len() as int
    } else {
        1024
    };
    let front = input.take(n);
    if has_header(input) {
        lemma_find_from(front, needle, 0);
        let i = find_from(front, needle, 0)->0;
        assert(front.subrange(i, i + 5) =~= input.subrange(i, i + 5));
        assert(occurs_at(input, needle, i));
    }
    if exists|i: int| 0 <= i && i + 5 <= 1024 && #[trigger] occurs_at(input, needle, i) {
        let i = choose|i: int|
            0 <= i && i + 5 <= 1024 && #[trigger] occurs_at(input, needle, i);
        assert(front.subrange(i, i + 5) =~= input.subrange(i, i + 5));
        assert(occurs_at(front, needle, i));
        lemma_found(front, needle, 0, i);
    }
}

proof fn lemma_found(h: Seq<u8>, needle: Seq<u8>, i: int, at: int)
    requires
        0 <= i <= at,
        occurs_at(h, needle, at),
    ensures
        find_from(h, needle, i) is Some,
    decreases at - i,
{
    if i < at && !occurs_at(h, needle, i) {
        lemma_found(h, needle, i + 1, at);
    }
}

/// By default images are brought to 130 dots per inch where they have 1.15
/// times as many or more, at quality 78, with zlib. The first two numbers are
/// told by their bits in single precision: 130 is 1.015625 times 2^7.
pub proof fn defaults_are_as_told()
    ensures
        ({
            let o = default_options();
            &&& o.jpeg_quality == 78
            &&& o.target_dpi == (127 + 7) * 0x80_0000 + 0x80_0000 * 2 / 128
            &&& 100 * (o.dpi_margin - 127 * 0x80_0000) - 15 * 0x80_0000 <= 100
            &&& 15 * 0x80_0000 - 100 * (o.dpi_margin - 127 * 0x80_0000) <= 100
            &&& o.deflate_backend == DeflateBackend::Zlib
        }),
{
}

} // verus!
