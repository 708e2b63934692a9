//! Names that dictionaries use, as byte strings.

use vstd::prelude::*;
use vstd::string::StringSliceAdditionalSpecFns;

verus! {

/// `Type`.
pub const TYPE: [u8; 4] = [0x54, 0x79, 0x70, 0x65];

/// `ObjStm`.
pub const OBJ_STM: [u8; 6] = [0x4F, 0x62, 0x6A, 0x53, 0x74, 0x6D];

/// `XRef`.
pub const XREF: [u8; 4] = [0x58, 0x52, 0x65, 0x66];

/// `Filter`.
pub const FILTER: [u8; 6] = [0x46, 0x69, 0x6C, 0x74, 0x65, 0x72];

/// `DecodeParms`.
pub const DECODE_PARMS: [u8; 11] = [
    0x44, 0x65, 0x63, 0x6F, 0x64, 0x65, 0x50, 0x61, 0x72, 0x6D, 0x73,
];

/// `Contents`.
pub const CONTENTS: [u8; 8] = [0x43, 0x6F, 0x6E, 0x74, 0x65, 0x6E, 0x74, 0x73];

/// `Resources`.
pub const RESOURCES: [u8; 9] = [0x52, 0x65, 0x73, 0x6F, 0x75, 0x72, 0x63, 0x65, 0x73];

/// `Parent`.
pub const PARENT: [u8; 6] = [0x50, 0x61, 0x72, 0x65, 0x6E, 0x74];

/// `XObject`.
pub const XOBJECT: [u8; 7] = [0x58, 0x4F, 0x62, 0x6A, 0x65, 0x63, 0x74];

/// `Subtype`.
pub const SUBTYPE: [u8; 7] = [0x53, 0x75, 0x62, 0x74, 0x79, 0x70, 0x65];

/// `Form`.
pub const FORM: [u8; 4] = [0x46, 0x6F, 0x72, 0x6D];

/// `Page`.
pub const PAGE: [u8; 4] = [0x50, 0x61, 0x67, 0x65];

/// `Pages`.
pub const PAGES: [u8; 5] = [0x50, 0x61, 0x67, 0x65, 0x73];

/// `Root`.
pub const ROOT: [u8; 4] = [0x52, 0x6F, 0x6F, 0x74];

/// `Encrypt`.
pub const ENCRYPT: [u8; 7] = [0x45, 0x6E, 0x63, 0x72, 0x79, 0x70, 0x74];

/// `AcroForm`.
pub const ACRO_FORM: [u8; 8] = [0x41, 0x63, 0x72, 0x6F, 0x46, 0x6F, 0x72, 0x6D];

/// `SigFlags`.
pub const SIG_FLAGS: [u8; 8] = [0x53, 0x69, 0x67, 0x46, 0x6C, 0x61, 0x67, 0x73];

/// `ByteRange`.
pub const BYTE_RANGE: [u8; 9] = [0x42, 0x79, 0x74, 0x65, 0x52, 0x61, 0x6E, 0x67, 0x65];

/// `Sig`.
pub const SIG: [u8; 3] = [0x53, 0x69, 0x67];

/// `DocTimeStamp`.
pub const DOC_TIME_STAMP: [u8; 12] = [
    0x44, 0x6F, 0x63, 0x54, 0x69, 0x6D, 0x65, 0x53, 0x74, 0x61, 0x6D, 0x70,
];

/// `DCTDecode`.
pub const DCT_DECODE: [u8; 9] = [0x44, 0x43, 0x54, 0x44, 0x65, 0x63, 0x6F, 0x64, 0x65];

/// `FlateDecode`.
pub const FLATE_DECODE: [u8; 11] = [
    0x46, 0x6C, 0x61, 0x74, 0x65, 0x44, 0x65, 0x63, 0x6F, 0x64, 0x65,
];

/// `CCITTFaxDecode`.
pub const CCITT_FAX_DECODE: [u8; 14] = [
    0x43, 0x43, 0x49, 0x54, 0x54, 0x46, 0x61, 0x78, 0x44, 0x65, 0x63, 0x6F, 0x64, 0x65,
];

/// `JPXDecode`.
pub const JPX_DECODE: [u8; 9] = [0x4A, 0x50, 0x58, 0x44, 0x65, 0x63, 0x6F, 0x64, 0x65];

/// `JBIG2Decode`.
pub const JBIG2_DECODE: [u8; 11] = [
    0x4A, 0x42, 0x49, 0x47, 0x32, 0x44, 0x65, 0x63, 0x6F, 0x64, 0x65,
];

/// `Length`.
pub const LENGTH: [u8; 6] = [0x4C, 0x65, 0x6E, 0x67, 0x74, 0x68];

/// `Width`.
pub const WIDTH: [u8; 5] = [0x57, 0x69, 0x64, 0x74, 0x68];

/// `Height`.
pub const HEIGHT: [u8; 6] = [0x48, 0x65, 0x69, 0x67, 0x68, 0x74];

/// `ColorSpace`.
pub const COLOR_SPACE: [u8; 10] = [0x43, 0x6F, 0x6C, 0x6F, 0x72, 0x53, 0x70, 0x61, 0x63, 0x65];

/// `BitsPerComponent`.
pub const BITS_PER_COMPONENT: [u8; 16] = [
    0x42, 0x69, 0x74, 0x73, 0x50, 0x65, 0x72, 0x43, 0x6F, 0x6D, 0x70, 0x6F, 0x6E, 0x65, 0x6E, 0x74,
];

/// `DeviceRGB`.
pub const DEVICE_RGB: [u8; 9] = [0x44, 0x65, 0x76, 0x69, 0x63, 0x65, 0x52, 0x47, 0x42];

/// `DeviceGray`.
pub const DEVICE_GRAY: [u8; 10] = [0x44, 0x65, 0x76, 0x69, 0x63, 0x65, 0x47, 0x72, 0x61, 0x79];

/// `CalRGB`.
pub const CAL_RGB: [u8; 6] = [0x43, 0x61, 0x6C, 0x52, 0x47, 0x42];

/// `CalGray`.
pub const CAL_GRAY: [u8; 7] = [0x43, 0x61, 0x6C, 0x47, 0x72, 0x61, 0x79];

/// `ICCBased`.
pub const ICC_BASED: [u8; 8] = [0x49, 0x43, 0x43, 0x42, 0x61, 0x73, 0x65, 0x64];

/// `N`.
pub const COMPONENTS: [u8; 1] = [0x4E];

/// `Predictor`.
pub const PREDICTOR: [u8; 9] = [0x50, 0x72, 0x65, 0x64, 0x69, 0x63, 0x74, 0x6F, 0x72];

/// `Colors`.
pub const COLORS: [u8; 6] = [0x43, 0x6F, 0x6C, 0x6F, 0x72, 0x73];

/// `Columns`.
pub const COLUMNS: [u8; 7] = [0x43, 0x6F, 0x6C, 0x75, 0x6D, 0x6E, 0x73];

/// `SMask`.
pub const SMASK: [u8; 5] = [0x53, 0x4D, 0x61, 0x73, 0x6B];

/// `Mask`.
pub const MASK: [u8; 4] = [0x4D, 0x61, 0x73, 0x6B];

/// `Matte`.
pub const MATTE: [u8; 5] = [0x4D, 0x61, 0x74, 0x74, 0x65];

/// `Decode`.
pub const DECODE: [u8; 6] = [0x44, 0x65, 0x63, 0x6F, 0x64, 0x65];

/// `ImageMask`.
pub const IMAGE_MASK: [u8; 9] = [0x49, 0x6D, 0x61, 0x67, 0x65, 0x4D, 0x61, 0x73, 0x6B];

/// `StructTreeRoot`.
pub const STRUCT_TREE_ROOT: [u8; 14] = [
    0x53, 0x74, 0x72, 0x75, 0x63, 0x74, 0x54, 0x72, 0x65, 0x65, 0x52, 0x6F, 0x6F, 0x74,
];

/// `MarkInfo`.
pub const MARK_INFO: [u8; 8] = [0x4D, 0x61, 0x72, 0x6B, 0x49, 0x6E, 0x66, 0x6F];

/// `Lang`.
pub const LANG: [u8; 4] = [0x4C, 0x61, 0x6E, 0x67];

/// `Prev`.
pub const PREV: [u8; 4] = [0x50, 0x72, 0x65, 0x76];

/// `XRefStm`.
pub const XREF_STM: [u8; 7] = [0x58, 0x52, 0x65, 0x66, 0x53, 0x74, 0x6D];

/// `Image`.
pub const IMAGE: [u8; 5] = [0x49, 0x6D, 0x61, 0x67, 0x65];

/// `Metadata`.
pub const METADATA: [u8; 8] = [0x4D, 0x65, 0x74, 0x61, 0x64, 0x61, 0x74, 0x61];

/// `Kids`.
pub const KIDS: [u8; 4] = [0x4B, 0x69, 0x64, 0x73];

/// `Count`.
pub const COUNT: [u8; 5] = [0x43, 0x6F, 0x75, 0x6E, 0x74];

/// The names are spelled as documents spell them.
pub proof fn names_spelled_1()
    ensures
        TYPE@ == "Type".spec_bytes(),
        OBJ_STM@ == "ObjStm".spec_bytes(),
        XREF@ == "XRef".spec_bytes(),
        FILTER@ == "Filter".spec_bytes(),
        DECODE_PARMS@ == "DecodeParms".spec_bytes(),
        CONTENTS@ == "Contents".spec_bytes(),
        RESOURCES@ == "Resources".spec_bytes(),
        PARENT@ == "Parent".spec_bytes(),
        XOBJECT@ == "XObject".spec_bytes(),
        SUBTYPE@ == "Subtype".spec_bytes(),
        FORM@ == "Form".spec_bytes(),
        PAGE@ == "Page".spec_bytes(),
        PAGES@ == "Pages".spec_bytes(),
        ROOT@ == "Root".spec_bytes(),
        ENCRYPT@ == "Encrypt".spec_bytes(),
        ACRO_FORM@ == "AcroForm".spec_bytes(),
        SIG_FLAGS@ == "SigFlags".spec_bytes(),
        BYTE_RANGE@ == "ByteRange".spec_bytes(),
        SIG@ == "Sig".spec_bytes(),
        DOC_TIME_STAMP@ == "DocTimeStamp".spec_bytes(),
{
    reveal_strlit("Type");
    assert("Type".is_ascii());
    assert(TYPE@ =~= "Type".spec_bytes());
    reveal_strlit("ObjStm");
    assert("ObjStm".is_ascii());
    assert(OBJ_STM@ =~= "ObjStm".spec_bytes());
    reveal_strlit("XRef");
    assert("XRef".is_ascii());
    assert(XREF@ =~= "XRef".spec_bytes());
    reveal_strlit("Filter");
    assert("Filter".is_ascii());
    assert(FILTER@ =~= "Filter".spec_bytes());
    reveal_strlit("DecodeParms");
    assert("DecodeParms".is_ascii());
    assert(DECODE_PARMS@ =~= "DecodeParms".spec_bytes());
    reveal_strlit("Contents");
    assert("Contents".is_ascii());
    assert(CONTENTS@ =~= "Contents".spec_bytes());
    reveal_strlit("Resources");
    assert("Resources".is_ascii());
    assert(RESOURCES@ =~= "Resources".spec_bytes());
    reveal_strlit("Parent");
    assert("Parent".is_ascii());
    assert(PARENT@ =~= "Parent".spec_bytes());
    reveal_strlit("XObject");
    assert("XObject".is_ascii());
    assert(XOBJECT@ =~= "XObject".spec_bytes());
    reveal_strlit("Subtype");
    assert("Subtype".is_ascii());
    assert(SUBTYPE@ =~= "Subtype".spec_bytes());
    reveal_strlit("Form");
    assert("Form".is_ascii());
    assert(FORM@ =~= "Form".spec_bytes());
    reveal_strlit("Page");
    assert("Page".is_ascii());
    assert(PAGE@ =~= "Page".spec_bytes());
    reveal_strlit("Pages");
    assert("Pages".is_ascii());
    assert(PAGES@ =~= "Pages".spec_bytes());
    reveal_strlit("Root");
    assert("Root".is_ascii());
    assert(ROOT@ =~= "Root".spec_bytes());
    reveal_strlit("Encrypt");
    assert("Encrypt".is_ascii());
    assert(ENCRYPT@ =~= "Encrypt".spec_bytes());
    reveal_strlit("AcroForm");
    assert("AcroForm".is_ascii());
    assert(ACRO_FORM@ =~= "AcroForm".spec_bytes());
    reveal_strlit("SigFlags");
    assert("SigFlags".is_ascii());
    assert(SIG_FLAGS@ =~= "SigFlags".spec_bytes());
    reveal_strlit("ByteRange");
    assert("ByteRange".is_ascii());
    assert(BYTE_RANGE@ =~= "ByteRange".spec_bytes());
    reveal_strlit("Sig");
    assert("Sig".is_ascii());
    assert(SIG@ =~= "Sig".spec_bytes());
    reveal_strlit("DocTimeStamp");
    assert("DocTimeStamp".is_ascii());
    assert(DOC_TIME_STAMP@ =~= "DocTimeStamp".spec_bytes());
}

/// The names are spelled as documents spell them.
pub proof fn names_spelled_2()
    ensures
        DCT_DECODE@ == "DCTDecode".spec_bytes(),
        FLATE_DECODE@ == "FlateDecode".spec_bytes(),
        CCITT_FAX_DECODE@ == "CCITTFaxDecode".spec_bytes(),
        JPX_DECODE@ == "JPXDecode".spec_bytes(),
        JBIG2_DECODE@ == "JBIG2Decode".spec_bytes(),
        LENGTH@ == "Length".spec_bytes(),
        WIDTH@ == "Width".spec_bytes(),
        HEIGHT@ == "Height".spec_bytes(),
        COLOR_SPACE@ == "ColorSpace".spec_bytes(),
        BITS_PER_COMPONENT@ == "BitsPerComponent".spec_bytes(),
        DEVICE_RGB@ == "DeviceRGB".spec_bytes(),
        DEVICE_GRAY@ == "DeviceGray".spec_bytes(),
        CAL_RGB@ == "CalRGB".spec_bytes(),
        CAL_GRAY@ == "CalGray".spec_bytes(),
        ICC_BASED@ == "ICCBased".spec_bytes(),
        COMPONENTS@ == "N".spec_bytes(),
        PREDICTOR@ == "Predictor".spec_bytes(),
        COLORS@ == "Colors".spec_bytes(),
        COLUMNS@ == "Columns".spec_bytes(),
        SMASK@ == "SMask".spec_bytes(),
{
    reveal_strlit("DCTDecode");
    assert("DCTDecode".is_ascii());
    assert(DCT_DECODE@ =~= "DCTDecode".spec_bytes());
    reveal_strlit("FlateDecode");
    assert("FlateDecode".is_ascii());
    assert(FLATE_DECODE@ =~= "FlateDecode".spec_bytes());
    reveal_strlit("CCITTFaxDecode");
    assert("CCITTFaxDecode".is_ascii());
    assert(CCITT_FAX_DECODE@ =~= "CCITTFaxDecode".spec_bytes());
    reveal_strlit("JPXDecode");
    assert("JPXDecode".is_ascii());
    assert(JPX_DECODE@ =~= "JPXDecode".spec_bytes());
    reveal_strlit("JBIG2Decode");
    assert("JBIG2Decode".is_ascii());
    assert(JBIG2_DECODE@ =~= "JBIG2Decode".spec_bytes());
    reveal_strlit("Length");
    assert("Length".is_ascii());
    assert(LENGTH@ =~= "Length".spec_bytes());
    reveal_strlit("Width");
    assert("Width".is_ascii());
    assert(WIDTH@ =~= "Width".spec_bytes());
    reveal_strlit("Height");
    assert("Height".is_ascii());
    assert(HEIGHT@ =~= "Height".spec_bytes());
    reveal_strlit("ColorSpace");
    assert("ColorSpace".is_ascii());
    assert(COLOR_SPACE@ =~= "ColorSpace".spec_bytes());
    reveal_strlit("BitsPerComponent");
    assert("BitsPerComponent".is_ascii());
    assert(BITS_PER_COMPONENT@ =~= "BitsPerComponent".spec_bytes());
    reveal_strlit("DeviceRGB");
    assert("DeviceRGB".is_ascii());
    assert(DEVICE_RGB@ =~= "DeviceRGB".spec_bytes());
    reveal_strlit("DeviceGray");
    assert("DeviceGray".is_ascii());
    assert(DEVICE_GRAY@ =~= "DeviceGray".spec_bytes());
    reveal_strlit("CalRGB");
    assert("CalRGB".is_ascii());
    assert(CAL_RGB@ =~= "CalRGB".spec_bytes());
    reveal_strlit("CalGray");
    assert("CalGray".is_ascii());
    assert(CAL_GRAY@ =~= "CalGray".spec_bytes());
    reveal_strlit("ICCBased");
    assert("ICCBased".is_ascii());
    assert(ICC_BASED@ =~= "ICCBased".spec_bytes());
    reveal_strlit("N");
    assert("N".is_ascii());
    assert(COMPONENTS@ =~= "N".spec_bytes());
    reveal_strlit("Predictor");
    assert("Predictor".is_ascii());
    assert(PREDICTOR@ =~= "Predictor".spec_bytes());
    reveal_strlit("Colors");
    assert("Colors".is_ascii());
    assert(COLORS@ =~= "Colors".spec_bytes());
    reveal_strlit("Columns");
    assert("Columns".is_ascii());
    assert(COLUMNS@ =~= "Columns".spec_bytes());
    reveal_strlit("SMask");
    assert("SMask".is_ascii());
    assert(SMASK@ =~= "SMask".spec_bytes());
}

/// The names are spelled as documents spell them.
pub proof fn names_spelled_3()
    ensures
        MASK@ == "Mask".spec_bytes(),
        MATTE@ == "Matte".spec_bytes(),
        DECODE@ == "Decode".spec_bytes(),
        IMAGE_MASK@ == "ImageMask".spec_bytes(),
        STRUCT_TREE_ROOT@ == "StructTreeRoot".spec_bytes(),
        MARK_INFO@ == "MarkInfo".spec_bytes(),
        LANG@ == "Lang".spec_bytes(),
        PREV@ == "Prev".spec_bytes(),
        XREF_STM@ == "XRefStm".spec_bytes(),
        IMAGE@ == "Image".spec_bytes(),
        METADATA@ == "Metadata".spec_bytes(),
        KIDS@ == "Kids".spec_bytes(),
        COUNT@ == "Count".spec_bytes(),
{
    reveal_strlit("Mask");
    assert("Mask".is_ascii());
    assert(MASK@ =~= "Mask".spec_bytes());
    reveal_strlit("Matte");
    assert("Matte".is_ascii());
    assert(MATTE@ =~= "Matte".spec_bytes());
    reveal_strlit("Decode");
    assert("Decode".is_ascii());
    assert(DECODE@ =~= "Decode".spec_bytes());
    reveal_strlit("ImageMask");
    assert("ImageMask".is_ascii());
    assert(IMAGE_MASK@ =~= "ImageMask".spec_bytes());
    reveal_strlit("StructTreeRoot");
    assert("StructTreeRoot".is_ascii());
    assert(STRUCT_TREE_ROOT@ =~= "StructTreeRoot".spec_bytes());
    reveal_strlit("MarkInfo");
    assert("MarkInfo".is_ascii());
    assert(MARK_INFO@ =~= "MarkInfo".spec_bytes());
    reveal_strlit("Lang");
    assert("Lang".is_ascii());
    assert(LANG@ =~= "Lang".spec_bytes());
    reveal_strlit("Prev");
    assert("Prev".is_ascii());
    assert(PREV@ =~= "Prev".spec_bytes());
    reveal_strlit("XRefStm");
    assert("XRefStm".is_ascii());
    assert(XREF_STM@ =~= "XRefStm".spec_bytes());
    reveal_strlit("Image");
    assert("Image".is_ascii());
    assert(IMAGE@ =~= "Image".spec_bytes());
    reveal_strlit("Metadata");
    assert("Metadata".is_ascii());
    assert(METADATA@ =~= "Metadata".spec_bytes());
    reveal_strlit("Kids");
    assert("Kids".is_ascii());
    assert(KIDS@ =~= "Kids".spec_bytes());
    reveal_strlit("Count");
    assert("Count".is_ascii());
    assert(COUNT@ =~= "Count".spec_bytes());
}

} // verus!
