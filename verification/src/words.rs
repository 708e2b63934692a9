//! Words of PDF syntax, as byte strings.

use vstd::prelude::*;
use vstd::string::StringSliceAdditionalSpecFns;

verus! {

/// `startxref`.
pub const STARTXREF: [u8; 9] = [0x73, 0x74, 0x61, 0x72, 0x74, 0x78, 0x72, 0x65, 0x66];

/// ` obj\n`.
pub const OBJ_LINE: [u8; 5] = [0x20, 0x6F, 0x62, 0x6A, 0x0A];

/// ` obj\n<<`.
pub const OBJ_DICT: [u8; 7] = [0x20, 0x6F, 0x62, 0x6A, 0x0A, 0x3C, 0x3C];

/// `<<`.
pub const DICT_OPEN: [u8; 2] = [0x3C, 0x3C];

/// `>>stream\n`.
pub const DICT_STREAM: [u8; 9] = [0x3E, 0x3E, 0x73, 0x74, 0x72, 0x65, 0x61, 0x6D, 0x0A];

/// `stream`.
pub const STREAM: [u8; 6] = [0x73, 0x74, 0x72, 0x65, 0x61, 0x6D];

/// `\nendstream`.
pub const ENDSTREAM_LINE: [u8; 10] = [0x0A, 0x65, 0x6E, 0x64, 0x73, 0x74, 0x72, 0x65, 0x61, 0x6D];

/// `endstream`.
pub const ENDSTREAM: [u8; 9] = [0x65, 0x6E, 0x64, 0x73, 0x74, 0x72, 0x65, 0x61, 0x6D];

/// `/Type/XRef`.
pub const TYPE_XREF: [u8; 10] = [0x2F, 0x54, 0x79, 0x70, 0x65, 0x2F, 0x58, 0x52, 0x65, 0x66];

/// `/Type/ObjStm`.
pub const TYPE_OBJSTM: [u8; 12] = [
    0x2F, 0x54, 0x79, 0x70, 0x65, 0x2F, 0x4F, 0x62, 0x6A, 0x53, 0x74, 0x6D,
];

/// `/ObjStm`.
pub const OBJSTM_NAME: [u8; 7] = [0x2F, 0x4F, 0x62, 0x6A, 0x53, 0x74, 0x6D];

/// `/Filter`.
pub const FILTER_KEY: [u8; 7] = [0x2F, 0x46, 0x69, 0x6C, 0x74, 0x65, 0x72];

/// `/DecodeParms`.
pub const DECODE_PARMS_KEY: [u8; 12] = [
    0x2F, 0x44, 0x65, 0x63, 0x6F, 0x64, 0x65, 0x50, 0x61, 0x72, 0x6D, 0x73,
];

/// `/Filter/FlateDecode`.
pub const FILTER_FLATE: [u8; 19] = [
    0x2F, 0x46, 0x69, 0x6C, 0x74, 0x65, 0x72, 0x2F, 0x46, 0x6C, 0x61, 0x74, 0x65, 0x44, 0x65, 0x63,
    0x6F, 0x64, 0x65,
];

/// `/Length `.
pub const LENGTH_KEY: [u8; 8] = [0x2F, 0x4C, 0x65, 0x6E, 0x67, 0x74, 0x68, 0x20];

/// `/Filter/FlateDecode/Length `.
pub const FILTER_FLATE_LENGTH: [u8; 27] = [
    0x2F, 0x46, 0x69, 0x6C, 0x74, 0x65, 0x72, 0x2F, 0x46, 0x6C, 0x61, 0x74, 0x65, 0x44, 0x65, 0x63,
    0x6F, 0x64, 0x65, 0x2F, 0x4C, 0x65, 0x6E, 0x67, 0x74, 0x68, 0x20,
];

/// `/W[`.
pub const WIDTHS_OPEN: [u8; 3] = [0x2F, 0x57, 0x5B];

/// `]`.
pub const CLOSE_BRACKET: [u8; 1] = [0x5D];

/// `xref`.
pub const XREF_WORD: [u8; 4] = [0x78, 0x72, 0x65, 0x66];

/// `trailer`.
pub const TRAILER_WORD: [u8; 7] = [0x74, 0x72, 0x61, 0x69, 0x6C, 0x65, 0x72];

/// `/N `.
pub const COUNT_KEY: [u8; 3] = [0x2F, 0x4E, 0x20];

/// `/First `.
pub const FIRST_KEY: [u8; 7] = [0x2F, 0x46, 0x69, 0x72, 0x73, 0x74, 0x20];

/// `pdfaid:part`.
pub const PDFA_PART: [u8; 11] = [0x70, 0x64, 0x66, 0x61, 0x69, 0x64, 0x3A, 0x70, 0x61, 0x72, 0x74];

/// `obj`.
pub const OBJ_WORD: [u8; 3] = [0x6F, 0x62, 0x6A];

/// `Type`.
pub const TYPE_NAME: [u8; 4] = [0x54, 0x79, 0x70, 0x65];

/// `ObjStm`.
pub const OBJSTM_TYPE: [u8; 6] = [0x4F, 0x62, 0x6A, 0x53, 0x74, 0x6D];

/// `XRef`.
pub const XREF_TYPE: [u8; 4] = [0x58, 0x52, 0x65, 0x66];

/// `FlateDecode`.
pub const FLATE_DECODE: [u8; 11] = [
    0x46, 0x6C, 0x61, 0x74, 0x65, 0x44, 0x65, 0x63, 0x6F, 0x64, 0x65,
];

/// The words are spelled as documents spell them.
pub proof fn words_spelled_1()
    ensures
        STARTXREF@ == "startxref".spec_bytes(),
        OBJ_LINE@ == " obj\n".spec_bytes(),
        OBJ_DICT@ == " obj\n<<".spec_bytes(),
        DICT_OPEN@ == "<<".spec_bytes(),
        DICT_STREAM@ == ">>stream\n".spec_bytes(),
        STREAM@ == "stream".spec_bytes(),
        ENDSTREAM_LINE@ == "\nendstream".spec_bytes(),
        ENDSTREAM@ == "endstream".spec_bytes(),
        TYPE_XREF@ == "/Type/XRef".spec_bytes(),
        TYPE_OBJSTM@ == "/Type/ObjStm".spec_bytes(),
        OBJSTM_NAME@ == "/ObjStm".spec_bytes(),
        FILTER_KEY@ == "/Filter".spec_bytes(),
        DECODE_PARMS_KEY@ == "/DecodeParms".spec_bytes(),
        FILTER_FLATE@ == "/Filter/FlateDecode".spec_bytes(),
        LENGTH_KEY@ == "/Length ".spec_bytes(),
        FILTER_FLATE_LENGTH@ == "/Filter/FlateDecode/Length ".spec_bytes(),
        WIDTHS_OPEN@ == "/W[".spec_bytes(),
        CLOSE_BRACKET@ == "]".spec_bytes(),
        XREF_WORD@ == "xref".spec_bytes(),
        TRAILER_WORD@ == "trailer".spec_bytes(),
{
    reveal_strlit("startxref");
    assert("startxref".is_ascii());
    assert(STARTXREF@ =~= "startxref".spec_bytes());
    reveal_strlit(" obj\n");
    assert(" obj\n".is_ascii());
    assert(OBJ_LINE@ =~= " obj\n".spec_bytes());
    reveal_strlit(" obj\n<<");
    assert(" obj\n<<".is_ascii());
    assert(OBJ_DICT@ =~= " obj\n<<".spec_bytes());
    reveal_strlit("<<");
    assert("<<".is_ascii());
    assert(DICT_OPEN@ =~= "<<".spec_bytes());
    reveal_strlit(">>stream\n");
    assert(">>stream\n".is_ascii());
    assert(DICT_STREAM@ =~= ">>stream\n".spec_bytes());
    reveal_strlit("stream");
    assert("stream".is_ascii());
    assert(STREAM@ =~= "stream".spec_bytes());
    reveal_strlit("\nendstream");
    assert("\nendstream".is_ascii());
    assert(ENDSTREAM_LINE@ =~= "\nendstream".spec_bytes());
    reveal_strlit("endstream");
    assert("endstream".is_ascii());
    assert(ENDSTREAM@ =~= "endstream".spec_bytes());
    reveal_strlit("/Type/XRef");
    assert("/Type/XRef".is_ascii());
    assert(TYPE_XREF@ =~= "/Type/XRef".spec_bytes());
    reveal_strlit("/Type/ObjStm");
    assert("/Type/ObjStm".is_ascii());
    assert(TYPE_OBJSTM@ =~= "/Type/ObjStm".spec_bytes());
    reveal_strlit("/ObjStm");
    assert("/ObjStm".is_ascii());
    assert(OBJSTM_NAME@ =~= "/ObjStm".spec_bytes());
    reveal_strlit("/Filter");
    assert("/Filter".is_ascii());
    assert(FILTER_KEY@ =~= "/Filter".spec_bytes());
    reveal_strlit("/DecodeParms");
    assert("/DecodeParms".is_ascii());
    assert(DECODE_PARMS_KEY@ =~= "/DecodeParms".spec_bytes());
    reveal_strlit("/Filter/FlateDecode");
    assert("/Filter/FlateDecode".is_ascii());
    assert(FILTER_FLATE@ =~= "/Filter/FlateDecode".spec_bytes());
    reveal_strlit("/Length ");
    assert("/Length ".is_ascii());
    assert(LENGTH_KEY@ =~= "/Length ".spec_bytes());
    reveal_strlit("/Filter/FlateDecode/Length ");
    assert("/Filter/FlateDecode/Length ".is_ascii());
    assert(FILTER_FLATE_LENGTH@ =~= "/Filter/FlateDecode/Length ".spec_bytes());
    reveal_strlit("/W[");
    assert("/W[".is_ascii());
    assert(WIDTHS_OPEN@ =~= "/W[".spec_bytes());
    reveal_strlit("]");
    assert("]".is_ascii());
    assert(CLOSE_BRACKET@ =~= "]".spec_bytes());
    reveal_strlit("xref");
    assert("xref".is_ascii());
    assert(XREF_WORD@ =~= "xref".spec_bytes());
    reveal_strlit("trailer");
    assert("trailer".is_ascii());
    assert(TRAILER_WORD@ =~= "trailer".spec_bytes());
}

/// The words are spelled as documents spell them.
pub proof fn words_spelled_2()
    ensures
        COUNT_KEY@ == "/N ".spec_bytes(),
        FIRST_KEY@ == "/First ".spec_bytes(),
        PDFA_PART@ == "pdfaid:part".spec_bytes(),
        OBJ_WORD@ == "obj".spec_bytes(),
        TYPE_NAME@ == "Type".spec_bytes(),
        OBJSTM_TYPE@ == "ObjStm".spec_bytes(),
        XREF_TYPE@ == "XRef".spec_bytes(),
        FLATE_DECODE@ == "FlateDecode".spec_bytes(),
{
    reveal_strlit("/N ");
    assert("/N ".is_ascii());
    assert(COUNT_KEY@ =~= "/N ".spec_bytes());
    reveal_strlit("/First ");
    assert("/First ".is_ascii());
    assert(FIRST_KEY@ =~= "/First ".spec_bytes());
    reveal_strlit("pdfaid:part");
    assert("pdfaid:part".is_ascii());
    assert(PDFA_PART@ =~= "pdfaid:part".spec_bytes());
    reveal_strlit("obj");
    assert("obj".is_ascii());
    assert(OBJ_WORD@ =~= "obj".spec_bytes());
    reveal_strlit("Type");
    assert("Type".is_ascii());
    assert(TYPE_NAME@ =~= "Type".spec_bytes());
    reveal_strlit("ObjStm");
    assert("ObjStm".is_ascii());
    assert(OBJSTM_TYPE@ =~= "ObjStm".spec_bytes());
    reveal_strlit("XRef");
    assert("XRef".is_ascii());
    assert(XREF_TYPE@ =~= "XRef".spec_bytes());
    reveal_strlit("FlateDecode");
    assert("FlateDecode".is_ascii());
    assert(FLATE_DECODE@ =~= "FlateDecode".spec_bytes());
}

} // verus!
