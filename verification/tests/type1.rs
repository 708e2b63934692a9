//! Type 1 fonts: reading, running and writing them.

use amatl::type1::cff::{cff_index, dict_int, dict_int32, dict_number, dict_op, private_dict};
use amatl::type1::convert::convert_to_cff;
use amatl::type1::crypt::{decrypt, find, split_and_decrypt, CHARSTRING_KEY, EEXEC_KEY};
use amatl::type1::emit::{emit_charstring, t2_number, t2_op};
use amatl::type1::fixed::Fixed;
use amatl::type1::interp::{interpret_glyph, PathOp};
use amatl::type1::lexer::{Lexer, Token};
use amatl::type1::number::Number;
use amatl::type1::parse::{parse, parse_encoding, Type1Font};
use amatl::type1::standard::std_name;

/// A double-precision number.
#[derive(Clone, Copy, Debug, PartialEq)]
struct Double(f64);

impl Number for Double {
    fn from_int(i: i32) -> Double {
        Double(f64::from(i))
    }

    fn plus(self, other: Double) -> Double {
        Double(self.0 + other.0)
    }

    fn minus(self, other: Double) -> Double {
        Double(self.0 - other.0)
    }

    fn over(self, other: Double) -> Double {
        Double(self.0 / other.0)
    }

    fn is_equal(self, other: Double) -> bool {
        self.0 == other.0
    }

    fn is_below(self, other: Double) -> bool {
        self.0 < other.0
    }

    fn whole(self) -> Option<i64> {
        if self.0.fract() == 0.0 {
            Some(self.0 as i64)
        } else {
            None
        }
    }

    fn fixed(self) -> Option<i32> {
        let v = (self.0 * 65536.0).round();
        if (-2147483648.0..=2147483647.0).contains(&v) {
            Some(v as i32)
        } else {
            None
        }
    }

    fn spell(self) -> Option<Vec<u8>> {
        if self.0.is_finite() {
            Some(format!("{}", self.0).into_bytes())
        } else {
            None
        }
    }

    fn read(text: &[u8]) -> Option<Double> {
        let v: f64 = std::str::from_utf8(text).ok()?.parse().ok()?;
        if v.is_finite() {
            Some(Double(v))
        } else {
            None
        }
    }

    fn bits(self) -> u128 {
        u128::from(self.0.to_bits())
    }
}

/// The encryption that [`decrypt`] undoes.
fn encrypt(plain: &[u8], key: u16) -> Vec<u8> {
    let mut r = key;
    let mut out = Vec::new();
    for &p in plain {
        let c = p ^ (r >> 8) as u8;
        r = u16::from(c)
            .wrapping_add(r)
            .wrapping_mul(52845)
            .wrapping_add(22719);
        out.push(c);
    }
    out
}

/// A program as a font holds it.
fn program(code: &[u8]) -> Vec<u8> {
    let mut plain = vec![0u8; 4];
    plain.extend_from_slice(code);
    encrypt(&plain, CHARSTRING_KEY)
}

/// An operand of an outline program.
fn operand(v: i32) -> Vec<u8> {
    match v {
        -107..=107 => vec![(v + 139) as u8],
        108..=1131 => vec![((v - 108) / 256 + 247) as u8, ((v - 108) % 256) as u8],
        -1131..=-108 => vec![((-v - 108) / 256 + 251) as u8, ((-v - 108) % 256) as u8],
        _ => {
            let mut out = vec![255];
            out.extend_from_slice(&v.to_be_bytes());
            out
        }
    }
}

/// A program of operands and operators; a negative operator is an escape.
fn code(parts: &[(&[i32], &[u8])]) -> Vec<u8> {
    let mut out = Vec::new();
    for (operands, operator) in parts {
        for v in *operands {
            out.extend(operand(*v));
        }
        out.extend_from_slice(operator);
    }
    out
}

const HEADER: &str = "%!PS-AdobeFont-1.0: Tiny\n\
    /FontName /Tiny def\n/PaintType 0 def\n/FontMatrix [0.001 0 0 0.001 0 0] readonly def\n\
    /FontBBox {0 -10 500 700} readonly def\n\
    /Encoding 256 array 0 1 255 {1 index exch /.notdef put} for\n\
    dup 65 /A put dup 66 /B put dup 97 /A put readonly def\ncurrentfile eexec\n";

/// A font of these glyphs and subroutines.
fn tiny(glyphs: &[(&str, Vec<u8>)], subrs: &[Vec<u8>]) -> Vec<u8> {
    tiny_with(HEADER, glyphs, subrs)
}

fn tiny_with(header: &str, glyphs: &[(&str, Vec<u8>)], subrs: &[Vec<u8>]) -> Vec<u8> {
    let mut private = b"xxxxdup /Private 8 dict dup begin /lenIV 4 def \
        /BlueValues [-10 0 700 710] def /StdHW [30] def /BlueScale 0.039625 def\n"
        .to_vec();
    private.extend_from_slice(format!("/Subrs {} array\n", subrs.len()).as_bytes());
    for (i, s) in subrs.iter().enumerate() {
        let raw = program(s);
        private.extend_from_slice(format!("dup {i} {} RD ", raw.len()).as_bytes());
        private.extend_from_slice(&raw);
        private.extend_from_slice(b" NP\n");
    }
    private.extend_from_slice(
        format!("ND /CharStrings {} dict dup begin\n", glyphs.len()).as_bytes(),
    );
    for (name, c) in glyphs {
        let raw = program(c);
        private.extend_from_slice(format!("/{name} {} RD ", raw.len()).as_bytes());
        private.extend_from_slice(&raw);
        private.extend_from_slice(b" ND\n");
    }
    private.extend_from_slice(b"end end readonly put");
    let mut out = header.as_bytes().to_vec();
    out.extend(encrypt(&private, EEXEC_KEY));
    out
}

fn notdef() -> Vec<u8> {
    code(&[(&[0, 500], &[13]), (&[], &[14])])
}

/// A box with a stem, drawn from the sidebearing point.
fn boxed() -> Vec<u8> {
    code(&[
        (&[50, 500], &[13]),
        (&[0, 100], &[1]),
        (&[10, 20], &[21]),
        (&[100], &[6]),
        (&[100], &[7]),
        (&[], &[9]),
        (&[], &[14]),
    ])
}

fn sample() -> Type1Font<Double> {
    let glyphs = [(".notdef", notdef()), ("A", boxed()), ("B", boxed())];
    parse(&tiny(&glyphs, &[])).unwrap()
}

#[test]
fn decrypting_gives_back_what_was_encrypted() {
    let plain = b"abcdwhatever";
    let raw = encrypt(plain, EEXEC_KEY);
    assert_ne!(raw, plain.to_vec());
    assert_eq!(decrypt(&raw, EEXEC_KEY, 4).unwrap(), b"whatever");
    assert!(decrypt(&[1, 2], EEXEC_KEY, 4).is_none());
}

#[test]
fn containers_come_down_to_the_same_parts() {
    let font = tiny(&[(".notdef", notdef())], &[]);
    let (clear, plain) = split_and_decrypt(&font).unwrap();
    assert!(clear.ends_with(b"currentfile "));
    assert!(plain.starts_with(b"dup /Private"));

    let at = find(&font, b"eexec").unwrap() + 6;
    let mut segmented = vec![0x80, 1];
    segmented.extend_from_slice(&(at as u32).to_le_bytes());
    segmented.extend_from_slice(&font[..at]);
    segmented.extend_from_slice(&[0x80, 2]);
    segmented.extend_from_slice(&((font.len() - at) as u32).to_le_bytes());
    segmented.extend_from_slice(&font[at..]);
    segmented.extend_from_slice(&[0x80, 3]);
    assert_eq!(split_and_decrypt(&segmented).unwrap(), (clear.clone(), plain.clone()));

    let mut hex = font[..at].to_vec();
    for (i, b) in font[at..].iter().enumerate() {
        hex.extend_from_slice(format!("{b:02x}").as_bytes());
        if i % 30 == 29 {
            hex.push(b'\n');
        }
    }
    assert_eq!(split_and_decrypt(&hex).unwrap(), (clear, plain));

    assert!(split_and_decrypt(&[0x80, 7, 0, 0]).is_none());
    assert!(split_and_decrypt(b"no such word").is_none());
    assert!(split_and_decrypt(b"eexec abc").is_none());
    assert!(find(b"abc", b"x").is_none());
}

#[test]
fn tokens_are_told_apart() {
    let mut lex = Lexer::new(b"% a comment\n/Name 12 -0.5 [dup] (");
    assert!(matches!(lex.next::<Double>(), Some(Token::Name(b"Name"))));
    assert!(matches!(lex.next::<Double>(), Some(Token::Number(Double(v))) if v == 12.0));
    assert!(matches!(lex.next::<Double>(), Some(Token::Number(Double(v))) if v == -0.5));
    assert!(matches!(lex.next::<Double>(), Some(Token::Delim(b'['))));
    assert!(matches!(lex.next::<Double>(), Some(Token::Word(b"dup"))));
    assert!(matches!(lex.next::<Double>(), Some(Token::Delim(b']'))));
    assert!(matches!(lex.next::<Double>(), Some(Token::Word(b"("))));
    assert!(lex.next::<Double>().is_none());

    let mut lex = Lexer::new(b" \0x16#FF");
    lex.skip_ws();
    assert_eq!(lex.pos, 2);
    lex.consume_regular();
    assert_eq!(lex.pos, 8);
    assert!(lex.read_binary(1).is_none());

    let mut lex = Lexer::new(b"RD abc ND");
    assert!(matches!(lex.next::<Double>(), Some(Token::Word(b"RD"))));
    assert_eq!(lex.read_binary(3), Some(&b"abc"[..]));
    assert!(lex.read_binary(9).is_none());
}

#[test]
fn encodings_are_read() {
    let mut lex = Lexer::new(b"StandardEncoding def");
    let standard = parse_encoding::<Double>(&mut lex).unwrap();
    assert_eq!(standard.len(), 256);
    assert_eq!(standard[65].as_deref(), Some(&b"A"[..]));
    assert_eq!(standard[0], None);
    let mut lex = Lexer::new(b"256 array dup 65 /Aacute put def");
    let own = parse_encoding::<Double>(&mut lex).unwrap();
    assert_eq!(own[65].as_deref(), Some(&b"Aacute"[..]));
    assert_eq!(own[66], None);
    let mut lex = Lexer::new(b"256 array dup 300 /Aacute put def");
    assert!(parse_encoding::<Double>(&mut lex).is_none());
    let mut lex = Lexer::new(b"256 array StandardEncoding 0 10 getinterval putinterval def");
    assert!(parse_encoding::<Double>(&mut lex).is_none());
}

#[test]
fn standard_names_are_those_of_the_encoding() {
    assert_eq!(std_name(32), Some(b"space".to_vec()));
    assert_eq!(std_name(126), Some(b"asciitilde".to_vec()));
    assert_eq!(std_name(127), None);
    assert_eq!(std_name(161), Some(b"exclamdown".to_vec()));
    assert_eq!(std_name(176), None);
    assert_eq!(std_name(194), Some(b"acute".to_vec()));
    assert_eq!(std_name(251), Some(b"germandbls".to_vec()));
    assert_eq!(std_name(31), None);
    assert_eq!(std_name(255), None);
}

#[test]
fn font_is_read() {
    let font = sample();
    assert_eq!(font.font_name, b"Tiny");
    assert_eq!(font.font_matrix[0], Double(0.001));
    assert_eq!(font.font_bbox[3], Double(700.0));
    assert_eq!(font.paint_type, Double(0.0));
    assert_eq!(font.builtin_name(65), Some(&b"A"[..]));
    assert_eq!(font.builtin_name(67), None);
    assert!(font.has_glyph(b"B"));
    assert!(!font.has_glyph(b"C"));
    assert_eq!(font.hints.blue_values.len(), 4);
    assert_eq!(font.hints.std_hw, Some(Double(30.0)));
    assert_eq!(font.hints.blue_scale, Some(Double(0.039625)));
    assert!(parse::<Double>(b"nothing").is_none());
    assert!(parse::<Double>(&tiny(&[], &[])).is_none());
}

#[test]
fn first_move_starts_from_the_sidebearing_point() {
    let g = interpret_glyph(&sample(), b"A").unwrap();
    assert_eq!(g.width, Double(500.0));
    assert_eq!(g.sb, (Double(50.0), Double(0.0)));
    assert_eq!(g.stems.len(), 1);
    assert_eq!(g.segments.len(), 1);
    assert!(matches!(g.segments[0].ops[0], PathOp::Move(x, y)
        if x == Double(60.0) && y == Double(20.0)));
    assert_eq!(g.segments[0].ops.len(), 3);
}

#[test]
fn subroutines_quotients_and_flex_are_followed() {
    let flex = code(&[
        (&[0, 500], &[13]),
        (&[5, 5], &[21]),
        (&[0, 1], &[12, 16]),
        (&[1, 1], &[21]),
        (&[0, 2], &[12, 16]),
        (&[2, 0], &[21]),
        (&[3, 0], &[21]),
        (&[4, 0], &[21]),
        (&[5, 0], &[21]),
        (&[6, 0], &[21]),
        (&[7, 0], &[21]),
        (&[50, 33, 6, 3, 0], &[12, 16]),
        (&[], &[12, 17, 12, 17, 12, 33]),
        (&[], &[14]),
    ]);
    let called = code(&[(&[0, 500], &[13]), (&[1, 2], &[12, 12, 4]), (&[0], &[10]), (&[], &[14])]);
    let subr = code(&[(&[7], &[6]), (&[], &[11])]);
    let glyphs = [(".notdef", notdef()), ("A", flex), ("B", called)];
    let font: Type1Font<Double> = parse(&tiny(&glyphs, &[subr])).unwrap();
    let g = interpret_glyph(&font, b"A").unwrap();
    let ops = &g.segments[0].ops;
    assert_eq!(ops.len(), 3);
    assert!(matches!(ops[1], PathOp::Curve(a, b, c, _, e, _)
        if a == Double(3.0) && b == Double(1.0) && c == Double(3.0) && e == Double(4.0)));
    assert!(matches!(ops[2], PathOp::Curve(a, _, _, _, e, _)
        if a == Double(5.0) && e == Double(7.0)));
    let g = interpret_glyph(&font, b"B").unwrap();
    let ops = &g.segments[0].ops;
    assert!(matches!(ops[0], PathOp::Move(_, y) if y == Double(0.5)));
    assert!(matches!(ops[1], PathOp::Line(x, _) if x == Double(7.0)));
}

#[test]
fn hint_replacement_starts_a_segment() {
    let replaced = code(&[
        (&[0, 500], &[13]),
        (&[0, 10], &[1]),
        (&[1, 1], &[21]),
        (&[0, 1, 3], &[12, 16]),
        (&[], &[12, 17, 10]),
        (&[9], &[6]),
        (&[], &[14]),
    ]);
    let subr = code(&[(&[20, 10], &[3]), (&[], &[11])]);
    let glyphs = [(".notdef", notdef()), ("A", replaced)];
    let font: Type1Font<Double> = parse(&tiny(&glyphs, &[subr])).unwrap();
    let g = interpret_glyph(&font, b"A").unwrap();
    assert_eq!(g.stems.len(), 2);
    assert_eq!(g.segments.len(), 2);
    assert_eq!(g.segments[0].active, vec![0]);
    assert_eq!(g.segments[1].active, vec![1]);
    let out = emit_charstring(&g, Double(500.0), Double(500.0)).unwrap();
    let want: Vec<u8> = [
        &[139, 149, 18][..],
        &[159, 149, 23],
        &[19, 0x80],
        &[140, 140, 21],
        &[19, 0x40],
        &[148, 6],
        &[14],
    ]
    .concat();
    assert_eq!(out, want);
}

#[test]
fn active_stems_of_a_segment_are_in_order() {
    let replaced = code(&[
        (&[0, 500], &[13]),
        (&[0, 10], &[1]),
        (&[30, 10], &[1]),
        (&[1, 1], &[21]),
        (&[0, 1, 3], &[12, 16]),
        (&[], &[12, 17, 10]),
        (&[9], &[6]),
        (&[], &[14]),
    ]);
    let subr = code(&[(&[30, 10], &[1]), (&[0, 10], &[1]), (&[], &[11])]);
    let glyphs = [(".notdef", notdef()), ("A", replaced)];
    let font: Type1Font<Double> = parse(&tiny(&glyphs, &[subr])).unwrap();
    let g = interpret_glyph(&font, b"A").unwrap();
    assert_eq!(g.segments.len(), 2);
    assert_eq!(g.segments[1].active, vec![0, 1]);
}

#[test]
fn composite_is_put_together() {
    let accent = code(&[(&[5, 200], &[13]), (&[1, 2], &[21]), (&[3], &[6]), (&[], &[14])]);
    let composed = code(&[(&[50, 500], &[13]), (&[5, 40, 60, 65, 194], &[12, 6])]);
    let glyphs = [
        (".notdef", notdef()),
        ("A", boxed()),
        ("acute", accent),
        ("Aacute", composed),
    ];
    let font: Type1Font<Double> = parse(&tiny(&glyphs, &[])).unwrap();
    let g = interpret_glyph(&font, b"Aacute").unwrap();
    let ops = &g.segments[0].ops;
    assert_eq!(ops.len(), 5);
    assert!(matches!(ops[3], PathOp::Move(x, y)
        if x == Double(6.0 + 85.0 - 160.0) && y == Double(2.0 + 60.0 - 120.0)));
    assert!(g.stems.is_empty());
}

#[test]
fn doubtful_programs_fail_the_glyph() {
    for bad in [
        code(&[(&[0], &[13])]),
        code(&[(&[0, 500], &[13]), (&[1, 0], &[12, 12])]),
        code(&[(&[0, 500], &[13]), (&[3], &[10])]),
        code(&[(&[0, 500], &[13]), (&[], &[15])]),
        code(&[(&[0, 500], &[13]), (&[0, 9], &[12, 16])]),
        code(&[(&[0, 500], &[13]), (&[], &[12, 17])]),
        code(&[(&[1, 1], &[21]), (&[], &[14])]),
        vec![255, 0, 0],
        vec![247],
        vec![12],
    ] {
        let glyphs = [(".notdef", notdef()), ("A", bad.clone())];
        let font: Type1Font<Double> = parse(&tiny(&glyphs, &[])).unwrap();
        assert!(interpret_glyph(&font, b"A").is_none(), "{bad:?}");
    }
    assert!(interpret_glyph(&sample(), b"missing").is_none());
}

#[test]
fn endless_subroutines_are_stopped() {
    let subr = code(&[(&[0], &[10])]);
    let glyphs = [(".notdef", notdef()), ("A", code(&[(&[0, 500], &[13]), (&[0], &[10])]))];
    let font: Type1Font<Double> = parse(&tiny(&glyphs, &[subr])).unwrap();
    assert!(interpret_glyph(&font, b"A").is_none());
}

#[test]
fn numbers_are_written_in_their_shortest_form() {
    for (v, want) in [
        (0.0, vec![139]),
        (107.0, vec![246]),
        (-107.0, vec![32]),
        (108.0, vec![247, 0]),
        (1131.0, vec![250, 255]),
        (-108.0, vec![251, 0]),
        (-1131.0, vec![254, 255]),
        (1132.0, vec![28, 4, 108]),
        (-32768.0, vec![28, 128, 0]),
        (0.5, vec![255, 0, 0, 128, 0]),
        (-0.5, vec![255, 255, 255, 128, 0]),
    ] {
        let mut out = Vec::new();
        t2_number(&mut out, Double(v)).unwrap();
        assert_eq!(out, want, "{v}");
    }
    assert!(t2_number(&mut Vec::new(), Double(40000.0)).is_none());
    let mut out = Vec::new();
    t2_op(&mut out, 14);
    assert_eq!(out, vec![14]);
}

#[test]
fn dictionary_operands_are_written() {
    for (v, want) in [
        (-107, vec![32]),
        (1000, vec![250, 124]),
        (-1000, vec![254, 124]),
        (10000, vec![28, 39, 16]),
        (100000, vec![29, 0, 1, 134, 160]),
        (-100000, vec![29, 255, 254, 121, 96]),
    ] {
        let mut out = Vec::new();
        dict_int(&mut out, v);
        assert_eq!(out, want, "{v}");
    }
    let mut out = Vec::new();
    dict_number(&mut out, Double(-2.25)).unwrap();
    assert_eq!(out, vec![30, 0xe2, 0xa2, 0x5f]);
    let mut out = Vec::new();
    dict_number(&mut out, Double(0.140541)).unwrap();
    assert_eq!(out, vec![30, 0x0a, 0x14, 0x05, 0x41, 0xff]);
    assert!(dict_number(&mut Vec::new(), Double(f64::NAN)).is_none());
    let mut out = Vec::new();
    dict_int32(&mut out, 258);
    dict_op(&mut out, 15);
    dict_op(&mut out, 0x0C07);
    assert_eq!(out, vec![29, 0, 0, 1, 2, 15, 12, 7]);
}

#[test]
fn index_holds_its_items() {
    assert_eq!(cff_index(&Vec::new()).unwrap(), vec![0, 0]);
    let items = vec![b"ab".to_vec(), Vec::new(), b"c".to_vec()];
    assert_eq!(
        cff_index(&items).unwrap(),
        vec![0, 3, 1, 1, 3, 3, 4, b'a', b'b', b'c']
    );
    let wide = cff_index(&vec![vec![7u8; 300]]).unwrap();
    assert_eq!(&wide[..7], &[0, 1, 2, 0, 1, 1, 45]);
    assert!(cff_index(&vec![Vec::new(); 70000]).is_none());
}

#[test]
fn private_dictionary_carries_the_hints() {
    let font = sample();
    let out = private_dict(&font.hints, Double(500.0), Double(500.0)).unwrap();
    let want: Vec<u8> = [
        &[129, 149, 249, 80, 149, 6][..],
        &[30, 0x0a, 0x03, 0x96, 0x25, 0xff, 12, 9],
        &[169, 10],
        &[248, 136, 20, 248, 136, 21],
    ]
    .concat();
    assert_eq!(out, want);
}

#[test]
fn font_is_converted() {
    let keep = vec![b"A".to_vec(), b"B".to_vec()];
    let cff = convert_to_cff(&sample(), &keep).unwrap();
    assert_eq!(&cff[..4], &[1, 0, 4, 4]);
    assert_eq!(&cff[4..13], &[0, 1, 1, 1, 5, b'T', b'i', b'n', b'y']);
    let at = find(&cff, &[0x80, 2, 65, 66, 1, 97]).unwrap();
    assert_eq!(&cff[at + 6..at + 8], &[1, 135]);
    assert_eq!(&cff[at - 5..at], &[0, 1, 135, 1, 136]);
    assert!(find(&cff, b"AB").is_some());
}

#[test]
fn doubtful_fonts_are_not_converted() {
    let keep = vec![b"A".to_vec()];
    let glyphs = [("A", boxed())];
    let font: Type1Font<Double> = parse(&tiny(&glyphs, &[])).unwrap();
    assert!(convert_to_cff(&font, &keep).is_none());
    let stroked = HEADER.replace("/PaintType 0", "/PaintType 2");
    let glyphs = [(".notdef", notdef()), ("A", boxed())];
    let font: Type1Font<Double> = parse(&tiny_with(&stroked, &glyphs, &[])).unwrap();
    assert!(convert_to_cff(&font, &keep).is_none());
    assert!(convert_to_cff(&sample(), &vec![b"C".to_vec()]).is_none());
}

#[test]
fn fixed_point_gives_the_same_font() {
    let glyphs = [(".notdef", notdef()), ("A", boxed()), ("B", boxed())];
    let font: Type1Font<Fixed> = parse(&tiny(&glyphs, &[])).unwrap();
    let keep = vec![b"A".to_vec(), b"B".to_vec()];
    let g = interpret_glyph(&font, b"A").unwrap();
    assert_eq!(g.width.whole(), Some(500));
    assert_eq!(convert_to_cff(&font, &keep), convert_to_cff(&sample(), &keep));
}

#[test]
fn decimal_numbers_are_exact() {
    for text in ["0.001", "0.039625", "-12.5", "0.00048828125", "1000", "33.333333333333336"] {
        let v = Fixed::read(text.as_bytes()).unwrap();
        assert_eq!(v.spell().unwrap(), text.as_bytes());
    }
    assert_eq!(Fixed::read(b"0.001").unwrap().units, 1_000_000_000_000_000_000_000);
    assert_eq!(Fixed::read(b"1e-3").unwrap(), Fixed::read(b"0.0010000000000000000000").unwrap());
    assert_eq!(Fixed::read(b"1.5E+2").unwrap(), Fixed::from_int(150));
    assert_eq!(Fixed::read(b"1.").unwrap(), Fixed::from_int(1));
    assert_eq!(Fixed::read(b"0e99").unwrap(), Fixed::from_int(0));
    for text in ["", ".", "e5", ".e5", "1e", "1e+", "1e1.5", "1e99", "--1", "1-", "1.2.3", "x"] {
        assert!(Fixed::read(text.as_bytes()).is_none(), "{text}");
    }
}

#[test]
fn fixed_point_numbers() {
    let half = Fixed::from_int(1).over(Fixed::from_int(2));
    assert_eq!(half.units, 500_000_000_000_000_000_000_000);
    assert_eq!(half.whole(), None);
    assert_eq!(half.plus(half).whole(), Some(1));
    assert_eq!(half.minus(Fixed::from_int(1)).fixed(), Some(-32768));
    let third = Fixed::from_int(-1).over(Fixed::from_int(3));
    assert_eq!(third.units, -333_333_333_333_333_333_333_333);
    assert_eq!(third.fixed(), Some(-21845));
    assert_eq!(Fixed::from_int(2).over(Fixed::from_int(-3)).fixed(), Some(-43691));
    assert_eq!(half.spell().unwrap(), b"0.5");
    assert_eq!(Fixed::from_int(-3).spell().unwrap(), b"-3");
    assert_eq!(Fixed::read(b"-2.25").unwrap().fixed(), Some(-147456));
    assert_eq!(Fixed::read(b"+.5").unwrap(), half);
    assert!(half.is_below(Fixed::from_int(1)));
    assert!(half.is_equal(Fixed::read(b"0.5").unwrap()));
    assert_ne!(half.bits(), Fixed::from_int(0).minus(half).bits());
    assert_eq!(Fixed::from_int(40000).fixed(), None);
    assert_eq!(Fixed::from_int(-32768).fixed(), Some(i32::MIN));
    let large = Fixed::read(b"9999999999999").unwrap();
    assert_eq!(large.plus(large).whole(), Some(10_000_000_000_000));
    assert_eq!(large.over(half).whole(), Some(10_000_000_000_000));
}
