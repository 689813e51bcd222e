use golfscript::bigint::Bint;
use golfscript::coerce::Coerced;
use golfscript::coerce::coerce;
use golfscript::parse::Gtoken;
use golfscript::parse::parse_code;
use golfscript::unescape::unescape;
use golfscript::util::set_and;
use golfscript::util::set_or;
use golfscript::util::set_subtract;
use golfscript::util::set_xor;
use golfscript::util::split;
use golfscript::value::Gval;

fn gint(n: u64) -> Gval {
    Gval::Int(Bint::from_u64(n))
}

fn ints(ns: &[u64]) -> Vec<Gval> {
    ns.iter().map(|&n| gint(n)).collect()
}

fn as_ints(vs: Vec<Gval>) -> Vec<u64> {
    vs.into_iter()
        .map(|v| match v {
            Gval::Int(b) => b.to_u64().unwrap(),
            _ => panic!("expected integer"),
        })
        .collect()
}

#[test]
fn split_keeps_empty_pieces() {
    let pieces = split(ints(&[1, 9, 9, 2]), ints(&[9]), false);
    let got: Vec<Vec<u64>> = pieces.into_iter().map(as_ints).collect();
    assert_eq!(got, vec![vec![1], vec![], vec![2]]);
}

#[test]
fn split_clean_drops_empty_pieces() {
    let pieces = split(ints(&[1, 9, 9, 2]), ints(&[9]), true);
    let got: Vec<Vec<u64>> = pieces.into_iter().map(as_ints).collect();
    assert_eq!(got, vec![vec![1], vec![2]]);
}

#[test]
fn set_subtract_keeps_duplicates() {
    let got = as_ints(set_subtract(ints(&[1, 2, 1, 3]), ints(&[2])));
    assert_eq!(got, vec![1, 1, 3]);
}

#[test]
fn set_or_keeps_first_occurrences() {
    let got = as_ints(set_or(ints(&[1, 2, 2]), ints(&[2, 3, 1])));
    assert_eq!(got, vec![1, 2, 3]);
}

#[test]
fn set_and_follows_right_order() {
    let got = as_ints(set_and(ints(&[1, 2, 3]), ints(&[3, 5, 2, 3])));
    assert_eq!(got, vec![3, 2]);
}

#[test]
fn set_xor_takes_symmetric_difference() {
    let got = as_ints(set_xor(ints(&[1, 2, 3]), ints(&[2, 4])));
    assert_eq!(got, vec![1, 3, 4]);
}

#[test]
fn unescape_double_quoted_escapes() {
    let lexeme: Vec<u8> = b"\"a\\tb\\qc\"".to_vec();
    assert_eq!(unescape(&lexeme, false), b"a\tb\x71c".to_vec());
}

#[test]
fn unescape_single_quoted_keeps_backslash() {
    let lexeme: Vec<u8> = b"'a\\tb\\'c'".to_vec();
    assert_eq!(unescape(&lexeme, true), b"a\\tb'c".to_vec());
}

#[test]
fn tokenizer_recognizes_kinds() {
    let src: Vec<u8> = b"ab -12 'x' \"y\" #z\n{1}".to_vec();
    let (tokens, pos) = parse_code(&src);
    assert_eq!(pos, src.len());
    let kinds: Vec<&'static str> = tokens
        .iter()
        .map(|t| match t {
            Gtoken::Symbol(_) => "sym",
            Gtoken::SingleQuotedString(_) => "sq",
            Gtoken::DoubleQuotedString(_) => "dq",
            Gtoken::IntLiteral(_) => "int",
            Gtoken::Comment(_) => "comment",
            Gtoken::Block(_, _) => "block",
        })
        .collect();
    assert_eq!(
        kinds,
        vec![
            "sym", "sym", "int", "sym", "sq", "sym", "dq", "sym", "comment", "sym", "block"
        ]
    );
}

#[test]
fn tokenizer_stops_at_unbalanced_brace() {
    let src: Vec<u8> = b"1 }".to_vec();
    let (tokens, pos) = parse_code(&src);
    assert_eq!(tokens.len(), 2);
    assert_eq!(pos, 2);
}

#[test]
fn block_lexeme_is_its_interior() {
    let src: Vec<u8> = b"{1 2+}".to_vec();
    let (tokens, pos) = parse_code(&src);
    assert_eq!(pos, src.len());
    assert_eq!(tokens.len(), 1);
    assert_eq!(tokens[0].lexeme().clone(), b"1 2+".to_vec());
}

#[test]
fn coerce_wraps_int_beside_array() {
    match coerce(gint(7), Gval::Arr(ints(&[1]))) {
        Coerced::Arrs(a, b) => {
            assert_eq!(as_ints(a), vec![7]);
            assert_eq!(as_ints(b), vec![1]);
        }
        _ => panic!("expected arrays"),
    }
}

#[test]
fn coerce_shows_int_beside_string() {
    match coerce(gint(42), Gval::Str(b"x".to_vec())) {
        Coerced::Strs(a, b) => {
            assert_eq!(a, b"42".to_vec());
            assert_eq!(b, b"x".to_vec());
        }
        _ => panic!("expected strings"),
    }
}

#[test]
fn coerce_is_symmetric_in_kind() {
    let pairs = [
        (gint(1), Gval::Str(b"s".to_vec())),
        (gint(1), Gval::Arr(ints(&[2]))),
        (Gval::Arr(ints(&[2])), Gval::Blk(b"b".to_vec())),
        (Gval::Str(b"s".to_vec()), Gval::Blk(b"b".to_vec())),
    ];
    for (a, b) in pairs {
        let k1 = match coerce(a.clone(), b.clone()) {
            Coerced::Ints(_, _) => 0,
            Coerced::Arrs(_, _) => 1,
            Coerced::Strs(_, _) => 2,
            Coerced::Blks(_, _) => 3,
        };
        let k2 = match coerce(b, a) {
            Coerced::Ints(_, _) => 0,
            Coerced::Arrs(_, _) => 1,
            Coerced::Strs(_, _) => 2,
            Coerced::Blks(_, _) => 3,
        };
        assert_eq!(k1, k2);
    }
}

#[test]
fn falsey_values() {
    assert!(gint(0).falsey());
    assert!(Gval::Arr(Vec::new()).falsey());
    assert!(Gval::Str(Vec::new()).falsey());
    assert!(Gval::Blk(Vec::new()).falsey());
    assert!(gint(1).truthy());
    assert!(Gval::Str(b"x".to_vec()).truthy());
}

#[test]
fn stringify_forms() {
    assert_eq!(gint(12).to_gs(), b"12".to_vec());
    assert_eq!(Gval::Blk(b"1 2".to_vec()).to_gs(), b"{1 2}".to_vec());
    assert_eq!(Gval::Arr(ints(&[1, 2])).to_gs(), b"12".to_vec());
}

#[test]
fn inspect_escapes_bytes() {
    assert_eq!(Gval::Str(b"a\nb".to_vec()).inspect(), b"\"a\\nb\"".to_vec());
    assert_eq!(Gval::Str(b"a'b".to_vec()).inspect(), b"\"a'b\"".to_vec());
    assert_eq!(Gval::Str(vec![1]).inspect(), b"\"\\x01\"".to_vec());
    assert_eq!(Gval::Arr(ints(&[1, 2])).inspect(), b"[1 2]".to_vec());
}

#[test]
fn negative_decimal_form() {
    let mut gs = golfscript::interp::Gs::new();
    gs.run(&b"0 7-".to_vec()).unwrap();
    let v = gs.stack.pop().unwrap();
    assert_eq!(v.to_gs(), b"-7".to_vec());
}
