use egglog::ast::Literal as Engine;
use egglog::util::{FreshGen, SymbolGen};

use egglog_experimental::expr::Literal;
use egglog_experimental::multi_extract::binding::{push_binding, split_lines};
use egglog_experimental::multi_extract::layout::RenderedTerm;
use egglog_experimental::multi_extract::naming::FreshNames;
use egglog_experimental::multi_extract::text::{
    decimal_text, has_line_break, literal_text, push_spaces, signed_decimal_text,
};
use egglog_experimental::multi_extract::variants::{counts_variants, variant_count};

fn binding(name: &str, body: &str) -> String {
    let mut buf = "before\n".to_string();
    push_binding(&mut buf, name, body);
    buf.strip_prefix("before\n").unwrap().to_string()
}

#[test]
fn a_body_of_one_line_is_bound_on_one_line() {
    assert_eq!(binding("__f0", "(f a)"), "(let __f0 (f a))\n");
}

#[test]
fn a_body_of_several_lines_is_bound_on_lines_of_its_own() {
    assert_eq!(
        binding("__f0", "(f\n  a\r\n  b)"),
        "(let __f0\n  (f\n    a\n    b))\n"
    );
    assert_eq!(binding("x", "a\n\nb"), "(let x\n  a\n  \n  b)\n");
}

#[test]
fn an_empty_body_is_left_out() {
    assert_eq!(binding("x", ""), "(let x)\n");
    assert_eq!(binding("x", " \n\t\r "), "(let x)\n");
}

#[test]
fn white_space_at_the_end_of_a_body_is_dropped() {
    let white = [
        '\u{9}', '\u{a}', '\u{b}', '\u{c}', '\u{d}', '\u{20}', '\u{85}', '\u{a0}', '\u{1680}',
        '\u{2000}', '\u{2001}', '\u{2002}', '\u{2003}', '\u{2004}', '\u{2005}', '\u{2006}',
        '\u{2007}', '\u{2008}', '\u{2009}', '\u{200a}', '\u{2028}', '\u{2029}', '\u{202f}',
        '\u{205f}', '\u{3000}',
    ];
    for c in white {
        assert_eq!(binding("x", &format!("a{c}{c}")), "(let x a)\n");
    }
    for c in ['\u{8}', '\u{e}', '\u{84}', '\u{180e}', '\u{200b}', '\u{2060}', '\u{feff}', ')'] {
        assert_eq!(binding("x", &format!("a{c}")), format!("(let x a{c})\n"));
    }
}

#[test]
fn white_space_elsewhere_in_a_body_stays() {
    assert_eq!(binding("x", "  a  b"), "(let x   a  b)\n");
}

#[test]
fn lines_are_those_of_the_standard_library() {
    for text in ["", "a", "a\n", "a\nb", "a\r\nb\r", "\n\n", "\r\n", "a\r\r\nb", "ä\n\u{2028}ö"] {
        assert_eq!(split_lines(text), text.lines().collect::<Vec<_>>());
    }
}

#[test]
fn line_breaks_are_found() {
    assert!(!has_line_break(""));
    assert!(!has_line_break("a\rb"));
    assert!(has_line_break("a\nb"));
    assert!(has_line_break("\n"));
}

#[test]
fn a_symbol_is_printed_as_it_is() {
    let rendered = RenderedTerm::from_symbol("__f0".to_string());
    assert_eq!(rendered.inline, "__f0");
    assert_eq!(rendered.pretty, "__f0");
    assert!(!rendered.is_multiline());
    assert!(RenderedTerm::from_symbol("a\nb".to_string()).is_multiline());
}

#[test]
fn a_constructor_is_laid_out_on_one_line_if_it_fits() {
    let parts = vec![
        RenderedTerm::from_symbol("a".to_string()),
        RenderedTerm::from_symbol("b".to_string()),
    ];
    let rendered = RenderedTerm::of_app("f", &parts, 6);
    assert_eq!(rendered.inline, "(f a b)");
    assert_eq!(rendered.pretty, "(f a b)");
}

#[test]
fn a_line_may_be_eighty_columns_wide() {
    let wide = |length: usize| vec![RenderedTerm::from_symbol("x".repeat(length))];
    // The constructor with its brackets takes four columns besides its part.
    let fits = RenderedTerm::of_app("f", &wide(70), 6);
    assert_eq!(fits.pretty, format!("(f {})", "x".repeat(70)));
    let exceeds = RenderedTerm::of_app("f", &wide(71), 6);
    assert_eq!(exceeds.inline, format!("(f {})", "x".repeat(71)));
    assert_eq!(exceeds.pretty, format!("(f\n        {})", "x".repeat(71)));
}

#[test]
fn width_is_counted_in_characters() {
    let parts = vec![RenderedTerm::from_symbol("ä".repeat(70))];
    assert!(!RenderedTerm::of_app("f", &parts, 6).is_multiline());
}

#[test]
fn a_constructor_with_a_part_of_several_lines_is_broken() {
    let parts = vec![
        RenderedTerm::from_symbol("a".to_string()),
        RenderedTerm { inline: "(g b)".to_string(), pretty: "(g\n    b)".to_string() },
    ];
    let rendered = RenderedTerm::of_app("f", &parts, 0);
    assert_eq!(rendered.inline, "(f a (g b))");
    assert_eq!(rendered.pretty, "(f\n  a\n  (g\n    b))");
}

#[test]
fn a_constructor_without_parts_is_never_broken() {
    let rendered = RenderedTerm::of_app("f", &vec![], 200);
    assert_eq!(rendered.pretty, "(f)");
}

#[test]
fn numbers_are_printed_as_the_standard_library_prints_them() {
    for n in [0, 7, 10, 19, 100, 12345, u64::MAX] {
        assert_eq!(decimal_text(n), n.to_string());
    }
    for n in [0, 5, -5, 10, -10, i64::MAX, i64::MIN] {
        assert_eq!(signed_decimal_text(n), n.to_string());
    }
}

#[test]
fn literals_are_printed_as_the_engine_prints_them() {
    let pairs = [
        (Literal::Int(-42), Engine::Int(-42)),
        (Literal::Int(i64::MIN), Engine::Int(i64::MIN)),
        (Literal::String("a \"b\"\n".to_string()), Engine::String("a \"b\"\n".to_string())),
        (Literal::Bool(true), Engine::Bool(true)),
        (Literal::Bool(false), Engine::Bool(false)),
        (Literal::Unit, Engine::Unit),
        (Literal::Float("2.5".to_string()), Engine::Float((2.5).into())),
    ];
    for (literal, engine) in pairs {
        assert_eq!(literal_text(&literal), engine.to_string());
    }
}

#[test]
fn fresh_names_are_those_of_the_engine() {
    let mut fresh = FreshNames::new("__".to_string());
    let mut engine = SymbolGen::new("__".to_string());
    for hint in ["Add", "t", "Mul", "Add", "a", "b", "c", "d", "e", "f", "g", "h"] {
        let expected: String = engine.fresh(hint);
        assert_eq!(fresh.fresh(hint), expected);
    }
}

#[test]
fn spaces_are_appended() {
    let mut buf = "a".to_string();
    push_spaces(&mut buf, 3);
    assert_eq!(buf, "a   ");
    push_spaces(&mut buf, 0);
    assert_eq!(buf, "a   ");
}

#[test]
fn the_number_of_variants_is_a_positive_integer() {
    assert!(counts_variants("i64"));
    assert!(!counts_variants("f64"));
    assert!(!counts_variants(""));
    assert_eq!(variant_count(1), Some(1));
    assert_eq!(variant_count(12), Some(12));
    assert_eq!(variant_count(0), None);
    assert_eq!(variant_count(-1), None);
}
