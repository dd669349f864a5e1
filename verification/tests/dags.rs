use std::collections::{HashMap, HashSet};

use egglog::ast::Literal;
use egglog::TermDag;

use egglog_experimental::multi_extract::output::{check_printable, flatten, MultiExtractOutput};
use egglog_experimental::multi_extract::render::{render_term, RenderContext};
use egglog_experimental::multi_extract::stats::{
    collect_multi_term_stats, collect_ref_counts, compute_term_size,
};

fn app(dag: &mut TermDag, name: &str, children: &[usize]) -> usize {
    dag.app(name.to_string(), children.to_vec())
}

fn num(dag: &mut TermDag, n: i64) -> usize {
    let lit = dag.lit(Literal::Int(n));
    app(dag, "Num", &[lit])
}

fn printed(dag: TermDag, terms: Vec<Vec<usize>>) -> String {
    MultiExtractOutput::new(dag, terms).unwrap().to_string()
}

#[test]
fn nothing_extracted() {
    assert_eq!(printed(TermDag::default(), vec![]), "(\n)\n");
    assert_eq!(printed(TermDag::default(), vec![vec![], vec![]]), "(\n   (\n   )\n   (\n   )\n)\n");
}

#[test]
fn literals_and_variables() {
    let mut dag = TermDag::default();
    let terms = vec![
        dag.lit(Literal::Int(-3)),
        dag.lit(Literal::String("a b".to_string())),
        dag.lit(Literal::Bool(true)),
        dag.lit(Literal::Unit),
        dag.lit(Literal::Float((2.0).into())),
        dag.lit(Literal::Float((0.5).into())),
        dag.var("x".to_string()),
    ];
    assert_eq!(
        printed(dag, vec![terms]),
        "(\n   (\n      -3\n      \"a b\"\n      true\n      ()\n      2.0\n      0.5\n      x\n   )\n)\n"
    );
}

#[test]
fn terms_that_share_nothing_have_no_names() {
    let mut dag = TermDag::default();
    let one = num(&mut dag, 1);
    let two = num(&mut dag, 2);
    let add = app(&mut dag, "Add", &[one, two]);
    let nil = app(&mut dag, "Nil", &[]);
    assert_eq!(
        printed(dag, vec![vec![add], vec![nil]]),
        "(\n   (\n      (Add (Num 1) (Num 2))\n   )\n   (\n      (Nil)\n   )\n)\n"
    );
}

#[test]
fn a_shared_part_gets_a_name() {
    let mut dag = TermDag::default();
    let one = num(&mut dag, 1);
    let two = num(&mut dag, 2);
    let add = app(&mut dag, "Add", &[one, two]);
    let mul = app(&mut dag, "Mul", &[add, add]);
    assert_eq!(
        printed(dag, vec![vec![mul]]),
        "(let __Add0 (Add (Num 1) (Num 2)))\n(\n   (\n      (Mul __Add0 __Add0)\n   )\n)\n"
    );
}

#[test]
fn small_shared_parts_have_no_names() {
    let mut dag = TermDag::default();
    let one = num(&mut dag, 1);
    let pair = app(&mut dag, "Neg", &[one]);
    // Three nodes: not enough for a name.
    let mul = app(&mut dag, "Mul", &[pair, pair]);
    assert_eq!(
        printed(dag, vec![vec![mul]]),
        "(\n   (\n      (Mul (Neg (Num 1)) (Neg (Num 1)))\n   )\n)\n"
    );
}

#[test]
fn terms_that_are_extracted_twice_are_shared() {
    let mut dag = TermDag::default();
    let one = num(&mut dag, 1);
    let two = num(&mut dag, 2);
    let add = app(&mut dag, "Add", &[one, two]);
    assert_eq!(
        printed(dag, vec![vec![add], vec![add]]),
        "(let __Add0 (Add (Num 1) (Num 2)))\n(\n   (\n      __Add0\n   )\n   (\n      __Add0\n   )\n)\n"
    );
}

#[test]
fn names_are_defined_before_they_are_used() {
    let mut dag = TermDag::default();
    let one = num(&mut dag, 1);
    let two = num(&mut dag, 2);
    let add = app(&mut dag, "Add", &[one, two]);
    let mul = app(&mut dag, "Mul", &[add, add]);
    let sub = app(&mut dag, "Sub", &[mul, mul]);
    assert_eq!(
        printed(dag, vec![vec![sub, mul]]),
        "(let __Add0 (Add (Num 1) (Num 2)))\n\
         (let __Mul1 (Mul __Add0 __Add0))\n\
         (\n   (\n      (Sub __Mul1 __Mul1)\n      __Mul1\n   )\n)\n"
    );
}

#[test]
fn a_wide_term_is_broken_over_lines() {
    let mut dag = TermDag::default();
    let long = dag.var("x".repeat(40));
    let other = dag.var("y".repeat(40));
    let add = app(&mut dag, "Add", &[long, other]);
    let neg = app(&mut dag, "Neg", &[add]);
    assert_eq!(
        printed(dag, vec![vec![neg]]),
        format!(
            "(\n   (\n      (Neg\n        (Add\n          {}\n          {}))\n   )\n)\n",
            "x".repeat(40),
            "y".repeat(40)
        )
    );
}

#[test]
fn a_wide_definition_is_broken_over_lines() {
    let mut dag = TermDag::default();
    let long = dag.var("x".repeat(40));
    let other = dag.var("y".repeat(40));
    let unit = dag.lit(Literal::Unit);
    let add = app(&mut dag, "Add", &[long, other, unit]);
    assert_eq!(
        printed(dag, vec![vec![add, add]]),
        format!(
            "(let __Add0\n  (Add\n          {}\n          {}\n          ()))\n\
             (\n   (\n      __Add0\n      __Add0\n   )\n)\n",
            "x".repeat(40),
            "y".repeat(40)
        )
    );
}

#[test]
fn names_can_collide_where_constructors_end_in_digits() {
    let mut dag = TermDag::default();
    let mut shared = vec![];
    for i in 0..13 {
        let name = if i == 2 {
            "F1".to_string()
        } else if i == 12 {
            "F".to_string()
        } else {
            format!("G{}_", (b'a' + i as u8) as char)
        };
        let a = num(&mut dag, 2 * i);
        let b = num(&mut dag, 2 * i + 1);
        shared.push(app(&mut dag, &name, &[a, b]));
    }
    let text = printed(dag, vec![shared.clone(), shared]);
    assert_eq!(text.matches("(let __F12 ").count(), 2);
}

#[test]
fn terms_that_are_not_there_cannot_be_printed() {
    assert!(MultiExtractOutput::new(TermDag::default(), vec![vec![0]]).is_none());
    let mut dag = TermDag::default();
    app(&mut dag, "F", &[7]);
    assert!(MultiExtractOutput::new(dag, vec![vec![0]]).is_none());
    let mut dag = TermDag::default();
    app(&mut dag, "F", &[0]);
    assert!(MultiExtractOutput::new(dag, vec![vec![0]]).is_none());
}

#[test]
fn terms_whose_size_does_not_fit_in_a_word_cannot_be_printed() {
    let mut dag = TermDag::default();
    let mut last = app(&mut dag, "Leaf", &[]);
    for _ in 0..usize::BITS - 1 {
        last = app(&mut dag, "Pair", &[last, last]);
    }
    // Its size is the greatest word.
    assert!(check_printable(&dag, &[last]));
    let larger = app(&mut dag, "Pair", &[last, last]);
    assert!(!check_printable(&dag, &[larger]));
    // Other terms can still be printed.
    assert!(check_printable(&dag, &[last]));
}

#[test]
fn uses_and_sizes_are_counted() {
    let mut dag = TermDag::default();
    let lit = dag.lit(Literal::Int(1));
    let one = app(&mut dag, "Num", &[lit]);
    let add = app(&mut dag, "Add", &[one, one]);
    let mul = app(&mut dag, "Mul", &[add, one]);
    let (counts, sizes) = collect_multi_term_stats(&dag, &[mul, add]);
    assert_eq!(counts, HashMap::from([(lit, 1), (one, 3), (add, 2), (mul, 1)]));
    assert_eq!(sizes, HashMap::from([(lit, 1), (one, 2), (add, 5), (mul, 8)]));
}

#[test]
fn parts_are_visited_once() {
    let mut dag = TermDag::default();
    let lit = dag.lit(Literal::Int(1));
    let one = app(&mut dag, "Num", &[lit]);
    let mut counts = HashMap::new();
    let mut visited = HashSet::new();
    collect_ref_counts(&dag, one, &mut counts, &mut visited);
    collect_ref_counts(&dag, one, &mut counts, &mut visited);
    assert_eq!(counts, HashMap::from([(one, 2), (lit, 1)]));
    assert_eq!(visited, HashSet::from([one, lit]));
}

#[test]
fn sizes_that_are_known_are_not_counted_again() {
    let mut dag = TermDag::default();
    let lit = dag.lit(Literal::Int(1));
    let pair = app(&mut dag, "Pair", &[lit, lit]);
    let mut sizes = HashMap::new();
    assert_eq!(compute_term_size(&dag, pair, &mut sizes), 3);
    assert_eq!(sizes, HashMap::from([(lit, 1), (pair, 3)]));
    assert_eq!(compute_term_size(&dag, pair, &mut sizes), 3);
}

#[test]
fn a_term_can_be_printed_without_a_name_of_its_own() {
    let mut dag = TermDag::default();
    let one = num(&mut dag, 1);
    let two = num(&mut dag, 2);
    let add = app(&mut dag, "Add", &[one, two]);
    let mul = app(&mut dag, "Mul", &[add, add]);
    let (counts, sizes) = collect_multi_term_stats(&dag, &[mul, mul]);
    let mut ctx = RenderContext::new(counts, sizes);
    let spelled = render_term(&dag, mul, &mut ctx, false, 6);
    assert_eq!(spelled.inline, "(Mul __Add0 __Add0)");
    let named = render_term(&dag, mul, &mut ctx, true, 6);
    assert_eq!(named.inline, "__Mul1");
    assert_eq!(
        ctx.into_definitions(),
        "(let __Add0 (Add (Num 1) (Num 2)))\n(let __Mul1 (Mul __Add0 __Add0))\n"
    );
}

#[test]
fn groups_are_joined_in_order() {
    assert_eq!(flatten(&vec![vec![1, 2], vec![], vec![3]]), [1, 2, 3]);
}

#[test]
fn a_layout_reads_like_the_single_line_but_for_blanks() {
    let solid = |text: &str| text.replace([' ', '\n'], "");
    let mut dag = TermDag::default();
    let long = dag.var("x".repeat(50));
    let one = num(&mut dag, 1);
    let add = app(&mut dag, "Add", &[long, one, long]);
    let neg = app(&mut dag, "Neg", &[add, one]);
    let (counts, sizes) = collect_multi_term_stats(&dag, &[neg]);
    let mut ctx = RenderContext::new(counts, sizes);
    let rendered = render_term(&dag, neg, &mut ctx, true, 6);
    assert!(rendered.is_multiline());
    assert_eq!(solid(&rendered.pretty), solid(&rendered.inline));
    let small = render_term(&dag, one, &mut ctx, true, 6);
    assert!(!small.is_multiline());
    assert_eq!(small.pretty, small.inline);
}

#[test]
fn names_differ_where_constructors_do_not_end_in_digits() {
    let mut dag = TermDag::default();
    let mut shared = vec![];
    for i in 0..12 {
        let a = num(&mut dag, 2 * i);
        let b = num(&mut dag, 2 * i + 1);
        shared.push(app(&mut dag, "Add", &[a, b]));
    }
    let text = printed(dag, vec![shared.clone(), shared]);
    let defined: HashSet<&str> = text
        .lines()
        .filter_map(|line| line.strip_prefix("(let "))
        .map(|rest| rest.split(' ').next().unwrap())
        .collect();
    assert_eq!(defined.len(), 12);
    assert!(defined.contains("__Add0") && defined.contains("__Add11"));
}

#[test]
fn sizes_can_be_known_without_those_of_the_parts() {
    let mut dag = TermDag::default();
    let lit = dag.lit(Literal::Int(1));
    let pair = app(&mut dag, "Pair", &[lit, lit]);
    let other = dag.lit(Literal::Int(2));
    let top = app(&mut dag, "Top", &[pair, other]);
    let mut sizes = HashMap::from([(pair, 3)]);
    assert_eq!(compute_term_size(&dag, pair, &mut sizes), 3);
    assert_eq!(sizes, HashMap::from([(pair, 3)]));
    assert_eq!(compute_term_size(&dag, top, &mut sizes), 5);
    assert_eq!(sizes, HashMap::from([(pair, 3), (other, 1), (top, 5)]));
}

#[test]
fn a_line_break_and_its_spaces_stand_for_one_space() {
    let mut dag = TermDag::default();
    let long = dag.var("x".repeat(60));
    let short = dag.var("y".to_string());
    let inner = app(&mut dag, "Inner", &[long, short]);
    let add = app(&mut dag, "Add", &[short, inner]);
    let (counts, sizes) = collect_multi_term_stats(&dag, &[add]);
    let mut ctx = RenderContext::new(counts, sizes);
    let rendered = render_term(&dag, add, &mut ctx, true, 6);
    // The outer term exceeds the line, the inner one does not.
    assert_eq!(rendered.pretty.lines().count(), 3);
    let unbroken: Vec<&str> = rendered.pretty.lines().map(|line| line.trim_start()).collect();
    assert_eq!(unbroken.join(" "), rendered.inline);
}

#[test]
fn names_can_be_put_back() {
    let mut dag = TermDag::default();
    let one = num(&mut dag, 1);
    let two = num(&mut dag, 2);
    let add = app(&mut dag, "Add", &[one, two]);
    let mul = app(&mut dag, "Mul", &[add, add]);
    let sub = app(&mut dag, "Sub", &[mul, mul]);
    let text = printed(dag, vec![vec![sub]]);
    let (definitions, term) = text.split_once("(\n   (\n").unwrap();
    let mut term = term.strip_suffix("\n   )\n)\n").unwrap().trim().to_string();
    for line in definitions.lines().rev() {
        let definition = line.strip_prefix("(let ").unwrap().strip_suffix(')').unwrap();
        let (name, body) = definition.split_once(' ').unwrap();
        assert!(term.matches(name).count() >= 2);
        term = term.replace(name, body);
    }
    let add = "(Add (Num 1) (Num 2))";
    assert_eq!(term, format!("(Sub (Mul {add} {add}) (Mul {add} {add}))"));
}
