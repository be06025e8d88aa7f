use std::cmp::Ordering;

use tractus::ast::{RExp, RFormula, RStmt};
use tractus::display::short_function_name;
use tractus::graph::build_graph;
use tractus::hypotheses::{detect_hypotheses, Hypotheses, HypothesesMap};
use tractus::parser::parse;
use tractus::tree::{analyze, parse_hypothesis_tree, LineTree};

fn one(code: &str) -> RStmt {
    let mut stmts = parse(code).unwrap_or_else(|e| panic!("{:?}", e));
    assert_eq!(1, stmts.len());
    stmts.remove(0)
}

fn expression(code: &str) -> RExp {
    match one(code) {
        RStmt::Expression(e) => e,
        other => panic!("not an expression: {:?}", other),
    }
}

#[test]
fn simple_assignment() {
    assert_eq!(
        RStmt::Assignment(RExp::variable("a"), vec![], RExp::constant("1")),
        one("a <- 1")
    );
}

#[test]
fn chained_assignment() {
    assert_eq!(
        RStmt::Assignment(
            RExp::variable("a"),
            vec![RExp::variable("b"), RExp::variable("c")],
            RExp::constant("1")
        ),
        one("a=b=c=1")
    );
}

#[test]
fn assignment_to_colnames() {
    assert_eq!(
        RStmt::Assignment(
            RExp::Call(RExp::boxed_variable("colnames"), vec![(None, RExp::variable("x"))]),
            vec![],
            RExp::Call(
                RExp::boxed_variable("c"),
                vec![
                    (None, RExp::constant("\"R\"")),
                    (None, RExp::constant("\"is\"")),
                    (None, RExp::constant("\"crazy\"")),
                ]
            )
        ),
        one("colnames(x) <- c(\"R\",\"is\",\"crazy\")")
    );
}

#[test]
fn index_of_column_of_call() {
    assert_eq!(
        RExp::Index(
            Box::new(RExp::Column(
                Box::new(RExp::Call(RExp::boxed_variable("get_matrix"), vec![])),
                Box::new(RExp::variable("column"))
            )),
            vec![Some(RExp::constant("1"))]
        ),
        expression("get_matrix()$column[1]")
    );
}

#[test]
fn one_sided_formula_is_right_associative() {
    assert_eq!(
        RExp::Formula(RFormula::OneSided(Box::new(RExp::Infix(
            "+".to_string(),
            Box::new(RExp::variable("one")),
            Box::new(RExp::Infix(
                "+".to_string(),
                Box::new(RExp::variable("sided")),
                Box::new(RExp::variable("multiple"))
            ))
        )))),
        expression("~ one + sided + multiple")
    );
}

#[test]
fn for_with_statements_on_one_line() {
    assert_eq!(
        RStmt::For(
            RExp::variable("i"),
            RExp::variable("something"),
            tractus::ast::Lines::from(vec![
                RStmt::Expression(RExp::Call(
                    RExp::boxed_variable("do_something_with"),
                    vec![(None, RExp::variable("i"))]
                )),
                RStmt::Expression(RExp::Call(RExp::boxed_variable("do_something_else"), vec![])),
            ])
        ),
        one("for (i in something) { do_something_with(i); do_something_else() }")
    );
}

#[test]
fn unclosed_call_is_an_error() {
    let err = parse("a <- 1\nf(x, y").unwrap_err();
    assert_eq!(2, err.line);
    assert_eq!(13, err.position);
}

#[test]
fn stray_token_is_an_error() {
    let err = parse("a <- )").unwrap_err();
    assert_eq!(5, err.position);
    assert_eq!(1, err.line);
    assert_eq!(6, err.column);
}

#[test]
fn empty_source_has_no_statements() {
    assert_eq!(Vec::<RStmt>::new(), parse("").unwrap());
    assert_eq!(Vec::<RStmt>::new(), parse("   ").unwrap());
}

#[test]
fn prints_expressions() {
    let cases = [
        "f(1, x, name = value)",
        "a$b[1, , 3]",
        "l[[1]]",
        "~ x + y",
        "Speed ~ Layout",
        "-2",
        "1 <= 3",
        "name::space(x)",
    ];
    for case in cases.iter() {
        assert_eq!(case.to_string(), expression(case).to_string());
    }
}

#[test]
fn prints_function_definition() {
    let e = match one("f <- function (x, y = 2) { x + y }") {
        RStmt::Assignment(_, _, e) => e,
        other => panic!("{:?}", other),
    };
    assert_eq!("function (x, y = 2) {\nx + y\n}", e.to_string());
}

#[test]
fn prints_statements() {
    assert_eq!("a <- b <- 1", one("a = b = 1").to_string());
    assert_eq!("if (x) {\ny\n}\nelse {\nz\n}", one("if (x) y else z").to_string());
    assert_eq!("hello() # world", one("hello() # world").to_string());
}

#[test]
fn print_then_parse_gives_the_expression_back() {
    let cases = [
        "f(1, x, name = value)",
        "get_matrix()$column[1]",
        "lm(y[subk] ~ factor(x[subk]))",
        "~ one + sided + multiple",
        "-(1 + 2)",
        "item[empty, ]",
        "list[[1, 2]]",
        "higher_order()(10)",
        "'a' %custom% 'infix'",
        ".20",
        "2e-30",
        "+3.4e+1",
        "!TRUE",
        "negate(!x)",
        "name::space()",
        "two ~ sided + 1",
        "`third`",
        "function (with, default = 'arguments') {\na <- other()\na\n}",
        "(1 + (2 + 3))",
    ];
    for case in cases.iter() {
        let e = expression(case);
        assert_eq!(e, expression(&e.to_string()));
    }
}

#[test]
fn left_nested_operators_do_not_survive_printing() {
    // The printed form has no parentheses and operators group to the right.
    let e = expression("((1 + 2) + 3)");
    assert_eq!("1 + 2 + 3", e.to_string());
    assert_ne!(e, expression(&e.to_string()));
}

#[test]
fn detects_two_sided_formulae_only() {
    let e = expression("lm(y ~ x, ~ z, w ~ v + u, y ~ x)");
    let h = detect_hypotheses(&e);
    let v = h.as_vec();
    assert_eq!(2, v.len());
    assert!(v.contains(&"y ~ x".to_string()));
    assert!(v.contains(&"w ~ v + u".to_string()));
    assert!(!v.contains(&"~ z".to_string()));
}

#[test]
fn hypotheses_map_gives_dense_ids() {
    let mut map = HypothesesMap::new();
    let mut a = Hypotheses::new();
    a.insert("y ~ x".to_string());
    let mut a2 = Hypotheses::new();
    a2.insert("y ~ x".to_string());
    a2.insert("y ~ x".to_string());
    let b = Hypotheses::new();
    assert_eq!(0, map.insert(a));
    assert_eq!(1, map.insert(b));
    assert_eq!(0, map.insert(a2));
    assert_eq!(2, map.len());
    assert!(map.get(1).is_some());
    assert!(map.get(2).is_none());
    let m = map.into_map();
    assert_eq!(vec![0, 1], m.keys().cloned().collect::<Vec<usize>>());
    assert_eq!(1, m[&0].as_vec().len());
    assert_eq!(0, m[&1].as_vec().len());
}

#[test]
fn graph_links_latest_writer() {
    let stmts = parse("x <- 1\ny <- 2\nx <- y\nz <- f(x, y)\n# done\nplot(z)").unwrap();
    let g = build_graph(&stmts);
    assert_eq!(5, g.node_count());
    assert_eq!(vec![0, 1, 2, 3, 5], (0..5).map(|k| g.source(k)).collect::<Vec<usize>>());
    assert!(g.parents(0).is_empty());
    assert!(g.parents(1).is_empty());
    assert_eq!(vec![1], g.parents(2));
    let mut into_third = g.parents(3);
    into_third.sort();
    assert_eq!(vec![1, 2], into_third);
    assert_eq!(vec![3], g.parents(4));
}

#[test]
fn graph_edges_go_forward() {
    let stmts = parse("a <- 1\nb <- a\na <- b\nc <- a + b\nnames(c) <- a").unwrap();
    let g = build_graph(&stmts);
    for k in 0..g.node_count() {
        for p in g.parents(k) {
            assert!(p < k);
        }
    }
}

#[test]
fn keyboard_tree() {
    let code = "kbd <- \"data frame\"
kbd$ParticipantID <- factor(kbd$ParticipantID)
plot(Speed ~ Layout, data = kbd)
summary(kbd)";
    let tree = analyze(code).unwrap();
    let hyps = tree.hypotheses();
    assert_eq!(2, hyps.len());
    assert_eq!(0, hyps[&0].as_vec().len());
    assert_eq!(vec!["Speed ~ Layout".to_string()], *hyps[&1].as_vec());
    let root = tree.root();
    assert_eq!(1, root.len());
    assert_eq!(0, root[0].0);
    assert_eq!(1, root[0].1.len());
    let n1 = &root[0].1[0];
    assert_eq!(RExp::constant("\"data frame\""), n1.content);
    assert_eq!(1, n1.children.len());
    assert_eq!(0, n1.children[0].0);
    let n2 = &n1.children[0].1[0];
    assert_eq!("factor(kbd$ParticipantID)", n2.content.to_string());
    assert_eq!(2, n2.children.len());
    assert_eq!(0, n2.children[0].0);
    assert_eq!("summary(kbd)", n2.children[0].1[0].content.to_string());
    assert_eq!(1, n2.children[1].0);
    assert_eq!("plot(Speed ~ Layout, data = kbd)", n2.children[1].1[0].content.to_string());
    assert!(n2.children[0].1[0].children.is_empty());
    assert!(n2.children[1].1[0].children.is_empty());

    let lines = LineTree::from(&tree);
    let l2 = &lines.root()[0].1[0].children[0].1[0];
    assert_eq!("factor(kbd$ParticipantID)", l2.content);
    assert_eq!("plot(Speed ~ Layout, data = kbd)", l2.children[1].1[0].content);
    assert_eq!(2, lines.hypotheses().len());
}

#[test]
fn hypotheses_flow_down_but_not_across() {
    let code = "m <- lm(y ~ x)
s <- summary(m)
p <- plot(z)
q <- anova(m, w ~ v)";
    let stmts = parse(code).unwrap();
    let g = build_graph(&stmts);
    let tree = parse_hypothesis_tree(stmts, &g);
    let hyps = tree.hypotheses();
    // {y ~ x} first, then {} for `plot(z)`, then {y ~ x, w ~ v}.
    assert_eq!(3, hyps.len());
    assert_eq!(vec!["y ~ x".to_string()], *hyps[&0].as_vec());
    assert_eq!(0, hyps[&1].as_vec().len());
    assert_eq!(2, hyps[&2].as_vec().len());
    let root = tree.root();
    assert_eq!(2, root.len());
    assert_eq!(0, root[0].0);
    assert_eq!(1, root[1].0);
    let m = &root[0].1[0];
    assert_eq!(2, m.children.len());
    assert_eq!(0, m.children[0].0);
    assert_eq!("summary(m)", m.children[0].1[0].content.to_string());
    assert_eq!(2, m.children[1].0);
    assert_eq!("anova(m, w ~ v)", m.children[1].1[0].content.to_string());
}

#[test]
fn control_flow_is_not_in_the_tree() {
    let tree = analyze("for (i in x) { y <- lm(a ~ b) }\nz <- 1").unwrap();
    let root = tree.root();
    assert_eq!(1, root.len());
    assert_eq!(1, root[0].1.len());
    assert_eq!(RExp::constant("1"), root[0].1[0].content);
}

fn set_of(items: &[&str]) -> Hypotheses {
    let mut h = Hypotheses::new();
    for item in items {
        h.insert(item.to_string());
    }
    h
}

#[test]
fn hypotheses_are_held_in_ascending_order() {
    let h = set_of(&["y ~ x", "b ~ a", "y ~ x", "m ~ n"]);
    assert_eq!(
        vec!["b ~ a".to_string(), "m ~ n".to_string(), "y ~ x".to_string()],
        *h.as_vec()
    );
}

#[test]
fn hypotheses_order_by_size_then_members() {
    let empty = set_of(&[]);
    let one = set_of(&["y ~ x"]);
    let other = set_of(&["a ~ b"]);
    let two = set_of(&["a ~ b", "c ~ d"]);
    let two_b = set_of(&["a ~ b", "c ~ e"]);
    assert_eq!(Ordering::Less, empty.cmp(&one));
    assert_eq!(Ordering::Greater, two.cmp(&one));
    assert_eq!(Ordering::Greater, one.cmp(&other));
    assert_eq!(Ordering::Less, other.cmp(&one));
    assert_eq!(Ordering::Less, two.cmp(&two_b));
    assert_eq!(Ordering::Equal, two.cmp(&set_of(&["c ~ d", "a ~ b"])));
    assert_eq!(Some(Ordering::Less), one.partial_cmp(&two));
}

#[test]
fn same_id_for_equal_sets_in_a_run() {
    let code = "a <- lm(y ~ x)
b <- lm(y ~ x)
c <- summary(a)";
    let tree = analyze(code).unwrap();
    let hyps = tree.hypotheses();
    assert_eq!(1, hyps.len());
    let root = tree.root();
    assert_eq!(1, root.len());
    assert_eq!(2, root[0].1.len());
    assert_eq!("lm(y ~ x)", root[0].1[0].content.to_string());
    assert_eq!(0, root[0].1[0].children[0].0);
}

#[test]
fn unterminated_string_is_an_error() {
    let err = parse("x <- \"abc").unwrap_err();
    assert_eq!(5, err.position);
    assert_eq!("unterminated string", err.message);
}

#[test]
fn unclosed_block_is_an_error() {
    let err = parse("if (x) {\n  y\n").unwrap_err();
    assert_eq!(3, err.line);
}

#[test]
fn keyword_is_no_expression() {
    assert!(parse("x <- else").is_err());
    assert!(parse("for (i of x) y").is_err());
}

#[test]
fn two_statements_on_one_line_need_a_separator() {
    assert!(parse("a b").is_err());
    assert_eq!(2, parse("a; b").unwrap().len());
}

#[test]
fn column_names_may_be_quoted() {
    assert_eq!(
        RExp::Column(Box::new(RExp::variable("df")), Box::new(RExp::constant("`my col`"))),
        expression("df$`my col`")
    );
}

#[test]
fn library_with_a_string_is_a_call() {
    assert_eq!(
        RStmt::Expression(RExp::Call(
            RExp::boxed_variable("library"),
            vec![(None, RExp::constant("\"MASS\""))]
        )),
        one("library(\"MASS\")")
    );
}

#[test]
fn short_names_of_calls() {
    assert_eq!("plot", short_function_name(&expression("plot(a, b)")));
    assert_eq!("a + b", short_function_name(&expression("a + b")));
}

#[test]
fn formula_prints_alone() {
    match expression("y ~ x + z") {
        RExp::Formula(f) => assert_eq!("y ~ x + z", f.to_string()),
        other => panic!("{:?}", other),
    }
}

#[test]
fn lines_print_joined() {
    let stmts = parse("a <- 1\nb <- 2").unwrap();
    assert_eq!("a <- 1\nb <- 2", tractus::ast::Lines::from(stmts).to_string());
}

fn count_nodes(branches: &tractus::Branches<RExp>, seen: &mut Vec<String>) {
    for (_, nodes) in branches.iter() {
        for node in nodes.iter() {
            seen.push(node.content.to_string());
            count_nodes(&node.children, seen);
        }
    }
}

#[test]
fn every_expression_stands_once_in_the_tree() {
    let code = "a <- read(file)
b <- a$x
# a comment
if (b) { c <- 1 }
d <- lm(b ~ a)
e <- summary(d)
a <- clean(a)
f <- predict(d, a)
plot(f)";
    let stmts = parse(code).unwrap();
    let with_expression = stmts.iter().filter(|s| s.expression().is_some()).count();
    assert_eq!(7, with_expression);
    let tree = analyze(code).unwrap();
    let mut seen = Vec::new();
    count_nodes(tree.root(), &mut seen);
    assert_eq!(7, seen.len());
    let mut expected: Vec<String> = stmts
        .iter()
        .filter_map(|s| s.expression().map(|e| e.to_string()))
        .collect();
    expected.sort();
    seen.sort();
    assert_eq!(expected, seen);
}

#[test]
fn recurring_expression_keeps_its_first_id() {
    let code = "a <- x ~ y
b <- a
a <- 1
c <- a";
    let stmts = parse(code).unwrap();
    let g = build_graph(&stmts);
    assert_eq!(Some(1), g.id(&stmts, &RExp::variable("a")));
    assert_eq!(None, g.id(&stmts, &RExp::variable("zzz")));
    let tree = parse_hypothesis_tree(stmts, &g);
    let hyps = tree.hypotheses();
    assert_eq!(2, hyps.len());
    assert_eq!(vec!["x ~ y".to_string()], *hyps[&0].as_vec());
    assert_eq!(0, hyps[&1].as_vec().len());
    let root = tree.root();
    // `x ~ y` under id 0, `1` under id 1.
    assert_eq!(2, root.len());
    assert_eq!(0, root[0].0);
    assert_eq!("x ~ y", root[0].1[0].content.to_string());
    assert_eq!(0, root[0].1[0].children[0].0);
    assert_eq!("a", root[0].1[0].children[0].1[0].content.to_string());
    assert_eq!(1, root[1].0);
    let one = &root[1].1[0];
    assert_eq!("1", one.content.to_string());
    // The second `a` sits under `1`, yet keeps the id of the first `a`.
    assert_eq!(0, one.children[0].0);
    assert_eq!("a", one.children[0].1[0].content.to_string());
}

#[test]
fn recurring_expression_extends_its_set() {
    let code = "m <- lm(y ~ x)
s <- m
m <- lm(w ~ v)
t <- m";
    let tree = analyze(code).unwrap();
    let hyps = tree.hypotheses();
    assert_eq!(2, hyps.len());
    assert_eq!(vec!["w ~ v".to_string(), "y ~ x".to_string()], *hyps[&0].as_vec());
    assert_eq!(vec!["w ~ v".to_string()], *hyps[&1].as_vec());
    let root = tree.root();
    assert_eq!(2, root.len());
    let second = &root[1].1[0];
    assert_eq!("lm(w ~ v)", second.content.to_string());
    assert_eq!(0, second.children[0].0);
    assert_eq!("m", second.children[0].1[0].content.to_string());
}

#[test]
fn table_extends_a_set_in_place() {
    let mut map = HypothesesMap::new();
    let a = set_of(&["y ~ x"]);
    let b = set_of(&["w ~ v"]);
    assert_eq!(0, map.insert(a));
    map.extend_at(0, &b);
    assert_eq!(1, map.len());
    let m = map.into_map();
    assert_eq!(vec!["w ~ v".to_string(), "y ~ x".to_string()], *m[&0].as_vec());
}
