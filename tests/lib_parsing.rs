use tractus::ast::{RExp, RStmt};
use tractus::parser::parse;

fn test_parse(code: &'static str) -> Vec<RStmt> {
    parse(code).unwrap_or_else(|e| panic!("{:?}", e))
}

#[test]
fn lib_parses_comments() {
    let code = "\
#123
#hello

# another thing   ";
    let result = test_parse(code);
    let expected: Vec<RStmt> = vec![
        RStmt::Comment("#123".to_string()),
        RStmt::Comment("#hello".to_string()),
        RStmt::Empty,
        RStmt::Comment("# another thing   ".to_string()),
    ];
    assert_eq!(expected, result);
}

#[test]
fn lib_parses_assignments() {
    let code = "\
a <- 1
b = 2";
    let result = test_parse(code);
    let expected = vec![
        RStmt::Assignment(RExp::variable("a"), vec![], RExp::constant("1")),
        RStmt::Assignment(RExp::variable("b"), vec![], RExp::constant("2")),
    ];
    assert_eq!(expected, result);
}

#[test]
fn lib_parses_function_calls() {
    let code = "\
empty()
single(1)
with_args(1, x, name = value)";
    let result = test_parse(code);
    let expected = vec![
        RStmt::Expression(RExp::Call(RExp::boxed_variable("empty"), vec![])),
        RStmt::Expression(RExp::Call(
            RExp::boxed_variable("single"),
            vec![(None, RExp::constant("1"))],
        )),
        RStmt::Expression(RExp::Call(
            RExp::boxed_variable("with_args"),
            vec![
                (None, RExp::constant("1")),
                (None, RExp::variable("x")),
                (Some("name".to_string()), RExp::variable("value")),
            ],
        )),
    ];
    assert_eq!(expected, result);
}

#[test]
fn lib_parses_strings() {
    let code = "\
'first'
\"second\"";
    let result = test_parse(code);
    let expected = vec![
        RStmt::Expression(RExp::constant("'first'")),
        RStmt::Expression(RExp::constant("\"second\"")),
    ];
    assert_eq!(expected, result);
}

#[test]
fn lib_parses_library_calls() {
    let code = "\
library(plyr)
library(MASS)";
    let result = test_parse(code);
    let expected = vec![RStmt::Library("plyr".into()), RStmt::Library("MASS".into())];
    assert_eq!(expected, result);
}

#[test]
fn lib_parses_indexing() {
    let code = "\
item$column
item[other$thing]
other[multiple, index, arguments]
get_matrix()$column[1]";
    let result = test_parse(code);
    let expected = vec![
        RStmt::Expression(RExp::Column(
            Box::new(RExp::variable("item")),
            Box::new(RExp::variable("column")),
        )),
        RStmt::Expression(RExp::Index(
            Box::new(RExp::variable("item")),
            vec![Some(RExp::Column(
                Box::new(RExp::variable("other")),
                Box::new(RExp::variable("thing")),
            ))],
        )),
        RStmt::Expression(RExp::Index(
            Box::new(RExp::variable("other")),
            vec![
                Some(RExp::variable("multiple")),
                Some(RExp::variable("index")),
                Some(RExp::variable("arguments")),
            ],
        )),
        RStmt::Expression(RExp::Index(
            Box::new(RExp::Column(
                Box::new(RExp::Call(RExp::boxed_variable("get_matrix"), vec![])),
                Box::new(RExp::variable("column")),
            )),
            vec![Some(RExp::constant("1"))],
        )),
    ];
    assert_eq!(expected, result);
}
