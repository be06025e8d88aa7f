use tractus::ast::{Lines, RExp, RFormula, RStmt};
use tractus::parser::parse;

fn test_parse(code: &'static str) -> Vec<RStmt> {
    parse(code).unwrap_or_else(|e| panic!("{:?}", e))
}

    #[test]
    fn parser_parses_comments() {
        let code = "\
#123
hello() # world
# another thing   ";
        let result = test_parse(code);
        let expected = vec![
            RStmt::Comment("#123".into()),
            RStmt::TailComment(
                Box::new(RStmt::Expression(RExp::Call(
                    RExp::boxed_variable("hello"),
                    vec![],
                ))),
                "# world".into(),
            ),
            RStmt::Comment("# another thing   ".into()),
        ];
        assert_eq!(expected, result);
    }

    #[test]
    fn parses_empty_lines() {
        let code = "
# First block
a <- 1

# Second block
b <- 1
c <- 2


# Third block
d <- 1


";
        let result = test_parse(code);
        let expected = vec![
            RStmt::Empty,
            RStmt::Comment("# First block".into()),
            RStmt::Assignment(RExp::variable("a"), vec![], RExp::constant("1")),
            RStmt::Empty,
            RStmt::Comment("# Second block".into()),
            RStmt::Assignment(RExp::variable("b"), vec![], RExp::constant("1")),
            RStmt::Assignment(RExp::variable("c"), vec![], RExp::constant("2")),
            RStmt::Empty,
            RStmt::Empty,
            RStmt::Comment("# Third block".into()),
            RStmt::Assignment(RExp::variable("d"), vec![], RExp::constant("1")),
            RStmt::Empty,
            RStmt::Empty,
        ];
        assert_eq!(expected, result);
    }

    #[test]
    fn parser_parses_assignments() {
        let code = "\
a <- 1
b = 2
a=b=c=1
colnames(something) <- c(\"R\", \"is\", \"crazy\")";
        let result = test_parse(code);
        let expected = vec![
            RStmt::Assignment(RExp::variable("a"), vec![], RExp::constant("1")),
            RStmt::Assignment(RExp::variable("b"), vec![], RExp::constant("2")),
            RStmt::Assignment(
                RExp::variable("a"),
                vec![RExp::variable("b"), RExp::variable("c")],
                RExp::constant("1"),
            ),
            RStmt::Assignment(
                RExp::Call(
                    RExp::boxed_variable("colnames"),
                    vec![(None, RExp::variable("something"))],
                ),
                vec![],
                RExp::Call(
                    RExp::boxed_variable("c"),
                    vec![
                        (None, RExp::constant("\"R\"")),
                        (None, RExp::constant("\"is\"")),
                        (None, RExp::constant("\"crazy\"")),
                    ],
                ),
            ),
        ];
        assert_eq!(expected, result);
    }

    #[test]
    fn parser_parses_function_calls() {
        let code = "\
empty()
single(1)
with_args(1, x, name = value)
break_down(
    \"long\",
    argument=\"chains\"
    )
name::space()
higher_order()(10)";
        let result = test_parse(code);
        let expected = vec![
            RStmt::Expression(RExp::Call(RExp::boxed_variable("empty"), vec![])),
            RStmt::Expression(RExp::Call(
                RExp::boxed_variable("single"),
                vec![(None, RExp::constant("1"))],
            )),
            RStmt::Expression(RExp::Call(
                RExp::boxed_variable("with_args"),
                vec![
                    (None, RExp::constant("1")),
                    (None, RExp::variable("x")),
                    (Some("name".to_string()), RExp::variable("value")),
                ],
            )),
            RStmt::Expression(RExp::Call(
                RExp::boxed_variable("break_down"),
                vec![
                    (None, RExp::constant("\"long\"")),
                    (Some("argument".to_string()), RExp::constant("\"chains\"")),
                ],
            )),
            RStmt::Expression(RExp::Call(RExp::boxed_variable("name::space"), vec![])),
            RStmt::Expression(RExp::Call(
                Box::new(RExp::Call(RExp::boxed_variable("higher_order"), vec![])),
                vec![(None, RExp::constant("10"))],
            )),
        ];
        assert_eq!(expected, result);
    }

    #[test]
    fn parser_parses_strings() {
        let code = "\
'first'
\"second\"
`third`";
        let result = test_parse(code);
        let expected = vec![
            RStmt::Expression(RExp::constant("'first'")),
            RStmt::Expression(RExp::constant("\"second\"")),
            RStmt::Expression(RExp::constant("`third`")),
        ];
        assert_eq!(expected, result);
    }

    #[test]
    fn parses_numbers() {
        let code = "\
1
.20
0.10
-2
2e-30
+3.4e+1";
        let result = test_parse(code);
        let expected = vec![
            RStmt::Expression(RExp::constant("1")),
            RStmt::Expression(RExp::constant(".20")),
            RStmt::Expression(RExp::constant("0.10")),
            RStmt::Expression(RExp::Prefix("-".into(), Box::new(RExp::constant("2")))),
            RStmt::Expression(RExp::constant("2e-30")),
            RStmt::Expression(RExp::Prefix("+".into(), Box::new(RExp::constant("3.4e+1")))),
        ];
        assert_eq!(expected, result);
    }

    #[test]
    fn parser_parses_library_calls() {
        let code = "\
library(plyr)
library(MASS)";
        let result = test_parse(code);
        let expected = vec![RStmt::Library("plyr".into()), RStmt::Library("MASS".into())];
        assert_eq!(expected, result);
    }

    #[test]
    fn parser_parses_indexing() {
        let code = "\
item$column
item[other$thing]
item[[1]]
other[multiple, index, arguments]
list[[1,2]]
get_matrix()$column[1]
item[empty,]";
        let result = test_parse(code);
        let expected = vec![
            RStmt::Expression(RExp::Column(
                Box::new(RExp::variable("item")),
                Box::new(RExp::variable("column")),
            )),
            RStmt::Expression(RExp::Index(
                Box::new(RExp::variable("item")),
                vec![Some(RExp::Column(
                    Box::new(RExp::variable("other")),
                    Box::new(RExp::variable("thing")),
                ))],
            )),
            RStmt::Expression(RExp::ListIndex(
                Box::new(RExp::variable("item")),
                vec![Some(RExp::constant("1"))],
            )),
            RStmt::Expression(RExp::Index(
                Box::new(RExp::variable("other")),
                vec![
                    Some(RExp::variable("multiple")),
                    Some(RExp::variable("index")),
                    Some(RExp::variable("arguments")),
                ],
            )),
            RStmt::Expression(RExp::ListIndex(
                Box::new(RExp::variable("list")),
                vec![Some(RExp::constant("1")), Some(RExp::constant("2"))],
            )),
            RStmt::Expression(RExp::Index(
                Box::new(RExp::Column(
                    Box::new(RExp::Call(RExp::boxed_variable("get_matrix"), vec![])),
                    Box::new(RExp::variable("column")),
                )),
                vec![Some(RExp::constant("1"))],
            )),
            RStmt::Expression(RExp::Index(
                Box::new(RExp::variable("item")),
                vec![Some(RExp::variable("empty")), None],
            )),
        ];
        assert_eq!(expected, result);
    }

    #[test]
    fn parses_formulae() {
        let code = "\
~ one_sided
two ~ sided
~ one + sided + multiple
two ~ sided + 1
~ transform(x)
other ~ transform(x)
lm(y[subk]~factor(x[subk]))";
        let result = test_parse(code);
        let expected = vec![
            RStmt::Expression(RExp::Formula(RFormula::OneSided(Box::new(RExp::Variable(
                "one_sided".into(),
            ))))),
            RStmt::Expression(RExp::Formula(RFormula::TwoSided(
                Box::new(RExp::variable("two")),
                Box::new(RExp::Variable("sided".into())),
            ))),
            RStmt::Expression(RExp::Formula(RFormula::OneSided(Box::new(RExp::Infix(
                "+".into(),
                Box::new(RExp::variable("one")),
                Box::new(RExp::Infix(
                    "+".into(),
                    Box::new(RExp::variable("sided")),
                    Box::new(RExp::variable("multiple")),
                )),
            ))))),
            RStmt::Expression(RExp::Formula(RFormula::TwoSided(
                Box::new(RExp::variable("two")),
                Box::new(RExp::Infix(
                    "+".into(),
                    Box::new(RExp::variable("sided")),
                    Box::new(RExp::constant("1")),
                )),
            ))),
            RStmt::Expression(RExp::Formula(RFormula::OneSided(Box::new(RExp::Call(
                RExp::boxed_variable("transform"),
                vec![(None, RExp::Variable("x".into()))],
            ))))),
            RStmt::Expression(RExp::Formula(RFormula::TwoSided(
                Box::new(RExp::variable("other")),
                Box::new(RExp::Call(
                    RExp::boxed_variable("transform"),
                    vec![(None, RExp::Variable("x".into()))],
                )),
            ))),
            RStmt::Expression(RExp::Call(
                RExp::boxed_variable("lm"),
                vec![(
                    None,
                    RExp::Formula(RFormula::TwoSided(
                        Box::new(RExp::Index(
                            Box::new(RExp::variable("y")),
                            vec![Some(RExp::variable("subk"))],
                        )),
                        Box::new(RExp::Call(
                            RExp::boxed_variable("factor"),
                            vec![(
                                None,
                                RExp::Index(
                                    Box::new(RExp::variable("x")),
                                    vec![Some(RExp::variable("subk"))],
                                ),
                            )],
                        )),
                    )),
                )],
            )),
        ];
        assert_eq!(expected, result);
    }

    #[test]
    fn parses_function_definition() {
        let code = "\
func1 <- function () {
    1
}
func2 <- function (with, arguments)
    { 2 }
func3 <- function (with, default = 'arguments') {
    a <- other()
    a
} ";
        let result = test_parse(code);
        let expected = vec![
            RStmt::Assignment(
                RExp::variable("func1"),
                vec![],
                RExp::Function(
                    vec![],
                    Lines::from(vec![RStmt::Expression(RExp::constant("1"))]),
                ),
            ),
            RStmt::Assignment(
                RExp::variable("func2"),
                vec![],
                RExp::Function(
                    vec![("with".into(), None), ("arguments".into(), None)],
                    Lines::from(vec![RStmt::Expression(RExp::constant("2"))]),
                ),
            ),
            RStmt::Assignment(
                RExp::variable("func3"),
                vec![],
                RExp::Function(
                    vec![
                        ("with".into(), None),
                        ("default".into(), Some(RExp::constant("'arguments'"))),
                    ],
                    Lines::from(vec![
                        RStmt::Assignment(
                            RExp::variable("a"),
                            vec![],
                            RExp::Call(RExp::boxed_variable("other"), vec![]),
                        ),
                        RStmt::Expression(RExp::variable("a")),
                    ]),
                ),
            ),
        ];
        assert_eq!(expected, result);
    }

    #[test]
    fn parses_prefix_operators() {
        let code = "\
x <- !TRUE
y <- negate(!x)
-(1 + 2)";
        let result = test_parse(code);
        let expected = vec![
            RStmt::Assignment(
                RExp::variable("x"),
                vec![],
                RExp::Prefix("!".into(), Box::new(RExp::constant("TRUE"))),
            ),
            RStmt::Assignment(
                RExp::variable("y"),
                vec![],
                RExp::Call(
                    RExp::boxed_variable("negate"),
                    vec![(
                        None,
                        RExp::Prefix("!".into(), Box::new(RExp::variable("x"))),
                    )],
                ),
            ),
            RStmt::Expression(RExp::Prefix(
                "-".into(),
                Box::new(RExp::Infix(
                    "+".into(),
                    Box::new(RExp::constant("1")),
                    Box::new(RExp::constant("2")),
                )),
            )),
        ];
        assert_eq!(expected, result);
    }

    #[test]
    fn parses_infix_operators() {
        let code = "\
1 <= 3
TRUE && FALSE
'a' %custom% 'infix'
1 +
    3";
        let result = test_parse(code);
        let expected = vec![
            RStmt::Expression(RExp::Infix(
                "<=".into(),
                Box::new(RExp::constant("1")),
                Box::new(RExp::constant("3")),
            )),
            RStmt::Expression(RExp::Infix(
                "&&".into(),
                Box::new(RExp::constant("TRUE")),
                Box::new(RExp::constant("FALSE")),
            )),
            RStmt::Expression(RExp::Infix(
                "%custom%".into(),
                Box::new(RExp::constant("'a'")),
                Box::new(RExp::constant("'infix'")),
            )),
            RStmt::Expression(RExp::Infix(
                "+".into(),
                Box::new(RExp::constant("1")),
                Box::new(RExp::constant("3")),
            )),
        ];
        assert_eq!(expected, result);
    }

    #[test]
    fn parses_expression_in_parens() {
        let code = "\
1
(2)
(1 + (2 + 3))
((1 + 2) + 3)";
        let result = test_parse(code);
        let expected = vec![
            RStmt::Expression(RExp::constant("1")),
            RStmt::Expression(RExp::constant("2")),
            RStmt::Expression(RExp::Infix(
                "+".into(),
                Box::new(RExp::constant("1")),
                Box::new(RExp::Infix(
                    "+".into(),
                    Box::new(RExp::constant("2")),
                    Box::new(RExp::constant("3")),
                )),
            )),
            RStmt::Expression(RExp::Infix(
                "+".into(),
                Box::new(RExp::Infix(
                    "+".into(),
                    Box::new(RExp::constant("1")),
                    Box::new(RExp::constant("2")),
                )),
                Box::new(RExp::constant("3")),
            )),
        ];
        assert_eq!(expected, result);
    }

    #[test]
    fn parses_if() {
        let code = "\
if (0 == 1) {
    do_something()

    do_something_else()
}
if (is_ok())
    do_something_again()

if (TRUE)
{
    is_true()
}
else {
    is_false()
}
if (FALSE)
    is_false()
else
    is_true()";
        let result = test_parse(code);
        let expected = vec![
            RStmt::If(
                RExp::Infix(
                    "==".into(),
                    Box::new(RExp::constant("0")),
                    Box::new(RExp::constant("1")),
                ),
                Lines::from(vec![
                    RStmt::Expression(RExp::Call(RExp::boxed_variable("do_something"), vec![])),
                    RStmt::Empty,
                    RStmt::Expression(RExp::Call(
                        RExp::boxed_variable("do_something_else"),
                        vec![],
                    )),
                ]),
                None,
            ),
            RStmt::If(
                RExp::Call(RExp::boxed_variable("is_ok"), vec![]),
                Lines::from(vec![RStmt::Expression(RExp::Call(
                    RExp::boxed_variable("do_something_again"),
                    vec![],
                ))]),
                None,
            ),
            RStmt::Empty,
            RStmt::If(
                RExp::constant("TRUE"),
                Lines::from(vec![RStmt::Expression(RExp::Call(
                    RExp::boxed_variable("is_true"),
                    vec![],
                ))]),
                Some(Lines::from(vec![RStmt::Expression(RExp::Call(
                    RExp::boxed_variable("is_false"),
                    vec![],
                ))])),
            ),
            RStmt::If(
                RExp::constant("FALSE"),
                Lines::from(vec![RStmt::Expression(RExp::Call(
                    RExp::boxed_variable("is_false"),
                    vec![],
                ))]),
                Some(Lines::from(vec![RStmt::Expression(RExp::Call(
                    RExp::boxed_variable("is_true"),
                    vec![],
                ))])),
            ),
        ];
        assert_eq!(expected, result);
    }

    #[test]
    fn parses_for() {
        let code = "\
for (i in something) {
    do_something_with(i)

    do_something_else()
}
for (i in get())
    do_something_again(i)
for(row in 1:15) l[[row]] = row
";
        let result = test_parse(code);
        let expected = vec![
            RStmt::For(
                RExp::variable("i"),
                RExp::variable("something"),
                Lines::from(vec![
                    RStmt::Expression(RExp::Call(
                        RExp::boxed_variable("do_something_with"),
                        vec![(None, RExp::variable("i"))],
                    )),
                    RStmt::Empty,
                    RStmt::Expression(RExp::Call(
                        RExp::boxed_variable("do_something_else"),
                        vec![],
                    )),
                ]),
            ),
            RStmt::For(
                RExp::variable("i"),
                RExp::Call(RExp::boxed_variable("get"), vec![]),
                Lines::from(vec![RStmt::Expression(RExp::Call(
                    RExp::boxed_variable("do_something_again"),
                    vec![(None, RExp::variable("i"))],
                ))]),
            ),
            RStmt::For(
                RExp::variable("row"),
                RExp::Infix(
                    ":".into(),
                    Box::new(RExp::constant("1")),
                    Box::new(RExp::constant("15")),
                ),
                Lines::from(vec![RStmt::Assignment(
                    RExp::ListIndex(
                        Box::new(RExp::variable("l")),
                        vec![Some(RExp::variable("row"))],
                    ),
                    vec![],
                    RExp::variable("row"),
                )]),
            ),
        ];
        assert_eq!(expected, result);
    }

    #[test]
    fn parses_while() {
        let code = "\
while (i < 10) {
    do_stuff()
    i <- i + 1
}
while (true)
    annoy()
";
        let result = test_parse(code);
        let expected = vec![
            RStmt::While(
                RExp::Infix(
                    "<".into(),
                    Box::new(RExp::variable("i")),
                    Box::new(RExp::constant("10")),
                ),
                Lines::from(vec![
                    RStmt::Expression(RExp::Call(RExp::boxed_variable("do_stuff"), vec![])),
                    RStmt::Assignment(
                        RExp::variable("i"),
                        vec![],
                        RExp::Infix(
                            "+".into(),
                            Box::new(RExp::variable("i")),
                            Box::new(RExp::constant("1")),
                        ),
                    ),
                ]),
            ),
            RStmt::While(
                RExp::constant("true"),
                Lines::from(vec![RStmt::Expression(RExp::Call(
                    RExp::boxed_variable("annoy"),
                    vec![],
                ))]),
            ),
        ];
        assert_eq!(expected, result);
    }

