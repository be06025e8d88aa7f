//! A recursive-descent parser for the supported sub-grammar of
//! the input language. It works on the characters of the source text; line
//! boundaries end statements except inside round or square brackets and after
//! a binary operator that still waits for its right operand.

use vstd::prelude::*;

use crate::ast::{
    exp_model, lines_model, name_model, stmt_model, stmts_model, SExp, SStmt, comment_wf, exp_wf, is_ident_char, is_ident_start, is_identifier, lines_wf, name_wf, stmt_wf, Lines, RExp,
    RFormula, RIdentifier, RStmt,
};
use crate::text::str_eq;

verus! {

/// Why and where the source text could not be parsed.
#[derive(PartialEq, Eq, Debug)]
pub struct ParseError {
    /// Offset of the offending character, counted in characters.
    pub position: usize,
    /// Line of the offending character, counted from 1.
    pub line: usize,
    /// Column of the offending character, counted from 1.
    pub column: usize,
    pub message: String,
}

/// The source text, with its characters at hand.
struct Src<'a> {
    text: &'a str,
    chars: Vec<char>,
}

impl<'a> Src<'a> {
    spec fn wf(&self) -> bool {
        &&& self.chars@ == self.text@
        &&& self.chars@.len() + 8 <= usize::MAX
    }

    spec fn len(&self) -> nat {
        self.chars@.len()
    }
}

type Parsed<T> = Result<(T, usize), ParseError>;

pub open spec fn is_space(c: char) -> bool {
    c == ' ' || c == '\t' || c == '\r'
}

pub open spec fn is_digit(c: char) -> bool {
    '0' <= c && c <= '9'
}


fn space(c: char) -> (r: bool)
    ensures
        r == is_space(c),
{
    c == ' ' || c == '\t' || c == '\r'
}

fn digit(c: char) -> (r: bool)
    ensures
        r == is_digit(c),
{
    '0' <= c && c <= '9'
}

fn ident_start(c: char) -> (r: bool)
    ensures
        r == is_ident_start(c),
{
    ('a' <= c && c <= 'z') || ('A' <= c && c <= 'Z') || c == '.' || c == '_'
}

fn ident_char(c: char) -> (r: bool)
    ensures
        r == (is_ident_start(c) || is_digit(c)),
        r ==> is_ident_char(c),
{
    ident_start(c) || digit(c)
}

// The grammar, as functions on the characters of the text. Each reads from
// a position and gives what it recognised with the position after it, or
// `None` where the text does not fit.

/// What is left of the text from `p`, as a measure that shrinks as
/// positions advance and stays at 0 past the end.
pub open spec fn rest(c: Seq<char>, p: int) -> int {
    if p > c.len() {
        0
    } else {
        c.len() + 1 - p
    }
}

/// The character at `p`, or NUL outside the text.
pub open spec fn sp_peek(c: Seq<char>, p: int) -> char {
    if 0 <= p < c.len() {
        c[p]
    } else {
        '\0'
    }
}

/// The end of the line holding `p`: its line break, or the end of the text.
pub open spec fn sp_line_end(c: Seq<char>, p: int) -> int
    decreases rest(c, p),
        when 0 <= p <= c.len()
{
    if 0 <= p < c.len() && c[p] != '\n' {
        sp_line_end(c, p + 1)
    } else {
        p
    }
}

/// Past the blanks at `p`; with `nl` also past line breaks and comments.
pub open spec fn sp_skip_ws(c: Seq<char>, p: int, nl: bool) -> int
    decreases rest(c, p),
        when 0 <= p <= c.len()
{
    if 0 <= p < c.len() {
        if is_space(c[p]) || (nl && c[p] == '\n') {
            sp_skip_ws(c, p + 1, nl)
        } else if nl && c[p] == '#' {
            let e = sp_line_end(c, p);
            if e > p {
                sp_skip_ws(c, e, nl)
            } else {
                p
            }
        } else {
            p
        }
    } else {
        p
    }
}

/// The end of the rest of an identifier from `p`.
pub open spec fn sp_ident_rest(c: Seq<char>, p: int) -> int
    decreases rest(c, p),
        when 0 <= p <= c.len()
{
    if 0 <= p < c.len() {
        if is_ident_start(c[p]) || is_digit(c[p]) {
            sp_ident_rest(c, p + 1)
        } else if c[p] == ':' && sp_peek(c, p + 1) == ':' && is_ident_start(sp_peek(c, p + 2)) {
            sp_ident_rest(c, p + 3)
        } else {
            p
        }
    } else {
        p
    }
}

/// The end of the identifier at `p`; `p` itself if none starts there.
pub open spec fn sp_scan_ident(c: Seq<char>, p: int) -> int {
    if is_ident_start(sp_peek(c, p)) {
        sp_ident_rest(c, p + 1)
    } else {
        p
    }
}

/// The end of the digits at `p`.
pub open spec fn sp_digits(c: Seq<char>, p: int) -> int
    decreases rest(c, p),
        when 0 <= p <= c.len()
{
    if 0 <= p < c.len() && is_digit(c[p]) {
        sp_digits(c, p + 1)
    } else {
        p
    }
}

/// A number starts at `p`: a digit, or a point before a digit.
pub open spec fn sp_number_starts(c: Seq<char>, p: int) -> bool {
    is_digit(sp_peek(c, p)) || (sp_peek(c, p) == '.' && is_digit(sp_peek(c, p + 1)))
}

/// The end of the number at `p`: digits, an optional fraction, an optional
/// exponent, an optional `L`.
pub open spec fn sp_scan_number(c: Seq<char>, p: int) -> int {
    let a = sp_digits(c, p);
    let b = if sp_peek(c, a) == '.' {
        sp_digits(c, a + 1)
    } else {
        a
    };
    let e = if sp_peek(c, b) == 'e' || sp_peek(c, b) == 'E' {
        let q = if sp_peek(c, b + 1) == '+' || sp_peek(c, b + 1) == '-' {
            b + 2
        } else {
            b + 1
        };
        if is_digit(sp_peek(c, q)) {
            sp_digits(c, q)
        } else {
            b
        }
    } else {
        b
    };
    let f = if sp_peek(c, e) == 'L' {
        e + 1
    } else {
        e
    };
    if f == p {
        p + 1
    } else {
        f
    }
}

/// Past the closing `quote` of quoted text, from `p`; backslashes escape.
pub open spec fn sp_quoted_rest(c: Seq<char>, quote: char, p: int) -> Option<int>
    decreases rest(c, p),
        when 0 <= p <= c.len()
{
    if 0 <= p < c.len() {
        if c[p] == quote {
            Some(p + 1)
        } else if c[p] == '\\' && p + 1 < c.len() {
            sp_quoted_rest(c, quote, p + 2)
        } else {
            sp_quoted_rest(c, quote, p + 1)
        }
    } else {
        None
    }
}

/// The end of a `%...%` operator's name from `p`: its closing `%`, or where
/// the line or the text ends first.
pub open spec fn sp_percent_end(c: Seq<char>, p: int) -> int
    decreases rest(c, p),
        when 0 <= p <= c.len()
{
    if 0 <= p < c.len() && c[p] != '%' && c[p] != '\n' {
        sp_percent_end(c, p + 1)
    } else {
        p
    }
}

/// The length of the binary operator at `p`, 0 where none stands there.
pub open spec fn sp_infix_len(c: Seq<char>, p: int) -> int {
    let a = sp_peek(c, p);
    let b = sp_peek(c, p + 1);
    if a == '<' && b == '-' {
        0
    } else if (a == '<' || a == '>' || a == '=' || a == '!') && b == '=' {
        2
    } else if (a == '&' && b == '&') || (a == '|' && b == '|') || (a == '|' && b == '>') {
        2
    } else if a == '<' || a == '>' || a == '&' || a == '|' || a == '+' || a == '-' || a == '*' || a == '/'
        || a == '^' || a == ':' {
        1
    } else if a == '%' {
        let e = sp_percent_end(c, p + 1);
        if 0 <= e < c.len() && c[e] == '%' {
            e + 1 - p
        } else {
            0
        }
    } else {
        0
    }
}

/// The length of the assignment (`<-` or a lone `=`) at `p`, else 0.
pub open spec fn sp_assign_len(c: Seq<char>, p: int) -> int {
    if sp_peek(c, p) == '<' && sp_peek(c, p + 1) == '-' {
        2
    } else if sp_peek(c, p) == '=' && sp_peek(c, p + 1) != '=' {
        1
    } else {
        0
    }
}

/// The text between `a` and `b` is a word reserved for statements.
pub open spec fn sp_keyword(c: Seq<char>, a: int, b: int) -> bool {
    let w = c.subrange(a, b);
    w == "if"@ || w == "else"@ || w == "for"@ || w == "while"@ || w == "in"@
}

/// The text between `a` and `b` is a literal constant word.
pub open spec fn sp_literal_word(c: Seq<char>, a: int, b: int) -> bool {
    let w = c.subrange(a, b);
    w == "TRUE"@ || w == "FALSE"@ || w == "true"@ || w == "false"@ || w == "NULL"@ || w == "NA"@ || w == "Inf"@
        || w == "NaN"@
}

/// Where the next item starts after one that ended at `p`: past a line
/// break, or a `;` (and a line break right after it); at the end of the text
/// or, in a block, at its `}`. `None` where something else follows.
pub open spec fn sp_next_item(c: Seq<char>, p: int, closing: bool) -> Option<int> {
    let q = sp_skip_ws(c, p, false);
    if q >= c.len() || (closing && sp_peek(c, q) == '}') {
        Some(q)
    } else if sp_peek(c, q) == '\n' {
        Some(q + 1)
    } else if sp_peek(c, q) == ';' {
        let a = sp_skip_ws(c, q + 1, false);
        if sp_peek(c, a) == '\n' {
            Some(a + 1)
        } else {
            Some(q + 1)
        }
    } else {
        None
    }
}

/// The quote characters.
pub open spec fn is_quote(ch: char) -> bool {
    ch == '\'' || ch == '"' || ch == '`'
}

/// A primary expression at `p`.
pub open spec fn sp_primary(c: Seq<char>, p: int, nl: bool) -> Option<(SExp, int)>
    decreases rest(c, p), 1nat,
        when 0 <= p <= c.len()
{
    if p < 0 {
        None
    } else if sp_number_starts(c, p) {
        let e = sp_scan_number(c, p);
        Some((SExp::Constant(c.subrange(p, e)), e))
    } else if p < c.len() && is_quote(c[p]) {
        match sp_quoted_rest(c, c[p], p + 1) {
            Some(e) => Some((SExp::Constant(c.subrange(p, e)), e)),
            None => None,
        }
    } else if sp_scan_ident(c, p) > p {
        let e = sp_scan_ident(c, p);
        if c.subrange(p, e) == "function"@ {
            sp_function(c, e, nl)
        } else if sp_literal_word(c, p, e) {
            Some((SExp::Constant(c.subrange(p, e)), e))
        } else if sp_keyword(c, p, e) {
            None
        } else {
            Some((SExp::Variable(c.subrange(p, e)), e))
        }
    } else if sp_peek(c, p) == '!' || sp_peek(c, p) == '-' || sp_peek(c, p) == '+' {
        let q = sp_skip_ws(c, p + 1, nl);
        if q <= p {
            None
        } else {
            match sp_expression(c, q, nl) {
                Some((x, q2)) => Some((SExp::Prefix(c.subrange(p, p + 1), Box::new(x)), q2)),
                None => None,
            }
        }
    } else if sp_peek(c, p) == '~' {
        let q = sp_skip_ws(c, p + 1, nl);
        if q <= p {
            None
        } else {
            match sp_expression(c, q, nl) {
                Some((x, q2)) => Some((SExp::OneSided(Box::new(x)), q2)),
                None => None,
            }
        }
    } else if sp_peek(c, p) == '(' {
        let q = sp_skip_ws(c, p + 1, true);
        if q <= p {
            None
        } else {
            match sp_expression(c, q, true) {
                Some((x, q2)) => {
                    let q3 = sp_skip_ws(c, q2, true);
                    if sp_peek(c, q3) == ')' {
                        Some((x, q3 + 1))
                    } else {
                        None
                    }
                },
                None => None,
            }
        }
    } else {
        None
    }
}

/// A function definition after the word `function`.
pub open spec fn sp_function(c: Seq<char>, p: int, nl: bool) -> Option<(SExp, int)>
    decreases rest(c, p), 5nat,
        when 0 <= p <= c.len()
{
    let a = sp_skip_ws(c, p, nl);
    if a < p || sp_peek(c, a) != '(' {
        None
    } else {
        let q = sp_skip_ws(c, a + 1, true);
        let params = if sp_peek(c, q) == ')' {
            Some((Seq::<(Seq<char>, Option<SExp>)>::empty(), q))
        } else if q <= p {
            None
        } else {
            sp_params(c, Seq::empty(), q)
        };
        match params {
            Some((ps, e)) => if e <= p || e >= c.len() {
                None
            } else {
                let b = sp_skip_ws(c, e + 1, true);
                if b <= p {
                    None
                } else {
                    match sp_body(c, b, nl) {
                        Some((body, q2)) => Some((SExp::Function(ps, body), q2)),
                        None => None,
                    }
                }
            },
            None => None,
        }
    }
}

/// The parameters from `q` on, after those in `acc`, up to the `)`.
pub open spec fn sp_params(c: Seq<char>, acc: Seq<(Seq<char>, Option<SExp>)>, q: int) -> Option<
    (Seq<(Seq<char>, Option<SExp>)>, int),
>
    decreases rest(c, q), 4nat,
        when 0 <= q <= c.len()
{
    let a = sp_skip_ws(c, q, true);
    let e = sp_scan_ident(c, a);
    if a < q || e <= a {
        None
    } else {
        let name = c.subrange(a, e);
        let b = sp_skip_ws(c, e, true);
        let item: Option<((Seq<char>, Option<SExp>), int)> = if sp_assign_len(c, b) == 1 {
            let d = sp_skip_ws(c, b + 1, true);
            if d <= q {
                None
            } else {
                match sp_expression(c, d, true) {
                    Some((x, d2)) => Some(((name, Some(x)), sp_skip_ws(c, d2, true))),
                    None => None,
                }
            }
        } else {
            Some(((name, None), b))
        };
        match item {
            Some((it, after)) => if sp_peek(c, after) == ',' {
                if after + 1 <= q {
                    None
                } else {
                    sp_params(c, acc.push(it), after + 1)
                }
            } else if sp_peek(c, after) == ')' {
                Some((acc.push(it), after))
            } else {
                None
            },
            None => None,
        }
    }
}

/// The arguments of a call after its `(`, up to and with its `)`.
pub open spec fn sp_args(c: Seq<char>, p: int) -> Option<(Seq<(Option<Seq<char>>, SExp)>, int)>
    decreases rest(c, p), 5nat,
        when 0 <= p <= c.len()
{
    let first = sp_skip_ws(c, p, true);
    if first < p {
        None
    } else if sp_peek(c, first) == ')' {
        Some((Seq::empty(), first + 1))
    } else {
        sp_args_from(c, Seq::empty(), first)
    }
}

/// The arguments from `q` on, after those in `acc`.
pub open spec fn sp_args_from(c: Seq<char>, acc: Seq<(Option<Seq<char>>, SExp)>, q: int) -> Option<
    (Seq<(Option<Seq<char>>, SExp)>, int),
>
    decreases rest(c, q), 4nat,
        when 0 <= q <= c.len()
{
    let a = sp_skip_ws(c, q, true);
    let e = sp_scan_ident(c, a);
    let named = e > a && sp_assign_len(c, sp_skip_ws(c, e, true)) == 1;
    let name: Option<Seq<char>> = if named {
        Some(c.subrange(a, e))
    } else {
        None
    };
    let start = if named {
        sp_skip_ws(c, sp_skip_ws(c, e, true) + 1, true)
    } else {
        a
    };
    if a < q || start < q {
        None
    } else {
        match sp_expression(c, start, true) {
            Some((x, q2)) => {
                let after = sp_skip_ws(c, q2, true);
                if sp_peek(c, after) == ',' {
                    if after + 1 <= q {
                        None
                    } else {
                        sp_args_from(c, acc.push((name, x)), after + 1)
                    }
                } else if sp_peek(c, after) == ')' {
                    Some((acc.push((name, x)), after + 1))
                } else {
                    None
                }
            },
            None => None,
        }
    }
}

/// The slots of an index from `q` on, after those in `acc`, up to and with
/// its `]` (or `]]`).
pub open spec fn sp_slots(c: Seq<char>, acc: Seq<Option<SExp>>, q: int, double: bool) -> Option<
    (Seq<Option<SExp>>, int),
>
    decreases rest(c, q), 4nat,
        when 0 <= q <= c.len()
{
    let a = sp_skip_ws(c, q, true);
    let item: Option<(Option<SExp>, int)> = if a < q {
        None
    } else if sp_peek(c, a) == ',' || sp_peek(c, a) == ']' {
        Some((None, a))
    } else {
        match sp_expression(c, a, true) {
            Some((x, q2)) => Some((Some(x), sp_skip_ws(c, q2, true))),
            None => None,
        }
    };
    match item {
        Some((slot, end)) => if sp_peek(c, end) == ',' {
            if end + 1 <= q {
                None
            } else {
                sp_slots(c, acc.push(slot), end + 1, double)
            }
        } else if sp_peek(c, end) == ']' {
            if !double {
                Some((acc.push(slot), end + 1))
            } else if sp_peek(c, end + 1) == ']' {
                Some((acc.push(slot), end + 2))
            } else {
                None
            }
        } else {
            None
        },
        None => None,
    }
}

/// The name after a `$`.
pub open spec fn sp_column_name(c: Seq<char>, p: int) -> Option<(SExp, int)> {
    let e = sp_scan_ident(c, p);
    if e > p {
        Some((SExp::Variable(c.subrange(p, e)), e))
    } else if 0 <= p < c.len() && is_quote(c[p]) {
        match sp_quoted_rest(c, c[p], p + 1) {
            Some(e2) => Some((SExp::Constant(c.subrange(p, e2)), e2)),
            None => None,
        }
    } else {
        None
    }
}

/// An expression at `p`: a primary expression and what follows it.
pub open spec fn sp_expression(c: Seq<char>, p: int, nl: bool) -> Option<(SExp, int)>
    decreases rest(c, p), 2nat,
        when 0 <= p <= c.len()
{
    match sp_primary(c, p, nl) {
        Some((x, q)) => if q <= p {
            None
        } else {
            sp_suffixes(c, x, q, nl)
        },
        None => None,
    }
}

/// The calls, column accesses, indexing, formulae and binary operators that
/// follow the expression `e`, which ends at `q`.
pub open spec fn sp_suffixes(c: Seq<char>, e: SExp, q: int, nl: bool) -> Option<(SExp, int)>
    decreases rest(c, q), 3nat,
        when 0 <= q <= c.len()
{
    let p = sp_skip_ws(c, q, nl);
    let ch = sp_peek(c, p);
    if p < q {
        None
    } else if ch == '(' {
        match sp_args(c, p + 1) {
            Some((args, q2)) => if q2 <= q {
                None
            } else {
                sp_suffixes(c, SExp::Call(Box::new(e), args), q2, nl)
            },
            None => None,
        }
    } else if ch == '$' {
        match sp_column_name(c, sp_skip_ws(c, p + 1, false)) {
            Some((x, q2)) => if q2 <= q {
                None
            } else {
                sp_suffixes(c, SExp::Column(Box::new(e), Box::new(x)), q2, nl)
            },
            None => None,
        }
    } else if ch == '[' {
        let double = sp_peek(c, p + 1) == '[';
        match sp_slots(c, Seq::empty(), if double { p + 2 } else { p + 1 }, double) {
            Some((slots, q2)) => if q2 <= q {
                None
            } else {
                sp_suffixes(
                    c,
                    if double {
                        SExp::ListIndex(Box::new(e), slots)
                    } else {
                        SExp::Index(Box::new(e), slots)
                    },
                    q2,
                    nl,
                )
            },
            None => None,
        }
    } else if ch == '~' {
        let a = sp_skip_ws(c, p + 1, true);
        if a <= q {
            None
        } else {
            match sp_expression(c, a, nl) {
                Some((x, q2)) => if q2 <= q {
                    None
                } else {
                    sp_suffixes(c, SExp::TwoSided(Box::new(e), Box::new(x)), q2, nl)
                },
                None => None,
            }
        }
    } else if sp_infix_len(c, p) == 0 {
        Some((e, q))
    } else {
        let k = sp_infix_len(c, p);
        let a = sp_skip_ws(c, p + k, true);
        if a <= q {
            None
        } else {
            match sp_expression(c, a, nl) {
                Some((x, q2)) => if q2 <= q {
                    None
                } else {
                    sp_suffixes(c, SExp::Infix(c.subrange(p, p + k), Box::new(e), Box::new(x)), q2, nl)
                },
                None => None,
            }
        }
    }
}

/// `(name)` after the word `library`.
pub open spec fn sp_library_name(c: Seq<char>, p: int) -> Option<(Seq<char>, int)> {
    let a = sp_skip_ws(c, p, false);
    let b = sp_skip_ws(c, a + 1, true);
    let e = sp_scan_ident(c, b);
    let f = sp_skip_ws(c, e, true);
    if sp_peek(c, a) != '(' || e == b || sp_peek(c, f) != ')' {
        None
    } else {
        Some((c.subrange(b, e), f + 1))
    }
}

/// `(`, an expression, `)`.
pub open spec fn sp_condition(c: Seq<char>, p: int, nl: bool) -> Option<(SExp, int)>
    decreases rest(c, p), 5nat,
        when 0 <= p <= c.len()
{
    let a = sp_skip_ws(c, p, nl);
    let b = sp_skip_ws(c, a + 1, true);
    if a < p || sp_peek(c, a) != '(' || b <= p {
        None
    } else {
        match sp_expression(c, b, true) {
            Some((x, q)) => {
                let d = sp_skip_ws(c, q, true);
                if sp_peek(c, d) == ')' {
                    Some((x, d + 1))
                } else {
                    None
                }
            },
            None => None,
        }
    }
}

/// An `if` statement after the word `if`.
pub open spec fn sp_if(c: Seq<char>, p: int, nl: bool) -> Option<(SStmt, int)>
    decreases rest(c, p), 6nat,
        when 0 <= p <= c.len()
{
    match sp_condition(c, p, nl) {
        Some((cond, q)) => {
            let b = sp_skip_ws(c, q, true);
            if q <= p || b < q {
                None
            } else {
                match sp_body(c, b, nl) {
                    Some((body, q2)) => {
                        let a = sp_skip_ws(c, q2, true);
                        let e = sp_scan_ident(c, a);
                        if e > a && c.subrange(a, e) == "else"@ {
                            let b2 = sp_skip_ws(c, e, true);
                            if b2 <= p {
                                None
                            } else {
                                match sp_body(c, b2, nl) {
                                    Some((other, q3)) => Some((SStmt::If(cond, body, Some(other)), q3)),
                                    None => None,
                                }
                            }
                        } else {
                            Some((SStmt::If(cond, body, None), q2))
                        }
                    },
                    None => None,
                }
            }
        },
        None => None,
    }
}

/// A `while` statement after the word `while`.
pub open spec fn sp_while(c: Seq<char>, p: int, nl: bool) -> Option<(SStmt, int)>
    decreases rest(c, p), 6nat,
        when 0 <= p <= c.len()
{
    match sp_condition(c, p, nl) {
        Some((cond, q)) => {
            let b = sp_skip_ws(c, q, true);
            if q <= p || b < q {
                None
            } else {
                match sp_body(c, b, nl) {
                    Some((body, q2)) => Some((SStmt::While(cond, body), q2)),
                    None => None,
                }
            }
        },
        None => None,
    }
}

/// A `for` statement after the word `for`.
pub open spec fn sp_for(c: Seq<char>, p: int, nl: bool) -> Option<(SStmt, int)>
    decreases rest(c, p), 6nat,
        when 0 <= p <= c.len()
{
    let a0 = sp_skip_ws(c, p, nl);
    let a = sp_skip_ws(c, a0 + 1, true);
    if a0 < p || sp_peek(c, a0) != '(' || a <= p {
        None
    } else {
        match sp_expression(c, a, true) {
            Some((pattern, q)) => {
                let b = sp_skip_ws(c, q, true);
                let e = sp_scan_ident(c, b);
                if !(e > b && c.subrange(b, e) == "in"@) {
                    None
                } else {
                    let d = sp_skip_ws(c, e, true);
                    if d <= p {
                        None
                    } else {
                        match sp_expression(c, d, true) {
                            Some((range, q2)) => {
                                let f = sp_skip_ws(c, q2, true);
                                let g = sp_skip_ws(c, f + 1, true);
                                if sp_peek(c, f) != ')' || g <= p {
                                    None
                                } else {
                                    match sp_body(c, g, nl) {
                                        Some((body, q3)) => Some((SStmt::For(pattern, range, body), q3)),
                                        None => None,
                                    }
                                }
                            },
                            None => None,
                        }
                    }
                }
            },
            None => None,
        }
    }
}

/// The statement that a chain of targets and a last value make: an
/// expression alone, or an assignment to the first target.
pub open spec fn sp_assignment(targets: Seq<SExp>, last: SExp) -> SStmt {
    if targets.len() == 0 {
        SStmt::Expression(last)
    } else {
        SStmt::Assignment(targets[0], targets.subrange(1, targets.len() as int), last)
    }
}

/// A statement at `p`.
pub open spec fn sp_statement(c: Seq<char>, p: int, nl: bool) -> Option<(SStmt, int)>
    decreases rest(c, p), 3nat,
        when 0 <= p <= c.len()
{
    let w = sp_scan_ident(c, p);
    if p < 0 {
        None
    } else if w > p && c.subrange(p, w) == "if"@ {
        sp_if(c, w, nl)
    } else if w > p && c.subrange(p, w) == "while"@ {
        sp_while(c, w, nl)
    } else if w > p && c.subrange(p, w) == "for"@ {
        sp_for(c, w, nl)
    } else if w > p && c.subrange(p, w) == "library"@ && sp_library_name(c, w) is Some {
        let (name, q) = sp_library_name(c, w)->Some_0;
        Some((SStmt::Library(name), q))
    } else {
        match sp_expression(c, p, nl) {
            Some((first, q)) => if q <= p {
                None
            } else {
                sp_targets(c, Seq::empty(), first, q, nl)
            },
            None => None,
        }
    }
}

/// The rest of an assignment chain: `last` ends at `q`, after `targets`.
pub open spec fn sp_targets(c: Seq<char>, targets: Seq<SExp>, last: SExp, q: int, nl: bool) -> Option<(SStmt, int)>
    decreases rest(c, q), 4nat,
        when 0 <= q <= c.len()
{
    let p = sp_skip_ws(c, q, nl);
    let k = sp_assign_len(c, p);
    if k == 0 {
        Some((sp_assignment(targets, last), q))
    } else {
        let a = sp_skip_ws(c, p + k, true);
        if a <= q {
            None
        } else {
            match sp_expression(c, a, nl) {
                Some((x, q2)) => if q2 <= q {
                    None
                } else {
                    sp_targets(c, targets.push(last), x, q2, nl)
                },
                None => None,
            }
        }
    }
}

/// A body: a braced block, or a single statement.
pub open spec fn sp_body(c: Seq<char>, p: int, nl: bool) -> Option<(Seq<SStmt>, int)>
    decreases rest(c, p), 4nat,
        when 0 <= p <= c.len()
{
    if sp_peek(c, p) == '{' {
        sp_block(c, p + 1)
    } else {
        match sp_statement(c, p, nl) {
            Some((st, q)) => Some((seq![st], q)),
            None => None,
        }
    }
}

/// A comment, or a statement with an optional comment after it.
pub open spec fn sp_line_item(c: Seq<char>, p: int) -> Option<(SStmt, int)>
    decreases rest(c, p), 4nat,
        when 0 <= p <= c.len()
{
    if sp_peek(c, p) == '#' {
        let e = sp_line_end(c, p);
        Some((SStmt::Comment(c.subrange(p, e)), e))
    } else {
        match sp_statement(c, p, false) {
            Some((st, q)) => {
                let a = sp_skip_ws(c, q, false);
                if sp_peek(c, a) == '#' {
                    let e = sp_line_end(c, a);
                    Some((SStmt::TailComment(Box::new(st), c.subrange(a, e)), e))
                } else {
                    Some((st, q))
                }
            },
            None => None,
        }
    }
}

/// A block after its `{`.
pub open spec fn sp_block(c: Seq<char>, p: int) -> Option<(Seq<SStmt>, int)>
    decreases rest(c, p), 6nat,
        when 0 <= p <= c.len()
{
    let q = sp_skip_ws(c, p, false);
    let q1 = if sp_peek(c, q) == '\n' {
        q + 1
    } else {
        q
    };
    if q < p {
        None
    } else {
        sp_block_lines(c, Seq::empty(), q1)
    }
}

/// The lines of a block from `q` on, after those in `acc`, up to and with
/// its `}`.
pub open spec fn sp_block_lines(c: Seq<char>, acc: Seq<SStmt>, q: int) -> Option<(Seq<SStmt>, int)>
    decreases rest(c, q), 5nat,
        when 0 <= q <= c.len()
{
    let p = sp_skip_ws(c, q, false);
    let ch = sp_peek(c, p);
    if p < q || p >= c.len() {
        None
    } else if ch == '}' {
        Some((acc, p + 1))
    } else if ch == '\n' {
        sp_block_lines(c, acc.push(SStmt::Empty), p + 1)
    } else if ch == ';' {
        sp_block_lines(c, acc, p + 1)
    } else {
        match sp_line_item(c, p) {
            Some((st, q2)) => match sp_next_item(c, q2, true) {
                Some(q3) => if q3 <= q {
                    None
                } else {
                    sp_block_lines(c, acc.push(st), q3)
                },
                None => None,
            },
            None => None,
        }
    }
}

/// The lines of a whole text from `q` on, after those in `acc`.
pub open spec fn sp_file_lines(c: Seq<char>, acc: Seq<SStmt>, q: int) -> Option<Seq<SStmt>>
    decreases rest(c, q),
        when 0 <= q <= c.len()
{
    let p = sp_skip_ws(c, q, false);
    let ch = sp_peek(c, p);
    if q < 0 || p < q || p >= c.len() {
        if q < 0 { None } else { Some(acc) }
    } else if ch == '\n' {
        sp_file_lines(c, acc.push(SStmt::Empty), p + 1)
    } else if ch == ';' {
        sp_file_lines(c, acc, p + 1)
    } else {
        match sp_line_item(c, p) {
            Some((st, q2)) => match sp_next_item(c, q2, false) {
                Some(q3) => if q3 <= q {
                    None
                } else {
                    sp_file_lines(c, acc.push(st), q3)
                },
                None => None,
            },
            None => None,
        }
    }
}

/// The statements of a text, if it fits the grammar.
pub open spec fn parse_spec(code: Seq<char>) -> Option<Seq<SStmt>> {
    sp_file_lines(code, Seq::empty(), 0)
}

/// The character at `pos`, or NUL past the end.
fn peek(s: &Src, pos: usize) -> (c: char)
    requires
        s.wf(),
    ensures
        pos < s.len() ==> c == s.chars@[pos as int],
        pos >= s.len() ==> c == '\0',
        c == sp_peek(s.chars@, pos as int),
{
    if pos < s.chars.len() {
        s.chars[pos]
    } else {
        '\0'
    }
}

/// The text between two offsets.
fn slice(s: &Src, from: usize, to: usize) -> (r: String)
    requires
        s.wf(),
        from <= to <= s.len(),
    ensures
        r@ == s.chars@.subrange(from as int, to as int),
{
    String::from_str(s.text.substring_char(from, to))
}

/// Whether the text between two offsets is `w`.
fn word_is(s: &Src, from: usize, to: usize, w: &str) -> (r: bool)
    requires
        s.wf(),
        from <= to <= s.len(),
    ensures
        r == (s.chars@.subrange(from as int, to as int) == w@),
{
    let n = w.unicode_len();
    if to - from != n {
        return false;
    }
    let mut i: usize = 0;
    while i < n
        invariant
            s.wf(),
            n == w@.len(),
            to - from == n,
            from <= to <= s.len(),
            i <= n,
            forall|k: int| 0 <= k < i ==> s.chars@[from + k] == w@[k],
        decreases n - i,
    {
        if s.chars[from + i] != w.get_char(i) {
            assert(s.chars@.subrange(from as int, to as int)[i as int] != w@[i as int]);
            return false;
        }
        i = i + 1;
    }
    assert(s.chars@.subrange(from as int, to as int) =~= w@);
    true
}

fn fail<T>(pos: usize, message: &str) -> (r: Parsed<T>)
    ensures
        r is Err,
{
    Err(ParseError { position: pos, line: 0, column: 0, message: String::from_str(message) })
}

/// Skips blanks; with `nl` also line breaks and comments.
fn skip_ws(s: &Src, pos: usize, nl: bool) -> (r: usize)
    requires
        s.wf(),
        pos <= s.len(),
    ensures
        pos <= r <= s.len(),
        r == sp_skip_ws(s.chars@, pos as int, nl),
{
    let mut p = pos;
    while p < s.chars.len()
        invariant
            s.wf(),
            pos <= p <= s.len(),
            sp_skip_ws(s.chars@, pos as int, nl) == sp_skip_ws(s.chars@, p as int, nl),
        decreases s.len() - p,
    {
        let c = s.chars[p];
        if space(c) || (nl && c == '\n') {
            p = p + 1;
        } else if nl && c == '#' {
            p = line_end(s, p);
        } else {
            return p;
        }
    }
    p
}

/// The offset of the line break that ends the line holding `pos`, or the end.
fn line_end(s: &Src, pos: usize) -> (r: usize)
    requires
        s.wf(),
        pos <= s.len(),
    ensures
        pos <= r <= s.len(),
        r < s.len() ==> s.chars@[r as int] == '\n',
        forall|i: int| pos <= i < r ==> #[trigger] s.chars@[i] != '\n',
        r == sp_line_end(s.chars@, pos as int),
{
    let mut p = pos;
    while p < s.chars.len() && s.chars[p] != '\n'
        invariant
            s.wf(),
            pos <= p <= s.len(),
            sp_line_end(s.chars@, pos as int) == sp_line_end(s.chars@, p as int),
            forall|i: int| pos <= i < p ==> #[trigger] s.chars@[i] != '\n',
        decreases s.len() - p,
    {
        p = p + 1;
    }
    p
}

/// The end of the identifier that starts at `pos` (`pos` itself if none
/// does). Pairs of colons join the parts of a namespaced name.
fn scan_ident(s: &Src, pos: usize) -> (r: usize)
    requires
        s.wf(),
        pos <= s.len(),
    ensures
        pos <= r <= s.len(),
        r > pos <==> (pos < s.len() && is_ident_start(s.chars@[pos as int])),
        r > pos ==> is_identifier(s.chars@.subrange(pos as int, r as int)),
        r == sp_scan_ident(s.chars@, pos as int),
{
    if !ident_start(peek(s, pos)) {
        return pos;
    }
    let mut p = pos + 1;
    while p < s.chars.len()
        invariant
            s.wf(),
            pos < p <= s.len(),
            pos < s.len() && is_ident_start(s.chars@[pos as int]),
            forall|i: int| pos < i < p ==> is_ident_char(#[trigger] s.chars@[i]),
            sp_scan_ident(s.chars@, pos as int) == sp_ident_rest(s.chars@, p as int),
        decreases s.len() - p,
    {
        let c = s.chars[p];
        if ident_char(c) {
            p = p + 1;
        } else if c == ':' && peek(s, p + 1) == ':' && ident_start(peek(s, p + 2)) {
            p = p + 3;
        } else {
            assert(is_identifier(s.chars@.subrange(pos as int, p as int)));
            return p;
        }
    }
    assert(is_identifier(s.chars@.subrange(pos as int, p as int)));
    p
}

/// The end of the run of digits that starts at `pos`.
fn scan_digits(s: &Src, pos: usize) -> (r: usize)
    requires
        s.wf(),
        pos <= s.len(),
    ensures
        pos <= r <= s.len(),
        r == sp_digits(s.chars@, pos as int),
{
    let mut p = pos;
    while p < s.chars.len() && digit(s.chars[p])
        invariant
            s.wf(),
            pos <= p <= s.len(),
            sp_digits(s.chars@, pos as int) == sp_digits(s.chars@, p as int),
        decreases s.len() - p,
    {
        p = p + 1;
    }
    p
}

/// Whether a number starts at `pos`: a digit, or a point before a digit.
fn number_starts(s: &Src, pos: usize) -> (r: bool)
    requires
        s.wf(),
    ensures
        r ==> pos < s.len(),
        r == sp_number_starts(s.chars@, pos as int),
{
    let c = peek(s, pos);
    digit(c) || (c == '.' && digit(peek(s, pos + 1)))
}

/// The end of the number that starts at `pos`: digits, an optional fraction,
/// an optional exponent.
fn scan_number(s: &Src, pos: usize) -> (r: usize)
    requires
        s.wf(),
        pos < s.len(),
    ensures
        pos < r <= s.len(),
        r == sp_scan_number(s.chars@, pos as int),
{
    let mut p = scan_digits(s, pos);
    if peek(s, p) == '.' {
        p = scan_digits(s, p + 1);
    }
    let c = peek(s, p);
    if c == 'e' || c == 'E' {
        let mut q = p + 1;
        let sign = peek(s, q);
        if sign == '+' || sign == '-' {
            q = q + 1;
        }
        if digit(peek(s, q)) {
            p = scan_digits(s, q);
        }
    }
    if peek(s, p) == 'L' {
        p = p + 1;
    }
    if p == pos {
        pos + 1
    } else {
        p
    }
}

/// The end of the quoted text that starts at `pos` with `'`, `"` or a
/// backtick, just after its closing quote; backslashes escape.
fn scan_quoted(s: &Src, pos: usize) -> (r: Option<usize>)
    requires
        s.wf(),
        pos < s.len(),
    ensures
        r matches Some(e) ==> pos < e <= s.len(),
        match r {
            Some(e) => sp_quoted_rest(s.chars@, s.chars@[pos as int], pos + 1) == Some(e as int),
            None => sp_quoted_rest(s.chars@, s.chars@[pos as int], pos + 1) is None,
        },
{
    let quote = s.chars[pos];
    let mut p = pos + 1;
    while p < s.chars.len()
        invariant
            s.wf(),
            pos < p <= s.len(),
            pos < s.len(),
            quote == s.chars@[pos as int],
            sp_quoted_rest(s.chars@, quote, pos + 1) == sp_quoted_rest(s.chars@, quote, p as int),
        decreases s.len() - p,
    {
        let c = s.chars[p];
        if c == quote {
            return Some(p + 1);
        } else if c == '\\' && p + 1 < s.chars.len() {
            p = p + 2;
        } else {
            p = p + 1;
        }
    }
    None
}

/// The length of the binary operator at `pos`, 0 if none stands there.
/// `<-` and a lone `=` assign and are no operators here.
fn infix_len(s: &Src, pos: usize) -> (r: usize)
    requires
        s.wf(),
        pos <= s.len(),
    ensures
        pos + r <= s.len(),
        r == sp_infix_len(s.chars@, pos as int),
{
    let c = peek(s, pos);
    let d = peek(s, pos + 1);
    if c == '<' && d == '-' {
        0
    } else if (c == '<' || c == '>' || c == '=' || c == '!') && d == '=' {
        2
    } else if (c == '&' && d == '&') || (c == '|' && d == '|') || (c == '|' && d == '>') {
        2
    } else if c == '<' || c == '>' || c == '&' || c == '|' || c == '+' || c == '-' || c == '*'
        || c == '/' || c == '^' || c == ':' {
        1
    } else if c == '%' {
        let mut p = pos + 1;
        while p < s.chars.len() && s.chars[p] != '%' && s.chars[p] != '\n'
            invariant
                s.wf(),
                pos < p <= s.len(),
                sp_percent_end(s.chars@, pos + 1) == sp_percent_end(s.chars@, p as int),
            decreases s.len() - p,
        {
            p = p + 1;
        }
        if p < s.chars.len() && s.chars[p] == '%' {
            p + 1 - pos
        } else {
            0
        }
    } else {
        0
    }
}

/// Whether an assignment arrow `<-` or a lone `=` stands at `pos`; the
/// length of the one found, else 0.
fn assign_len(s: &Src, pos: usize) -> (r: usize)
    requires
        s.wf(),
        pos <= s.len(),
    ensures
        pos + r <= s.len(),
        r == sp_assign_len(s.chars@, pos as int),
{
    let c = peek(s, pos);
    let d = peek(s, pos + 1);
    if c == '<' && d == '-' {
        2
    } else if c == '=' && d != '=' {
        1
    } else {
        0
    }
}

/// Whether the identifier between two offsets is one of the words that
/// the grammar reserves for statements.
fn is_keyword(s: &Src, from: usize, to: usize) -> (r: bool)
    requires
        s.wf(),
        from <= to <= s.len(),
    ensures
        r == sp_keyword(s.chars@, from as int, to as int),
{
    word_is(s, from, to, "if") || word_is(s, from, to, "else") || word_is(s, from, to, "for")
        || word_is(s, from, to, "while") || word_is(s, from, to, "in")
}

/// Whether the identifier between two offsets is a literal constant.
fn is_literal_word(s: &Src, from: usize, to: usize) -> (r: bool)
    requires
        s.wf(),
        from <= to <= s.len(),
    ensures
        r == sp_literal_word(s.chars@, from as int, to as int),
{
    word_is(s, from, to, "TRUE") || word_is(s, from, to, "FALSE") || word_is(s, from, to, "true")
        || word_is(s, from, to, "false") || word_is(s, from, to, "NULL") || word_is(s, from, to, "NA")
        || word_is(s, from, to, "Inf") || word_is(s, from, to, "NaN")
}


/// The forms of a call's arguments.
pub open spec fn args_model(v: Seq<(Option<String>, RExp)>) -> Seq<(Option<Seq<char>>, SExp)> {
    Seq::new(v.len(), |i: int| (name_model(v[i].0), exp_model(v[i].1)))
}

/// The form of an optional expression.
pub open spec fn opt_model(o: Option<RExp>) -> Option<SExp> {
    match o {
        Some(x) => Some(exp_model(x)),
        None => None,
    }
}

/// The forms of an index's slots.
pub open spec fn slots_model(v: Seq<Option<RExp>>) -> Seq<Option<SExp>> {
    Seq::new(v.len(), |i: int| opt_model(v[i]))
}

/// The forms of a function's parameters.
pub open spec fn params_model(v: Seq<(RIdentifier, Option<RExp>)>) -> Seq<(Seq<char>, Option<SExp>)> {
    Seq::new(v.len(), |i: int| (v[i].0@, opt_model(v[i].1)))
}

/// The forms of a list of expressions.
pub open spec fn exps_model(v: Seq<RExp>) -> Seq<SExp> {
    Seq::new(v.len(), |i: int| exp_model(v[i]))
}

proof fn lemma_call_model(x: RExp)
    requires
        x is Call,
    ensures
        exp_model(x) == SExp::Call(Box::new(exp_model(*x->Call_0)), args_model(x->Call_1@)),
{
    assert(exp_model(x)->Call_1 =~= args_model(x->Call_1@));
}

proof fn lemma_index_model(x: RExp)
    ensures
        x is Index ==> exp_model(x) == SExp::Index(Box::new(exp_model(*x->Index_0)), slots_model(x->Index_1@)),
        x is ListIndex ==> exp_model(x) == SExp::ListIndex(
            Box::new(exp_model(*x->ListIndex_0)),
            slots_model(x->ListIndex_1@),
        ),
{
    if x is Index {
        assert(exp_model(x)->Index_1 =~= slots_model(x->Index_1@));
    }
    if x is ListIndex {
        assert(exp_model(x)->ListIndex_1 =~= slots_model(x->ListIndex_1@));
    }
}

proof fn lemma_function_model(x: RExp)
    requires
        x is Function,
    ensures
        exp_model(x) == SExp::Function(params_model(x->Function_0@), stmts_model(x->Function_1.0@)),
{
    assert(exp_model(x)->Function_0 =~= params_model(x->Function_0@));
    assert(lines_model(x->Function_1) =~= stmts_model(x->Function_1.0@));
}

proof fn lemma_lines_model(l: Lines)
    ensures
        lines_model(l) == stmts_model(l.0@),
{
    assert(lines_model(l) =~= stmts_model(l.0@));
}

proof fn lemma_assignment_model(st: RStmt)
    requires
        st is Assignment,
    ensures
        stmt_model(st) == SStmt::Assignment(exp_model(st->Assignment_0), exps_model(st->Assignment_1@), exp_model(st->Assignment_2)),
{
    assert(stmt_model(st)->Assignment_1 =~= exps_model(st->Assignment_1@));
}

/// A primary expression at `pos`: a constant, a variable, a prefix operator,
/// a one-sided formula, a function definition or a parenthesised expression.
fn parse_primary(s: &Src, pos: usize, nl: bool) -> (r: Parsed<RExp>)
    requires
        s.wf(),
        pos <= s.len(),
    ensures
        r matches Ok((x, q)) ==> pos < q <= s.len() && exp_wf(x),
        match r {
            Ok((x, q)) => sp_primary(s.chars@, pos as int, nl) == Some((exp_model(x), q as int)),
            Err(_) => sp_primary(s.chars@, pos as int, nl) is None,
        },
    decreases s.len() - pos, 1nat,
{
    let c = peek(s, pos);
    if number_starts(s, pos) {
        let e = scan_number(s, pos);
        return Ok((RExp::Constant(slice(s, pos, e)), e));
    }
    if pos < s.chars.len() && (c == '\'' || c == '"' || c == '`') {
        return match scan_quoted(s, pos) {
            Some(e) => Ok((RExp::Constant(slice(s, pos, e)), e)),
            None => fail(pos, "unterminated string"),
        };
    }
    let e = scan_ident(s, pos);
    if e > pos {
        if word_is(s, pos, e, "function") {
            return parse_function(s, e, nl);
        }
        if is_literal_word(s, pos, e) {
            return Ok((RExp::Constant(slice(s, pos, e)), e));
        }
        if is_keyword(s, pos, e) {
            return fail(pos, "unexpected keyword");
        }
        return Ok((RExp::Variable(slice(s, pos, e)), e));
    }
    if c == '!' || c == '-' || c == '+' {
        let q = skip_ws(s, pos + 1, nl);
        assert(s.chars@.subrange(pos as int, pos + 1) =~= seq![c]);
        return match parse_expression(s, q, nl) {
            Ok((x, q2)) => Ok((RExp::Prefix(slice(s, pos, pos + 1), Box::new(x)), q2)),
            Err(err) => Err(err),
        };
    }
    if c == '~' {
        let q = skip_ws(s, pos + 1, nl);
        return match parse_expression(s, q, nl) {
            Ok((x, q2)) => Ok((RExp::Formula(RFormula::OneSided(Box::new(x))), q2)),
            Err(err) => Err(err),
        };
    }
    if c == '(' {
        let q = skip_ws(s, pos + 1, true);
        return match parse_expression(s, q, true) {
            Ok((x, q2)) => {
                let q3 = skip_ws(s, q2, true);
                if peek(s, q3) == ')' {
                    Ok((x, q3 + 1))
                } else {
                    fail(q3, "expected `)`")
                }
            },
            Err(err) => Err(err),
        };
    }
    fail(pos, "expected an expression")
}

/// A function definition after the word `function`: parameters, then a body.
fn parse_function(s: &Src, pos: usize, nl: bool) -> (r: Parsed<RExp>)
    requires
        s.wf(),
        pos <= s.len(),
    ensures
        r matches Ok((x, q)) ==> pos < q <= s.len() && exp_wf(x),
        match r {
            Ok((x, q)) => sp_function(s.chars@, pos as int, nl) == Some((exp_model(x), q as int)),
            Err(_) => sp_function(s.chars@, pos as int, nl) is None,
        },
    decreases s.len() - pos, 5nat,
{
    let ghost c = s.chars@;
    let p = skip_ws(s, pos, nl);
    if peek(s, p) != '(' {
        return fail(p, "expected `(`");
    }
    let mut params: Vec<(RIdentifier, Option<RExp>)> = Vec::new();
    let mut q = skip_ws(s, p + 1, true);
    let ghost q0 = q as int;
    if peek(s, q) != ')' {
        assert(params_model(params@) =~= Seq::<(Seq<char>, Option<SExp>)>::empty());
        assert(sp_params(c, Seq::empty(), q0) is None ==> sp_function(c, pos as int, nl) is None);
        loop
            invariant_except_break
                sp_params(c, Seq::empty(), q0) == sp_params(c, params_model(params@), q as int),
            invariant
                s.wf(),
                c == s.chars@,
                pos < q0 <= q <= s.len(),
                forall|k: int| 0 <= k < params@.len() ==> is_identifier((#[trigger] params@[k]).0@) && match params@[k].1 {
                    Some(d) => exp_wf(d),
                    None => true,
                },
                sp_params(c, Seq::empty(), q0) is None ==> sp_function(c, pos as int, nl) is None,
            ensures
                pos < q <= s.len(),
                forall|k: int| 0 <= k < params@.len() ==> is_identifier((#[trigger] params@[k]).0@) && match params@[k].1 {
                    Some(d) => exp_wf(d),
                    None => true,
                },
                sp_params(c, Seq::empty(), q0) == Some((params_model(params@), q as int)),
            decreases s.len() - q,
        {
            let a = skip_ws(s, q, true);
            let e = scan_ident(s, a);
            if e == a {
                return fail(a, "expected a parameter name");
            }
            let name = slice(s, a, e);
            let b = skip_ws(s, e, true);
            let mut after = b;
            let ghost before = params@;
            if assign_len(s, b) == 1 {
                let d = skip_ws(s, b + 1, true);
                match parse_expression(s, d, true) {
                    Ok((x, d2)) => {
                        params.push((name, Some(x)));
                        after = skip_ws(s, d2, true);
                    },
                    Err(err) => {
                        return Err(err);
                    },
                }
            } else {
                params.push((name, None));
            }
            assert(params_model(params@) =~= params_model(before).push(
                (params@[params@.len() - 1].0@, opt_model(params@[params@.len() - 1].1)),
            ));
            let ch = peek(s, after);
            if ch == ',' {
                q = after + 1;
            } else if ch == ')' {
                q = after;
                break;
            } else {
                return fail(after, "expected `,` or `)`");
            }
        }
    } else {
        assert(params_model(params@) =~= Seq::<(Seq<char>, Option<SExp>)>::empty());
    }
    if q >= s.chars.len() {
        return fail(q, "expected `)`");
    }
    let b = skip_ws(s, q + 1, true);
    match parse_body(s, b, nl) {
        Ok((body, q2)) => {
            let f = RExp::Function(params, body);
            proof {
                lemma_function_model(f);
                lemma_lines_model(body);
            }
            Ok((f, q2))
        },
        Err(err) => Err(err),
    }
}

/// The arguments of a call, after its `(`, up to and with its `)`.
fn parse_args(s: &Src, pos: usize) -> (r: Parsed<Vec<(Option<RIdentifier>, RExp)>>)
    requires
        s.wf(),
        pos <= s.len(),
    ensures
        r matches Ok((x, q)) ==> pos < q <= s.len() && forall|k: int| 0 <= k < x@.len() ==> name_wf(#[trigger] x@[k].0) && exp_wf(x@[k].1),
        match r {
            Ok((x, q)) => sp_args(s.chars@, pos as int) == Some((args_model(x@), q as int)),
            Err(_) => sp_args(s.chars@, pos as int) is None,
        },
    decreases s.len() - pos, 5nat,
{
    let ghost c = s.chars@;
    let mut args: Vec<(Option<RIdentifier>, RExp)> = Vec::new();
    assert(args_model(args@) =~= Seq::<(Option<Seq<char>>, SExp)>::empty());
    let first = skip_ws(s, pos, true);
    if peek(s, first) == ')' {
        return Ok((args, first + 1));
    }
    let mut q = first;
    loop
        invariant
            s.wf(),
            c == s.chars@,
            pos <= first <= q <= s.len(),
            forall|k: int| 0 <= k < args@.len() ==> name_wf(#[trigger] args@[k].0) && exp_wf(args@[k].1),
            sp_args(c, pos as int) == sp_args_from(c, args_model(args@), q as int),
        decreases s.len() - q,
    {
        let p = skip_ws(s, q, true);
        let e = scan_ident(s, p);
        let mut name: Option<RIdentifier> = None;
        let mut start = p;
        if e > p {
            let a = skip_ws(s, e, true);
            if assign_len(s, a) == 1 {
                name = Some(slice(s, p, e));
                start = skip_ws(s, a + 1, true);
            }
        }
        match parse_expression(s, start, true) {
            Ok((x, q2)) => {
                let ghost before = args@;
                args.push((name, x));
                assert(args_model(args@) =~= args_model(before).push(
                    (name_model(args@[args@.len() - 1].0), exp_model(args@[args@.len() - 1].1)),
                ));
                let after = skip_ws(s, q2, true);
                let ch = peek(s, after);
                if ch == ',' {
                    q = after + 1;
                } else if ch == ')' {
                    return Ok((args, after + 1));
                } else {
                    return fail(after, "expected `,` or `)`");
                }
            },
            Err(err) => {
                return Err(err);
            },
        }
    }
}

/// The slots of an index after its `[` (or `[[`), up to and with its `]`
/// (or `]]`). A slot left empty is `None`.
fn parse_slots(s: &Src, pos: usize, double: bool) -> (r: Parsed<Vec<Option<RExp>>>)
    requires
        s.wf(),
        pos <= s.len(),
    ensures
        r matches Ok((x, q)) ==> pos < q <= s.len() && forall|k: int| 0 <= k < x@.len() ==> match #[trigger] x@[k] {
            Some(y) => exp_wf(y),
            None => true,
        },
        match r {
            Ok((x, q)) => sp_slots(s.chars@, Seq::empty(), pos as int, double) == Some((slots_model(x@), q as int)),
            Err(_) => sp_slots(s.chars@, Seq::empty(), pos as int, double) is None,
        },
    decreases s.len() - pos, 5nat,
{
    let ghost c = s.chars@;
    let mut slots: Vec<Option<RExp>> = Vec::new();
    assert(slots_model(slots@) =~= Seq::<Option<SExp>>::empty());
    let mut q = pos;
    loop
        invariant
            s.wf(),
            c == s.chars@,
            pos <= q <= s.len(),
            forall|k: int| 0 <= k < slots@.len() ==> match #[trigger] slots@[k] {
                Some(y) => exp_wf(y),
                None => true,
            },
            sp_slots(c, Seq::empty(), pos as int, double) == sp_slots(c, slots_model(slots@), q as int, double),
        decreases s.len() - q,
    {
        let p = skip_ws(s, q, true);
        let ch = peek(s, p);
        let mut end = p;
        let ghost before = slots@;
        if ch == ',' || ch == ']' {
            slots.push(None);
        } else {
            match parse_expression(s, p, true) {
                Ok((x, q2)) => {
                    slots.push(Some(x));
                    end = skip_ws(s, q2, true);
                },
                Err(err) => {
                    return Err(err);
                },
            }
        }
        assert(slots_model(slots@) =~= slots_model(before).push(opt_model(slots@[slots@.len() - 1])));
        let d = peek(s, end);
        if d == ',' {
            q = end + 1;
        } else if d == ']' {
            if !double {
                return Ok((slots, end + 1));
            } else if peek(s, end + 1) == ']' {
                return Ok((slots, end + 2));
            } else {
                return fail(end + 1, "expected `]]`");
            }
        } else {
            return fail(end, "expected `,` or `]`");
        }
    }
}

/// The name after a `$`: a variable, or a quoted constant.
fn parse_column_name(s: &Src, pos: usize) -> (r: Parsed<RExp>)
    requires
        s.wf(),
        pos <= s.len(),
    ensures
        r matches Ok((x, q)) ==> pos < q <= s.len() && exp_wf(x),
        match r {
            Ok((x, q)) => sp_column_name(s.chars@, pos as int) == Some((exp_model(x), q as int)),
            Err(_) => sp_column_name(s.chars@, pos as int) is None,
        },
{
    let e = scan_ident(s, pos);
    if e > pos {
        return Ok((RExp::Variable(slice(s, pos, e)), e));
    }
    let c = peek(s, pos);
    if pos < s.chars.len() && (c == '\'' || c == '"' || c == '`') {
        return match scan_quoted(s, pos) {
            Some(e) => Ok((RExp::Constant(slice(s, pos, e)), e)),
            None => fail(pos, "unterminated string"),
        };
    }
    fail(pos, "expected a column name")
}

/// An expression at `pos`: a primary expression, then any calls, column
/// accesses, indexing, formulae and binary operators that follow it. A
/// binary operator takes all that follows as its right operand.
fn parse_expression(s: &Src, pos: usize, nl: bool) -> (r: Parsed<RExp>)
    requires
        s.wf(),
        pos <= s.len(),
    ensures
        r matches Ok((x, q)) ==> pos < q <= s.len() && exp_wf(x),
        match r {
            Ok((x, q)) => sp_expression(s.chars@, pos as int, nl) == Some((exp_model(x), q as int)),
            Err(_) => sp_expression(s.chars@, pos as int, nl) is None,
        },
    decreases s.len() - pos, 2nat,
{
    let ghost c = s.chars@;
    let (mut e, mut q) = match parse_primary(s, pos, nl) {
        Ok(x) => x,
        Err(err) => {
            return Err(err);
        },
    };
    loop
        invariant
            s.wf(),
            c == s.chars@,
            pos < q <= s.len(),
            exp_wf(e),
            sp_expression(c, pos as int, nl) == sp_suffixes(c, exp_model(e), q as int, nl),
        decreases s.len() - q,
    {
        let p = skip_ws(s, q, nl);
        let ch = peek(s, p);
        let ghost m = exp_model(e);
        if ch == '(' {
            match parse_args(s, p + 1) {
                Ok((args, q2)) => {
                    e = RExp::Call(Box::new(e), args);
                    proof {
                        lemma_call_model(e);
                    }
                    q = q2;
                },
                Err(err) => {
                    return Err(err);
                },
            }
        } else if ch == '$' {
            let a = skip_ws(s, p + 1, false);
            match parse_column_name(s, a) {
                Ok((x, q2)) => {
                    e = RExp::Column(Box::new(e), Box::new(x));
                    q = q2;
                },
                Err(err) => {
                    return Err(err);
                },
            }
        } else if ch == '[' {
            let double = peek(s, p + 1) == '[';
            let a = if double {
                p + 2
            } else {
                p + 1
            };
            match parse_slots(s, a, double) {
                Ok((slots, q2)) => {
                    e = if double {
                        RExp::ListIndex(Box::new(e), slots)
                    } else {
                        RExp::Index(Box::new(e), slots)
                    };
                    proof {
                        lemma_index_model(e);
                    }
                    q = q2;
                },
                Err(err) => {
                    return Err(err);
                },
            }
        } else if ch == '~' {
            let a = skip_ws(s, p + 1, true);
            match parse_expression(s, a, nl) {
                Ok((x, q2)) => {
                    e = RExp::Formula(RFormula::TwoSided(Box::new(e), Box::new(x)));
                    q = q2;
                },
                Err(err) => {
                    return Err(err);
                },
            }
        } else {
            let k = infix_len(s, p);
            if k == 0 {
                return Ok((e, q));
            }
            let op = slice(s, p, p + k);
            let a = skip_ws(s, p + k, true);
            match parse_expression(s, a, nl) {
                Ok((x, q2)) => {
                    e = RExp::Infix(op, Box::new(e), Box::new(x));
                    q = q2;
                },
                Err(err) => {
                    return Err(err);
                },
            }
        }
    }
}

/// `library(name)` after the word `library`: the name and the end.
fn library_name(s: &Src, pos: usize) -> (r: Option<(RIdentifier, usize)>)
    requires
        s.wf(),
        pos <= s.len(),
    ensures
        r matches Some((n, q)) ==> pos < q <= s.len() && is_identifier(n@),
        match r {
            Some((n, q)) => sp_library_name(s.chars@, pos as int) == Some((n@, q as int)),
            None => sp_library_name(s.chars@, pos as int) is None,
        },
{
    let p = skip_ws(s, pos, false);
    let a = skip_ws(s, if p < s.chars.len() { p + 1 } else { p }, true);
    if peek(s, p) != '(' {
        return None;
    }
    let e = scan_ident(s, a);
    if e == a {
        return None;
    }
    let b = skip_ws(s, e, true);
    if peek(s, b) != ')' {
        return None;
    }
    Some((slice(s, a, e), b + 1))
}

/// `(`, an expression, `)`, as after `if` and `while`.
fn parse_condition(s: &Src, pos: usize, nl: bool) -> (r: Parsed<RExp>)
    requires
        s.wf(),
        pos <= s.len(),
    ensures
        r matches Ok((x, q)) ==> pos < q <= s.len() && exp_wf(x),
        match r {
            Ok((x, q)) => sp_condition(s.chars@, pos as int, nl) == Some((exp_model(x), q as int)),
            Err(_) => sp_condition(s.chars@, pos as int, nl) is None,
        },
    decreases s.len() - pos, 5nat,
{
    let p = skip_ws(s, pos, nl);
    if peek(s, p) != '(' {
        return fail(p, "expected `(`");
    }
    let a = skip_ws(s, p + 1, true);
    match parse_expression(s, a, true) {
        Ok((x, q)) => {
            let b = skip_ws(s, q, true);
            if peek(s, b) == ')' {
                Ok((x, b + 1))
            } else {
                fail(b, "expected `)`")
            }
        },
        Err(err) => Err(err),
    }
}

/// An `if` statement after the word `if`; an `else` may follow on a later line.
fn parse_if(s: &Src, pos: usize, nl: bool) -> (r: Parsed<RStmt>)
    requires
        s.wf(),
        pos <= s.len(),
    ensures
        r matches Ok((x, q)) ==> pos < q <= s.len() && stmt_wf(x),
        match r {
            Ok((x, q)) => sp_if(s.chars@, pos as int, nl) == Some((stmt_model(x), q as int)),
            Err(_) => sp_if(s.chars@, pos as int, nl) is None,
        },
    decreases s.len() - pos, 6nat,
{
    let (cond, q) = match parse_condition(s, pos, nl) {
        Ok(x) => x,
        Err(err) => {
            return Err(err);
        },
    };
    let b = skip_ws(s, q, true);
    let (body, q2) = match parse_body(s, b, nl) {
        Ok(x) => x,
        Err(err) => {
            return Err(err);
        },
    };
    proof {
        lemma_lines_model(body);
    }
    let a = skip_ws(s, q2, true);
    let e = scan_ident(s, a);
    if e > a && word_is(s, a, e, "else") {
        let b2 = skip_ws(s, e, true);
        match parse_body(s, b2, nl) {
            Ok((other, q3)) => {
                proof {
                    lemma_lines_model(other);
                }
                Ok((RStmt::If(cond, body, Some(other)), q3))
            },
            Err(err) => Err(err),
        }
    } else {
        Ok((RStmt::If(cond, body, None), q2))
    }
}

/// A `while` statement after the word `while`.
fn parse_while(s: &Src, pos: usize, nl: bool) -> (r: Parsed<RStmt>)
    requires
        s.wf(),
        pos <= s.len(),
    ensures
        r matches Ok((x, q)) ==> pos < q <= s.len() && stmt_wf(x),
        match r {
            Ok((x, q)) => sp_while(s.chars@, pos as int, nl) == Some((stmt_model(x), q as int)),
            Err(_) => sp_while(s.chars@, pos as int, nl) is None,
        },
    decreases s.len() - pos, 6nat,
{
    let (cond, q) = match parse_condition(s, pos, nl) {
        Ok(x) => x,
        Err(err) => {
            return Err(err);
        },
    };
    let b = skip_ws(s, q, true);
    match parse_body(s, b, nl) {
        Ok((body, q2)) => {
            proof {
                lemma_lines_model(body);
            }
            Ok((RStmt::While(cond, body), q2))
        },
        Err(err) => Err(err),
    }
}

/// A `for` statement after the word `for`: `(pattern in range)`, then a body.
fn parse_for(s: &Src, pos: usize, nl: bool) -> (r: Parsed<RStmt>)
    requires
        s.wf(),
        pos <= s.len(),
    ensures
        r matches Ok((x, q)) ==> pos < q <= s.len() && stmt_wf(x),
        match r {
            Ok((x, q)) => sp_for(s.chars@, pos as int, nl) == Some((stmt_model(x), q as int)),
            Err(_) => sp_for(s.chars@, pos as int, nl) is None,
        },
    decreases s.len() - pos, 6nat,
{
    let p = skip_ws(s, pos, nl);
    if peek(s, p) != '(' {
        return fail(p, "expected `(`");
    }
    let a = skip_ws(s, p + 1, true);
    let (pattern, q) = match parse_expression(s, a, true) {
        Ok(x) => x,
        Err(err) => {
            return Err(err);
        },
    };
    let b = skip_ws(s, q, true);
    let e = scan_ident(s, b);
    if !(e > b && word_is(s, b, e, "in")) {
        return fail(b, "expected `in`");
    }
    let c = skip_ws(s, e, true);
    let (range, q2) = match parse_expression(s, c, true) {
        Ok(x) => x,
        Err(err) => {
            return Err(err);
        },
    };
    let d = skip_ws(s, q2, true);
    if peek(s, d) != ')' {
        return fail(d, "expected `)`");
    }
    let f = skip_ws(s, d + 1, true);
    match parse_body(s, f, nl) {
        Ok((body, q3)) => {
            proof {
                lemma_lines_model(body);
            }
            Ok((RStmt::For(pattern, range, body), q3))
        },
        Err(err) => Err(err),
    }
}

/// A statement at `pos`: a control statement, a library load, an assignment
/// (possibly chained: `a = b = 1`), or an expression.
fn parse_statement(s: &Src, pos: usize, nl: bool) -> (r: Parsed<RStmt>)
    requires
        s.wf(),
        pos <= s.len(),
    ensures
        r matches Ok((x, q)) ==> pos < q <= s.len() && stmt_wf(x),
        match r {
            Ok((x, q)) => sp_statement(s.chars@, pos as int, nl) == Some((stmt_model(x), q as int)),
            Err(_) => sp_statement(s.chars@, pos as int, nl) is None,
        },
    decreases s.len() - pos, 3nat,
{
    let ghost c = s.chars@;
    let w = scan_ident(s, pos);
    if w > pos {
        if word_is(s, pos, w, "if") {
            return parse_if(s, w, nl);
        }
        if word_is(s, pos, w, "while") {
            return parse_while(s, w, nl);
        }
        if word_is(s, pos, w, "for") {
            return parse_for(s, w, nl);
        }
        if word_is(s, pos, w, "library") {
            match library_name(s, w) {
                Some((name, q)) => {
                    return Ok((RStmt::Library(name), q));
                },
                None => {},
            }
        }
    }
    let (first, q0) = match parse_expression(s, pos, nl) {
        Ok(x) => x,
        Err(err) => {
            return Err(err);
        },
    };
    let mut targets: Vec<RExp> = Vec::new();
    assert(exps_model(targets@) =~= Seq::<SExp>::empty());
    let mut last = first;
    let mut q = q0;
    loop
        invariant
            s.wf(),
            c == s.chars@,
            pos < q <= s.len(),
            exp_wf(last),
            forall|k: int| 0 <= k < targets@.len() ==> exp_wf(#[trigger] targets@[k]),
            sp_statement(c, pos as int, nl) == sp_targets(c, exps_model(targets@), exp_model(last), q as int, nl),
        ensures
            pos < q <= s.len(),
            exp_wf(last),
            forall|k: int| 0 <= k < targets@.len() ==> exp_wf(#[trigger] targets@[k]),
            sp_statement(c, pos as int, nl) == Some((sp_assignment(exps_model(targets@), exp_model(last)), q as int)),
        decreases s.len() - q,
    {
        let p = skip_ws(s, q, nl);
        let k = assign_len(s, p);
        if k == 0 {
            break;
        }
        let a = skip_ws(s, p + k, true);
        match parse_expression(s, a, nl) {
            Ok((x, q2)) => {
                let ghost before = targets@;
                let ghost lm = exp_model(last);
                targets.push(last);
                assert(exps_model(targets@) =~= exps_model(before).push(lm));
                last = x;
                q = q2;
            },
            Err(err) => {
                return Err(err);
            },
        }
    }
    if targets.len() == 0 {
        Ok((RStmt::Expression(last), q))
    } else {
        let ghost all = targets@;
        let left = targets.remove(0);
        assert(forall|k: int| 0 <= k < targets@.len() ==> targets@[k] == all[k + 1]);
        let st = RStmt::Assignment(left, targets, last);
        proof {
            lemma_assignment_model(st);
            assert(exps_model(targets@) =~= exps_model(all).subrange(1, all.len() as int));
        }
        Ok((st, q))
    }
}

/// A body: a braced block, or a single statement.
fn parse_body(s: &Src, pos: usize, nl: bool) -> (r: Parsed<Lines>)
    requires
        s.wf(),
        pos <= s.len(),
    ensures
        r matches Ok((x, q)) ==> pos < q <= s.len() && lines_wf(x),
        match r {
            Ok((x, q)) => sp_body(s.chars@, pos as int, nl) == Some((stmts_model(x.0@), q as int)),
            Err(_) => sp_body(s.chars@, pos as int, nl) is None,
        },
    decreases s.len() - pos, 4nat,
{
    if peek(s, pos) == '{' {
        parse_block(s, pos + 1)
    } else {
        match parse_statement(s, pos, nl) {
            Ok((stmt, q)) => {
                let l = Lines(vec![stmt]);
                assert(stmts_model(l.0@) =~= seq![stmt_model(stmt)]);
                Ok((l, q))
            },
            Err(err) => Err(err),
        }
    }
}

/// A comment, or a statement with an optional comment after it.
fn parse_line_item(s: &Src, pos: usize) -> (r: Parsed<RStmt>)
    requires
        s.wf(),
        pos <= s.len(),
    ensures
        r matches Ok((x, q)) ==> pos < q <= s.len() && stmt_wf(x),
        match r {
            Ok((x, q)) => sp_line_item(s.chars@, pos as int) == Some((stmt_model(x), q as int)),
            Err(_) => sp_line_item(s.chars@, pos as int) is None,
        },
    decreases s.len() - pos, 4nat,
{
    if peek(s, pos) == '#' {
        let e = line_end(s, pos);
        return Ok((RStmt::Comment(slice(s, pos, e)), e));
    }
    match parse_statement(s, pos, false) {
        Ok((stmt, q)) => {
            let p = skip_ws(s, q, false);
            if peek(s, p) == '#' {
                let e = line_end(s, p);
                Ok((RStmt::TailComment(Box::new(stmt), slice(s, p, e)), e))
            } else {
                Ok((stmt, q))
            }
        },
        Err(err) => Err(err),
    }
}

/// Where the next item starts after an item that ended at `pos`: past a line
/// break, or past a `;` and a line break right after it. `None` if something
/// else follows on the same line.
fn next_item(s: &Src, pos: usize, closing: bool) -> (r: Option<usize>)
    requires
        s.wf(),
        pos <= s.len(),
    ensures
        r matches Some(q) ==> pos <= q <= s.len(),
        match r {
            Some(q) => sp_next_item(s.chars@, pos as int, closing) == Some(q as int),
            None => sp_next_item(s.chars@, pos as int, closing) is None,
        },
{
    let p = skip_ws(s, pos, false);
    let c = peek(s, p);
    if p >= s.chars.len() || (closing && c == '}') {
        Some(p)
    } else if c == '\n' {
        Some(p + 1)
    } else if c == ';' {
        let a = skip_ws(s, p + 1, false);
        if peek(s, a) == '\n' {
            Some(a + 1)
        } else {
            Some(p + 1)
        }
    } else {
        None
    }
}

/// The lines of a block after its `{`, up to and with its `}`. A line break
/// right after the `{` opens no line; each blank line is an `Empty` statement.
fn parse_block(s: &Src, pos: usize) -> (r: Parsed<Lines>)
    requires
        s.wf(),
        pos <= s.len(),
    ensures
        r matches Ok((x, q)) ==> pos < q <= s.len() && lines_wf(x),
        match r {
            Ok((x, q)) => sp_block(s.chars@, pos as int) == Some((stmts_model(x.0@), q as int)),
            Err(_) => sp_block(s.chars@, pos as int) is None,
        },
    decreases s.len() - pos, 5nat,
{
    let ghost c = s.chars@;
    let mut out: Vec<RStmt> = Vec::new();
    assert(stmts_model(out@) =~= Seq::<SStmt>::empty());
    let mut q = skip_ws(s, pos, false);
    if peek(s, q) == '\n' {
        q = q + 1;
    }
    loop
        invariant
            s.wf(),
            c == s.chars@,
            pos <= q <= s.len(),
            forall|k: int| 0 <= k < out@.len() ==> stmt_wf(#[trigger] out@[k]),
            sp_block(c, pos as int) == sp_block_lines(c, stmts_model(out@), q as int),
        decreases s.len() - q,
    {
        let p = skip_ws(s, q, false);
        let ch = peek(s, p);
        let ghost before = out@;
        if p >= s.chars.len() {
            return fail(p, "expected `}`");
        } else if ch == '}' {
            return Ok((Lines(out), p + 1));
        } else if ch == '\n' {
            out.push(RStmt::Empty);
            assert(stmts_model(out@) =~= stmts_model(before).push(SStmt::Empty));
            q = p + 1;
        } else if ch == ';' {
            q = p + 1;
        } else {
            match parse_line_item(s, p) {
                Ok((stmt, q2)) => {
                    let ghost sm = stmt_model(stmt);
                    out.push(stmt);
                    assert(stmts_model(out@) =~= stmts_model(before).push(sm));
                    match next_item(s, q2, true) {
                        Some(q3) => {
                            q = q3;
                        },
                        None => {
                            return fail(q2, "expected the end of the statement");
                        },
                    }
                },
                Err(err) => {
                    return Err(err);
                },
            }
        }
    }
}

/// Line and column, both counted from 1, of offset `i`.
pub open spec fn sp_locate(c: Seq<char>, i: int) -> (int, int)
    decreases i,
{
    if i <= 0 || i > c.len() {
        (1, 1)
    } else {
        let (line, column) = sp_locate(c, i - 1);
        if c[i - 1] == '\n' {
            (line + 1, 1)
        } else {
            (line, column + 1)
        }
    }
}

/// Line and column, both from 1, of the character at `pos`.
fn locate(s: &Src, pos: usize) -> (r: (usize, usize))
    requires
        s.wf(),
        pos <= s.len(),
    ensures
        (r.0 as int, r.1 as int) == sp_locate(s.chars@, pos as int),
{
    let mut line: usize = 1;
    let mut column: usize = 1;
    let mut i: usize = 0;
    while i < pos
        invariant
            s.wf(),
            pos <= s.len(),
            i <= pos,
            line <= i + 1,
            column <= i + 1,
            (line as int, column as int) == sp_locate(s.chars@, i as int),
        decreases pos - i,
    {
        if s.chars[i] == '\n' {
            line = line + 1;
            column = 1;
        } else {
            column = column + 1;
        }
        i = i + 1;
    }
    (line, column)
}

/// The error, at `pos`, with its line and column filled in.
fn located(s: &Src, pos: usize, message: String) -> (r: ParseError)
    requires
        s.wf(),
        pos <= s.len(),
    ensures
        r.position == pos,
        (r.line as int, r.column as int) == sp_locate(s.chars@, pos as int),
{
    let (line, column) = locate(s, pos);
    ParseError { position: pos, line, column, message }
}

/// Parses a whole source text into its statements, in source order: exactly
/// what `parse_spec` gives, and an error exactly where it gives none. Each
/// line break outside brackets ends a line; a blank line is an `Empty`
/// statement, a blank end of the text is none.
pub fn parse(code: &str) -> (r: Result<Vec<RStmt>, ParseError>)
    ensures
        code@.len() + 8 <= usize::MAX ==> ((r is Ok) == (parse_spec(code@) is Some)),
        r matches Ok(stmts) ==> parse_spec(code@) == Some(stmts_model(stmts@)),
        r matches Ok(stmts) ==> forall|k: int| 0 <= k < stmts@.len() ==> stmt_wf(#[trigger] stmts@[k]),
        r matches Err(e) ==> e.position <= code@.len() && (e.line as int, e.column as int) == sp_locate(code@, e.position as int),
{
    let n = code.unicode_len();
    if n > usize::MAX - 8 {
        return Err(ParseError { position: 0, line: 1, column: 1, message: String::from_str("input too large") });
    }
    let mut chars: Vec<char> = Vec::new();
    let mut i: usize = 0;
    while i < n
        invariant
            n == code@.len(),
            i <= n,
            chars@ == code@.subrange(0, i as int),
        decreases n - i,
    {
        chars.push(code.get_char(i));
        i = i + 1;
    }
    assert(chars@ =~= code@);
    let s = Src { text: code, chars };
    let ghost c = code@;
    let mut out: Vec<RStmt> = Vec::new();
    assert(stmts_model(out@) =~= Seq::<SStmt>::empty());
    let mut q: usize = 0;
    loop
        invariant
            s.wf(),
            s.chars@ == code@,
            c == code@,
            q <= s.len(),
            forall|k: int| 0 <= k < out@.len() ==> stmt_wf(#[trigger] out@[k]),
            parse_spec(c) == sp_file_lines(c, stmts_model(out@), q as int),
        ensures
            forall|k: int| 0 <= k < out@.len() ==> stmt_wf(#[trigger] out@[k]),
            parse_spec(c) == Some(stmts_model(out@)),
        decreases s.len() - q,
    {
        let p = skip_ws(&s, q, false);
        let ch = peek(&s, p);
        let ghost before = out@;
        if p >= s.chars.len() {
            break;
        } else if ch == '\n' {
            out.push(RStmt::Empty);
            assert(stmts_model(out@) =~= stmts_model(before).push(SStmt::Empty));
            q = p + 1;
        } else if ch == ';' {
            q = p + 1;
        } else {
            match parse_line_item(&s, p) {
                Ok((stmt, q2)) => {
                    let ghost sm = stmt_model(stmt);
                    out.push(stmt);
                    assert(stmts_model(out@) =~= stmts_model(before).push(sm));
                    match next_item(&s, q2, false) {
                        Some(q3) => {
                            q = q3;
                        },
                        None => {
                            return Err(located(&s, q2, String::from_str("expected the end of the line")));
                        },
                    }
                },
                Err(err) => {
                    let at = if err.position > s.chars.len() {
                        s.chars.len()
                    } else {
                        err.position
                    };
                    return Err(located(&s, at, err.message));
                },
            }
        }
    }
    Ok(out)
}

} // verus!
