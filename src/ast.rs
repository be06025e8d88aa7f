//! The syntax tree of the input language: statements, expressions, formulae.

use vstd::prelude::*;

use crate::text::str_eq;

verus! {

/// An identifier of the input language.
pub type RIdentifier = String;

/// An ordered sequence of statements: a file, or the body of a block.
#[derive(Eq, PartialEq, Debug, Hash)]
pub struct Lines(pub Vec<RStmt>);

impl Lines {
    /// The statements, in source order.
    pub fn vec(&self) -> (r: &Vec<RStmt>)
        ensures
            r == &self.0,
    {
        &self.0
    }
}

impl From<Vec<RStmt>> for Lines {
    fn from(other: Vec<RStmt>) -> (r: Lines)
        ensures
            r.0 == other,
    {
        Lines(other)
    }
}

impl vstd::std_specs::convert::FromSpecImpl<Vec<RStmt>> for Lines {
    open spec fn obeys_from_spec() -> bool {
        true
    }

    open spec fn from_spec(v: Vec<RStmt>) -> Lines {
        Lines(v)
    }
}

/// A statement: one line of a script, or one element of a block.
#[derive(PartialEq, Eq, Debug, Hash)]
pub enum RStmt {
    Empty,
    Comment(String),
    TailComment(Box<RStmt>, String),
    /// Left-most target, further targets of a chained assignment, value.
    Assignment(RExp, Vec<RExp>, RExp),
    If(RExp, Lines, Option<Lines>),
    While(RExp, Lines),
    For(RExp, RExp, Lines),
    Library(RIdentifier),
    Expression(RExp),
}

/// The expression that a statement binds, if it binds one.
pub open spec fn stmt_expression(s: RStmt) -> Option<RExp>
    decreases s,
{
    match s {
        RStmt::Assignment(_, _, e) => Some(e),
        RStmt::Expression(e) => Some(e),
        RStmt::TailComment(inner, _) => stmt_expression(*inner),
        _ => None,
    }
}

impl RStmt {
    /// The right-most expression that the statement binds: the value of an
    /// assignment, or a bare expression (also under a tail comment).
    pub fn expression(&self) -> (r: Option<&RExp>)
        ensures
            match r {
                Some(e) => stmt_expression(*self) == Some(*e),
                None => stmt_expression(*self) is None,
            },
        decreases self,
    {
        match self {
            RStmt::Assignment(_, _, expression) => Some(expression),
            RStmt::Expression(expression) => Some(expression),
            RStmt::TailComment(statement, _) => statement.expression(),
            RStmt::If(_, _, _) => None,
            RStmt::For(_, _, _) => None,
            RStmt::While(_, _) => None,
            RStmt::Empty => None,
            RStmt::Comment(_) => None,
            RStmt::Library(_) => None,
        }
    }
}

/// An expression of the input language.
#[derive(PartialEq, Eq, Debug, Hash)]
pub enum RExp {
    Constant(String),
    Variable(RIdentifier),
    Call(Box<RExp>, Vec<(Option<RIdentifier>, RExp)>),
    Column(Box<RExp>, Box<RExp>),
    Index(Box<RExp>, Vec<Option<RExp>>),
    ListIndex(Box<RExp>, Vec<Option<RExp>>),
    Formula(RFormula),
    Function(Vec<(RIdentifier, Option<RExp>)>, Lines),
    Prefix(String, Box<RExp>),
    Infix(String, Box<RExp>, Box<RExp>),
}

/// A formula: `~ rhs` or `lhs ~ rhs`.
#[derive(PartialEq, Eq, Debug, Hash)]
pub enum RFormula {
    OneSided(Box<RExp>),
    TwoSided(Box<RExp>, Box<RExp>),
}

/// The calls whose single argument names the variable that an assignment to
/// them changes: `colnames(x) <- ...` changes `x`.
pub open spec fn is_name_setter(name: Seq<char>) -> bool {
    name == "colnames"@ || name == "rownames"@ || name == "names"@
}

/// The variable that an assignment to `e` changes, if any.
pub open spec fn variable_name(e: RExp) -> Option<Seq<char>>
    decreases e,
{
    match e {
        RExp::Variable(name) => Some(name@),
        RExp::Column(left, _) => variable_name(*left),
        RExp::Index(left, _) => variable_name(*left),
        RExp::Call(callee, args) => {
            if args.len() == 1 {
                match variable_name(*callee) {
                    Some(f) => if is_name_setter(f) {
                        variable_name(args@[0].1)
                    } else {
                        None
                    },
                    None => None,
                }
            } else {
                None
            }
        },
        _ => None,
    }
}

impl RExp {
    /// A constant with the given text.
    pub fn constant(content: &str) -> (r: RExp)
        ensures
            r matches RExp::Constant(c) && c@ == content@,
    {
        RExp::Constant(String::from_str(content))
    }

    /// A variable with the given name.
    pub fn variable(content: &str) -> (r: RExp)
        ensures
            r matches RExp::Variable(v) && v@ == content@,
    {
        RExp::Variable(String::from_str(content))
    }

    /// A boxed constant with the given text.
    pub fn boxed_constant(content: &str) -> (r: Box<RExp>)
        ensures
            *r matches RExp::Constant(c) && c@ == content@,
    {
        Box::new(RExp::constant(content))
    }

    /// A boxed variable with the given name.
    pub fn boxed_variable(content: &str) -> (r: Box<RExp>)
        ensures
            *r matches RExp::Variable(v) && v@ == content@,
    {
        Box::new(RExp::variable(content))
    }

    /// The variable that an assignment to this expression changes: the
    /// variable itself, the one under a column access or an index, or the
    /// argument of `colnames`, `rownames` or `names` called with one argument.
    pub fn extract_variable_name(&self) -> (r: Option<RIdentifier>)
        ensures
            match r {
                Some(name) => variable_name(*self) == Some(name@),
                None => variable_name(*self) is None,
            },
        decreases self,
    {
        match self {
            RExp::Variable(name) => Some(name.clone()),
            RExp::Column(left, _) => left.extract_variable_name(),
            RExp::Index(left, _) => left.extract_variable_name(),
            RExp::Call(callee, args) => {
                if args.len() != 1 {
                    return None;
                }
                match callee.extract_variable_name() {
                    Some(f) => {
                        let fs = f.as_str();
                        if str_eq(fs, "colnames") || str_eq(fs, "rownames") || str_eq(fs, "names") {
                            args[0].1.extract_variable_name()
                        } else {
                            None
                        }
                    },
                    None => None,
                }
            },
            _ => None,
        }
    }
}


/// A character that may begin an identifier.
pub open spec fn is_ident_start(c: char) -> bool {
    ('a' <= c && c <= 'z') || ('A' <= c && c <= 'Z') || c == '.' || c == '_'
}

/// A character that may continue an identifier; colons join the parts of a
/// namespaced name (`ns::f`).
pub open spec fn is_ident_char(c: char) -> bool {
    is_ident_start(c) || ('0' <= c && c <= '9') || c == ':'
}

/// A plain identifier: letters, digits, `.`, `_` and `:`, not starting with
/// a digit or a colon.
pub open spec fn is_identifier(s: Seq<char>) -> bool {
    &&& s.len() > 0
    &&& is_ident_start(s[0])
    &&& forall|i: int| 0 < i < s.len() ==> is_ident_char(#[trigger] s[i])
}

/// An optional argument name is an identifier where present.
pub open spec fn name_wf(n: Option<String>) -> bool {
    match n {
        Some(s) => is_identifier(s@),
        None => true,
    }
}

/// An expression as the parser builds it: names are identifiers, constants
/// are not empty, prefix operators are `!`, `-` or `+`, binary operators are
/// not empty; and so on all the way down.
pub open spec fn exp_wf(e: RExp) -> bool
    decreases e, 1nat,
{
    match e {
        RExp::Constant(c) => c@.len() > 0,
        RExp::Variable(v) => is_identifier(v@),
        RExp::Call(callee, args) => exp_wf(*callee) && forall|i: int| 0 <= i < args@.len()
            ==> name_wf(#[trigger] args@[i].0) && exp_wf(args@[i].1),
        RExp::Column(l, r) => exp_wf(*l) && exp_wf(*r),
        RExp::Index(l, slots) | RExp::ListIndex(l, slots) => exp_wf(*l) && forall|i: int| 0 <= i < slots@.len()
            ==> match #[trigger] slots@[i] {
                Some(x) => exp_wf(x),
                None => true,
            },
        RExp::Formula(RFormula::OneSided(r)) => exp_wf(*r),
        RExp::Formula(RFormula::TwoSided(l, r)) => exp_wf(*l) && exp_wf(*r),
        RExp::Function(params, body) => lines_wf(body) && forall|i: int| 0 <= i < params@.len()
            ==> is_identifier((#[trigger] params@[i]).0@) && match params@[i].1 {
                Some(d) => exp_wf(d),
                None => true,
            },
        RExp::Prefix(op, x) => (op@ == seq!['!'] || op@ == seq!['-'] || op@ == seq!['+']) && exp_wf(*x),
        RExp::Infix(op, l, r) => op@.len() > 0 && exp_wf(*l) && exp_wf(*r),
    }
}

/// A comment's text: a `#` and what follows it on its line.
pub open spec fn comment_wf(t: Seq<char>) -> bool {
    t.len() > 0 && t[0] == '#' && forall|i: int| 0 <= i < t.len() ==> #[trigger] t[i] != '\n'
}

/// A block whose statements are all well formed.
pub open spec fn lines_wf(l: Lines) -> bool
    decreases l, 0nat,
{
    forall|i: int| 0 <= i < l.0@.len() ==> stmt_wf(#[trigger] l.0@[i])
}

/// A statement as the parser builds it, with all its parts well formed.
pub open spec fn stmt_wf(s: RStmt) -> bool
    decreases s, 1nat,
{
    match s {
        RStmt::Empty => true,
        RStmt::Comment(t) => comment_wf(t@),
        RStmt::TailComment(inner, t) => stmt_wf(*inner) && comment_wf(t@),
        RStmt::Assignment(l, more, r) => exp_wf(l) && exp_wf(r) && forall|i: int| 0 <= i < more@.len()
            ==> exp_wf(#[trigger] more@[i]),
        RStmt::If(c, body, other) => exp_wf(c) && lines_wf(body) && match other {
            Some(o) => lines_wf(o),
            None => true,
        },
        RStmt::While(c, body) => exp_wf(c) && lines_wf(body),
        RStmt::For(v, r, body) => exp_wf(v) && exp_wf(r) && lines_wf(body),
        RStmt::Library(n) => is_identifier(n@),
        RStmt::Expression(e) => exp_wf(e),
    }
}

/// The mathematical form of an expression: strings as character sequences,
/// lists as sequences.
pub enum SExp {
    Constant(Seq<char>),
    Variable(Seq<char>),
    Call(Box<SExp>, Seq<(Option<Seq<char>>, SExp)>),
    Column(Box<SExp>, Box<SExp>),
    Index(Box<SExp>, Seq<Option<SExp>>),
    ListIndex(Box<SExp>, Seq<Option<SExp>>),
    OneSided(Box<SExp>),
    TwoSided(Box<SExp>, Box<SExp>),
    Function(Seq<(Seq<char>, Option<SExp>)>, Seq<SStmt>),
    Prefix(Seq<char>, Box<SExp>),
    Infix(Seq<char>, Box<SExp>, Box<SExp>),
}

/// The mathematical form of a statement.
pub enum SStmt {
    Empty,
    Comment(Seq<char>),
    TailComment(Box<SStmt>, Seq<char>),
    Assignment(SExp, Seq<SExp>, SExp),
    If(SExp, Seq<SStmt>, Option<Seq<SStmt>>),
    While(SExp, Seq<SStmt>),
    For(SExp, SExp, Seq<SStmt>),
    Library(Seq<char>),
    Expression(SExp),
}

pub open spec fn name_model(n: Option<String>) -> Option<Seq<char>> {
    match n {
        Some(s) => Some(s@),
        None => None,
    }
}

/// The mathematical form of an expression value.
pub open spec fn exp_model(e: RExp) -> SExp
    decreases e, 1nat,
{
    match e {
        RExp::Constant(c) => SExp::Constant(c@),
        RExp::Variable(v) => SExp::Variable(v@),
        RExp::Call(callee, args) => SExp::Call(
            Box::new(exp_model(*callee)),
            Seq::new(args@.len(), |i: int| if 0 <= i < args@.len() {
                (name_model(args@[i].0), exp_model(args@[i].1))
            } else {
                (None, SExp::Constant(Seq::empty()))
            }),
        ),
        RExp::Column(l, r) => SExp::Column(Box::new(exp_model(*l)), Box::new(exp_model(*r))),
        RExp::Index(l, slots) => SExp::Index(Box::new(exp_model(*l)), Seq::new(slots@.len(), |i: int| if 0 <= i < slots@.len() {
            match slots@[i] {
                Some(x) => Some(exp_model(x)),
                None => None,
            }
        } else {
            None
        })),
        RExp::ListIndex(l, slots) => SExp::ListIndex(Box::new(exp_model(*l)), Seq::new(slots@.len(), |i: int| if 0 <= i < slots@.len() {
            match slots@[i] {
                Some(x) => Some(exp_model(x)),
                None => None,
            }
        } else {
            None
        })),
        RExp::Formula(RFormula::OneSided(r)) => SExp::OneSided(Box::new(exp_model(*r))),
        RExp::Formula(RFormula::TwoSided(l, r)) => SExp::TwoSided(Box::new(exp_model(*l)), Box::new(exp_model(*r))),
        RExp::Function(params, body) => SExp::Function(
            Seq::new(params@.len(), |i: int| if 0 <= i < params@.len() {
                (params@[i].0@, match params@[i].1 {
                    Some(d) => Some(exp_model(d)),
                    None => None,
                })
            } else {
                (Seq::empty(), None)
            }),
            lines_model(body),
        ),
        RExp::Prefix(op, x) => SExp::Prefix(op@, Box::new(exp_model(*x))),
        RExp::Infix(op, l, r) => SExp::Infix(op@, Box::new(exp_model(*l)), Box::new(exp_model(*r))),
    }
}

/// The mathematical form of a block: its statements' forms.
pub open spec fn lines_model(l: Lines) -> Seq<SStmt>
    decreases l, 0nat,
{
    Seq::new(l.0@.len(), |i: int| if 0 <= i < l.0@.len() {
        stmt_model(l.0@[i])
    } else {
        SStmt::Empty
    })
}

/// The mathematical form of a statement value.
pub open spec fn stmt_model(s: RStmt) -> SStmt
    decreases s, 1nat,
{
    match s {
        RStmt::Empty => SStmt::Empty,
        RStmt::Comment(t) => SStmt::Comment(t@),
        RStmt::TailComment(inner, t) => SStmt::TailComment(Box::new(stmt_model(*inner)), t@),
        RStmt::Assignment(l, more, r) => SStmt::Assignment(
            exp_model(l),
            Seq::new(more@.len(), |i: int| if 0 <= i < more@.len() {
                exp_model(more@[i])
            } else {
                SExp::Constant(Seq::empty())
            }),
            exp_model(r),
        ),
        RStmt::If(c, body, other) => SStmt::If(exp_model(c), lines_model(body), match other {
            Some(o) => Some(lines_model(o)),
            None => None,
        }),
        RStmt::While(c, body) => SStmt::While(exp_model(c), lines_model(body)),
        RStmt::For(v, r, body) => SStmt::For(exp_model(v), exp_model(r), lines_model(body)),
        RStmt::Library(n) => SStmt::Library(n@),
        RStmt::Expression(e) => SStmt::Expression(exp_model(e)),
    }
}

/// The forms of a list of statements.
pub open spec fn stmts_model(v: Seq<RStmt>) -> Seq<SStmt> {
    Seq::new(v.len(), |i: int| stmt_model(v[i]))
}
} // verus!
