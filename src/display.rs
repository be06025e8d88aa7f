//! The pretty-printed source form of expressions and statements. Hypotheses
//! are compared by this form, so it is stated exactly.

use vstd::prelude::*;

use crate::ast::{Lines, RExp, RFormula, RStmt};

verus! {

broadcast use vstd::std_specs::vec::group_vec_axioms, vstd::seq::group_seq_axioms;

/// `name = ` before a named argument, nothing before a positional one.
pub open spec fn show_arg_name(name: Option<String>) -> Seq<char> {
    match name {
        Some(n) => n@ + " = "@,
        None => Seq::empty(),
    }
}

/// The printed form of an expression.
pub open spec fn show_exp(e: RExp) -> Seq<char>
    decreases e, 1nat, 0nat,
{
    match e {
        RExp::Constant(c) => c@,
        RExp::Variable(v) => v@,
        RExp::Call(callee, args) => show_exp(*callee) + "("@ + show_args(e, args.len() as nat) + ")"@,
        RExp::Column(l, r) => show_exp(*l) + "$"@ + show_exp(*r),
        RExp::Index(l, slots) => show_exp(*l) + "["@ + show_slots(e, slots.len() as nat) + "]"@,
        RExp::ListIndex(l, slots) => show_exp(*l) + "[["@ + show_slots(e, slots.len() as nat) + "]]"@,
        RExp::Formula(RFormula::OneSided(r)) => "~ "@ + show_exp(*r),
        RExp::Formula(RFormula::TwoSided(l, r)) => show_exp(*l) + " ~ "@ + show_exp(*r),
        RExp::Function(params, body) => "function ("@ + show_params(e, params.len() as nat) + ") {\n"@
            + show_lines(body) + "\n}"@,
        RExp::Prefix(op, x) => op@ + show_exp(*x),
        RExp::Infix(op, l, r) => show_exp(*l) + " "@ + op@ + " "@ + show_exp(*r),
    }
}

/// The first `k` arguments of the call `e`, joined by `, `.
pub open spec fn show_args(e: RExp, k: nat) -> Seq<char>
    decreases e, 0nat, k,
{
    match e {
        RExp::Call(_, args) => if k == 0 || k > args.len() {
            Seq::empty()
        } else {
            let a = args@[k - 1];
            let item = show_arg_name(a.0) + show_exp(a.1);
            if k == 1 {
                item
            } else {
                show_args(e, (k - 1) as nat) + ", "@ + item
            }
        },
        _ => Seq::empty(),
    }
}

/// The first `k` slots of the index `e`, joined by `, `; an empty slot
/// prints as nothing.
pub open spec fn show_slots(e: RExp, k: nat) -> Seq<char>
    decreases e, 0nat, k,
{
    match e {
        RExp::Index(_, slots) | RExp::ListIndex(_, slots) => if k == 0 || k > slots.len() {
            Seq::empty()
        } else {
            let item = match slots@[k - 1] {
                Some(x) => show_exp(x),
                None => Seq::empty(),
            };
            if k == 1 {
                item
            } else {
                show_slots(e, (k - 1) as nat) + ", "@ + item
            }
        },
        _ => Seq::empty(),
    }
}

/// The first `k` parameters of the function `e`, joined by `, `.
pub open spec fn show_params(e: RExp, k: nat) -> Seq<char>
    decreases e, 0nat, k,
{
    match e {
        RExp::Function(params, _) => if k == 0 || k > params.len() {
            Seq::empty()
        } else {
            let p = params@[k - 1];
            let item = p.0@ + match p.1 {
                Some(d) => " = "@ + show_exp(d),
                None => Seq::empty(),
            };
            if k == 1 {
                item
            } else {
                show_params(e, (k - 1) as nat) + ", "@ + item
            }
        },
        _ => Seq::empty(),
    }
}

/// The printed form of a block: its statements joined by line breaks.
pub open spec fn show_lines(l: Lines) -> Seq<char>
    decreases l, 1nat, 0nat,
{
    show_stmts(l, l.0.len() as nat)
}

/// The first `k` statements of a block, joined by line breaks.
pub open spec fn show_stmts(l: Lines, k: nat) -> Seq<char>
    decreases l, 0nat, k,
{
    if k == 0 || k > l.0.len() {
        Seq::empty()
    } else if k == 1 {
        show_stmt(l.0@[0])
    } else {
        show_stmts(l, (k - 1) as nat) + "\n"@ + show_stmt(l.0@[k - 1])
    }
}

/// The first `k` targets of the assignment `s`, each followed by ` <- `.
pub open spec fn show_targets(s: RStmt, k: nat) -> Seq<char>
    decreases s, 0nat, k,
{
    match s {
        RStmt::Assignment(left, more, _) => if k == 0 || k > more.len() + 1 {
            Seq::empty()
        } else if k == 1 {
            show_exp(left) + " <- "@
        } else {
            show_targets(s, (k - 1) as nat) + show_exp(more@[k - 2]) + " <- "@
        },
        _ => Seq::empty(),
    }
}

/// A braced body: `{`, a line break, the block, a line break, `}`.
pub open spec fn show_braced(l: Lines) -> Seq<char>
    decreases l, 2nat, 0nat,
{
    "{\n"@ + show_lines(l) + "\n}"@
}

/// The printed form of a statement.
pub open spec fn show_stmt(s: RStmt) -> Seq<char>
    decreases s, 1nat, 0nat,
{
    match s {
        RStmt::Empty => "\n"@,
        RStmt::Comment(text) => text@,
        RStmt::TailComment(inner, text) => show_stmt(*inner) + " "@ + text@,
        RStmt::Assignment(_, more, right) => show_targets(s, (more.len() + 1) as nat) + show_exp(right),
        RStmt::If(c, body, other) => "if ("@ + show_exp(c) + ") "@ + show_braced(body) + match other {
            Some(o) => "\nelse "@ + show_braced(o),
            None => Seq::empty(),
        },
        RStmt::While(c, body) => "while ("@ + show_exp(c) + ") "@ + show_braced(body),
        RStmt::For(v, r, body) => "for ("@ + show_exp(v) + " in "@ + show_exp(r) + ") "@ + show_braced(body),
        RStmt::Library(name) => name@,
        RStmt::Expression(e) => show_exp(e),
    }
}


fn put(out: &mut String, t: &str)
    ensures
        final(out)@ == old(out)@ + t@,
{
    out.append(t);
}

/// Appends the printed form of an expression.
pub fn write_exp(e: &RExp, out: &mut String)
    ensures
        final(out)@ == old(out)@ + show_exp(*e),
    decreases e, 1nat, 0nat,
{
    let ghost start = out@;
    match e {
        RExp::Constant(c) => put(out, c.as_str()),
        RExp::Variable(v) => put(out, v.as_str()),
        RExp::Call(callee, args) => {
            write_exp(callee, out);
            put(out, "(");
            let ghost head = out@;
            let mut i: usize = 0;
            while i < args.len()
                invariant
                    *e == RExp::Call(*callee, *args),
                    i <= args.len(),
                    out@ == head + show_args(*e, i as nat),
                decreases args.len() - i,
            {
                let ghost before = out@;
                if i > 0 {
                    put(out, ", ");
                }
                match &args[i].0 {
                    Some(n) => {
                        put(out, n.as_str());
                        put(out, " = ");
                    },
                    None => {},
                }
                assert(decreases_to!(*e => args@[i as int].1)) by {
                    assert(e->Call_1 == *args);
                    assert(decreases_to!(*e => e->Call_1));
                    assert(decreases_to!(*args => args@[i as int]));
                    assert(decreases_to!(args@[i as int] => args@[i as int].1));
                }
                write_exp(&args[i].1, out);
                assert(out@ =~= head + show_args(*e, (i + 1) as nat));
                i = i + 1;
            }
            put(out, ")");
            assert(out@ =~= start + show_exp(*e));
        },
        RExp::Column(l, r) => {
            write_exp(l, out);
            put(out, "$");
            write_exp(r, out);
            assert(out@ =~= start + show_exp(*e));
        },
        RExp::Index(l, slots) => {
            write_exp(l, out);
            put(out, "[");
            write_slots(e, slots, out);
            put(out, "]");
            assert(out@ =~= start + show_exp(*e));
        },
        RExp::ListIndex(l, slots) => {
            write_exp(l, out);
            put(out, "[[");
            write_slots(e, slots, out);
            put(out, "]]");
            assert(out@ =~= start + show_exp(*e));
        },
        RExp::Formula(RFormula::OneSided(r)) => {
            put(out, "~ ");
            write_exp(r, out);
            assert(out@ =~= start + show_exp(*e));
        },
        RExp::Formula(RFormula::TwoSided(l, r)) => {
            write_exp(l, out);
            put(out, " ~ ");
            write_exp(r, out);
            assert(out@ =~= start + show_exp(*e));
        },
        RExp::Function(params, body) => {
            put(out, "function (");
            let ghost head = out@;
            let mut i: usize = 0;
            while i < params.len()
                invariant
                    *e == RExp::Function(*params, *body),
                    i <= params.len(),
                    out@ == head + show_params(*e, i as nat),
                decreases params.len() - i,
            {
                if i > 0 {
                    put(out, ", ");
                }
                put(out, params[i].0.as_str());
                match &params[i].1 {
                    Some(d) => {
                        put(out, " = ");
                        assert(decreases_to!(*e => *d)) by {
                            assert(decreases_to!(*params => params@[i as int]));
                        }
                        write_exp(d, out);
                    },
                    None => {},
                }
                assert(out@ =~= head + show_params(*e, (i + 1) as nat));
                i = i + 1;
            }
            put(out, ") {\n");
            write_lines(body, out);
            put(out, "\n}");
            assert(out@ =~= start + show_exp(*e));
        },
        RExp::Prefix(op, x) => {
            put(out, op.as_str());
            write_exp(x, out);
            assert(out@ =~= start + show_exp(*e));
        },
        RExp::Infix(op, l, r) => {
            write_exp(l, out);
            put(out, " ");
            put(out, op.as_str());
            put(out, " ");
            write_exp(r, out);
            assert(out@ =~= start + show_exp(*e));
        },
    }
}

/// Appends the slots of the index `e`, joined by `, `.
fn write_slots(e: &RExp, slots: &Vec<Option<RExp>>, out: &mut String)
    requires
        *e == RExp::Index(e->Index_0, *slots) || *e == RExp::ListIndex(e->ListIndex_0, *slots),
    ensures
        final(out)@ == old(out)@ + show_slots(*e, slots.len() as nat),
    decreases e, 0nat, slots.len(),
{
    let ghost head = out@;
    let mut i: usize = 0;
    while i < slots.len()
        invariant
            *e == RExp::Index(e->Index_0, *slots) || *e == RExp::ListIndex(e->ListIndex_0, *slots),
            i <= slots.len(),
            out@ == head + show_slots(*e, i as nat),
        decreases slots.len() - i,
    {
        if i > 0 {
            put(out, ", ");
        }
        match &slots[i] {
            Some(x) => {
                assert(decreases_to!(*e => *x)) by {
                    assert(decreases_to!(*slots => slots@[i as int]));
                }
                write_exp(x, out);
            },
            None => {},
        }
        assert(out@ =~= head + show_slots(*e, (i + 1) as nat));
        i = i + 1;
    }
}

/// Appends the printed form of a block.
pub fn write_lines(l: &Lines, out: &mut String)
    ensures
        final(out)@ == old(out)@ + show_lines(*l),
    decreases l, 1nat, 0nat,
{
    let ghost head = out@;
    let mut i: usize = 0;
    while i < l.0.len()
        invariant
            i <= l.0.len(),
            out@ == head + show_stmts(*l, i as nat),
        decreases l.0.len() - i,
    {
        if i > 0 {
            put(out, "\n");
        }
        assert(decreases_to!(*l => l.0@[i as int])) by {
            assert(decreases_to!(l.0 => l.0@[i as int]));
        }
        write_stmt(&l.0[i], out);
        assert(out@ =~= head + show_stmts(*l, (i + 1) as nat));
        i = i + 1;
    }
}

fn write_braced(l: &Lines, out: &mut String)
    ensures
        final(out)@ == old(out)@ + show_braced(*l),
    decreases l, 2nat, 0nat,
{
    let ghost start = out@;
    put(out, "{\n");
    write_lines(l, out);
    put(out, "\n}");
    assert(out@ =~= start + show_braced(*l));
}

/// Appends the printed form of a statement.
pub fn write_stmt(s: &RStmt, out: &mut String)
    ensures
        final(out)@ == old(out)@ + show_stmt(*s),
    decreases s, 1nat, 0nat,
{
    let ghost start = out@;
    match s {
        RStmt::Empty => put(out, "\n"),
        RStmt::Comment(text) => put(out, text.as_str()),
        RStmt::TailComment(inner, text) => {
            write_stmt(inner, out);
            put(out, " ");
            put(out, text.as_str());
            assert(out@ =~= start + show_stmt(*s));
        },
        RStmt::Assignment(left, more, right) => {
            write_exp(left, out);
            put(out, " <- ");
            assert(out@ =~= start + show_targets(*s, 1));
            let mut i: usize = 0;
            while i < more.len()
                invariant
                    *s == RStmt::Assignment(*left, *more, *right),
                    i <= more.len(),
                    out@ == start + show_targets(*s, (i + 1) as nat),
                decreases more.len() - i,
            {
                assert(decreases_to!(*s => more@[i as int])) by {
                    assert(decreases_to!(*more => more@[i as int]));
                }
                write_exp(&more[i], out);
                put(out, " <- ");
                assert(out@ =~= start + show_targets(*s, (i + 2) as nat));
                i = i + 1;
            }
            write_exp(right, out);
            assert(out@ =~= start + show_stmt(*s));
        },
        RStmt::If(c, body, other) => {
            put(out, "if (");
            write_exp(c, out);
            put(out, ") ");
            write_braced(body, out);
            match other {
                Some(o) => {
                    put(out, "\nelse ");
                    write_braced(o, out);
                },
                None => {},
            }
            assert(out@ =~= start + show_stmt(*s));
        },
        RStmt::While(c, body) => {
            put(out, "while (");
            write_exp(c, out);
            put(out, ") ");
            write_braced(body, out);
            assert(out@ =~= start + show_stmt(*s));
        },
        RStmt::For(v, r, body) => {
            put(out, "for (");
            write_exp(v, out);
            put(out, " in ");
            write_exp(r, out);
            put(out, ") ");
            write_braced(body, out);
            assert(out@ =~= start + show_stmt(*s));
        },
        RStmt::Library(name) => put(out, name.as_str()),
        RStmt::Expression(x) => write_exp(x, out),
    }
}

impl RExp {
    /// The printed source form of the expression.
    pub fn to_string(&self) -> (r: String)
        ensures
            r@ == show_exp(*self),
    {
        let mut out = String::new();
        write_exp(self, &mut out);
        assert(out@ =~= show_exp(*self));
        out
    }
}

impl RStmt {
    /// The printed source form of the statement.
    pub fn to_string(&self) -> (r: String)
        ensures
            r@ == show_stmt(*self),
    {
        let mut out = String::new();
        write_stmt(self, &mut out);
        assert(out@ =~= show_stmt(*self));
        out
    }
}

impl Lines {
    /// The printed source form of the block: statements joined by line breaks.
    pub fn to_string(&self) -> (r: String)
        ensures
            r@ == show_lines(*self),
    {
        let mut out = String::new();
        write_lines(self, &mut out);
        assert(out@ =~= show_lines(*self));
        out
    }
}

impl RFormula {
    /// The printed source form of the formula.
    pub fn to_string(&self) -> (r: String)
        ensures
            r@ == match *self {
                RFormula::OneSided(x) => "~ "@ + show_exp(*x),
                RFormula::TwoSided(l, x) => show_exp(*l) + " ~ "@ + show_exp(*x),
            },
    {
        let mut out = String::new();
        match self {
            RFormula::OneSided(x) => {
                put(&mut out, "~ ");
                write_exp(x, &mut out);
            },
            RFormula::TwoSided(l, x) => {
                write_exp(l, &mut out);
                put(&mut out, " ~ ");
                write_exp(x, &mut out);
            },
        }
        assert(out@ =~= match *self {
            RFormula::OneSided(x) => "~ "@ + show_exp(*x),
            RFormula::TwoSided(l, x) => show_exp(*l) + " ~ "@ + show_exp(*x),
        });
        out
    }
}

/// The short label of an expression in a rendered tree: a call shows only
/// what it calls, anything else shows whole.
pub fn short_function_name(expression: &RExp) -> (r: String)
    ensures
        r@ == match *expression {
            RExp::Call(callee, _) => show_exp(*callee),
            _ => show_exp(*expression),
        },
{
    match expression {
        RExp::Call(callee, _) => callee.to_string(),
        _ => expression.to_string(),
    }
}
} // verus!
