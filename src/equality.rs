//! Structural equality of expressions and statements: two values are equal
//! when their mathematical forms are, whatever their allocations.

use vstd::prelude::*;

use crate::ast::{exp_model, lines_model, name_model, stmt_model, Lines, RExp, RFormula, RStmt};

verus! {

broadcast use vstd::std_specs::vec::group_vec_axioms, vstd::seq::group_seq_axioms;

fn same_name(x: &Option<String>, y: &Option<String>) -> (r: bool)
    ensures
        r == (name_model(*x) == name_model(*y)),
{
    match (x, y) {
        (Some(a), Some(b)) => *a == *b,
        (None, None) => true,
        _ => false,
    }
}

/// Whether two expressions are the same value.
pub fn same_exp(a: &RExp, b: &RExp) -> (r: bool)
    ensures
        r == (exp_model(*a) == exp_model(*b)),
    decreases a, 1nat,
{
    match (a, b) {
        (RExp::Constant(x), RExp::Constant(y)) => *x == *y,
        (RExp::Variable(x), RExp::Variable(y)) => *x == *y,
        (RExp::Call(f, xs), RExp::Call(g, ys)) => {
            if !same_exp(f, g) {
                return false;
            }
            if xs.len() != ys.len() {
                assert(exp_model(*a)->Call_1.len() != exp_model(*b)->Call_1.len());
                return false;
            }
            let mut i: usize = 0;
            while i < xs.len()
                invariant
                    *a == RExp::Call(*f, *xs),
                    *b == RExp::Call(*g, *ys),
                    xs@.len() == ys@.len(),
                    i <= xs@.len(),
                    forall|k: int| 0 <= k < i ==> name_model(xs@[k].0) == name_model(ys@[k].0)
                        && exp_model(xs@[k].1) == exp_model(ys@[k].1),
                decreases xs@.len() - i,
            {
                assert(decreases_to!(*a => xs@[i as int].1)) by {
                    assert(a->Call_1 == *xs);
                    assert(decreases_to!(*a => a->Call_1));
                    assert(decreases_to!(*xs => xs@[i as int]));
                    assert(decreases_to!(xs@[i as int] => xs@[i as int].1));
                }
                if !same_name(&xs[i].0, &ys[i].0) || !same_exp(&xs[i].1, &ys[i].1) {
                    assert(exp_model(*a)->Call_1[i as int] != exp_model(*b)->Call_1[i as int]);
                    return false;
                }
                i = i + 1;
            }
            assert(exp_model(*a)->Call_1 =~= exp_model(*b)->Call_1);
            true
        },
        (RExp::Column(l1, r1), RExp::Column(l2, r2)) => same_exp(l1, l2) && same_exp(r1, r2),
        (RExp::Index(l1, s1), RExp::Index(l2, s2)) => {
            if !same_exp(l1, l2) {
                return false;
            }
            let r = same_slots(a, b, s1, s2);
            proof {
                if r {
                    assert(exp_model(*a)->Index_1 =~= exp_model(*b)->Index_1);
                } else if s1@.len() == s2@.len() {
                    let k = choose|k: int| 0 <= k < s1@.len() && !slot_same(s1@[k], s2@[k]);
                    assert(exp_model(*a)->Index_1[k] != exp_model(*b)->Index_1[k]);
                } else {
                    assert(exp_model(*a)->Index_1.len() != exp_model(*b)->Index_1.len());
                }
            }
            r
        },
        (RExp::ListIndex(l1, s1), RExp::ListIndex(l2, s2)) => {
            if !same_exp(l1, l2) {
                return false;
            }
            let r = same_slots(a, b, s1, s2);
            proof {
                if r {
                    assert(exp_model(*a)->ListIndex_1 =~= exp_model(*b)->ListIndex_1);
                } else if s1@.len() == s2@.len() {
                    let k = choose|k: int| 0 <= k < s1@.len() && !slot_same(s1@[k], s2@[k]);
                    assert(exp_model(*a)->ListIndex_1[k] != exp_model(*b)->ListIndex_1[k]);
                } else {
                    assert(exp_model(*a)->ListIndex_1.len() != exp_model(*b)->ListIndex_1.len());
                }
            }
            r
        },
        (RExp::Formula(RFormula::OneSided(x)), RExp::Formula(RFormula::OneSided(y))) => same_exp(x, y),
        (RExp::Formula(RFormula::TwoSided(l1, r1)), RExp::Formula(RFormula::TwoSided(l2, r2))) => same_exp(l1, l2)
            && same_exp(r1, r2),
        (RExp::Function(ps, body1), RExp::Function(qs, body2)) => {
            if ps.len() != qs.len() {
                assert(exp_model(*a)->Function_0.len() != exp_model(*b)->Function_0.len());
                return false;
            }
            let mut i: usize = 0;
            while i < ps.len()
                invariant
                    *a == RExp::Function(*ps, *body1),
                    *b == RExp::Function(*qs, *body2),
                    ps@.len() == qs@.len(),
                    i <= ps@.len(),
                    forall|k: int| 0 <= k < i ==> ps@[k].0@ == qs@[k].0@ && slot_same(ps@[k].1, qs@[k].1),
                decreases ps@.len() - i,
            {
                let names = ps[i].0 == qs[i].0;
                let defaults = match (&ps[i].1, &qs[i].1) {
                    (Some(x), Some(y)) => {
                        assert(decreases_to!(*a => *x)) by {
                            assert(decreases_to!(*ps => ps@[i as int]));
                        }
                        same_exp(x, y)
                    },
                    (None, None) => true,
                    _ => false,
                };
                if !names || !defaults {
                    assert(exp_model(*a)->Function_0[i as int] != exp_model(*b)->Function_0[i as int]);
                    return false;
                }
                i = i + 1;
            }
            assert(exp_model(*a)->Function_0 =~= exp_model(*b)->Function_0);
            same_lines(body1, body2)
        },
        (RExp::Prefix(o1, x), RExp::Prefix(o2, y)) => *o1 == *o2 && same_exp(x, y),
        (RExp::Infix(o1, l1, r1), RExp::Infix(o2, l2, r2)) => *o1 == *o2 && same_exp(l1, l2) && same_exp(r1, r2),
        _ => false,
    }
}

/// Two optional expressions have the same form.
pub open spec fn slot_same(x: Option<RExp>, y: Option<RExp>) -> bool {
    match (x, y) {
        (Some(p), Some(q)) => exp_model(p) == exp_model(q),
        (None, None) => true,
        _ => false,
    }
}

/// Whether the slots of the index expressions `a` and `b` are the same.
fn same_slots(a: &RExp, b: &RExp, s1: &Vec<Option<RExp>>, s2: &Vec<Option<RExp>>) -> (r: bool)
    requires
        *a == RExp::Index(a->Index_0, *s1) || *a == RExp::ListIndex(a->ListIndex_0, *s1),
    ensures
        r == (s1@.len() == s2@.len() && forall|k: int| 0 <= k < s1@.len() ==> slot_same(#[trigger] s1@[k], s2@[k])),
    decreases a, 0nat,
{
    if s1.len() != s2.len() {
        return false;
    }
    let mut i: usize = 0;
    while i < s1.len()
        invariant
            *a == RExp::Index(a->Index_0, *s1) || *a == RExp::ListIndex(a->ListIndex_0, *s1),
            s1@.len() == s2@.len(),
            i <= s1@.len(),
            forall|k: int| 0 <= k < i ==> slot_same(#[trigger] s1@[k], s2@[k]),
        decreases s1@.len() - i,
    {
        let same = match (&s1[i], &s2[i]) {
            (Some(x), Some(y)) => {
                assert(decreases_to!(*a => *x)) by {
                    if *a is Index {
                        assert(a->Index_1 == *s1);
                        assert(decreases_to!(*a => a->Index_1));
                    } else {
                        assert(a->ListIndex_1 == *s1);
                        assert(decreases_to!(*a => a->ListIndex_1));
                    }
                    assert(decreases_to!(*s1 => s1@[i as int]));
                    assert(decreases_to!(s1@[i as int] => *x));
                }
                same_exp(x, y)
            },
            (None, None) => true,
            _ => false,
        };
        if !same {
            return false;
        }
        i = i + 1;
    }
    true
}

/// Whether two blocks are the same value.
pub fn same_lines(l1: &Lines, l2: &Lines) -> (r: bool)
    ensures
        r == (lines_model(*l1) == lines_model(*l2)),
    decreases l1, 1nat,
{
    if l1.0.len() != l2.0.len() {
        assert(lines_model(*l1).len() != lines_model(*l2).len());
        return false;
    }
    let mut i: usize = 0;
    while i < l1.0.len()
        invariant
            l1.0@.len() == l2.0@.len(),
            i <= l1.0@.len(),
            forall|k: int| 0 <= k < i ==> stmt_model(l1.0@[k]) == stmt_model(l2.0@[k]),
        decreases l1.0@.len() - i,
    {
        assert(decreases_to!(*l1 => l1.0@[i as int])) by {
            assert(decreases_to!(l1.0 => l1.0@[i as int]));
        }
        if !same_stmt(&l1.0[i], &l2.0[i]) {
            assert(lines_model(*l1)[i as int] != lines_model(*l2)[i as int]);
            return false;
        }
        i = i + 1;
    }
    assert(lines_model(*l1) =~= lines_model(*l2));
    true
}

/// Whether two statements are the same value.
pub fn same_stmt(s1: &RStmt, s2: &RStmt) -> (r: bool)
    ensures
        r == (stmt_model(*s1) == stmt_model(*s2)),
    decreases s1, 1nat,
{
    match (s1, s2) {
        (RStmt::Empty, RStmt::Empty) => true,
        (RStmt::Comment(x), RStmt::Comment(y)) => *x == *y,
        (RStmt::TailComment(i1, x), RStmt::TailComment(i2, y)) => *x == *y && same_stmt(i1, i2),
        (RStmt::Assignment(l1, m1, r1), RStmt::Assignment(l2, m2, r2)) => {
            if !same_exp(l1, l2) || !same_exp(r1, r2) {
                return false;
            }
            if m1.len() != m2.len() {
                assert(stmt_model(*s1)->Assignment_1.len() != stmt_model(*s2)->Assignment_1.len());
                return false;
            }
            let mut i: usize = 0;
            while i < m1.len()
                invariant
                    *s1 == RStmt::Assignment(*l1, *m1, *r1),
                    *s2 == RStmt::Assignment(*l2, *m2, *r2),
                    m1@.len() == m2@.len(),
                    i <= m1@.len(),
                    forall|k: int| 0 <= k < i ==> exp_model(m1@[k]) == exp_model(m2@[k]),
                decreases m1@.len() - i,
            {
                assert(decreases_to!(*s1 => m1@[i as int])) by {
                    assert(decreases_to!(*m1 => m1@[i as int]));
                }
                if !same_exp(&m1[i], &m2[i]) {
                    assert(stmt_model(*s1)->Assignment_1[i as int] != stmt_model(*s2)->Assignment_1[i as int]);
                    return false;
                }
                i = i + 1;
            }
            assert(stmt_model(*s1)->Assignment_1 =~= stmt_model(*s2)->Assignment_1);
            true
        },
        (RStmt::If(c1, b1, e1), RStmt::If(c2, b2, e2)) => {
            let others = match (e1, e2) {
                (Some(p), Some(q)) => same_lines(p, q),
                (None, None) => true,
                _ => false,
            };
            same_exp(c1, c2) && same_lines(b1, b2) && others
        },
        (RStmt::While(c1, b1), RStmt::While(c2, b2)) => same_exp(c1, c2) && same_lines(b1, b2),
        (RStmt::For(v1, r1, b1), RStmt::For(v2, r2, b2)) => same_exp(v1, v2) && same_exp(r1, r2) && same_lines(b1, b2),
        (RStmt::Library(x), RStmt::Library(y)) => *x == *y,
        (RStmt::Expression(x), RStmt::Expression(y)) => same_exp(x, y),
        _ => false,
    }
}

} // verus!
