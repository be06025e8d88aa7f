//! What an expression mentions: the variables it reads, and the two-sided
//! formulae (hypotheses) it holds. Both walks descend through every
//! sub-expression, and stop at the statements of a function body, which run
//! only when the function is called.

use vstd::prelude::*;

use crate::ast::{RExp, RFormula};
use crate::display::show_exp;

verus! {

broadcast use vstd::std_specs::vec::group_vec_axioms, vstd::seq::group_seq_axioms;

/// Which of the two things a walk collects.
#[derive(PartialEq, Eq, Structural, Debug, Clone, Copy)]
pub enum Gather {
    /// The name of every variable.
    Reads,
    /// The printed form of every two-sided formula.
    Hypotheses,
}

/// The strings of a list, as a set of character sequences.
pub open spec fn views(v: Seq<String>) -> Set<Seq<char>> {
    Set::new(|x: Seq<char>| exists|i: int| 0 <= i < v.len() && v[i]@ == x)
}

pub proof fn lemma_views_push(v: Seq<String>, s: String)
    ensures
        views(v.push(s)) == views(v).insert(s@),
{
    assert forall|x: Seq<char>| views(v.push(s)).contains(x) <==> views(v).insert(s@).contains(x) by {
        if views(v.push(s)).contains(x) {
            let i = choose|i: int| 0 <= i < v.push(s).len() && v.push(s)[i]@ == x;
            if i < v.len() {
                assert(views(v).contains(x));
            }
        }
        if views(v).contains(x) {
            let i = choose|i: int| 0 <= i < v.len() && v[i]@ == x;
            assert(v.push(s)[i]@ == x);
        }
        if x == s@ {
            assert(v.push(s)[v.len() as int]@ == x);
        }
    }
    assert(views(v.push(s)) =~= views(v).insert(s@));
}

/// What expression `e` mentions, of the kind `what`.
pub open spec fn collected(e: RExp, what: Gather) -> Set<Seq<char>>
    decreases e, 1nat, 0nat,
{
    match e {
        RExp::Constant(_) => Set::empty(),
        RExp::Variable(v) => if what == Gather::Reads {
            set![v@]
        } else {
            Set::empty()
        },
        RExp::Call(callee, args) => collected(*callee, what) + collected_args(e, what, args.len() as nat),
        RExp::Column(l, r) => collected(*l, what) + collected(*r, what),
        RExp::Index(l, slots) => collected(*l, what) + collected_slots(e, what, slots.len() as nat),
        RExp::ListIndex(l, slots) => collected(*l, what) + collected_slots(e, what, slots.len() as nat),
        RExp::Formula(RFormula::OneSided(r)) => collected(*r, what),
        RExp::Formula(RFormula::TwoSided(l, r)) => (if what == Gather::Hypotheses {
            set![show_exp(e)]
        } else {
            Set::empty()
        }) + collected(*l, what) + collected(*r, what),
        RExp::Function(params, _) => collected_params(e, what, params.len() as nat),
        RExp::Prefix(_, x) => collected(*x, what),
        RExp::Infix(_, l, r) => collected(*l, what) + collected(*r, what),
    }
}

/// What the first `k` arguments of the call `e` mention.
pub open spec fn collected_args(e: RExp, what: Gather, k: nat) -> Set<Seq<char>>
    decreases e, 0nat, k,
{
    match e {
        RExp::Call(_, args) => if k == 0 || k > args.len() {
            Set::empty()
        } else {
            collected_args(e, what, (k - 1) as nat) + collected(args@[k - 1].1, what)
        },
        _ => Set::empty(),
    }
}

/// What the first `k` slots of the index `e` mention.
pub open spec fn collected_slots(e: RExp, what: Gather, k: nat) -> Set<Seq<char>>
    decreases e, 0nat, k,
{
    match e {
        RExp::Index(_, slots) | RExp::ListIndex(_, slots) => if k == 0 || k > slots.len() {
            Set::empty()
        } else {
            collected_slots(e, what, (k - 1) as nat) + match slots@[k - 1] {
                Some(x) => collected(x, what),
                None => Set::empty(),
            }
        },
        _ => Set::empty(),
    }
}

/// What the default values of the first `k` parameters of the function `e`
/// mention.
pub open spec fn collected_params(e: RExp, what: Gather, k: nat) -> Set<Seq<char>>
    decreases e, 0nat, k,
{
    match e {
        RExp::Function(params, _) => if k == 0 || k > params.len() {
            Set::empty()
        } else {
            collected_params(e, what, (k - 1) as nat) + match params@[k - 1].1 {
                Some(d) => collected(d, what),
                None => Set::empty(),
            }
        },
        _ => Set::empty(),
    }
}

/// The variables that an expression reads: every variable in it, callees
/// and column names included, but not those in the statements of a function
/// body, which are read only when the function is called.
pub open spec fn exp_reads(e: RExp) -> Set<Seq<char>> {
    collected(e, Gather::Reads)
}

/// The hypotheses that an expression introduces itself: the printed form of
/// each two-sided formula within it. One-sided formulae introduce none. The
/// walk goes through every sub-expression, the default values of a
/// function's parameters included, but not into the statements of a function
/// body: like those of `if`, `while` and `for`, they are not expressions of
/// the script's own lines.
pub open spec fn exp_hypotheses(e: RExp) -> Set<Seq<char>> {
    collected(e, Gather::Hypotheses)
}

fn push_name(out: &mut Vec<String>, s: String)
    ensures
        views(final(out)@) == views(old(out)@).insert(s@),
{
    proof {
        lemma_views_push(out@, s);
    }
    out.push(s);
}

/// Appends what `e` mentions, of the kind `what`.
pub fn gather(e: &RExp, what: Gather, out: &mut Vec<String>)
    ensures
        views(final(out)@) == views(old(out)@) + collected(*e, what),
    decreases e, 1nat, 0nat,
{
    let ghost start = views(out@);
    match e {
        RExp::Constant(_) => {
            assert(views(out@) =~= start + collected(*e, what));
        },
        RExp::Variable(v) => {
            if what == Gather::Reads {
                push_name(out, v.clone());
            }
            assert(views(out@) =~= start + collected(*e, what));
        },
        RExp::Call(callee, args) => {
            gather(callee, what, out);
            let ghost head = views(out@);
            let mut i: usize = 0;
            while i < args.len()
                invariant
                    *e == RExp::Call(*callee, *args),
                    i <= args.len(),
                    views(out@) == head + collected_args(*e, what, i as nat),
                decreases args.len() - i,
            {
                assert(decreases_to!(*e => args@[i as int].1)) by {
                    assert(e->Call_1 == *args);
                    assert(decreases_to!(*e => e->Call_1));
                    assert(decreases_to!(*args => args@[i as int]));
                    assert(decreases_to!(args@[i as int] => args@[i as int].1));
                }
                gather(&args[i].1, what, out);
                assert(views(out@) =~= head + collected_args(*e, what, (i + 1) as nat));
                i = i + 1;
            }
            assert(views(out@) =~= start + collected(*e, what));
        },
        RExp::Column(l, r) => {
            gather(l, what, out);
            gather(r, what, out);
            assert(views(out@) =~= start + collected(*e, what));
        },
        RExp::Index(l, slots) => {
            gather(l, what, out);
            gather_slots(e, slots, what, out);
            assert(views(out@) =~= start + collected(*e, what));
        },
        RExp::ListIndex(l, slots) => {
            gather(l, what, out);
            gather_slots(e, slots, what, out);
            assert(views(out@) =~= start + collected(*e, what));
        },
        RExp::Formula(RFormula::OneSided(r)) => {
            gather(r, what, out);
        },
        RExp::Formula(RFormula::TwoSided(l, r)) => {
            if what == Gather::Hypotheses {
                push_name(out, e.to_string());
            }
            gather(l, what, out);
            gather(r, what, out);
            assert(views(out@) =~= start + collected(*e, what));
        },
        RExp::Function(params, _) => {
            let mut i: usize = 0;
            while i < params.len()
                invariant
                    *e == RExp::Function(*params, e->Function_1),
                    i <= params.len(),
                    views(out@) == start + collected_params(*e, what, i as nat),
                decreases params.len() - i,
            {
                match &params[i].1 {
                    Some(d) => {
                        assert(decreases_to!(*e => *d)) by {
                            assert(decreases_to!(*params => params@[i as int]));
                        }
                        gather(d, what, out);
                    },
                    None => {},
                }
                assert(views(out@) =~= start + collected_params(*e, what, (i + 1) as nat));
                i = i + 1;
            }
        },
        RExp::Prefix(_, x) => {
            gather(x, what, out);
        },
        RExp::Infix(_, l, r) => {
            gather(l, what, out);
            gather(r, what, out);
            assert(views(out@) =~= start + collected(*e, what));
        },
    }
}

fn gather_slots(e: &RExp, slots: &Vec<Option<RExp>>, what: Gather, out: &mut Vec<String>)
    requires
        *e == RExp::Index(e->Index_0, *slots) || *e == RExp::ListIndex(e->ListIndex_0, *slots),
    ensures
        views(final(out)@) == views(old(out)@) + collected_slots(*e, what, slots.len() as nat),
    decreases e, 0nat, slots.len(),
{
    let ghost head = views(out@);
    let mut i: usize = 0;
    while i < slots.len()
        invariant
            *e == RExp::Index(e->Index_0, *slots) || *e == RExp::ListIndex(e->ListIndex_0, *slots),
            i <= slots.len(),
            views(out@) == head + collected_slots(*e, what, i as nat),
        decreases slots.len() - i,
    {
        match &slots[i] {
            Some(x) => {
                assert(decreases_to!(*e => *x)) by {
                    assert(decreases_to!(*slots => slots@[i as int]));
                }
                gather(x, what, out);
            },
            None => {},
        }
        assert(views(out@) =~= head + collected_slots(*e, what, (i + 1) as nat));
        i = i + 1;
    }
}

/// The names of the variables that an expression reads, each at least once.
pub fn reads(e: &RExp) -> (r: Vec<String>)
    ensures
        views(r@) == exp_reads(*e),
{
    let mut out: Vec<String> = Vec::new();
    assert(views(out@) =~= Set::empty());
    gather(e, Gather::Reads, &mut out);
    assert(views(out@) =~= exp_reads(*e));
    out
}

} // verus!
