//! Hypotheses: the printed forms of two-sided formulae, gathered into sets,
//! and the table that gives each distinct set a dense id.

use std::collections::BTreeMap;

use vstd::prelude::*;

use crate::ast::RExp;
use crate::collect::{exp_hypotheses, gather, lemma_views_push, views, Gather};
use crate::text::{lemma_str_lt_irreflexive, lemma_str_lt_total, lemma_str_lt_transitive, str_less, str_lt};

verus! {

broadcast use vstd::std_specs::vec::group_vec_axioms, vstd::seq::group_seq_axioms;

/// The small integer that names one set of hypotheses within one run.
pub type HypothesesId = usize;

/// A set of hypotheses, held in ascending order, each once. The strings are
/// kept in a `Vec` sorted by `str_less` rather than in a `BTreeSet<String>`:
/// vstd's specification of `BTreeSet` holds only for keys whose `Ord` obeys
/// its laws, and it states none for `String`, so neither membership nor the
/// order of the members could be proved through it.
#[derive(Debug)]
pub struct Hypotheses(Vec<String>);

/// The strings of a list ascend strictly.
pub open spec fn ascending(v: Seq<String>) -> bool {
    forall|i: int, j: int| 0 <= i < j < v.len() ==> str_lt(v[i]@, v[j]@)
}

proof fn lemma_ascending_distinct(v: Seq<String>)
    requires
        ascending(v),
    ensures
        distinct(v),
{
    assert forall|i: int, j: int| 0 <= i < j < v.len() implies v[i]@ != v[j]@ by {
        lemma_str_lt_irreflexive(v[i]@);
    }
}

/// How two lists of hypotheses compare, entry by entry.
pub open spec fn list_order(a: Seq<Seq<char>>, b: Seq<Seq<char>>) -> core::cmp::Ordering
    decreases a.len(),
{
    if a.len() == 0 {
        if b.len() == 0 {
            core::cmp::Ordering::Equal
        } else {
            core::cmp::Ordering::Less
        }
    } else if b.len() == 0 {
        core::cmp::Ordering::Greater
    } else if a[0] != b[0] {
        if str_lt(a[0], b[0]) {
            core::cmp::Ordering::Less
        } else {
            core::cmp::Ordering::Greater
        }
    } else {
        list_order(a.drop_first(), b.drop_first())
    }
}

/// The order of sets of hypotheses: the smaller set first; sets of one size
/// by their members in ascending order, compared entry by entry.
pub open spec fn hypotheses_order(a: Seq<Seq<char>>, b: Seq<Seq<char>>) -> core::cmp::Ordering {
    if a.len() < b.len() {
        core::cmp::Ordering::Less
    } else if a.len() > b.len() {
        core::cmp::Ordering::Greater
    } else {
        list_order(a, b)
    }
}

/// No two entries of a list hold the same characters.
pub open spec fn distinct(v: Seq<String>) -> bool {
    forall|i: int, j: int| 0 <= i < j < v.len() ==> v[i]@ != v[j]@
}

impl View for Hypotheses {
    type V = Set<Seq<char>>;

    closed spec fn view(&self) -> Set<Seq<char>> {
        views(self.0@)
    }
}

impl Hypotheses {
    /// The hypotheses are held in ascending order, each once.
    pub closed spec fn wf(&self) -> bool {
        ascending(self.0@)
    }

    /// The hypotheses in ascending order.
    pub closed spec fn members(&self) -> Seq<Seq<char>> {
        self.0@.map_values(|s: String| s@)
    }

    /// The members of a set list it in ascending order, each once.
    pub proof fn lemma_members(&self)
        requires
            self.wf(),
        ensures
            self.members().len() == self.size(),
            forall|i: int, j: int| 0 <= i < j < self.members().len() ==> str_lt(self.members()[i], self.members()[j]),
            forall|x: Seq<char>| self@.contains(x) <==> self.members().contains(x),
    {
        assert forall|x: Seq<char>| self@.contains(x) <==> self.members().contains(x) by {
            if self@.contains(x) {
                let k = choose|k: int| 0 <= k < self.0@.len() && self.0@[k]@ == x;
                assert(self.members()[k] == x);
            }
            if self.members().contains(x) {
                let k = choose|k: int| 0 <= k < self.members().len() && self.members()[k] == x;
                assert(self.0@[k]@ == x);
            }
        }
    }

    /// The number of hypotheses, which is the size of the set.
    pub closed spec fn size(&self) -> nat {
        self.0@.len()
    }

    /// The empty set.
    pub fn new() -> (r: Hypotheses)
        ensures
            r.wf(),
            r@ == Set::<Seq<char>>::empty(),
            r.size() == 0,
    {
        let r = Hypotheses(Vec::new());
        assert(r@ =~= Set::<Seq<char>>::empty());
        r
    }

    /// Whether `h` is in the set.
    pub fn contains(&self, h: &String) -> (r: bool)
        ensures
            r == self@.contains(h@),
    {
        let mut i: usize = 0;
        while i < self.0.len()
            invariant
                i <= self.0@.len(),
                forall|k: int| 0 <= k < i ==> self.0@[k]@ != h@,
            decreases self.0@.len() - i,
        {
            if self.0[i] == *h {
                assert(views(self.0@).contains(h@)) by {
                    assert(self.0@[i as int]@ == h@);
                }
                return true;
            }
            i = i + 1;
        }
        false
    }

    /// Adds `h` to the set.
    pub fn insert(&mut self, h: String)
        requires
            old(self).wf(),
        ensures
            final(self).wf(),
            final(self)@ == old(self)@.insert(h@),
    {
        let n = self.0.len();
        let mut i: usize = 0;
        while i < n && str_less(self.0[i].as_str(), h.as_str())
            invariant
                n == self.0@.len(),
                i <= n,
                forall|k: int| 0 <= k < i ==> str_lt(self.0@[k]@, h@),
            decreases n - i,
        {
            i = i + 1;
        }
        if i < n && self.0[i] == h {
            assert(self@ =~= self@.insert(h@)) by {
                assert(self.0@[i as int]@ == h@);
            }
            return;
        }
        let ghost v = self.0@;
        proof {
            if i < n {
                lemma_str_lt_total(v[i as int]@, h@);
            }
        }
        self.0.insert(i, h);
        let ghost w = self.0@;
        proof {
            assert(w == v.insert(i as int, h));
            assert forall|a: int, b: int| 0 <= a < b < w.len() implies str_lt(w[a]@, w[b]@) by {
                if b < i {
                    assert(w[a] == v[a] && w[b] == v[b]);
                } else if b == i {
                    assert(w[a] == v[a]);
                } else if a == i {
                    assert(w[b] == v[b - 1]);
                    if b - 1 > i {
                        lemma_str_lt_transitive(h@, v[i as int]@, v[b - 1]@);
                    }
                } else if a < i {
                    assert(w[a] == v[a] && w[b] == v[b - 1]);
                } else {
                    assert(w[a] == v[a - 1] && w[b] == v[b - 1]);
                }
            }
            assert forall|x: Seq<char>| views(w).contains(x) <==> views(v).insert(h@).contains(x) by {
                if views(w).contains(x) {
                    let k = choose|k: int| 0 <= k < w.len() && w[k]@ == x;
                    if k < i {
                        assert(v[k]@ == x);
                    } else if k > i {
                        assert(v[k - 1]@ == x);
                    }
                }
                if views(v).contains(x) {
                    let k = choose|k: int| 0 <= k < v.len() && v[k]@ == x;
                    if k < i {
                        assert(w[k]@ == x);
                    } else {
                        assert(w[k + 1]@ == x);
                    }
                }
                if x == h@ {
                    assert(w[i as int]@ == x);
                }
            }
            assert(views(w) =~= views(v).insert(h@));
        }
    }

    /// Adds every hypothesis of `other` to the set.
    pub fn extend(&mut self, other: &Hypotheses)
        requires
            old(self).wf(),
        ensures
            final(self).wf(),
            final(self)@ == old(self)@ + other@,
    {
        let ghost start = self@;
        let mut i: usize = 0;
        while i < other.0.len()
            invariant
                self.wf(),
                i <= other.0@.len(),
                self@ == start + views(other.0@.subrange(0, i as int)),
            decreases other.0@.len() - i,
        {
            self.insert(other.0[i].clone());
            proof {
                lemma_views_push(other.0@.subrange(0, i as int), other.0@[i as int]);
                assert(other.0@.subrange(0, i as int).push(other.0@[i as int]) =~= other.0@.subrange(0, i + 1));
            }
            i = i + 1;
        }
        assert(other.0@.subrange(0, i as int) =~= other.0@);
        assert(self@ =~= start + other@);
    }

    /// Whether both sets hold the same hypotheses.
    pub fn same_as(&self, other: &Hypotheses) -> (r: bool)
        requires
            self.wf(),
            other.wf(),
        ensures
            r == (self@ == other@),
    {
        proof {
            lemma_ascending_distinct(self.0@);
            lemma_ascending_distinct(other.0@);
        }
        if self.0.len() != other.0.len() {
            proof {
                if self@ == other@ {
                    lemma_distinct_len(self.0@, other.0@);
                }
            }
            return false;
        }
        let mut i: usize = 0;
        while i < self.0.len()
            invariant
                i <= self.0@.len(),
                forall|k: int| 0 <= k < i ==> other@.contains(#[trigger] self.0@[k]@),
            decreases self.0@.len() - i,
        {
            if !other.contains(&self.0[i]) {
                assert(self@.contains(self.0@[i as int]@));
                return false;
            }
            i = i + 1;
        }
        proof {
            assert(self@.subset_of(other@)) by {
                assert forall|x: Seq<char>| self@.contains(x) implies other@.contains(x) by {
                    let k = choose|k: int| 0 <= k < self.0@.len() && self.0@[k]@ == x;
                    assert(other@.contains(self.0@[k]@));
                }
            }
            lemma_distinct_subset_eq(self.0@, other.0@);
        }
        true
    }

    /// The order of sets of hypotheses: by size, then by their members in
    /// ascending order, entry by entry.
    pub fn cmp(&self, other: &Hypotheses) -> (r: core::cmp::Ordering)
        ensures
            r == hypotheses_order(self.members(), other.members()),
    {
        let n = self.0.len();
        let m = other.0.len();
        if n < m {
            return core::cmp::Ordering::Less;
        }
        if n > m {
            return core::cmp::Ordering::Greater;
        }
        let ghost a = self.members();
        let ghost b = other.members();
        let mut i: usize = 0;
        assert(a.skip(0) =~= a);
        assert(b.skip(0) =~= b);
        while i < n
            invariant
                n == m,
                n == self.0@.len(),
                m == other.0@.len(),
                a == self.members(),
                b == other.members(),
                i <= n,
                list_order(a, b) == list_order(a.skip(i as int), b.skip(i as int)),
            decreases n - i,
        {
            assert(a.skip(i as int)[0] == self.0@[i as int]@);
            assert(b.skip(i as int)[0] == other.0@[i as int]@);
            if self.0[i] != other.0[i] {
                if str_less(self.0[i].as_str(), other.0[i].as_str()) {
                    return core::cmp::Ordering::Less;
                } else {
                    return core::cmp::Ordering::Greater;
                }
            }
            assert(a.skip(i as int).drop_first() =~= a.skip(i + 1));
            assert(b.skip(i as int).drop_first() =~= b.skip(i + 1));
            i = i + 1;
        }
        assert(a.skip(n as int).len() == 0 && b.skip(n as int).len() == 0);
        core::cmp::Ordering::Equal
    }

    /// `cmp`, which orders every pair of sets.
    pub fn partial_cmp(&self, other: &Hypotheses) -> (r: Option<core::cmp::Ordering>)
        ensures
            r == Some(hypotheses_order(self.members(), other.members())),
    {
        Some(self.cmp(other))
    }

    /// The hypotheses, one string each.
    pub fn as_vec(&self) -> (r: &Vec<String>)
        ensures
            views(r@) == self@,
            r@.len() == self.size(),
            forall|i: int| 0 <= i < r@.len() ==> #[trigger] r@[i]@ == self.members()[i],
    {
        &self.0
    }
}

/// The views of a distinct list are as many as its entries.
proof fn lemma_distinct_card(v: Seq<String>)
    requires
        distinct(v),
    ensures
        views(v).finite(),
        views(v).len() == v.len(),
    decreases v.len(),
{
    if v.len() == 0 {
        assert(views(v) =~= Set::<Seq<char>>::empty());
    } else {
        let w = v.drop_last();
        lemma_distinct_card(w);
        lemma_views_push(w, v.last());
        assert(w.push(v.last()) =~= v);
        assert(!views(w).contains(v.last()@)) by {
            if views(w).contains(v.last()@) {
                let k = choose|k: int| 0 <= k < w.len() && w[k]@ == v.last()@;
                assert(v[k]@ == v[v.len() - 1]@);
            }
        }
    }
}

proof fn lemma_distinct_len(a: Seq<String>, b: Seq<String>)
    requires
        distinct(a),
        distinct(b),
        views(a) == views(b),
    ensures
        a.len() == b.len(),
{
    lemma_distinct_card(a);
    lemma_distinct_card(b);
}

proof fn lemma_distinct_subset_eq(a: Seq<String>, b: Seq<String>)
    requires
        distinct(a),
        distinct(b),
        a.len() == b.len(),
        views(a).subset_of(views(b)),
    ensures
        views(a) == views(b),
{
    lemma_distinct_card(a);
    lemma_distinct_card(b);
    vstd::set_lib::lemma_subset_equality(views(a), views(b));
}

/// The hypotheses that an expression introduces itself: the printed form of
/// each two-sided formula in it, each once. One-sided formulae add none, and
/// neither do the statements of a function body, which are statements of
/// their own rather than sub-expressions.
pub fn detect_hypotheses(e: &RExp) -> (r: Hypotheses)
    ensures
        r.wf(),
        r@ == exp_hypotheses(*e),
{
    let mut found: Vec<String> = Vec::new();
    assert(views(found@) =~= Set::<Seq<char>>::empty());
    gather(e, Gather::Hypotheses, &mut found);
    assert(views(found@) =~= exp_hypotheses(*e));
    let mut r = Hypotheses::new();
    let mut i: usize = 0;
    while i < found.len()
        invariant
            r.wf(),
            i <= found@.len(),
            r@ == views(found@.subrange(0, i as int)),
        decreases found@.len() - i,
    {
        r.insert(found[i].clone());
        proof {
            lemma_views_push(found@.subrange(0, i as int), found@[i as int]);
            assert(found@.subrange(0, i as int).push(found@[i as int]) =~= found@.subrange(0, i + 1));
        }
        i = i + 1;
    }
    assert(found@.subrange(0, i as int) =~= found@);
    r
}

/// The table of distinct hypotheses sets; a set's id is its position.
pub struct HypothesesMap(Vec<Hypotheses>);

impl View for HypothesesMap {
    type V = Seq<Set<Seq<char>>>;

    closed spec fn view(&self) -> Seq<Set<Seq<char>>> {
        self.0@.map_values(|h: Hypotheses| h@)
    }
}

/// The first id from `i` on whose set is `h`, if any.
pub open spec fn first_equal(sets: Seq<Set<Seq<char>>>, h: Set<Seq<char>>, i: int) -> Option<int>
    decreases sets.len() - i,
{
    if i < 0 || i >= sets.len() {
        None
    } else if sets[i] == h {
        Some(i)
    } else {
        first_equal(sets, h, i + 1)
    }
}

impl HypothesesMap {
    /// Each set is well formed.
    pub closed spec fn wf(&self) -> bool {
        forall|i: int| 0 <= i < self.0@.len() ==> #[trigger] self.0@[i].wf()
    }

    /// An empty table.
    pub fn new() -> (r: HypothesesMap)
        ensures
            r.wf(),
            r@ == Seq::<Set<Seq<char>>>::empty(),
    {
        let r = HypothesesMap(Vec::new());
        assert(r@ =~= Seq::<Set<Seq<char>>>::empty());
        r
    }

    /// The number of sets held.
    pub fn len(&self) -> (r: usize)
        ensures
            r == self@.len(),
    {
        self.0.len()
    }

    /// The id of `item`: the first id whose set equals it, or else the next
    /// free one, under which it is then held.
    pub fn insert(&mut self, item: Hypotheses) -> (r: HypothesesId)
        requires
            old(self).wf(),
            item.wf(),
        ensures
            final(self).wf(),
            first_equal(old(self)@, item@, 0) matches Some(i) ==> final(self)@ == old(self)@ && r == i,
            first_equal(old(self)@, item@, 0) is None ==> final(self)@ == old(self)@.push(item@) && r == old(self)@.len(),
            r < final(self)@.len(),
            final(self)@[r as int] == item@,
    {
        let mut i: usize = 0;
        while i < self.0.len()
            invariant
                self.wf(),
                item.wf(),
                i <= self.0@.len(),
                first_equal(self@, item@, 0) == first_equal(self@, item@, i as int),
            decreases self.0@.len() - i,
        {
            if self.0[i].same_as(&item) {
                return i;
            }
            i = i + 1;
        }
        let ghost before = self@;
        let ghost old_v = self.0@;
        self.0.push(item);
        assert(self@ =~= before.push(item@));
        proof {
            assert forall|a: int| 0 <= a < self.0@.len() implies #[trigger] self.0@[a].wf() by {
                if a < old_v.len() {
                    assert(old_v[a].wf());
                }
            }
        }
        i
    }

    /// Adds the hypotheses of `other` to the set with id `id`.
    pub fn extend_at(&mut self, id: HypothesesId, other: &Hypotheses)
        requires
            old(self).wf(),
            id < old(self)@.len(),
        ensures
            final(self).wf(),
            final(self)@ == old(self)@.update(id as int, old(self)@[id as int] + other@),
    {
        let ghost before = self@;
        let ghost old_v = self.0@;
        assert(old_v[id as int].wf());
        self.0[id].extend(other);
        proof {
            assert forall|a: int| 0 <= a < self.0@.len() implies #[trigger] self.0@[a].wf() by {
                if a != id {
                    assert(self.0@[a] == old_v[a]);
                }
            }
            assert(self@ =~= before.update(id as int, before[id as int] + other@));
        }
    }

    /// The set with id `id`, if there is one.
    pub fn get(&self, id: HypothesesId) -> (r: Option<&Hypotheses>)
        requires
            self.wf(),
        ensures
            (id < self@.len()) == (r is Some),
            r matches Some(h) ==> h@ == self@[id as int] && h.wf(),
    {
        if id < self.0.len() {
            Some(&self.0[id])
        } else {
            None
        }
    }

    /// The sets by id, in id order.
    pub fn into_map(self) -> (r: BTreeMap<HypothesesId, Hypotheses>)
        ensures
            forall|id: HypothesesId| r@.contains_key(id) <==> id < self@.len(),
            forall|id: HypothesesId| id < self@.len() ==> #[trigger] r@[id]@ == self@[id as int],
    {
        broadcast use vstd::laws_cmp::group_laws_cmp;
        let ghost sets = self@;
        let mut m: BTreeMap<HypothesesId, Hypotheses> = BTreeMap::new();
        let mut v = self.0;
        let ghost all = v@;
        while v.len() > 0
            invariant
                sets == all.map_values(|h: Hypotheses| h@),
                v@.len() <= all.len(),
                v@ == all.subrange(0, v@.len() as int),
                forall|id: HypothesesId| m@.contains_key(id) <==> v@.len() <= id < all.len(),
                forall|id: HypothesesId| v@.len() <= id < all.len() ==> #[trigger] m@[id]@ == sets[id as int],
            decreases v@.len(),
        {
            let h = v.pop().unwrap();
            let id = v.len();
            assert(v@ =~= all.subrange(0, v@.len() as int));
            assert(h == all[id as int]);
            assert(vstd::laws_cmp::obeys_cmp::<usize>());
            m.insert(id, h);
        }
        m
    }
}

} // verus!
