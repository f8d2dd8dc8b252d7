use vstd::prelude::*;
use crate::types::{BasicVarManager, Cnf, Lit};

verus! {

/// A node of the binary adder tree. Bounds given to the encoding methods of a
/// node refer to the output values that should be encoded, never to a bound
/// on the sum itself.
pub enum Node {
    Leaf {
        /// The input literal
        lit: Lit,
        /// The weight of the input literal
        weight: usize,
    },
    Internal {
        /// The output literals, sorted by strictly increasing output value
        out_lits: Vec<(usize, Lit)>,
        /// The path length to the leaf furthest away in the subtree
        depth: usize,
        /// The number of clauses this node produced
        n_clauses: usize,
        /// The maximum output value of this node
        max_val: usize,
        /// The range of output values already encoded at this node
        min_max_enc: Option<(usize, usize)>,
        left: Box<Node>,
        right: Box<Node>,
    },
}

/// The entries of `s` have strictly increasing values.
pub open spec fn sorted_values(s: Seq<(usize, Lit)>) -> bool {
    forall|i: int, j: int| 0 <= i < j < s.len() ==> s[i].0 < s[j].0
}

/// Every value of `s` lies in `[1, m]`.
pub open spec fn values_within(s: Seq<(usize, Lit)>, m: nat) -> bool {
    forall|i: int| 0 <= i < s.len() ==> 1 <= #[trigger] s[i].0 <= m
}

pub open spec fn has_value(s: Seq<(usize, Lit)>, v: int) -> bool {
    exists|i: int| 0 <= i < s.len() && #[trigger] s[i].0 == v
}

pub open spec fn has_entry(s: Seq<(usize, Lit)>, e: (usize, Lit)) -> bool {
    exists|i: int| 0 <= i < s.len() && #[trigger] s[i] == e
}

/// Every entry of `s` is still in `t`.
pub open spec fn keeps(s: Seq<(usize, Lit)>, t: Seq<(usize, Lit)>) -> bool {
    forall|i: int| 0 <= i < s.len() ==> has_entry(t, #[trigger] s[i])
}

/// Every entry of `t` is an entry of `s` or a positive literal of a variable
/// minted in `[n0, n1)`.
pub open spec fn fresh_since(s: Seq<(usize, Lit)>, t: Seq<(usize, Lit)>, n0: int, n1: int) -> bool {
    forall|i: int|
        0 <= i < t.len() ==> has_entry(s, #[trigger] t[i]) || (!t[i].1.negated && n0
            <= t[i].1.var.idx < n1)
}

/// The output values that encoding the window `[lo, hi]` of a node needs,
/// given the outputs `l` and `r` of its children: values of either child and
/// sums of pairs, inside the window.
pub open spec fn needed(l: Seq<(usize, Lit)>, r: Seq<(usize, Lit)>, lo: int, hi: int, v: int) -> bool {
    &&& lo <= v <= hi
    &&& {
        ||| has_value(l, v)
        ||| has_value(r, v)
        ||| exists|i: int, j: int| #[trigger] pair_sum(l, r, hi, v, i, j)
    }
}

/// `l[i]` and `r[j]` are a pair whose sum encoding a window below `hi` covers.
pub open spec fn pair_sum(l: Seq<(usize, Lit)>, r: Seq<(usize, Lit)>, hi: int, v: int, i: int, j: int) -> bool {
    0 <= i < l.len() && 0 <= j < r.len() && 0 < l[i].0 < hi && l[i].0 + r[j].0 == v
}

/// The clauses that encoding the window `[lo, hi]` of a node with outputs
/// `out` emits: a child value implies the same output value, and a pair of
/// child values implies the output of their sum.
pub open spec fn window_clause(
    c: Seq<Lit>,
    l: Seq<(usize, Lit)>,
    r: Seq<(usize, Lit)>,
    out: Seq<(usize, Lit)>,
    lo: int,
    hi: int,
) -> bool {
    ||| exists|i: int, k: int|
        0 <= i < l.len() && 0 <= k < out.len() && lo <= l[i].0 <= hi && #[trigger] out[k].0
            == #[trigger] l[i].0 && c == seq![l[i].1.neg(), out[k].1]
    ||| exists|j: int, k: int|
        0 <= j < r.len() && 0 <= k < out.len() && lo <= r[j].0 <= hi && #[trigger] out[k].0
            == #[trigger] r[j].0 && c == seq![r[j].1.neg(), out[k].1]
    ||| exists|i: int, j: int, k: int|
        0 <= i < l.len() && 0 <= j < r.len() && 0 <= k < out.len() && 0 < l[i].0 < hi && lo
            <= l[i].0 + r[j].0 <= hi && #[trigger] out[k].0 == #[trigger] l[i].0
            + #[trigger] r[j].0 && c == seq![l[i].1.neg(), r[j].1.neg(), out[k].1]
}

/// A strictly increasing sequence of values in `[1, m]` has at most `m` entries.
pub proof fn lemma_sorted_len(s: Seq<(usize, Lit)>, m: nat)
    requires
        sorted_values(s),
        values_within(s, m),
    ensures
        s.len() <= m,
{
    if s.len() > 0 {
        assert forall|i: int| 0 <= i < s.len() implies s[i].0 >= i + 1 by {
            lemma_sorted_lower(s, i);
        }
        assert(s[s.len() - 1].0 >= s.len());
    }
}

proof fn lemma_sorted_lower(s: Seq<(usize, Lit)>, i: int)
    requires
        sorted_values(s),
        forall|k: int| 0 <= k < s.len() ==> 1 <= #[trigger] s[k].0,
        0 <= i < s.len(),
    ensures
        s[i].0 >= i + 1,
    decreases i,
{
    if i > 0 {
        lemma_sorted_lower(s, i - 1);
    }
}

impl Node {
    pub open spec fn max_value(self) -> nat {
        match self {
            Node::Leaf { weight, .. } => weight as nat,
            Node::Internal { max_val, .. } => max_val as nat,
        }
    }

    pub open spec fn depth_of(self) -> nat {
        match self {
            Node::Leaf { .. } => 1,
            Node::Internal { depth, .. } => depth as nat,
        }
    }

    /// The input literals and weights at the leaves, left to right.
    pub open spec fn leaves(self) -> Seq<(Lit, usize)>
        decreases self,
    {
        match self {
            Node::Leaf { lit, weight } => seq![(lit, weight)],
            Node::Internal { left, right, .. } => left.leaves() + right.leaves(),
        }
    }

    /// The output map of the node; a leaf outputs its weight.
    pub open spec fn outputs(self) -> Seq<(usize, Lit)> {
        match self {
            Node::Leaf { lit, weight } => seq![(weight, lit)],
            Node::Internal { out_lits, .. } => out_lits@,
        }
    }

    /// The outputs of the left child of an internal node.
    pub open spec fn left_outs(self) -> Seq<(usize, Lit)> {
        match self {
            Node::Leaf { .. } => Seq::empty(),
            Node::Internal { left, .. } => left.outputs(),
        }
    }

    /// The outputs of the right child of an internal node.
    pub open spec fn right_outs(self) -> Seq<(usize, Lit)> {
        match self {
            Node::Leaf { .. } => Seq::empty(),
            Node::Internal { right, .. } => right.outputs(),
        }
    }

    pub open spec fn window(self) -> Option<(usize, usize)> {
        match self {
            Node::Leaf { .. } => None,
            Node::Internal { min_max_enc, .. } => min_max_enc,
        }
    }

    pub open spec fn clause_count(self) -> nat {
        match self {
            Node::Leaf { .. } => 0,
            Node::Internal { n_clauses, .. } => n_clauses as nat,
        }
    }

    /// Structural invariant of the subtree: children well formed, `max_val`
    /// the sum of the leaf weights, `depth` one more than the deeper child,
    /// and sorted output values within `[1, max_val]`.
    pub open spec fn wf(self) -> bool
        decreases self,
    {
        match self {
            Node::Leaf { weight, .. } => weight >= 1,
            Node::Internal { out_lits, depth, max_val, min_max_enc, left, right, .. } => {
                &&& left.wf()
                &&& right.wf()
                &&& max_val == left.max_value() + right.max_value()
                &&& depth == 1 + if left.depth_of() >= right.depth_of() {
                    left.depth_of()
                } else {
                    right.depth_of()
                }
                &&& sorted_values(out_lits@)
                &&& values_within(out_lits@, max_val as nat)
                &&& (min_max_enc matches Some(w) ==> w.1 <= max_val)
            }
        }
    }

    /// The number of output variables the subtree can still mint.
    pub open spec fn slack(self) -> int
        decreases self,
    {
        match self {
            Node::Leaf { .. } => 0,
            Node::Internal { out_lits, max_val, left, right, .. } => (max_val - out_lits@.len())
                + left.slack() + right.slack(),
        }
    }

    pub proof fn lemma_wf_facts(self)
        requires
            self.wf(),
        ensures
            1 <= self.depth_of() <= self.max_value(),
            self.slack() >= 0,
            sorted_values(self.outputs()),
            values_within(self.outputs(), self.max_value()),
            self.outputs().len() <= self.max_value(),
        decreases self,
    {
        match self {
            Node::Leaf { .. } => {},
            Node::Internal { out_lits, left, right, max_val, .. } => {
                left.lemma_wf_facts();
                right.lemma_wf_facts();
                lemma_sorted_len(out_lits@, max_val as nat);
            },
        }
    }

    /// A well formed subtree can mint at most `(depth - 1) * max_val` more
    /// output variables: each level below the leaves holds values up to the
    /// total weight.
    pub proof fn lemma_slack_depth(self)
        requires
            self.wf(),
        ensures
            self.slack() <= (self.depth_of() - 1) * self.max_value(),
        decreases self,
    {
        if let Node::Internal { left, right, .. } = self {
            left.lemma_slack_depth();
            right.lemma_slack_depth();
            left.lemma_wf_facts();
            right.lemma_wf_facts();
            let d = self.depth_of() as int;
            let dl = left.depth_of() as int;
            let dr = right.depth_of() as int;
            let ml = left.max_value() as int;
            let mr = right.max_value() as int;
            assert((dl - 1) * ml + (dr - 1) * mr <= (d - 2) * (ml + mr)) by (nonlinear_arith)
                requires
                    dl <= d - 1,
                    dr <= d - 1,
                    dl >= 1,
                    dr >= 1,
                    ml >= 0,
                    mr >= 0;
            assert((d - 2) * (ml + mr) + (ml + mr) == (d - 1) * (ml + mr)) by (nonlinear_arith);
        }
    }

    /// Constructs a new leaf node
    pub fn new_leaf(lit: Lit, weight: usize) -> (r: Node)
        ensures
            r == (Node::Leaf { lit, weight }),
    {
        Node::Leaf { lit, weight }
    }

    /// Constructs a new internal node over two subtrees; nothing is encoded
    /// at it yet.
    pub fn new_internal(left: Node, right: Node) -> (r: Node)
        requires
            left.wf(),
            right.wf(),
            left.max_value() + right.max_value() <= usize::MAX,
        ensures
            r.wf(),
            r.max_value() == left.max_value() + right.max_value(),
            r.outputs() == Seq::<(usize, Lit)>::empty(),
            r.window() is None,
            r.clause_count() == 0,
            r.slack() == left.slack() + right.slack() + r.max_value(),
            r matches Node::Internal { left: l, right: rr, .. } && *l == left && *rr == right,
            r.windows_ordered() == (left.windows_ordered() && right.windows_ordered()),
    {
        proof {
            left.lemma_wf_facts();
            right.lemma_wf_facts();
        }
        let left_depth = left.get_depth();
        let right_depth = right.get_depth();
        let left_max = left.get_max_val();
        let right_max = right.get_max_val();
        let r = Node::Internal {
            out_lits: Vec::new(),
            depth: if left_depth > right_depth {
                left_depth + 1
            } else {
                right_depth + 1
            },
            n_clauses: 0,
            min_max_enc: None,
            max_val: left_max + right_max,
            left: Box::new(left),
            right: Box::new(right),
        };
        r
    }

    /// Gets the maximum depth of the subtree rooted in this node
    pub fn get_depth(&self) -> (r: usize)
        ensures
            r == self.depth_of(),
    {
        match self {
            Node::Leaf { .. } => 1,
            Node::Internal { depth, .. } => *depth,
        }
    }

    /// The maximum output value of this node
    pub fn get_max_val(&self) -> (r: usize)
        ensures
            r == self.max_value(),
    {
        match self {
            Node::Leaf { weight, .. } => *weight,
            Node::Internal { max_val, .. } => *max_val,
        }
    }

    fn output_len(&self) -> (r: usize)
        ensures
            r == self.outputs().len(),
    {
        match self {
            Node::Leaf { .. } => 1,
            Node::Internal { out_lits, .. } => out_lits.len(),
        }
    }

    fn output_at(&self, i: usize) -> (r: (usize, Lit))
        requires
            i < self.outputs().len(),
        ensures
            r == self.outputs()[i as int],
    {
        match self {
            Node::Leaf { lit, weight } => (*weight, *lit),
            Node::Internal { out_lits, .. } => out_lits[i],
        }
    }
}

/// The number of entries of the sorted `s` whose value is below `v`.
fn search(s: &Vec<(usize, Lit)>, v: usize) -> (pos: usize)
    requires
        sorted_values(s@),
    ensures
        pos <= s@.len(),
        forall|i: int| 0 <= i < pos ==> s@[i].0 < v,
        forall|i: int| pos <= i < s@.len() ==> s@[i].0 >= v,
{
    let mut lo: usize = 0;
    let mut hi: usize = s.len();
    while lo < hi
        invariant
            sorted_values(s@),
            0 <= lo <= hi <= s@.len(),
            forall|i: int| 0 <= i < lo ==> s@[i].0 < v,
            forall|i: int| hi <= i < s@.len() ==> s@[i].0 >= v,
        decreases hi - lo,
    {
        let mid = lo + (hi - lo) / 2;
        if s[mid].0 < v {
            lo = mid + 1;
        } else {
            hi = mid;
        }
    }
    lo
}

/// Looks up the literal of value `v` in the sorted `s`.
fn lookup(s: &Vec<(usize, Lit)>, v: usize) -> (r: Option<Lit>)
    requires
        sorted_values(s@),
    ensures
        r matches Some(l) ==> has_entry(s@, (v, l)),
        r is None ==> !has_value(s@, v as int),
{
    let pos = search(s, v);
    if pos < s.len() && s[pos].0 == v {
        Some(s[pos].1)
    } else {
        None
    }
}

/// Gives value `v` an output literal, minting a fresh variable if it has none.
fn reserve_value(
    out: &mut Vec<(usize, Lit)>,
    v: usize,
    Ghost(m): Ghost<nat>,
    var_manager: &mut BasicVarManager,
)
    requires
        sorted_values(old(out)@),
        values_within(old(out)@, m),
        1 <= v <= m,
        old(var_manager).next_var + m - old(out)@.len() <= u32::MAX,
    ensures
        sorted_values(final(out)@),
        values_within(final(out)@, m),
        forall|w: int| has_value(final(out)@, w) <==> (has_value(old(out)@, w) || w == v),
        keeps(old(out)@, final(out)@),
        fresh_since(
            old(out)@,
            final(out)@,
            old(var_manager).next_var as int,
            final(var_manager).next_var as int,
        ),
        final(var_manager).next_var - old(var_manager).next_var == final(out)@.len() - old(out)@.len(),
        old(var_manager).next_var <= final(var_manager).next_var,
        has_value(old(out)@, v as int) ==> *final(out) == *old(out) && *final(var_manager)
            == *old(var_manager),
        !has_value(old(out)@, v as int) ==> has_entry(final(out)@, (v, Lit::pos(old(var_manager).next_var)))
            && final(var_manager).next_var == old(var_manager).next_var + 1,
{
    let pos = search(out, v);
    if pos < out.len() && out[pos].0 == v {
        return;
    }
    proof {
        let ghost t = out@.insert(pos as int, (v, Lit::pos(0)));
        assert(sorted_values(t));
        assert(values_within(t, m));
        lemma_sorted_len(t, m);
    }
    let lit = var_manager.next_free().pos_lit();
    let ghost s0 = out@;
    out.insert(pos, (v, lit));
    proof {
        let s1 = out@;
        assert(s1 == s0.insert(pos as int, (v, lit)));
        assert forall|w: int| has_value(s1, w) <==> (has_value(s0, w) || w == v) by {
            if has_value(s1, w) {
                let i = choose|i: int| 0 <= i < s1.len() && #[trigger] s1[i].0 == w;
                if i < pos {
                    assert(s0[i].0 == w);
                } else if i > pos {
                    assert(s0[i - 1].0 == w);
                }
            }
            if has_value(s0, w) {
                let i = choose|i: int| 0 <= i < s0.len() && #[trigger] s0[i].0 == w;
                if i < pos {
                    assert(s1[i].0 == w);
                } else {
                    assert(s1[i + 1].0 == w);
                }
            }
            if w == v {
                assert(s1[pos as int].0 == w);
            }
        }
        assert forall|i: int| 0 <= i < s0.len() implies has_entry(s1, #[trigger] s0[i]) by {
            if i < pos {
                assert(s1[i] == s0[i]);
            } else {
                assert(s1[i + 1] == s0[i]);
            }
        }
        assert forall|i: int| 0 <= i < s1.len() implies has_entry(s0, #[trigger] s1[i]) || (
        !s1[i].1.negated && old(var_manager).next_var <= s1[i].1.var.idx
            < final(var_manager).next_var) by {
            if i < pos {
                assert(s0[i] == s1[i]);
            } else if i > pos {
                assert(s0[i - 1] == s1[i]);
            }
        }
    }
}

proof fn lemma_chain(
    s0: Seq<(usize, Lit)>,
    s1: Seq<(usize, Lit)>,
    s2: Seq<(usize, Lit)>,
    n0: int,
    n1: int,
    n2: int,
)
    requires
        keeps(s0, s1),
        keeps(s1, s2),
        fresh_since(s0, s1, n0, n1),
        fresh_since(s1, s2, n1, n2),
        n0 <= n1 <= n2,
    ensures
        keeps(s0, s2),
        fresh_since(s0, s2, n0, n2),
{
    assert forall|i: int| 0 <= i < s0.len() implies has_entry(s2, #[trigger] s0[i]) by {
        let k = choose|k: int| 0 <= k < s1.len() && #[trigger] s1[k] == s0[i];
        assert(has_entry(s2, s1[k]));
    }
    assert forall|i: int| 0 <= i < s2.len() implies has_entry(s0, #[trigger] s2[i]) || (
    !s2[i].1.negated && n0 <= s2[i].1.var.idx < n2) by {
        if has_entry(s1, s2[i]) {
            let k = choose|k: int| 0 <= k < s1.len() && #[trigger] s1[k] == s2[i];
            assert(has_entry(s0, s1[k]) || (!s1[k].1.negated && n0 <= s1[k].1.var.idx < n1));
        }
    }
}

/// The values among `l[..n]` that lie in `[lo, hi]`.
pub open spec fn hit_before(l: Seq<(usize, Lit)>, lo: int, hi: int, w: int, n: int) -> bool {
    lo <= w <= hi && exists|i: int| 0 <= i < n && #[trigger] l[i].0 == w
}

/// The pair sums in `[lo, hi]` with a left index below `ni`, or equal to `ni`
/// and a right index below `nj`.
pub open spec fn sum_before(
    l: Seq<(usize, Lit)>,
    r: Seq<(usize, Lit)>,
    lo: int,
    hi: int,
    w: int,
    ni: int,
    nj: int,
) -> bool {
    lo <= w <= hi && exists|i: int, j: int|
        (i < ni || (i == ni && j < nj)) && #[trigger] pair_sum(l, r, hi, w, i, j)
}

/// The values of `s` in `[lo, hi]`, in order.
pub open spec fn vals_in(s: Seq<(usize, Lit)>, lo: int, hi: int) -> Seq<int>
    decreases s.len(),
{
    if s.len() == 0 {
        Seq::empty()
    } else if lo <= s.last().0 <= hi {
        vals_in(s.drop_last(), lo, hi).push(s.last().0 as int)
    } else {
        vals_in(s.drop_last(), lo, hi)
    }
}

/// The sums `a + b` in `[lo, hi]` for the value `a` and the values `b` of
/// `r`, in the order of `r`.
pub open spec fn row_vals(a: int, r: Seq<(usize, Lit)>, lo: int, hi: int) -> Seq<int>
    decreases r.len(),
{
    if r.len() == 0 {
        Seq::empty()
    } else if 0 < a < hi && a + r.last().0 <= hi && lo <= a + r.last().0 {
        row_vals(a, r.drop_last(), lo, hi).push(a + r.last().0)
    } else {
        row_vals(a, r.drop_last(), lo, hi)
    }
}

/// The pair sums of `l` and `r` in `[lo, hi]`, row by row.
pub open spec fn pair_vals(l: Seq<(usize, Lit)>, r: Seq<(usize, Lit)>, lo: int, hi: int) -> Seq<int>
    decreases l.len(),
{
    if l.len() == 0 {
        Seq::empty()
    } else {
        pair_vals(l.drop_last(), r, lo, hi) + row_vals(l.last().0 as int, r, lo, hi)
    }
}

/// The values that reserving the window `[lo, hi]` visits, in order: left
/// values, right values, then pair sums.
pub open spec fn visit_seq(l: Seq<(usize, Lit)>, r: Seq<(usize, Lit)>, lo: int, hi: int) -> Seq<int> {
    vals_in(l, lo, hi) + vals_in(r, lo, hi) + pair_vals(l, r, lo, hi)
}

/// The values of `v` that get a fresh variable, in order: each the first
/// time it is visited, unless `present` has it already.
pub open spec fn fresh_order(v: Seq<int>, present: Seq<(usize, Lit)>) -> Seq<int>
    decreases v.len(),
{
    if v.len() == 0 {
        Seq::empty()
    } else {
        let f = fresh_order(v.drop_last(), present);
        if has_value(present, v.last()) || f.contains(v.last()) {
            f
        } else {
            f.push(v.last())
        }
    }
}

/// The `j`-th value of `m` has the positive literal of variable `n0 + j` in
/// `out`, for every `j`.
pub open spec fn minted_as(out: Seq<(usize, Lit)>, m: Seq<int>, n0: int) -> bool {
    forall|j: int| 0 <= j < m.len() ==> has_entry(out, (#[trigger] m[j] as usize, Lit::pos((n0 + j) as u32)))
}

proof fn lemma_visit_step(
    s0: Seq<(usize, Lit)>,
    before: Seq<(usize, Lit)>,
    after: Seq<(usize, Lit)>,
    visited: Seq<int>,
    v: usize,
    n0: int,
    nb: int,
    na: int,
)
    requires
        nb == n0 + fresh_order(visited, s0).len(),
        minted_as(before, fresh_order(visited, s0), n0),
        forall|w: int| #[trigger] has_value(before, w) <==> (has_value(s0, w) || fresh_order(visited, s0).contains(w)),
        forall|w: int| #[trigger] has_value(after, w) <==> (has_value(before, w) || w == v),
        keeps(before, after),
        has_value(before, v as int) ==> after == before && na == nb,
        !has_value(before, v as int) ==> has_entry(after, (v, Lit::pos(nb as u32))) && na == nb + 1,
    ensures
        na == n0 + fresh_order(visited.push(v as int), s0).len(),
        minted_as(after, fresh_order(visited.push(v as int), s0), n0),
        forall|w: int| #[trigger] has_value(after, w) <==> (has_value(s0, w) || fresh_order(visited.push(v as int), s0).contains(w)),
{
    let vs = visited.push(v as int);
    assert(vs.drop_last() =~= visited);
    let f = fresh_order(visited, s0);
    assert forall|j: int| 0 <= j < f.len() implies has_entry(after, (#[trigger] f[j] as usize, Lit::pos((n0 + j) as u32))) by {
        let e = (f[j] as usize, Lit::pos((n0 + j) as u32));
        assert(has_entry(before, e));
        let k = choose|k: int| 0 <= k < before.len() && #[trigger] before[k] == e;
        assert(has_entry(after, before[k]));
    }
    if !has_value(before, v as int) {
        let g = f.push(v as int);
        assert forall|w: int| g.contains(w) <==> (f.contains(w) || w == v) by {
            if g.contains(w) {
                let j = choose|j: int| 0 <= j < g.len() && g[j] == w;
                if j < f.len() {
                    assert(f[j] == w);
                }
            }
            if f.contains(w) {
                let j = choose|j: int| 0 <= j < f.len() && f[j] == w;
                assert(g[j] == w);
            }
            if w == v {
                assert(g[f.len() as int] == w);
            }
        }
        assert(g[f.len() as int] == v);
    }
}

proof fn lemma_vals_in_empty(s: Seq<(usize, Lit)>, lo: int, hi: int)
    requires
        lo > hi,
    ensures
        vals_in(s, lo, hi) == Seq::<int>::empty(),
    decreases s.len(),
{
    if s.len() > 0 {
        lemma_vals_in_empty(s.drop_last(), lo, hi);
    }
}

proof fn lemma_row_vals_empty(a: int, r: Seq<(usize, Lit)>, lo: int, hi: int)
    requires
        lo > hi,
    ensures
        row_vals(a, r, lo, hi) == Seq::<int>::empty(),
    decreases r.len(),
{
    if r.len() > 0 {
        lemma_row_vals_empty(a, r.drop_last(), lo, hi);
    }
}

proof fn lemma_pair_vals_empty(l: Seq<(usize, Lit)>, r: Seq<(usize, Lit)>, lo: int, hi: int)
    requires
        lo > hi,
    ensures
        pair_vals(l, r, lo, hi) == Seq::<int>::empty(),
    decreases l.len(),
{
    if l.len() > 0 {
        lemma_pair_vals_empty(l.drop_last(), r, lo, hi);
        lemma_row_vals_empty(l.last().0 as int, r, lo, hi);
        assert(Seq::<int>::empty() + Seq::<int>::empty() =~= Seq::<int>::empty());
    }
}

/// An empty window visits no value, so nothing is minted for it.
pub proof fn lemma_visit_empty(l: Seq<(usize, Lit)>, r: Seq<(usize, Lit)>, lo: int, hi: int, present: Seq<(usize, Lit)>)
    requires
        lo > hi,
    ensures
        fresh_order(visit_seq(l, r, lo, hi), present) == Seq::<int>::empty(),
{
    lemma_vals_in_empty(l, lo, hi);
    lemma_vals_in_empty(r, lo, hi);
    lemma_pair_vals_empty(l, r, lo, hi);
    assert(visit_seq(l, r, lo, hi) =~= Seq::<int>::empty());
}

/// Reserves the output variables that the window `[min_enc, max_enc]` needs,
/// given the children `left` and `right`.
fn reserve_window(
    out: &mut Vec<(usize, Lit)>,
    left: &Node,
    right: &Node,
    min_enc: usize,
    max_enc: usize,
    var_manager: &mut BasicVarManager,
)
    requires
        sorted_values(old(out)@),
        values_within(old(out)@, left.max_value() + right.max_value()),
        sorted_values(left.outputs()),
        values_within(left.outputs(), left.max_value()),
        sorted_values(right.outputs()),
        values_within(right.outputs(), right.max_value()),
        old(var_manager).next_var + left.max_value() + right.max_value() - old(out)@.len()
            <= u32::MAX,
    ensures
        sorted_values(final(out)@),
        values_within(final(out)@, left.max_value() + right.max_value()),
        forall|w: int|
            has_value(final(out)@, w) <==> (has_value(old(out)@, w) || needed(
                left.outputs(),
                right.outputs(),
                min_enc as int,
                max_enc as int,
                w,
            )),
        keeps(old(out)@, final(out)@),
        fresh_since(
            old(out)@,
            final(out)@,
            old(var_manager).next_var as int,
            final(var_manager).next_var as int,
        ),
        final(var_manager).next_var - old(var_manager).next_var == final(out)@.len() - old(out)@.len(),
        old(var_manager).next_var <= final(var_manager).next_var,
        final(var_manager).next_var == old(var_manager).next_var + fresh_order(
            visit_seq(left.outputs(), right.outputs(), min_enc as int, max_enc as int),
            old(out)@,
        ).len(),
        minted_as(
            final(out)@,
            fresh_order(visit_seq(left.outputs(), right.outputs(), min_enc as int, max_enc as int), old(out)@),
            old(var_manager).next_var as int,
        ),
        (forall|w: int|
            needed(left.outputs(), right.outputs(), min_enc as int, max_enc as int, w)
                ==> has_value(old(out)@, w)) ==> *final(out) == *old(out) && *final(var_manager)
            == *old(var_manager),
{
    let ghost m = left.max_value() + right.max_value();
    let ghost l = left.outputs();
    let ghost r = right.outputs();
    let ghost s0 = out@;
    let ghost n0 = var_manager.next_var as int;
    let ghost vm0 = *var_manager;
    let ghost ov = *out;
    let ghost mut visited: Seq<int> = Seq::empty();
    let ghost all_present = forall|w: int|
        #[trigger] needed(l, r, min_enc as int, max_enc as int, w) ==> has_value(s0, w);
    let (lo, hi) = (min_enc, max_enc);
    let n_left = left.output_len();
    let n_right = right.output_len();
    // Values of the left child
    let mut i: usize = 0;
    while i < n_left
        invariant
            n_left == l.len(),
            n_right == r.len(),
            l == left.outputs(),
            r == right.outputs(),
            m == left.max_value() + right.max_value(),
            sorted_values(l),
            values_within(l, left.max_value()),
            sorted_values(out@),
            values_within(out@, m),
            0 <= i <= n_left,
            forall|w: int| #[trigger] has_value(out@, w) <==> (has_value(s0, w) || hit_before(l, lo as int, hi as int, w, i as int)),
            keeps(s0, out@),
            fresh_since(s0, out@, n0, var_manager.next_var as int),
            var_manager.next_var - n0 == out@.len() - s0.len(),
            n0 + m - s0.len() <= u32::MAX,
            n0 <= var_manager.next_var,
            ov@ == s0,
            lo == min_enc && hi == max_enc,
            all_present ==> *out == ov && *var_manager == vm0,
            var_manager.next_var == n0 + fresh_order(visited, s0).len(),
            minted_as(out@, fresh_order(visited, s0), n0),
            forall|w: int| #[trigger] has_value(out@, w) <==> (has_value(s0, w) || fresh_order(visited, s0).contains(w)),
            visited == vals_in(l.subrange(0, i as int), lo as int, hi as int),
            all_present == forall|w: int| #[trigger] needed(l, r, min_enc as int, max_enc as int, w) ==> has_value(s0, w),
        decreases n_left - i,
    {
        let (a, _) = left.output_at(i);
        let ghost sp = out@;
        let ghost np = var_manager.next_var as int;
        if lo <= a && a <= hi {
            assert(needed(l, r, lo as int, hi as int, a as int)) by {
                assert(l[i as int].0 == a);
            }
            assert(all_present ==> has_value(out@, a as int));
            reserve_value(out, a, Ghost(m), var_manager);
            proof { lemma_chain(s0, sp, out@, n0, np, var_manager.next_var as int); }
                proof {
                    lemma_visit_step(s0, sp, out@, visited, (a) as usize, n0, np, var_manager.next_var as int);
                    visited = visited.push((a) as int);
                }
        }
        proof {
            assert forall|w: int| #[trigger] has_value(out@, w) <==> (has_value(s0, w) || hit_before(l, lo as int, hi as int, w, i + 1)) by {
                if hit_before(l, lo as int, hi as int, w, i + 1) && !hit_before(l, lo as int, hi as int, w, i as int) {
                    assert(l[i as int].0 == w);
                }
                if hit_before(l, lo as int, hi as int, w, i as int) {
                    let k = choose|k: int| 0 <= k < i && #[trigger] l[k].0 == w;
                    assert(0 <= k < i + 1 && l[k].0 == w);
                }
            }
        }
        proof {
            let pre = l.subrange(0, i as int);
            let post = l.subrange(0, i + 1);
            assert(post.drop_last() =~= pre);
            assert(post.last() == l[i as int]);
        }
        i = i + 1;
    }
    // Values of the right child
    proof {
        assert(l.subrange(0, n_left as int) =~= l);
        assert(r.subrange(0, 0) =~= Seq::<(usize, Lit)>::empty());
        assert(visited =~= vals_in(l, lo as int, hi as int) + vals_in(r.subrange(0, 0), lo as int, hi as int));
    }
    let mut j: usize = 0;
    while j < n_right
        invariant
            n_left == l.len(),
            n_right == r.len(),
            l == left.outputs(),
            r == right.outputs(),
            m == left.max_value() + right.max_value(),
            sorted_values(r),
            values_within(r, right.max_value()),
            sorted_values(out@),
            values_within(out@, m),
            0 <= j <= n_right,
            forall|w: int| #[trigger] has_value(out@, w) <==> (has_value(s0, w) || hit_before(l, lo as int, hi as int, w, n_left as int) || hit_before(r, lo as int, hi as int, w, j as int)),
            keeps(s0, out@),
            fresh_since(s0, out@, n0, var_manager.next_var as int),
            var_manager.next_var - n0 == out@.len() - s0.len(),
            n0 + m - s0.len() <= u32::MAX,
            n0 <= var_manager.next_var,
            ov@ == s0,
            lo == min_enc && hi == max_enc,
            all_present ==> *out == ov && *var_manager == vm0,
            var_manager.next_var == n0 + fresh_order(visited, s0).len(),
            minted_as(out@, fresh_order(visited, s0), n0),
            forall|w: int| #[trigger] has_value(out@, w) <==> (has_value(s0, w) || fresh_order(visited, s0).contains(w)),
            visited == vals_in(l, lo as int, hi as int) + vals_in(r.subrange(0, j as int), lo as int, hi as int),
            all_present == forall|w: int| #[trigger] needed(l, r, min_enc as int, max_enc as int, w) ==> has_value(s0, w),
        decreases n_right - j,
    {
        let (b, _) = right.output_at(j);
        let ghost sp = out@;
        let ghost np = var_manager.next_var as int;
        if lo <= b && b <= hi {
            assert(needed(l, r, lo as int, hi as int, b as int)) by {
                assert(r[j as int].0 == b);
            }
            assert(all_present ==> has_value(out@, b as int));
            reserve_value(out, b, Ghost(m), var_manager);
            proof { lemma_chain(s0, sp, out@, n0, np, var_manager.next_var as int); }
                proof {
                    lemma_visit_step(s0, sp, out@, visited, (b) as usize, n0, np, var_manager.next_var as int);
                    visited = visited.push((b) as int);
                }
        }
        proof {
            assert forall|w: int| #[trigger] has_value(out@, w) <==> (has_value(s0, w) || hit_before(l, lo as int, hi as int, w, n_left as int) || hit_before(r, lo as int, hi as int, w, j + 1)) by {
                if hit_before(r, lo as int, hi as int, w, j + 1) && !hit_before(r, lo as int, hi as int, w, j as int) {
                    assert(r[j as int].0 == w);
                }
                if hit_before(r, lo as int, hi as int, w, j as int) {
                    let k = choose|k: int| 0 <= k < j && #[trigger] r[k].0 == w;
                    assert(0 <= k < j + 1 && r[k].0 == w);
                }
            }
        }
        proof {
            let pre = r.subrange(0, j as int);
            let post = r.subrange(0, j + 1);
            assert(post.drop_last() =~= pre);
            assert(post.last() == r[j as int]);
            if lo <= b && b <= hi {
                assert(visited =~= vals_in(l, lo as int, hi as int) + vals_in(post, lo as int, hi as int));
            }
        }
        j = j + 1;
    }
    // Sums of pairs
    proof {
        assert(r.subrange(0, n_right as int) =~= r);
        assert(l.subrange(0, 0) =~= Seq::<(usize, Lit)>::empty());
        assert(visited =~= vals_in(l, lo as int, hi as int) + vals_in(r, lo as int, hi as int) + pair_vals(l.subrange(0, 0), r, lo as int, hi as int));
    }
    let mut i: usize = 0;
    while i < n_left
        invariant
            n_left == l.len(),
            n_right == r.len(),
            l == left.outputs(),
            r == right.outputs(),
            m == left.max_value() + right.max_value(),
            sorted_values(l),
            values_within(l, left.max_value()),
            sorted_values(r),
            values_within(r, right.max_value()),
            sorted_values(out@),
            values_within(out@, m),
            0 <= i <= n_left,
            forall|w: int| #[trigger] has_value(out@, w) <==> (has_value(s0, w) || hit_before(l, lo as int, hi as int, w, n_left as int) || hit_before(r, lo as int, hi as int, w, n_right as int) || sum_before(l, r, lo as int, hi as int, w, i as int, 0)),
            keeps(s0, out@),
            fresh_since(s0, out@, n0, var_manager.next_var as int),
            var_manager.next_var - n0 == out@.len() - s0.len(),
            n0 + m - s0.len() <= u32::MAX,
            n0 <= var_manager.next_var,
            ov@ == s0,
            lo == min_enc && hi == max_enc,
            all_present ==> *out == ov && *var_manager == vm0,
            var_manager.next_var == n0 + fresh_order(visited, s0).len(),
            minted_as(out@, fresh_order(visited, s0), n0),
            forall|w: int| #[trigger] has_value(out@, w) <==> (has_value(s0, w) || fresh_order(visited, s0).contains(w)),
            visited == vals_in(l, lo as int, hi as int) + vals_in(r, lo as int, hi as int) + pair_vals(l.subrange(0, i as int), r, lo as int, hi as int),
            all_present == forall|w: int| #[trigger] needed(l, r, min_enc as int, max_enc as int, w) ==> has_value(s0, w),
        decreases n_left - i,
    {
        let (a, _) = left.output_at(i);
        proof {
            assert(r.subrange(0, 0) =~= Seq::<(usize, Lit)>::empty());
            assert(visited =~= vals_in(l, lo as int, hi as int) + vals_in(r, lo as int, hi as int) + pair_vals(l.subrange(0, i as int), r, lo as int, hi as int) + row_vals(a as int, r.subrange(0, 0), lo as int, hi as int));
        }
        let mut j: usize = 0;
        while j < n_right
            invariant
                n_left == l.len(),
                n_right == r.len(),
                l == left.outputs(),
                r == right.outputs(),
                m == left.max_value() + right.max_value(),
                sorted_values(l),
                values_within(l, left.max_value()),
                sorted_values(r),
                values_within(r, right.max_value()),
                sorted_values(out@),
                values_within(out@, m),
                0 <= i < n_left,
                0 <= j <= n_right,
                a == l[i as int].0,
                forall|w: int| #[trigger] has_value(out@, w) <==> (has_value(s0, w) || hit_before(l, lo as int, hi as int, w, n_left as int) || hit_before(r, lo as int, hi as int, w, n_right as int) || sum_before(l, r, lo as int, hi as int, w, i as int, j as int)),
                keeps(s0, out@),
                fresh_since(s0, out@, n0, var_manager.next_var as int),
                var_manager.next_var - n0 == out@.len() - s0.len(),
                n0 + m - s0.len() <= u32::MAX,
            n0 <= var_manager.next_var,
            ov@ == s0,
            lo == min_enc && hi == max_enc,
            all_present ==> *out == ov && *var_manager == vm0,
            var_manager.next_var == n0 + fresh_order(visited, s0).len(),
            minted_as(out@, fresh_order(visited, s0), n0),
            forall|w: int| #[trigger] has_value(out@, w) <==> (has_value(s0, w) || fresh_order(visited, s0).contains(w)),
            visited == vals_in(l, lo as int, hi as int) + vals_in(r, lo as int, hi as int) + pair_vals(l.subrange(0, i as int), r, lo as int, hi as int) + row_vals(a as int, r.subrange(0, j as int), lo as int, hi as int),
            all_present == forall|w: int| #[trigger] needed(l, r, min_enc as int, max_enc as int, w) ==> has_value(s0, w),
            decreases n_right - j,
        {
            let (b, _) = right.output_at(j);
            let ghost sp = out@;
            let ghost np = var_manager.next_var as int;
            if 0 < a && a < hi && b <= hi - a && lo <= a + b {
                assert(l[i as int].0 <= left.max_value());
                assert(r[j as int].0 <= right.max_value());
                assert(pair_sum(l, r, hi as int, a + b, i as int, j as int));
                assert(needed(l, r, lo as int, hi as int, a + b));
                assert(all_present ==> has_value(out@, a + b));
                reserve_value(out, a + b, Ghost(m), var_manager);
                proof { lemma_chain(s0, sp, out@, n0, np, var_manager.next_var as int); }
                proof {
                    lemma_visit_step(s0, sp, out@, visited, (a + b) as usize, n0, np, var_manager.next_var as int);
                    visited = visited.push((a + b) as int);
                }
            }
            proof {
                let ii = i as int;
                let jj = j as int;
                assert forall|w: int| sum_before(l, r, lo as int, hi as int, w, ii, jj + 1) <==> (sum_before(l, r, lo as int, hi as int, w, ii, jj) || (lo <= w <= hi && pair_sum(l, r, hi as int, w, ii, jj))) by {
                    if sum_before(l, r, lo as int, hi as int, w, ii, jj) {
                        let (x, y) = choose|x: int, y: int| (x < ii || (x == ii && y < jj)) && #[trigger] pair_sum(l, r, hi as int, w, x, y);
                        assert((x < ii || (x == ii && y < jj + 1)) && pair_sum(l, r, hi as int, w, x, y));
                    }
                    if sum_before(l, r, lo as int, hi as int, w, ii, jj + 1) && !(lo <= w <= hi && pair_sum(l, r, hi as int, w, ii, jj)) {
                        let (x, y) = choose|x: int, y: int| (x < ii || (x == ii && y < jj + 1)) && #[trigger] pair_sum(l, r, hi as int, w, x, y);
                        assert((x < ii || (x == ii && y < jj)) && pair_sum(l, r, hi as int, w, x, y));
                    }
                }
                assert forall|w: int| #[trigger] has_value(out@, w) <==> (has_value(s0, w) || hit_before(l, lo as int, hi as int, w, n_left as int) || hit_before(r, lo as int, hi as int, w, n_right as int) || sum_before(l, r, lo as int, hi as int, w, ii, jj + 1)) by {
                    assert(has_value(sp, w) <==> (has_value(s0, w) || hit_before(l, lo as int, hi as int, w, n_left as int) || hit_before(r, lo as int, hi as int, w, n_right as int) || sum_before(l, r, lo as int, hi as int, w, ii, jj)));
                    if lo <= w <= hi && pair_sum(l, r, hi as int, w, ii, jj) {
                        assert(0 < a && a < hi && b <= hi - a && lo <= a + b);
                        assert(has_value(out@, w));
                    }
                }
            }
            proof {
                let pre = r.subrange(0, j as int);
                let post = r.subrange(0, j + 1);
                assert(post.drop_last() =~= pre);
                assert(post.last() == r[j as int]);
                let base = vals_in(l, lo as int, hi as int) + vals_in(r, lo as int, hi as int) + pair_vals(l.subrange(0, i as int), r, lo as int, hi as int);
                if 0 < a && a < hi && b <= hi - a && lo <= a + b {
                    assert(visited =~= base + row_vals(a as int, post, lo as int, hi as int));
                }
            }
            j = j + 1;
        }
        proof {
            let ii = i as int;
            assert forall|w: int| sum_before(l, r, lo as int, hi as int, w, ii + 1, 0) <==> sum_before(l, r, lo as int, hi as int, w, ii, n_right as int) by {
                if sum_before(l, r, lo as int, hi as int, w, ii, n_right as int) {
                    let (x, y) = choose|x: int, y: int| (x < ii || (x == ii && y < n_right)) && #[trigger] pair_sum(l, r, hi as int, w, x, y);
                    assert((x < ii + 1 || (x == ii + 1 && y < 0)) && pair_sum(l, r, hi as int, w, x, y));
                }
                if sum_before(l, r, lo as int, hi as int, w, ii + 1, 0) {
                    let (x, y) = choose|x: int, y: int| (x < ii + 1 || (x == ii + 1 && y < 0)) && #[trigger] pair_sum(l, r, hi as int, w, x, y);
                    assert((x < ii || (x == ii && y < n_right)) && pair_sum(l, r, hi as int, w, x, y));
                }
            }
        }
        proof {
            let pre = l.subrange(0, i as int);
            let post = l.subrange(0, i + 1);
            assert(post.drop_last() =~= pre);
            assert(post.last() == l[i as int]);
            assert(r.subrange(0, n_right as int) =~= r);
            assert(visited =~= vals_in(l, lo as int, hi as int) + vals_in(r, lo as int, hi as int) + pair_vals(post, r, lo as int, hi as int));
        }
        i = i + 1;
    }
    proof {
        assert(l.subrange(0, n_left as int) =~= l);
        assert(visited =~= visit_seq(l, r, lo as int, hi as int));
    }
    proof {
        assert forall|w: int| #[trigger] has_value(out@, w) <==> (has_value(s0, w) || needed(l, r, lo as int, hi as int, w)) by {
            if sum_before(l, r, lo as int, hi as int, w, n_left as int, 0) {
                let (x, y) = choose|x: int, y: int| (x < n_left || (x == n_left && y < 0)) && #[trigger] pair_sum(l, r, hi as int, w, x, y);
                assert(pair_sum(l, r, hi as int, w, x, y));
            }
            if needed(l, r, lo as int, hi as int, w) {
                if has_value(l, w) {
                    let k = choose|k: int| 0 <= k < l.len() && #[trigger] l[k].0 == w;
                    assert(hit_before(l, lo as int, hi as int, w, n_left as int));
                } else if has_value(r, w) {
                    let k = choose|k: int| 0 <= k < r.len() && #[trigger] r[k].0 == w;
                    assert(hit_before(r, lo as int, hi as int, w, n_right as int));
                } else {
                    let (x, y) = choose|x: int, y: int| #[trigger] pair_sum(l, r, hi as int, w, x, y);
                    assert((x < n_left || (x == n_left && y < 0)) && pair_sum(l, r, hi as int, w, x, y));
                }
            }
            if hit_before(l, lo as int, hi as int, w, n_left as int) {
                let k = choose|k: int| 0 <= k < n_left && #[trigger] l[k].0 == w;
                assert(has_value(l, w));
            }
            if hit_before(r, lo as int, hi as int, w, n_right as int) {
                let k = choose|k: int| 0 <= k < n_right && #[trigger] r[k].0 == w;
                assert(has_value(r, w));
            }
        }
    }
}

proof fn lemma_unique_value(s: Seq<(usize, Lit)>, k: int, k0: int)
    requires
        sorted_values(s),
        0 <= k < s.len(),
        0 <= k0 < s.len(),
        s[k].0 == s[k0].0,
    ensures
        k == k0,
{
    if k < k0 {
        assert(s[k].0 < s[k0].0);
    } else if k0 < k {
        assert(s[k0].0 < s[k].0);
    }
}

proof fn lemma_push_contains(s: Seq<Seq<Lit>>, x: Seq<Lit>, c: Seq<Lit>)
    ensures
        s.push(x).contains(c) <==> (s.contains(c) || c == x),
{
    let t = s.push(x);
    if s.contains(c) {
        let i = choose|i: int| 0 <= i < s.len() && s[i] == c;
        assert(t[i] == c);
    }
    if c == x {
        assert(t[s.len() as int] == c);
    }
    if t.contains(c) {
        let i = choose|i: int| 0 <= i < t.len() && t[i] == c;
        if i < s.len() {
            assert(s[i] == c);
        }
    }
}

/// The literal of value `v` in `out`.
pub open spec fn lit_of(out: Seq<(usize, Lit)>, v: int) -> Lit {
    out[choose|k: int| 0 <= k < out.len() && out[k].0 == v].1
}

/// The clauses `a -> out(a)` for the values `a` of `s` in `[lo, hi]`, in
/// the order of `s`.
pub open spec fn value_clauses(s: Seq<(usize, Lit)>, out: Seq<(usize, Lit)>, lo: int, hi: int) -> Seq<Seq<Lit>>
    decreases s.len(),
{
    if s.len() == 0 {
        Seq::empty()
    } else {
        value_clauses(s.drop_last(), out, lo, hi) + if lo <= s.last().0 <= hi {
            seq![seq![s.last().1.neg(), lit_of(out, s.last().0 as int)]]
        } else {
            Seq::empty()
        }
    }
}

/// The clauses `(a & b) -> out(a + b)` for the entry `e` of value `a` and
/// the entries of `r` of value `b`, in the order of `r`.
pub open spec fn pair_row(e: (usize, Lit), r: Seq<(usize, Lit)>, out: Seq<(usize, Lit)>, lo: int, hi: int) -> Seq<Seq<Lit>>
    decreases r.len(),
{
    if r.len() == 0 {
        Seq::empty()
    } else {
        pair_row(e, r.drop_last(), out, lo, hi) + if 0 < e.0 < hi && e.0 + r.last().0 <= hi && lo <= e.0
            + r.last().0 {
            seq![seq![e.1.neg(), r.last().1.neg(), lit_of(out, e.0 + r.last().0)]]
        } else {
            Seq::empty()
        }
    }
}

/// The pair clauses of `l` and `r`, row by row.
pub open spec fn pair_clauses(l: Seq<(usize, Lit)>, r: Seq<(usize, Lit)>, out: Seq<(usize, Lit)>, lo: int, hi: int) -> Seq<Seq<Lit>>
    decreases l.len(),
{
    if l.len() == 0 {
        Seq::empty()
    } else {
        pair_clauses(l.drop_last(), r, out, lo, hi) + pair_row(l.last(), r, out, lo, hi)
    }
}

/// The clauses of the window `[lo, hi]`, in the order they are emitted:
/// left values, right values, then pairs.
pub open spec fn window_seq(l: Seq<(usize, Lit)>, r: Seq<(usize, Lit)>, out: Seq<(usize, Lit)>, lo: int, hi: int) -> Seq<Seq<Lit>> {
    value_clauses(l, out, lo, hi) + value_clauses(r, out, lo, hi) + pair_clauses(l, r, out, lo, hi)
}

proof fn lemma_lit_of(out: Seq<(usize, Lit)>, v: usize, l: Lit)
    requires
        sorted_values(out),
        has_entry(out, (v, l)),
    ensures
        lit_of(out, v as int) == l,
{
    let k0 = choose|k0: int| 0 <= k0 < out.len() && #[trigger] out[k0] == (v, l);
    assert(out[k0].0 == v);
    let k = choose|k: int| 0 <= k < out.len() && out[k].0 == v as int;
    lemma_unique_value(out, k, k0);
}

proof fn lemma_value_clauses_agree(s: Seq<(usize, Lit)>, out1: Seq<(usize, Lit)>, out2: Seq<(usize, Lit)>, lo: int, hi: int)
    requires
        forall|i: int|
            0 <= i < s.len() && lo <= #[trigger] s[i].0 <= hi ==> lit_of(out1, s[i].0 as int) == lit_of(out2, s[i].0 as int),
    ensures
        value_clauses(s, out1, lo, hi) == value_clauses(s, out2, lo, hi),
    decreases s.len(),
{
    if s.len() > 0 {
        let p = s.drop_last();
        assert forall|i: int| 0 <= i < p.len() && lo <= #[trigger] p[i].0 <= hi implies lit_of(out1, p[i].0 as int) == lit_of(out2, p[i].0 as int) by {
            assert(p[i] == s[i]);
        }
        lemma_value_clauses_agree(p, out1, out2, lo, hi);
        assert(s.last() == s[s.len() - 1]);
    }
}

proof fn lemma_pair_row_agree(e: (usize, Lit), r: Seq<(usize, Lit)>, out1: Seq<(usize, Lit)>, out2: Seq<(usize, Lit)>, lo: int, hi: int)
    requires
        forall|j: int|
            0 <= j < r.len() && 0 < e.0 < hi && e.0 + #[trigger] r[j].0 <= hi && lo <= e.0 + r[j].0
                ==> lit_of(out1, e.0 + r[j].0) == lit_of(out2, e.0 + r[j].0),
    ensures
        pair_row(e, r, out1, lo, hi) == pair_row(e, r, out2, lo, hi),
    decreases r.len(),
{
    if r.len() > 0 {
        let p = r.drop_last();
        assert forall|j: int| 0 <= j < p.len() && 0 < e.0 < hi && e.0 + #[trigger] p[j].0 <= hi && lo <= e.0 + p[j].0
            implies lit_of(out1, e.0 + p[j].0) == lit_of(out2, e.0 + p[j].0) by {
            assert(p[j] == r[j]);
        }
        lemma_pair_row_agree(e, p, out1, out2, lo, hi);
        assert(r.last() == r[r.len() - 1]);
    }
}

proof fn lemma_pair_clauses_agree(l: Seq<(usize, Lit)>, r: Seq<(usize, Lit)>, out1: Seq<(usize, Lit)>, out2: Seq<(usize, Lit)>, lo: int, hi: int)
    requires
        forall|i: int, j: int|
            0 <= i < l.len() && 0 <= j < r.len() && 0 < #[trigger] l[i].0 < hi && l[i].0 + #[trigger] r[j].0 <= hi && lo
                <= l[i].0 + r[j].0 ==> lit_of(out1, l[i].0 + r[j].0) == lit_of(out2, l[i].0 + r[j].0),
    ensures
        pair_clauses(l, r, out1, lo, hi) == pair_clauses(l, r, out2, lo, hi),
    decreases l.len(),
{
    if l.len() > 0 {
        let p = l.drop_last();
        assert forall|i: int, j: int|
            0 <= i < p.len() && 0 <= j < r.len() && 0 < #[trigger] p[i].0 < hi && p[i].0 + #[trigger] r[j].0 <= hi && lo
                <= p[i].0 + r[j].0 implies lit_of(out1, p[i].0 + r[j].0) == lit_of(out2, p[i].0 + r[j].0) by {
            assert(p[i] == l[i]);
        }
        lemma_pair_clauses_agree(p, r, out1, out2, lo, hi);
        let e = l.last();
        assert(e == l[l.len() - 1]);
        assert forall|j: int| 0 <= j < r.len() && 0 < e.0 < hi && e.0 + #[trigger] r[j].0 <= hi && lo <= e.0 + r[j].0
            implies lit_of(out1, e.0 + r[j].0) == lit_of(out2, e.0 + r[j].0) by {
            assert(0 < l[l.len() - 1].0 < hi);
        }
        lemma_pair_row_agree(e, r, out1, out2, lo, hi);
    }
}

/// A window's clause sequence stays the same when more outputs are added,
/// as long as every value the window needs was there already.
proof fn lemma_window_seq_agree(l: Seq<(usize, Lit)>, r: Seq<(usize, Lit)>, out1: Seq<(usize, Lit)>, out2: Seq<(usize, Lit)>, lo: int, hi: int)
    requires
        sorted_values(out1),
        sorted_values(out2),
        keeps(out1, out2),
        forall|w: int| #[trigger] needed(l, r, lo, hi, w) ==> has_value(out1, w),
    ensures
        window_seq(l, r, out1, lo, hi) == window_seq(l, r, out2, lo, hi),
{
    assert forall|w: int| needed(l, r, lo, hi, w) && w >= 0 implies #[trigger] lit_of(out1, w) == lit_of(out2, w) by {
        let k = choose|k: int| 0 <= k < out1.len() && #[trigger] out1[k].0 == w;
        let e = out1[k];
        assert(has_entry(out1, e));
        assert(has_entry(out2, out1[k]));
        lemma_lit_of(out1, e.0, e.1);
        lemma_lit_of(out2, e.0, e.1);
    }
    assert forall|i: int| 0 <= i < l.len() && lo <= #[trigger] l[i].0 <= hi implies lit_of(out1, l[i].0 as int) == lit_of(out2, l[i].0 as int) by {
        assert(needed(l, r, lo, hi, l[i].0 as int));
    }
    assert forall|i: int| 0 <= i < r.len() && lo <= #[trigger] r[i].0 <= hi implies lit_of(out1, r[i].0 as int) == lit_of(out2, r[i].0 as int) by {
        assert(needed(l, r, lo, hi, r[i].0 as int));
    }
    assert forall|i: int, j: int|
        0 <= i < l.len() && 0 <= j < r.len() && 0 < #[trigger] l[i].0 < hi && l[i].0 + #[trigger] r[j].0 <= hi && lo
            <= l[i].0 + r[j].0 implies lit_of(out1, l[i].0 + r[j].0) == lit_of(out2, l[i].0 + r[j].0) by {
        assert(pair_sum(l, r, hi, l[i].0 + r[j].0, i, j));
        assert(needed(l, r, lo, hi, l[i].0 + r[j].0));
    }
    lemma_value_clauses_agree(l, out1, out2, lo, hi);
    lemma_value_clauses_agree(r, out1, out2, lo, hi);
    lemma_pair_clauses_agree(l, r, out1, out2, lo, hi);
}

/// Emits the clauses of the window `[min_enc, max_enc]` over the outputs of
/// `left` and `right`, given output literals `out` that hold every value the
/// window needs.
#[verifier::rlimit(80)]
fn window_clauses(
    out: &Vec<(usize, Lit)>,
    left: &Node,
    right: &Node,
    min_enc: usize,
    max_enc: usize,
) -> (cnf: Cnf)
    requires
        sorted_values(out@),
        forall|w: int|
            needed(left.outputs(), right.outputs(), min_enc as int, max_enc as int, w)
                ==> has_value(out@, w),
    ensures
        cnf@ == window_seq(left.outputs(), right.outputs(), out@, min_enc as int, max_enc as int),
        forall|c: Seq<Lit>|
            cnf@.contains(c) <==> window_clause(
                c,
                left.outputs(),
                right.outputs(),
                out@,
                min_enc as int,
                max_enc as int,
            ),
{
    let ghost l = left.outputs();
    let ghost r = right.outputs();
    let ghost o = out@;
    let (lo, hi) = (min_enc, max_enc);
    let n_left = left.output_len();
    let n_right = right.output_len();
    let mut cnf = Cnf::new();
    // Propagate left value
    let mut i: usize = 0;
    while i < n_left
        invariant
            n_left == l.len(),
            n_right == r.len(),
            l == left.outputs(),
            r == right.outputs(),
            o == out@,
            sorted_values(o),
            forall|w: int| needed(l, r, lo as int, hi as int, w) ==> has_value(o, w),
            0 <= i <= n_left,
            forall|c: Seq<Lit>| #[trigger] cnf@.contains(c) ==> window_clause(c, l, r, o, lo as int, hi as int),
            cnf@ == value_clauses(l.subrange(0, i as int), o, lo as int, hi as int),
            forall|x: int, k: int|
                0 <= x < i && 0 <= k < o.len() && lo <= l[x].0 <= hi && #[trigger] o[k].0 == #[trigger] l[x].0
                    ==> cnf@.contains(seq![l[x].1.neg(), o[k].1]),
        decreases n_left - i,
    {
        let (a, la) = left.output_at(i);
        let ghost c0 = cnf@;
        if lo <= a && a <= hi {
            proof {
                assert(has_value(l, a as int));
                assert(needed(l, r, lo as int, hi as int, a as int));
            }
            if let Some(ol) = lookup(out, a) {
                cnf.add_lit_impl_lit(la, ol);
                proof {
                    lemma_lit_of(o, a, ol);
                }
                proof {
                    let k0 = choose|k0: int| 0 <= k0 < o.len() && #[trigger] o[k0] == (a, ol);
                    let x = seq![la.neg(), ol];
                    assert forall|c: Seq<Lit>| #[trigger] cnf@.contains(c) implies window_clause(c, l, r, o, lo as int, hi as int) by {
                        lemma_push_contains(c0, x, c);
                        if c == x {
                            assert(0 <= i < l.len() && 0 <= k0 < o.len() && lo <= l[i as int].0 <= hi && o[k0].0 == l[i as int].0 && c == seq![l[i as int].1.neg(), o[k0].1]);
                        }
                    }
                    assert forall|xx: int, k: int|
                        0 <= xx < i + 1 && 0 <= k < o.len() && lo <= l[xx].0 <= hi && #[trigger] o[k].0 == #[trigger] l[xx].0
                        implies cnf@.contains(seq![l[xx].1.neg(), o[k].1]) by {
                        lemma_push_contains(c0, x, seq![l[xx].1.neg(), o[k].1]);
                        if xx == i {
                            lemma_unique_value(o, k, k0);
                        }
                    }
                }
            }
        }
        proof {
            let pre = l.subrange(0, i as int);
            let post = l.subrange(0, i + 1);
            assert(post.drop_last() =~= pre);
            if lo <= a && a <= hi {
                assert(cnf@ =~= c0 + seq![seq![la.neg(), lit_of(o, a as int)]]);
            } else {
                assert(cnf@ =~= c0 + Seq::<Seq<Lit>>::empty());
            }
        }
        i = i + 1;
    }
    proof {
        assert(l.subrange(0, n_left as int) =~= l);
        assert(r.subrange(0, 0) =~= Seq::<(usize, Lit)>::empty());
        assert(cnf@ =~= value_clauses(l, o, lo as int, hi as int) + value_clauses(r.subrange(0, 0), o, lo as int, hi as int));
    }
    // Propagate right value
    let mut j: usize = 0;
    while j < n_right
        invariant
            n_left == l.len(),
            n_right == r.len(),
            l == left.outputs(),
            r == right.outputs(),
            o == out@,
            sorted_values(o),
            forall|w: int| needed(l, r, lo as int, hi as int, w) ==> has_value(o, w),
            0 <= j <= n_right,
            forall|c: Seq<Lit>| #[trigger] cnf@.contains(c) ==> window_clause(c, l, r, o, lo as int, hi as int),
            cnf@ == value_clauses(l, o, lo as int, hi as int) + value_clauses(r.subrange(0, j as int), o, lo as int, hi as int),
            forall|x: int, k: int|
                0 <= x < n_left && 0 <= k < o.len() && lo <= l[x].0 <= hi && #[trigger] o[k].0 == #[trigger] l[x].0
                    ==> cnf@.contains(seq![l[x].1.neg(), o[k].1]),
            forall|y: int, k: int|
                0 <= y < j && 0 <= k < o.len() && lo <= r[y].0 <= hi && #[trigger] o[k].0 == #[trigger] r[y].0
                    ==> cnf@.contains(seq![r[y].1.neg(), o[k].1]),
        decreases n_right - j,
    {
        let (b, lb) = right.output_at(j);
        let ghost c0 = cnf@;
        if lo <= b && b <= hi {
            proof {
                assert(has_value(r, b as int));
                assert(needed(l, r, lo as int, hi as int, b as int));
            }
            if let Some(ol) = lookup(out, b) {
                cnf.add_lit_impl_lit(lb, ol);
                proof {
                    lemma_lit_of(o, b, ol);
                }
                proof {
                    let k0 = choose|k0: int| 0 <= k0 < o.len() && #[trigger] o[k0] == (b, ol);
                    let x = seq![lb.neg(), ol];
                    assert forall|c: Seq<Lit>| #[trigger] cnf@.contains(c) implies window_clause(c, l, r, o, lo as int, hi as int) by {
                        lemma_push_contains(c0, x, c);
                        if c == x {
                            assert(0 <= j < r.len() && 0 <= k0 < o.len() && lo <= r[j as int].0 <= hi && o[k0].0 == r[j as int].0 && c == seq![r[j as int].1.neg(), o[k0].1]);
                        }
                    }
                    assert forall|xx: int, k: int|
                        0 <= xx < n_left && 0 <= k < o.len() && lo <= l[xx].0 <= hi && #[trigger] o[k].0 == #[trigger] l[xx].0
                        implies cnf@.contains(seq![l[xx].1.neg(), o[k].1]) by {
                        lemma_push_contains(c0, x, seq![l[xx].1.neg(), o[k].1]);
                    }
                    assert forall|yy: int, k: int|
                        0 <= yy < j + 1 && 0 <= k < o.len() && lo <= r[yy].0 <= hi && #[trigger] o[k].0 == #[trigger] r[yy].0
                        implies cnf@.contains(seq![r[yy].1.neg(), o[k].1]) by {
                        lemma_push_contains(c0, x, seq![r[yy].1.neg(), o[k].1]);
                        if yy == j {
                            lemma_unique_value(o, k, k0);
                        }
                    }
                }
            }
        }
        proof {
            let pre = r.subrange(0, j as int);
            let post = r.subrange(0, j + 1);
            assert(post.drop_last() =~= pre);
            let vl = value_clauses(l, o, lo as int, hi as int);
            if lo <= b && b <= hi {
                assert(cnf@ =~= vl + value_clauses(pre, o, lo as int, hi as int) + seq![seq![lb.neg(), lit_of(o, b as int)]]);
            } else {
                assert(cnf@ =~= vl + value_clauses(pre, o, lo as int, hi as int) + Seq::<Seq<Lit>>::empty());
            }
            assert(value_clauses(post, o, lo as int, hi as int) == value_clauses(pre, o, lo as int, hi as int) + (if lo <= b && b <= hi {
                seq![seq![lb.neg(), lit_of(o, b as int)]]
            } else {
                Seq::<Seq<Lit>>::empty()
            }));
            assert(cnf@ =~= vl + value_clauses(post, o, lo as int, hi as int));
        }
        j = j + 1;
    }
    proof {
        assert(r.subrange(0, n_right as int) =~= r);
        assert(l.subrange(0, 0) =~= Seq::<(usize, Lit)>::empty());
        assert(cnf@ =~= value_clauses(l, o, lo as int, hi as int) + value_clauses(r, o, lo as int, hi as int) + pair_clauses(l.subrange(0, 0), r, o, lo as int, hi as int));
    }
    // Propagate sums
    let mut i: usize = 0;
    while i < n_left
        invariant
            n_left == l.len(),
            n_right == r.len(),
            l == left.outputs(),
            r == right.outputs(),
            o == out@,
            sorted_values(o),
            forall|w: int| needed(l, r, lo as int, hi as int, w) ==> has_value(o, w),
            0 <= i <= n_left,
            forall|c: Seq<Lit>| #[trigger] cnf@.contains(c) ==> window_clause(c, l, r, o, lo as int, hi as int),
            cnf@ == value_clauses(l, o, lo as int, hi as int) + value_clauses(r, o, lo as int, hi as int) + pair_clauses(l.subrange(0, i as int), r, o, lo as int, hi as int),
            forall|x: int, k: int|
                0 <= x < n_left && 0 <= k < o.len() && lo <= l[x].0 <= hi && #[trigger] o[k].0 == #[trigger] l[x].0
                    ==> cnf@.contains(seq![l[x].1.neg(), o[k].1]),
            forall|y: int, k: int|
                0 <= y < n_right && 0 <= k < o.len() && lo <= r[y].0 <= hi && #[trigger] o[k].0 == #[trigger] r[y].0
                    ==> cnf@.contains(seq![r[y].1.neg(), o[k].1]),
            forall|x: int, y: int, k: int|
                0 <= x < i && 0 <= y < n_right && 0 <= k < o.len() && 0 < l[x].0 < hi && lo <= l[x].0 + r[y].0 <= hi
                    && #[trigger] o[k].0 == #[trigger] l[x].0 + #[trigger] r[y].0
                    ==> cnf@.contains(seq![l[x].1.neg(), r[y].1.neg(), o[k].1]),
        decreases n_left - i,
    {
        let (a, la) = left.output_at(i);
        let mut j: usize = 0;
        while j < n_right
            invariant
                n_left == l.len(),
                n_right == r.len(),
                l == left.outputs(),
                r == right.outputs(),
                o == out@,
                sorted_values(o),
                forall|w: int| needed(l, r, lo as int, hi as int, w) ==> has_value(o, w),
                0 <= i < n_left,
                0 <= j <= n_right,
                (a, la) == l[i as int],
                forall|c: Seq<Lit>| #[trigger] cnf@.contains(c) ==> window_clause(c, l, r, o, lo as int, hi as int),
                cnf@ == value_clauses(l, o, lo as int, hi as int) + value_clauses(r, o, lo as int, hi as int) + pair_clauses(l.subrange(0, i as int), r, o, lo as int, hi as int) + pair_row(l[i as int], r.subrange(0, j as int), o, lo as int, hi as int),
                forall|x: int, k: int|
                    0 <= x < n_left && 0 <= k < o.len() && lo <= l[x].0 <= hi && #[trigger] o[k].0 == #[trigger] l[x].0
                        ==> cnf@.contains(seq![l[x].1.neg(), o[k].1]),
                forall|y: int, k: int|
                    0 <= y < n_right && 0 <= k < o.len() && lo <= r[y].0 <= hi && #[trigger] o[k].0 == #[trigger] r[y].0
                        ==> cnf@.contains(seq![r[y].1.neg(), o[k].1]),
                forall|x: int, y: int, k: int|
                    (0 <= x < i || (x == i && 0 <= y < j)) && 0 <= y < n_right && 0 <= k < o.len() && 0 < l[x].0 < hi && lo <= l[x].0 + r[y].0 <= hi
                        && #[trigger] o[k].0 == #[trigger] l[x].0 + #[trigger] r[y].0
                        ==> cnf@.contains(seq![l[x].1.neg(), r[y].1.neg(), o[k].1]),
            decreases n_right - j,
        {
            let (b, lb) = right.output_at(j);
            let ghost c0 = cnf@;
            if 0 < a && a < hi && b <= hi - a && lo <= a + b {
                let sum_val = a + b;
                proof {
                    assert(pair_sum(l, r, hi as int, sum_val as int, i as int, j as int));
                    assert(needed(l, r, lo as int, hi as int, sum_val as int));
                }
                if let Some(ol) = lookup(out, sum_val) {
                    cnf.add_cube_impl_lit(la, lb, ol);
                    proof {
                        lemma_lit_of(o, sum_val, ol);
                    }
                    proof {
                        let k0 = choose|k0: int| 0 <= k0 < o.len() && #[trigger] o[k0] == (sum_val, ol);
                        let x = seq![la.neg(), lb.neg(), ol];
                        assert forall|c: Seq<Lit>| #[trigger] cnf@.contains(c) implies window_clause(c, l, r, o, lo as int, hi as int) by {
                            lemma_push_contains(c0, x, c);
                            if c == x {
                                assert(0 <= i < l.len() && 0 <= j < r.len() && 0 <= k0 < o.len() && 0 < l[i as int].0 < hi && lo <= l[i as int].0 + r[j as int].0 <= hi && o[k0].0 == l[i as int].0 + r[j as int].0 && c == seq![l[i as int].1.neg(), r[j as int].1.neg(), o[k0].1]);
                            }
                        }
                        assert forall|xx: int, k: int|
                            0 <= xx < n_left && 0 <= k < o.len() && lo <= l[xx].0 <= hi && #[trigger] o[k].0 == #[trigger] l[xx].0
                            implies cnf@.contains(seq![l[xx].1.neg(), o[k].1]) by {
                            lemma_push_contains(c0, x, seq![l[xx].1.neg(), o[k].1]);
                        }
                        assert forall|yy: int, k: int|
                            0 <= yy < n_right && 0 <= k < o.len() && lo <= r[yy].0 <= hi && #[trigger] o[k].0 == #[trigger] r[yy].0
                            implies cnf@.contains(seq![r[yy].1.neg(), o[k].1]) by {
                            lemma_push_contains(c0, x, seq![r[yy].1.neg(), o[k].1]);
                        }
                        assert forall|xx: int, yy: int, k: int|
                            (0 <= xx < i || (xx == i && 0 <= yy < j + 1)) && 0 <= yy < n_right && 0 <= k < o.len() && 0 < l[xx].0 < hi && lo <= l[xx].0 + r[yy].0 <= hi
                                && #[trigger] o[k].0 == #[trigger] l[xx].0 + #[trigger] r[yy].0
                            implies cnf@.contains(seq![l[xx].1.neg(), r[yy].1.neg(), o[k].1]) by {
                            lemma_push_contains(c0, x, seq![l[xx].1.neg(), r[yy].1.neg(), o[k].1]);
                            if xx == i && yy == j {
                                lemma_unique_value(o, k, k0);
                            }
                        }
                    }
                }
            }
            proof {
                let pre = r.subrange(0, j as int);
                let post = r.subrange(0, j + 1);
                assert(post.drop_last() =~= pre);
                let base = value_clauses(l, o, lo as int, hi as int) + value_clauses(r, o, lo as int, hi as int) + pair_clauses(l.subrange(0, i as int), r, o, lo as int, hi as int);
                let x = seq![la.neg(), lb.neg(), lit_of(o, a + b)];
                if 0 < a && a < hi && b <= hi - a && lo <= a + b {
                    assert(cnf@ =~= base + pair_row(l[i as int], pre, o, lo as int, hi as int) + seq![x]);
                } else {
                    assert(cnf@ =~= base + pair_row(l[i as int], pre, o, lo as int, hi as int) + Seq::<Seq<Lit>>::empty());
                }
                assert(cnf@ =~= base + pair_row(l[i as int], post, o, lo as int, hi as int));
            }
            j = j + 1;
        }
        proof {
            let pre = l.subrange(0, i as int);
            let post = l.subrange(0, i + 1);
            assert(post.drop_last() =~= pre);
            assert(r.subrange(0, n_right as int) =~= r);
            assert(cnf@ =~= value_clauses(l, o, lo as int, hi as int) + value_clauses(r, o, lo as int, hi as int) + pair_clauses(post, r, o, lo as int, hi as int));
        }
        i = i + 1;
    }
    proof {
        assert(l.subrange(0, n_left as int) =~= l);
    }
    proof {
        assert forall|c: Seq<Lit>| #[trigger] cnf@.contains(c) <== window_clause(c, l, r, o, lo as int, hi as int) by {
            if window_clause(c, l, r, o, lo as int, hi as int) {
                if exists|x: int, k: int|
                    0 <= x < l.len() && 0 <= k < o.len() && lo <= l[x].0 <= hi && #[trigger] o[k].0
                        == #[trigger] l[x].0 && c == seq![l[x].1.neg(), o[k].1] {
                    let (x, k) = choose|x: int, k: int|
                        0 <= x < l.len() && 0 <= k < o.len() && lo <= l[x].0 <= hi && #[trigger] o[k].0
                            == #[trigger] l[x].0 && c == seq![l[x].1.neg(), o[k].1];
                    assert(cnf@.contains(seq![l[x].1.neg(), o[k].1]));
                } else if exists|y: int, k: int|
                    0 <= y < r.len() && 0 <= k < o.len() && lo <= r[y].0 <= hi && #[trigger] o[k].0
                        == #[trigger] r[y].0 && c == seq![r[y].1.neg(), o[k].1] {
                    let (y, k) = choose|y: int, k: int|
                        0 <= y < r.len() && 0 <= k < o.len() && lo <= r[y].0 <= hi && #[trigger] o[k].0
                            == #[trigger] r[y].0 && c == seq![r[y].1.neg(), o[k].1];
                    assert(cnf@.contains(seq![r[y].1.neg(), o[k].1]));
                } else {
                    let (x, y, k) = choose|x: int, y: int, k: int|
                        0 <= x < l.len() && 0 <= y < r.len() && 0 <= k < o.len() && 0 < l[x].0 < hi && lo
                            <= l[x].0 + r[y].0 <= hi && #[trigger] o[k].0 == #[trigger] l[x].0
                            + #[trigger] r[y].0 && c == seq![l[x].1.neg(), r[y].1.neg(), o[k].1];
                    assert(cnf@.contains(seq![l[x].1.neg(), r[y].1.neg(), o[k].1]));
                }
            }
        }
    }
    cnf
}

proof fn lemma_window_clamp_dir(
    c: Seq<Lit>,
    l: Seq<(usize, Lit)>,
    r: Seq<(usize, Lit)>,
    out: Seq<(usize, Lit)>,
    lo: int,
    hi: int,
    h2: int,
    ml: int,
    mr: int,
)
    requires
        window_clause(c, l, r, out, lo, hi),
        values_within(l, ml as nat),
        values_within(r, mr as nat),
        ml >= 1,
        mr >= 1,
        h2 == if hi < ml + mr { hi } else { ml + mr },
    ensures
        window_clause(c, l, r, out, lo, h2),
{
    if exists|i: int, k: int|
        0 <= i < l.len() && 0 <= k < out.len() && lo <= l[i].0 <= hi && #[trigger] out[k].0
            == #[trigger] l[i].0 && c == seq![l[i].1.neg(), out[k].1] {
        let (i, k) = choose|i: int, k: int|
            0 <= i < l.len() && 0 <= k < out.len() && lo <= l[i].0 <= hi && #[trigger] out[k].0
                == #[trigger] l[i].0 && c == seq![l[i].1.neg(), out[k].1];
        assert(l[i].0 <= ml);
        assert(lo <= l[i].0 <= h2);
    } else if exists|j: int, k: int|
        0 <= j < r.len() && 0 <= k < out.len() && lo <= r[j].0 <= hi && #[trigger] out[k].0
            == #[trigger] r[j].0 && c == seq![r[j].1.neg(), out[k].1] {
        let (j, k) = choose|j: int, k: int|
            0 <= j < r.len() && 0 <= k < out.len() && lo <= r[j].0 <= hi && #[trigger] out[k].0
                == #[trigger] r[j].0 && c == seq![r[j].1.neg(), out[k].1];
        assert(r[j].0 <= mr);
        assert(lo <= r[j].0 <= h2);
    } else {
        let (i, j, k) = choose|i: int, j: int, k: int|
            0 <= i < l.len() && 0 <= j < r.len() && 0 <= k < out.len() && 0 < l[i].0 < hi && lo
                <= l[i].0 + r[j].0 <= hi && #[trigger] out[k].0 == #[trigger] l[i].0
                + #[trigger] r[j].0 && c == seq![l[i].1.neg(), r[j].1.neg(), out[k].1];
        assert(l[i].0 <= ml);
        assert(r[j].0 <= mr);
        assert(0 < l[i].0 < h2 && lo <= l[i].0 + r[j].0 <= h2);
    }
}

/// Every clause of `cnf` is a window clause of `n` for `[lo, hi]`.
pub open spec fn clauses_within(cnf: Seq<Seq<Lit>>, n: Node, lo: int, hi: int) -> bool {
    forall|c: Seq<Lit>|
        #[trigger] cnf.contains(c) ==> window_clause(c, n.left_outs(), n.right_outs(), n.outputs(), lo, hi)
}

proof fn lemma_keeps_refl(s: Seq<(usize, Lit)>)
    ensures
        keeps(s, s),
{
    assert forall|i: int| 0 <= i < s.len() implies has_entry(s, #[trigger] s[i]) by {}
}

proof fn lemma_concat_contains(a: Seq<Seq<Lit>>, b: Seq<Seq<Lit>>, c: Seq<Lit>)
    ensures
        (a + b).contains(c) <==> (a.contains(c) || b.contains(c)),
{
    let t = a + b;
    if a.contains(c) {
        let i = choose|i: int| 0 <= i < a.len() && a[i] == c;
        assert(t[i] == c);
    }
    if b.contains(c) {
        let i = choose|i: int| 0 <= i < b.len() && b[i] == c;
        assert(t[a.len() + i] == c);
    }
    if t.contains(c) {
        let i = choose|i: int| 0 <= i < t.len() && t[i] == c;
        if i < a.len() {
            assert(a[i] == c);
        } else {
            assert(b[i - a.len()] == c);
        }
    }
}

/// A window clause over `out2` is one over `out1` where `out1` has every
/// value of the window that `out2` has, with the same literal.
proof fn lemma_window_fewer_outputs(
    c: Seq<Lit>,
    l: Seq<(usize, Lit)>,
    r: Seq<(usize, Lit)>,
    out1: Seq<(usize, Lit)>,
    out2: Seq<(usize, Lit)>,
    lo: int,
    hi: int,
)
    requires
        window_clause(c, l, r, out2, lo, hi),
        keeps(out1, out2),
        sorted_values(out2),
        forall|w: int| lo <= w <= hi && has_value(out2, w) ==> has_value(out1, w),
    ensures
        window_clause(c, l, r, out1, lo, hi),
{
    if exists|i: int, k: int|
        0 <= i < l.len() && 0 <= k < out2.len() && lo <= l[i].0 <= hi && #[trigger] out2[k].0
            == #[trigger] l[i].0 && c == seq![l[i].1.neg(), out2[k].1] {
        let (i, k) = choose|i: int, k: int|
            0 <= i < l.len() && 0 <= k < out2.len() && lo <= l[i].0 <= hi && #[trigger] out2[k].0
                == #[trigger] l[i].0 && c == seq![l[i].1.neg(), out2[k].1];
        assert(has_value(out2, out2[k].0 as int));
        let k1 = choose|k1: int| 0 <= k1 < out1.len() && #[trigger] out1[k1].0 == out2[k].0;
        let k2 = choose|k2: int| 0 <= k2 < out2.len() && #[trigger] out2[k2] == out1[k1];
        lemma_unique_value(out2, k2, k);
        assert(out1[k1].0 == l[i].0 && c == seq![l[i].1.neg(), out1[k1].1]);
    } else if exists|j: int, k: int|
        0 <= j < r.len() && 0 <= k < out2.len() && lo <= r[j].0 <= hi && #[trigger] out2[k].0
            == #[trigger] r[j].0 && c == seq![r[j].1.neg(), out2[k].1] {
        let (j, k) = choose|j: int, k: int|
            0 <= j < r.len() && 0 <= k < out2.len() && lo <= r[j].0 <= hi && #[trigger] out2[k].0
                == #[trigger] r[j].0 && c == seq![r[j].1.neg(), out2[k].1];
        assert(has_value(out2, out2[k].0 as int));
        let k1 = choose|k1: int| 0 <= k1 < out1.len() && #[trigger] out1[k1].0 == out2[k].0;
        let k2 = choose|k2: int| 0 <= k2 < out2.len() && #[trigger] out2[k2] == out1[k1];
        lemma_unique_value(out2, k2, k);
        assert(out1[k1].0 == r[j].0 && c == seq![r[j].1.neg(), out1[k1].1]);
    } else {
        let (i, j, k) = choose|i: int, j: int, k: int|
            0 <= i < l.len() && 0 <= j < r.len() && 0 <= k < out2.len() && 0 < l[i].0 < hi && lo
                <= l[i].0 + r[j].0 <= hi && #[trigger] out2[k].0 == #[trigger] l[i].0
                + #[trigger] r[j].0 && c == seq![l[i].1.neg(), r[j].1.neg(), out2[k].1];
        assert(has_value(out2, out2[k].0 as int));
        let k1 = choose|k1: int| 0 <= k1 < out1.len() && #[trigger] out1[k1].0 == out2[k].0;
        let k2 = choose|k2: int| 0 <= k2 < out2.len() && #[trigger] out2[k2] == out1[k1];
        lemma_unique_value(out2, k2, k);
        assert(out1[k1].0 == l[i].0 + r[j].0 && c == seq![l[i].1.neg(), r[j].1.neg(), out1[k1].1]);
    }
}

/// A window clause stays one for more output literals and a wider window.
proof fn lemma_window_mono(
    c: Seq<Lit>,
    l: Seq<(usize, Lit)>,
    r: Seq<(usize, Lit)>,
    out1: Seq<(usize, Lit)>,
    out2: Seq<(usize, Lit)>,
    lo1: int,
    hi1: int,
    lo2: int,
    hi2: int,
)
    requires
        window_clause(c, l, r, out1, lo1, hi1),
        keeps(out1, out2),
        lo2 <= lo1,
        hi1 <= hi2,
    ensures
        window_clause(c, l, r, out2, lo2, hi2),
{
    if exists|i: int, k: int|
        0 <= i < l.len() && 0 <= k < out1.len() && lo1 <= l[i].0 <= hi1 && #[trigger] out1[k].0
            == #[trigger] l[i].0 && c == seq![l[i].1.neg(), out1[k].1] {
        let (i, k) = choose|i: int, k: int|
            0 <= i < l.len() && 0 <= k < out1.len() && lo1 <= l[i].0 <= hi1 && #[trigger] out1[k].0
                == #[trigger] l[i].0 && c == seq![l[i].1.neg(), out1[k].1];
        let k2 = choose|k2: int| 0 <= k2 < out2.len() && #[trigger] out2[k2] == out1[k];
        assert(out2[k2].0 == l[i].0);
    } else if exists|j: int, k: int|
        0 <= j < r.len() && 0 <= k < out1.len() && lo1 <= r[j].0 <= hi1 && #[trigger] out1[k].0
            == #[trigger] r[j].0 && c == seq![r[j].1.neg(), out1[k].1] {
        let (j, k) = choose|j: int, k: int|
            0 <= j < r.len() && 0 <= k < out1.len() && lo1 <= r[j].0 <= hi1 && #[trigger] out1[k].0
                == #[trigger] r[j].0 && c == seq![r[j].1.neg(), out1[k].1];
        let k2 = choose|k2: int| 0 <= k2 < out2.len() && #[trigger] out2[k2] == out1[k];
        assert(out2[k2].0 == r[j].0);
    } else {
        let (i, j, k) = choose|i: int, j: int, k: int|
            0 <= i < l.len() && 0 <= j < r.len() && 0 <= k < out1.len() && 0 < l[i].0 < hi1 && lo1
                <= l[i].0 + r[j].0 <= hi1 && #[trigger] out1[k].0 == #[trigger] l[i].0
                + #[trigger] r[j].0 && c == seq![l[i].1.neg(), r[j].1.neg(), out1[k].1];
        let k2 = choose|k2: int| 0 <= k2 < out2.len() && #[trigger] out2[k2] == out1[k];
        assert(out2[k2].0 == l[i].0 + r[j].0);
    }
}

/// The least output value a child has to encode so that its parent can
/// encode `[min_enc, max_enc]`, given the child's sibling.
pub open spec fn required_min(min_enc: int, max_enc: int, sibling: Node) -> int {
    match sibling {
        Node::Leaf { .. } => if min_enc > 2 {
            min_enc - 1
        } else {
            1
        },
        Node::Internal { max_val, .. } => if max_enc < max_val {
            if min_enc > max_enc {
                min_enc - max_enc
            } else {
                1
            }
        } else if min_enc > max_val {
            min_enc - max_val
        } else {
            1
        },
    }
}

impl Node {
    /// The two nodes agree on everything but their output literals.
    pub open spec fn same_but_outputs(self, o: Node) -> bool {
        match (self, o) {
            (Node::Leaf { .. }, Node::Leaf { .. }) => self == o,
            (
                Node::Internal { depth, n_clauses, max_val, min_max_enc, left, right, .. },
                Node::Internal {
                    depth: d2,
                    n_clauses: c2,
                    max_val: m2,
                    min_max_enc: e2,
                    left: l2,
                    right: r2,
                    ..
                },
            ) => depth == d2 && n_clauses == c2 && max_val == m2 && min_max_enc == e2 && left
                == l2 && right == r2,
            _ => false,
        }
    }

    /// Every window recorded in the subtree starts at most one past its end,
    /// or ends at the node's maximum value.
    pub open spec fn windows_ordered(self) -> bool
        decreases self,
    {
        match self {
            Node::Leaf { .. } => true,
            Node::Internal { min_max_enc, max_val, left, right, .. } => {
                &&& (min_max_enc matches Some(w) ==> w.0 <= w.1 + 1 || w.1 == max_val)
                &&& left.windows_ordered()
                &&& right.windows_ordered()
            },
        }
    }

    /// At every node, the output values are exactly those of `old` and those
    /// that encoding the narrowed window `[min_enc, max_enc]` needs.
    pub open spec fn outputs_from(self, old: Node, min_enc: int, max_enc: int) -> bool
        decreases self,
    {
        match (self, old) {
            (
                Node::Internal { out_lits, left, right, .. },
                Node::Internal { out_lits: oo, left: ol, right: or, .. },
            ) => {
                &&& forall|w: int|
                    #[trigger] has_value(out_lits@, w) <==> (has_value(oo@, w) || needed(
                        left.outputs(),
                        right.outputs(),
                        min_enc,
                        max_enc,
                        w,
                    ))
                &&& left.outputs_from(*ol, required_min(min_enc, max_enc, *or), max_enc)
                &&& right.outputs_from(*or, required_min(min_enc, max_enc, *ol), max_enc)
            },
            _ => true,
        }
    }

    /// The number of variables `encode_rec` mints for `[min_enc, max_enc]`
    /// on top of `old`: the left subtree's, the right one's, and then this
    /// node's fresh values.
    pub open spec fn rec_mint_count(self, old: Node, min_enc: int, max_enc: int) -> nat
        decreases self,
    {
        match (self, old) {
            (
                Node::Internal { left, right, .. },
                Node::Internal { out_lits: oo, left: ol, right: or, .. },
            ) => left.rec_mint_count(*ol, required_min(min_enc, max_enc, *or), max_enc)
                + right.rec_mint_count(*or, required_min(min_enc, max_enc, *ol), max_enc)
                + fresh_order(visit_seq(left.outputs(), right.outputs(), min_enc, max_enc), oo@).len(),
            _ => 0,
        }
    }

    /// The variables `encode_rec` mints, from `n0` on, go first to the left
    /// subtree, then to the right one, then to this node's fresh values in
    /// the order they are visited.
    pub open spec fn rec_minted(self, old: Node, min_enc: int, max_enc: int, n0: int) -> bool
        decreases self,
    {
        match (self, old) {
            (
                Node::Internal { out_lits, left, right, .. },
                Node::Internal { out_lits: oo, left: ol, right: or, .. },
            ) => {
                let lmin = required_min(min_enc, max_enc, *or);
                let rmin = required_min(min_enc, max_enc, *ol);
                let cl = left.rec_mint_count(*ol, lmin, max_enc);
                let cr = right.rec_mint_count(*or, rmin, max_enc);
                &&& left.rec_minted(*ol, lmin, max_enc, n0)
                &&& right.rec_minted(*or, rmin, max_enc, n0 + cl)
                &&& minted_as(
                    out_lits@,
                    fresh_order(visit_seq(left.outputs(), right.outputs(), min_enc, max_enc), oo@),
                    n0 + cl + cr,
                )
            },
            _ => true,
        }
    }

    /// The clauses that encoding `[min_enc, max_enc]` at this node emits: the
    /// window's clauses over the current outputs, or none where the window
    /// is empty or lies above the node's maximum value.
    pub open spec fn local_seq(self, min_enc: int, max_enc: int) -> Seq<Seq<Lit>> {
        if self is Internal && min_enc <= max_enc && min_enc <= self.max_value() {
            window_seq(self.left_outs(), self.right_outs(), self.outputs(), min_enc, max_enc)
        } else {
            Seq::empty()
        }
    }

    /// What `encode_rec` returns for `[min_enc, max_enc]`: the clauses of the
    /// left subtree, then of the right one, then of this node.
    pub open spec fn rec_seq(self, min_enc: int, max_enc: int) -> Seq<Seq<Lit>>
        decreases self,
    {
        match self {
            Node::Leaf { .. } => Seq::empty(),
            Node::Internal { left, right, .. } => left.rec_seq(required_min(min_enc, max_enc, *right), max_enc)
                + right.rec_seq(required_min(min_enc, max_enc, *left), max_enc) + self.local_seq(
                min_enc,
                max_enc,
            ),
        }
    }

    /// At every node, the clause count of `old` grew by the number of clauses
    /// `local` gives for the node and its narrowed window, saturating.
    pub open spec fn counted(self, old: Node, min_enc: int, max_enc: int, by_rec: bool) -> bool
        decreases self,
    {
        match (self, old) {
            (
                Node::Internal { n_clauses, left, right, .. },
                Node::Internal { n_clauses: c0, min_max_enc, left: ol, right: or, .. },
            ) => {
                let k = if by_rec {
                    self.local_seq(min_enc, max_enc).len() as int
                } else {
                    self.local_new_seq(min_max_enc, min_enc, max_enc).len() as int
                };
                &&& n_clauses as int == if c0 + k > usize::MAX {
                    usize::MAX as int
                } else {
                    c0 + k
                }
                &&& left.counted(*ol, required_min(min_enc, max_enc, *or), max_enc, by_rec)
                &&& right.counted(*or, required_min(min_enc, max_enc, *ol), max_enc, by_rec)
            },
            _ => true,
        }
    }

    /// The clauses that encoding `[min_enc, max_enc]` emits at this node on
    /// top of the window `old_window`: all of the window's where there was
    /// none, else those of the parts below and above it, in that order.
    pub open spec fn local_new_seq(self, old_window: Option<(usize, usize)>, min_enc: int, max_enc: int) -> Seq<Seq<Lit>> {
        match old_window {
            None => self.local_seq(min_enc, max_enc),
            Some(w) => (if min_enc < w.0 {
                self.local_seq(min_enc, w.0 - 1)
            } else {
                Seq::empty()
            }) + (if max_enc > w.1 {
                self.local_seq(w.1 + 1, max_enc)
            } else {
                Seq::empty()
            }),
        }
    }

    /// What `encode_change_rec` returns for `[min_enc, max_enc]` on top of
    /// the windows of `old`: the new clauses of the left subtree, then of the
    /// right one, then of this node.
    pub open spec fn change_seq(self, old: Node, min_enc: int, max_enc: int) -> Seq<Seq<Lit>>
        decreases self,
    {
        match (self, old) {
            (
                Node::Internal { left, right, .. },
                Node::Internal { min_max_enc, left: ol, right: or, .. },
            ) => left.change_seq(*ol, required_min(min_enc, max_enc, *or), max_enc) + right.change_seq(
                *or,
                required_min(min_enc, max_enc, *ol),
                max_enc,
            ) + self.local_new_seq(min_max_enc, min_enc, max_enc),
            _ => Seq::empty(),
        }
    }

    /// Every output value that encoding `[min_enc, max_enc]` at this node,
    /// and the narrowed windows below it, needs has an output literal.
    pub open spec fn reserved(self, min_enc: int, max_enc: int) -> bool
        decreases self,
    {
        match self {
            Node::Leaf { .. } => true,
            Node::Internal { out_lits, left, right, .. } => {
                &&& forall|w: int|
                    #[trigger] needed(left.outputs(), right.outputs(), min_enc, max_enc, w)
                        ==> has_value(out_lits@, w)
                &&& left.reserved(required_min(min_enc, max_enc, *right), max_enc)
                &&& right.reserved(required_min(min_enc, max_enc, *left), max_enc)
            },
        }
    }

    /// The window clauses, over this node's current outputs, of the part of
    /// `[min_enc, max_enc]` that the window `old_window` did not cover.
    pub open spec fn local_new_clause(
        self,
        old_window: Option<(usize, usize)>,
        min_enc: int,
        max_enc: int,
        c: Seq<Lit>,
    ) -> bool {
        match old_window {
            None => window_clause(c, self.left_outs(), self.right_outs(), self.outputs(), min_enc, max_enc),
            Some(w) => {
                ||| (min_enc < w.0 && window_clause(
                    c,
                    self.left_outs(),
                    self.right_outs(),
                    self.outputs(),
                    min_enc,
                    w.0 - 1,
                ))
                ||| (max_enc > w.1 && window_clause(
                    c,
                    self.left_outs(),
                    self.right_outs(),
                    self.outputs(),
                    w.1 + 1,
                    max_enc,
                ))
            },
        }
    }

    /// `w` is needed by the part of `[min_enc, max_enc]` that the window
    /// `old_window` did not cover, given this node's children.
    pub open spec fn needed_new(self, old_window: Option<(usize, usize)>, min_enc: int, max_enc: int, w: int) -> bool {
        match old_window {
            None => needed(self.left_outs(), self.right_outs(), min_enc, max_enc, w),
            Some(o) => {
                ||| (min_enc < o.0 && needed(self.left_outs(), self.right_outs(), min_enc, o.0 - 1, w))
                ||| (max_enc > o.1 && needed(self.left_outs(), self.right_outs(), o.1 + 1, max_enc, w))
            },
        }
    }

    /// At every node, each value that the newly encoded parts of its narrowed
    /// window need has an output literal.
    pub open spec fn reserved_new(self, old: Node, min_enc: int, max_enc: int) -> bool
        decreases self,
    {
        match (self, old) {
            (
                Node::Internal { out_lits, left, right, .. },
                Node::Internal { min_max_enc, left: ol, right: or, .. },
            ) => {
                &&& forall|w: int|
                    #[trigger] self.needed_new(min_max_enc, min_enc, max_enc, w) ==> has_value(out_lits@, w)
                &&& left.reserved_new(*ol, required_min(min_enc, max_enc, *or), max_enc)
                &&& right.reserved_new(*or, required_min(min_enc, max_enc, *ol), max_enc)
            },
            _ => true,
        }
    }

    /// The clauses that encoding `[min_enc, max_enc]` incrementally adds to
    /// the windows recorded in `old`, over the outputs of this subtree: at
    /// each node, those of the part of its narrowed window not encoded before.
    pub open spec fn new_clause(self, old: Node, min_enc: int, max_enc: int, c: Seq<Lit>) -> bool
        decreases self,
    {
        match (self, old) {
            (
                Node::Internal { left, right, .. },
                Node::Internal { min_max_enc, left: ol, right: or, .. },
            ) => {
                ||| self.local_new_clause(min_max_enc, min_enc, max_enc, c)
                ||| left.new_clause(*ol, required_min(min_enc, max_enc, *or), max_enc, c)
                ||| right.new_clause(*or, required_min(min_enc, max_enc, *ol), max_enc, c)
            },
            _ => false,
        }
    }

    /// The clauses that the windows recorded in the subtree stand for.
    pub open spec fn encoded_clause(self, c: Seq<Lit>) -> bool
        decreases self,
    {
        match self {
            Node::Leaf { .. } => false,
            Node::Internal { out_lits, min_max_enc, left, right, .. } => {
                ||| (min_max_enc matches Some(w) && window_clause(
                    c,
                    left.outputs(),
                    right.outputs(),
                    out_lits@,
                    w.0 as int,
                    w.1 as int,
                ))
                ||| left.encoded_clause(c)
                ||| right.encoded_clause(c)
            },
        }
    }

    /// At a well formed node, the window clauses up to `hi` are those up to
    /// `min(hi, max_val)`: no output value exceeds `max_val`.
    pub proof fn lemma_window_clamp(self, c: Seq<Lit>, out: Seq<(usize, Lit)>, lo: int, hi: int)
        requires
            self.wf(),
            self is Internal,
        ensures
            window_clause(c, self.left_outs(), self.right_outs(), out, lo, hi) <==> window_clause(
                c,
                self.left_outs(),
                self.right_outs(),
                out,
                lo,
                if hi < self.max_value() { hi } else { self.max_value() as int },
            ),
    {
        if let Node::Internal { left, right, .. } = self {
            left.lemma_wf_facts();
            right.lemma_wf_facts();
            let m = self.max_value() as int;
            let h2 = if hi < m { hi } else { m };
            if window_clause(c, left.outputs(), right.outputs(), out, lo, hi) {
                lemma_window_clamp_dir(c, left.outputs(), right.outputs(), out, lo, hi, h2, left.max_value() as int, right.max_value() as int);
            }
            if window_clause(c, left.outputs(), right.outputs(), out, lo, h2) {
                lemma_window_mono(c, left.outputs(), right.outputs(), out, out, lo, h2, lo, hi);
            }
        }
    }

    /// The same tree shape, weights and leaves: only output literals, windows
    /// and clause counts may differ.
    pub open spec fn same_tree(self, o: Node) -> bool
        decreases self,
    {
        match (self, o) {
            (Node::Leaf { .. }, Node::Leaf { .. }) => self == o,
            (
                Node::Internal { depth, max_val, left, right, .. },
                Node::Internal { depth: d2, max_val: m2, left: l2, right: r2, .. },
            ) => depth == d2 && max_val == m2 && left.same_tree(*l2) && right.same_tree(*r2),
            _ => false,
        }
    }

    /// Trees of the same shape have the same leaves.
    pub proof fn lemma_same_tree_leaves(self, o: Node)
        requires
            self.same_tree(o),
        ensures
            self.leaves() == o.leaves(),
        decreases self,
    {
        if let Node::Internal { left, right, .. } = self {
            if let Node::Internal { left: l2, right: r2, .. } = o {
                left.lemma_same_tree_leaves(*l2);
                right.lemma_same_tree_leaves(*r2);
            }
        }
    }

    /// Every window that encoding `[min_enc, max_enc]` at this node asks of
    /// the subtree is already encoded.
    pub open spec fn covered(self, min_enc: int, max_enc: int) -> bool
        decreases self,
    {
        match self {
            Node::Leaf { .. } => true,
            Node::Internal { min_max_enc, max_val, left, right, .. } => {
                &&& min_max_enc matches Some(w) && w.0 <= min_enc && (max_enc <= w.1 || w.1
                    == max_val)
                &&& left.covered(required_min(min_enc, max_enc, *right), max_enc)
                &&& right.covered(required_min(min_enc, max_enc, *left), max_enc)
            },
        }
    }

    /// Computes the required `min_enc` for a node given a requested `min_enc`
    /// and `max_enc` of the parent and its sibling.
    pub fn compute_required_min_enc(
        min_enc_requested: usize,
        max_enc_requested: usize,
        sibling: &Node,
    ) -> (r: usize)
        ensures
            r == required_min(min_enc_requested as int, max_enc_requested as int, *sibling),
            r >= 1,
    {
        match sibling {
            Node::Leaf { .. } => {
                if min_enc_requested > 2 {
                    min_enc_requested - 1
                } else {
                    1
                }
            },
            Node::Internal { max_val, .. } => {
                if max_enc_requested < *max_val {
                    if min_enc_requested > max_enc_requested {
                        min_enc_requested - max_enc_requested
                    } else {
                        1
                    }
                } else if min_enc_requested > *max_val {
                    min_enc_requested - *max_val
                } else {
                    1
                }
            },
        }
    }

    /// Reserves variables this node might need between `min_enc` and
    /// `max_enc`.
    pub fn reserve_vars_from_till(
        &mut self,
        min_enc: usize,
        max_enc: usize,
        var_manager: &mut BasicVarManager,
    )
        requires
            old(self).wf(),
            old(var_manager).next_var + old(self).slack() <= u32::MAX,
        ensures
            final(self).wf(),
            final(self).same_but_outputs(*old(self)),
            final(self).slack() + final(var_manager).next_var == old(self).slack() + old(var_manager).next_var,
            old(var_manager).next_var <= final(var_manager).next_var,
            (*old(self)) is Leaf ==> *final(self) == *old(self),
            (forall|w: int|
                needed(old(self).left_outs(), old(self).right_outs(), min_enc as int, max_enc as int, w)
                    ==> has_value(old(self).outputs(), w)) ==> *final(self) == *old(self) && *final(var_manager)
                == *old(var_manager),
            (*old(self)) is Internal ==> {
                &&& forall|w: int|
                    has_value(final(self).outputs(), w) <==> (has_value(old(self).outputs(), w)
                        || needed(old(self).left_outs(), old(self).right_outs(), min_enc as int, max_enc as int, w))
                &&& keeps(old(self).outputs(), final(self).outputs())
                &&& fresh_since(
                    old(self).outputs(),
                    final(self).outputs(),
                    old(var_manager).next_var as int,
                    final(var_manager).next_var as int,
                )
            },
            (*old(self)) is Internal ==> final(var_manager).next_var == old(var_manager).next_var
                + fresh_order(
                visit_seq(old(self).left_outs(), old(self).right_outs(), min_enc as int, max_enc as int),
                old(self).outputs(),
            ).len() && minted_as(
                final(self).outputs(),
                fresh_order(
                    visit_seq(old(self).left_outs(), old(self).right_outs(), min_enc as int, max_enc as int),
                    old(self).outputs(),
                ),
                old(var_manager).next_var as int,
            ),
    {
        proof {
            self.lemma_wf_facts();
        }
        if let Node::Internal { out_lits, left, right, .. } = self {
            proof {
                left.lemma_wf_facts();
                right.lemma_wf_facts();
            }
            reserve_window(out_lits, &**left, &**right, min_enc, max_enc, var_manager);
        }
    }

    /// Encodes the output literals for this node from values `min_enc` to
    /// `max_enc`. This only produces the encoding and does not change the
    /// window or the clause count of the node.
    pub fn encode_from_till(
        &mut self,
        min_enc: usize,
        max_enc: usize,
        var_manager: &mut BasicVarManager,
    ) -> (cnf: Cnf)
        requires
            old(self).wf(),
            old(var_manager).next_var + old(self).slack() <= u32::MAX,
        ensures
            final(self).wf(),
            final(self).same_but_outputs(*old(self)),
            final(self).slack() + final(var_manager).next_var == old(self).slack() + old(var_manager).next_var,
            old(var_manager).next_var <= final(var_manager).next_var,
            min_enc > max_enc || (*old(self)) is Leaf ==> *final(self) == *old(self) && *final(var_manager) == *old(var_manager) && cnf@.len() == 0,
            min_enc > old(self).max_value() ==> cnf@.len() == 0,
            cnf@ == final(self).local_seq(min_enc as int, max_enc as int),
            (*old(self)) is Internal && (forall|w: int|
                needed(old(self).left_outs(), old(self).right_outs(), min_enc as int, max_enc as int, w)
                    ==> has_value(old(self).outputs(), w)) ==> *final(self) == *old(self) && *final(var_manager)
                == *old(var_manager),
            (*old(self)) is Internal && min_enc <= max_enc ==> {
                &&& forall|w: int|
                    has_value(final(self).outputs(), w) <==> (has_value(old(self).outputs(), w)
                        || needed(old(self).left_outs(), old(self).right_outs(), min_enc as int, max_enc as int, w))
                &&& keeps(old(self).outputs(), final(self).outputs())
                &&& fresh_since(
                    old(self).outputs(),
                    final(self).outputs(),
                    old(var_manager).next_var as int,
                    final(var_manager).next_var as int,
                )
                &&& min_enc <= old(self).max_value() ==> cnf@ == window_seq(
                    old(self).left_outs(),
                    old(self).right_outs(),
                    final(self).outputs(),
                    min_enc as int,
                    max_enc as int,
                )
                &&& min_enc <= old(self).max_value() ==> forall|c: Seq<Lit>|
                    cnf@.contains(c) <==> window_clause(
                        c,
                        old(self).left_outs(),
                        old(self).right_outs(),
                        final(self).outputs(),
                        min_enc as int,
                        max_enc as int,
                    )
            },
            (*old(self)) is Internal && min_enc <= max_enc ==> final(var_manager).next_var == old(var_manager).next_var
                + fresh_order(
                visit_seq(old(self).left_outs(), old(self).right_outs(), min_enc as int, max_enc as int),
                old(self).outputs(),
            ).len() && minted_as(
                final(self).outputs(),
                fresh_order(
                    visit_seq(old(self).left_outs(), old(self).right_outs(), min_enc as int, max_enc as int),
                    old(self).outputs(),
                ),
                old(var_manager).next_var as int,
            ),
    {
        if min_enc > max_enc {
            return Cnf::new();
        }
        // Reserve vars if needed
        self.reserve_vars_from_till(min_enc, max_enc, var_manager);
        match self {
            Node::Leaf { .. } => Cnf::new(),
            Node::Internal { out_lits, max_val, left, right, .. } => {
                if min_enc > *max_val {
                    return Cnf::new();
                }
                window_clauses(out_lits, &**left, &**right, min_enc, max_enc)
            },
        }
    }

    /// The window recorded at an internal node after encoding
    /// `[min_enc, max_enc]` incrementally on top of `old`.
    pub open spec fn widened(old: Option<(usize, usize)>, min_enc: usize, max_enc: usize, max_val: usize) -> (usize, usize) {
        match old {
            None => (min_enc, if max_enc < max_val { max_enc } else { max_val }),
            Some((a, b)) => (
                if min_enc < a { min_enc } else { a },
                if max_val < (if max_enc > b { max_enc } else { b }) { max_val } else if max_enc > b { max_enc } else { b },
            ),
        }
    }

    /// Encodes the window `[min_enc, max_enc]` at this node and, with the
    /// windows they need, at all nodes below. Previously encoded windows are
    /// ignored: everything is encoded again.
    #[verifier::rlimit(60)]
    pub fn encode_rec(
        &mut self,
        min_enc: usize,
        max_enc: usize,
        var_manager: &mut BasicVarManager,
    ) -> (cnf: Cnf)
        requires
            old(self).wf(),
            old(var_manager).next_var + old(self).slack() <= u32::MAX,
        ensures
            final(self).wf(),
            final(self).same_tree(*old(self)),
            final(self).slack() + final(var_manager).next_var == old(self).slack() + old(var_manager).next_var,
            old(var_manager).next_var <= final(var_manager).next_var,
            final(self).covered(min_enc as int, max_enc as int),
            (*old(self)) is Leaf ==> *final(self) == *old(self) && *final(var_manager) == *old(var_manager) && cnf@.len() == 0,
            (*old(self)) is Internal ==> final(self).window() == Some(
                (min_enc, if max_enc < old(self).max_value() { max_enc } else { old(self).max_value() as usize }),
            ),
            forall|c: Seq<Lit>| cnf@.contains(c) <==> final(self).encoded_clause(c),
            min_enc <= max_enc + 1 ==> final(self).windows_ordered(),
            final(self).reserved(min_enc as int, max_enc as int),
            final(self).outputs_from(*old(self), min_enc as int, max_enc as int),
            old(self).clause_count() <= final(self).clause_count(),
            cnf@ == final(self).rec_seq(min_enc as int, max_enc as int),
            final(self).counted(*old(self), min_enc as int, max_enc as int, true),
            final(var_manager).next_var == old(var_manager).next_var + final(self).rec_mint_count(*old(self), min_enc as int, max_enc as int),
            final(self).rec_minted(*old(self), min_enc as int, max_enc as int, old(var_manager).next_var as int),
        decreases *old(self),
    {
        proof {
            self.lemma_wf_facts();
        }
        let ghost mut below: Seq<Seq<Lit>> = Seq::empty();
        let mut cnf = match self {
            Node::Leaf { .. } => {
                let r = Cnf::new();
                proof {
                    assert forall|c: Seq<Lit>| r@.contains(c) <==> self.encoded_clause(c) by {}
                }
                return r;
            },
            Node::Internal { left, right, .. } => {
                let left_min_enc = Node::compute_required_min_enc(min_enc, max_enc, &**right);
                let right_min_enc = Node::compute_required_min_enc(min_enc, max_enc, &**left);
                // Recurse
                proof {
                    left.lemma_wf_facts();
                    right.lemma_wf_facts();
                    assert(old(self).slack() == (old(self).max_value() - old(self).outputs().len()) + left.slack() + right.slack());
                }
                let mut cnf = (&mut **left).encode_rec(left_min_enc, max_enc, var_manager);
                proof {
                    left.lemma_wf_facts();
                }
                let right_cnf = (&mut **right).encode_rec(right_min_enc, max_enc, var_manager);
                let ghost lc = cnf@;
                cnf.extend(right_cnf);
                proof {
                    assert forall|c: Seq<Lit>| cnf@.contains(c) <==> (left.encoded_clause(c) || right.encoded_clause(c)) by {
                        lemma_concat_contains(lc, right_cnf@, c);
                    }
                    below = cnf@;
                }
                cnf
            },
        };
        let ghost pre = *self;
        proof {
            assert(forall|c: Seq<Lit>| below.contains(c) <==> (pre->left.encoded_clause(c) || pre->right.encoded_clause(c)));
        }
        proof {
            if min_enc > max_enc {
                lemma_visit_empty(self.left_outs(), self.right_outs(), min_enc as int, max_enc as int, self.outputs());
            }
        }
        let local_cnf = self.encode_from_till(min_enc, max_enc, var_manager);
        if let Node::Internal { min_max_enc, max_val, n_clauses, .. } = self {
            *min_max_enc = Some((min_enc, if max_enc < *max_val { max_enc } else { *max_val }));
            *n_clauses = n_clauses.saturating_add(local_cnf.n_clauses());
        }
        let ghost cb = cnf@;
        cnf.extend(local_cnf);
        proof {
            let fin = *self;
            let h2 = if max_enc < fin.max_value() { max_enc as int } else { fin.max_value() as int };
            assert forall|c: Seq<Lit>| cnf@.contains(c) <==> fin.encoded_clause(c) by {
                lemma_concat_contains(cb, local_cnf@, c);
                fin.lemma_window_clamp(c, fin.outputs(), min_enc as int, max_enc as int);
                assert(fin->left == pre->left && fin->right == pre->right);
                assert(fin.left_outs() == pre.left_outs());
            }
        }
        cnf
    }

    /// Encodes the window `[min_enc, max_enc]` at this node and, with the
    /// windows they need, at all nodes below, emitting only what the windows
    /// already recorded do not cover.
    #[verifier::rlimit(80)]
    pub fn encode_change_rec(
        &mut self,
        min_enc: usize,
        max_enc: usize,
        var_manager: &mut BasicVarManager,
    ) -> (cnf: Cnf)
        requires
            old(self).wf(),
            old(var_manager).next_var + old(self).slack() <= u32::MAX,
        ensures
            final(self).wf(),
            final(self).same_tree(*old(self)),
            final(self).slack() + final(var_manager).next_var == old(self).slack() + old(var_manager).next_var,
            old(var_manager).next_var <= final(var_manager).next_var,
            final(self).covered(min_enc as int, max_enc as int),
            old(self).covered(min_enc as int, max_enc as int) ==> *final(self) == *old(self)
                && *final(var_manager) == *old(var_manager) && cnf@.len() == 0,
            min_enc <= max_enc + 1 && old(self).windows_ordered() ==> final(self).windows_ordered()
                && forall|c: Seq<Lit>| cnf@.contains(c) ==> final(self).encoded_clause(c),
            min_enc <= max_enc + 1 && old(self).windows_ordered() ==> forall|c: Seq<Lit>|
                final(self).new_clause(*old(self), min_enc as int, max_enc as int, c) ==> cnf@.contains(c),
            final(self).reserved_new(*old(self), min_enc as int, max_enc as int),
            old(self).clause_count() <= final(self).clause_count(),
            cnf@ == final(self).change_seq(*old(self), min_enc as int, max_enc as int),
            final(self).counted(*old(self), min_enc as int, max_enc as int, false),
            (*old(self)) is Leaf ==> *final(self) == *old(self) && *final(var_manager) == *old(var_manager) && cnf@.len() == 0,
            (*old(self)) is Internal ==> final(self).window() == Some(
                Node::widened(old(self).window(), min_enc, max_enc, old(self).max_value() as usize),
            ),
        decreases *old(self),
    {
        proof {
            self.lemma_wf_facts();
        }
        let ghost was_covered = self.covered(min_enc as int, max_enc as int);
        let ghost mut below: Seq<Seq<Lit>> = Seq::empty();
        let ghost mut new_below: Seq<Seq<Lit>> = Seq::empty();
        let ghost mut seq_below: Seq<Seq<Lit>> = Seq::empty();
        let (mut cnf, min_max_already_encoded) = match self {
            Node::Leaf { .. } => return Cnf::new(),
            Node::Internal { left, right, min_max_enc, .. } => {
                let left_min_enc = Node::compute_required_min_enc(min_enc, max_enc, &**right);
                let right_min_enc = Node::compute_required_min_enc(min_enc, max_enc, &**left);
                // Recurse
                proof {
                    left.lemma_wf_facts();
                    right.lemma_wf_facts();
                    assert(old(self).slack() == (old(self).max_value() - old(self).outputs().len()) + left.slack() + right.slack());
                }
                let ghost old_left = **left;
                let ghost old_right = **right;
                let mut cnf = (&mut **left).encode_change_rec(left_min_enc, max_enc, var_manager);
                proof {
                    left.lemma_wf_facts();
                }
                let right_cnf = (&mut **right).encode_change_rec(right_min_enc, max_enc, var_manager);
                proof {
                    assert(left.reserved_new(old_left, left_min_enc as int, max_enc as int));
                    assert(right.reserved_new(old_right, right_min_enc as int, max_enc as int));
                }
                let ghost lc = cnf@;
                cnf.extend(right_cnf);
                proof {
                    assert(cnf@ == left.change_seq(old_left, left_min_enc as int, max_enc as int) + right.change_seq(old_right, right_min_enc as int, max_enc as int));
                    seq_below = cnf@;
                    if min_enc <= max_enc + 1 && old(self).windows_ordered() {
                        assert forall|c: Seq<Lit>| cnf@.contains(c) implies (left.encoded_clause(c) || right.encoded_clause(c)) by {
                            lemma_concat_contains(lc, right_cnf@, c);
                        }
                        assert forall|c: Seq<Lit>| (left.new_clause(old_left, left_min_enc as int, max_enc as int, c)
                            || right.new_clause(old_right, right_min_enc as int, max_enc as int, c)) implies cnf@.contains(c) by {
                            lemma_concat_contains(lc, right_cnf@, c);
                        }
                        new_below = cnf@;
                        assert(left.windows_ordered() && right.windows_ordered());
                    }
                    below = cnf@;
                }
                (cnf, *min_max_enc)
            },
        };
        let ghost mid = *self;
        let ghost vm_mid = *var_manager;
        proof {
            let o = *old(self);
            assert(mid->left.reserved_new(*o->left, required_min(min_enc as int, max_enc as int, *o->right), max_enc as int));
            assert(mid->right.reserved_new(*o->right, required_min(min_enc as int, max_enc as int, *o->left), max_enc as int));
            if min_enc <= max_enc + 1 && old(self).windows_ordered() {
                assert(forall|c: Seq<Lit>| below.contains(c) ==> (mid->left.encoded_clause(c) || mid->right.encoded_clause(c)));
                assert(mid->left.windows_ordered() && mid->right.windows_ordered());
            }
            if was_covered {
                assert(cnf@.len() == 0);
                self.lemma_wf_facts();
            }
        }
        // Encode changes for current node
        let ghost m = self.max_value() as int;
        let ghost ordered = min_enc <= max_enc + 1 && old(self).windows_ordered();
        let ghost wlo = Node::widened(min_max_already_encoded, min_enc, max_enc, m as usize).0 as int;
        let ghost whc = Node::widened(min_max_already_encoded, min_enc, max_enc, m as usize).1 as int;
        let local_cnf = self.encode_new_parts(min_enc, max_enc, min_max_already_encoded, var_manager);
        let ghost pre = *self;
        proof {
            if ordered {
                assert(clauses_within(local_cnf@, pre, wlo, whc));
            }
            assert(pre->left == mid->left && pre->right == mid->right);
        }
        if let Node::Internal { min_max_enc, max_val, n_clauses, .. } = self {
            *n_clauses = n_clauses.saturating_add(local_cnf.n_clauses());
            *min_max_enc = if let Some((old_min_enc, old_max_enc)) = *min_max_enc {
                Some(
                    (
                        if min_enc < old_min_enc { min_enc } else { old_min_enc },
                        if *max_val < (if max_enc > old_max_enc { max_enc } else { old_max_enc }) {
                            *max_val
                        } else if max_enc > old_max_enc {
                            max_enc
                        } else {
                            old_max_enc
                        },
                    ),
                )
            } else {
                Some((min_enc, if max_enc < *max_val { max_enc } else { *max_val }))
            };
        }
        let ghost cb = cnf@;
        cnf.extend(local_cnf);
        proof {
            let fin = *self;
            assert(fin->left == pre->left && fin->right == pre->right);
            assert(fin.outputs() == pre.outputs());
            let o = *old(self);
            assert(seq_below == cb);
            assert(fin.local_new_seq(min_max_already_encoded, min_enc as int, max_enc as int) == pre.local_new_seq(min_max_already_encoded, min_enc as int, max_enc as int));
            assert(cnf@ == fin.change_seq(o, min_enc as int, max_enc as int));
            assert forall|w: int| #[trigger] fin.needed_new(min_max_already_encoded, min_enc as int, max_enc as int, w)
                implies has_value(fin.outputs(), w) by {
                assert(pre.needed_new(min_max_already_encoded, min_enc as int, max_enc as int, w));
            }
            assert(fin.reserved_new(*old(self), min_enc as int, max_enc as int));
            if ordered {
                let o = *old(self);
                assert(new_below == cb);
                assert forall|c: Seq<Lit>| fin.new_clause(o, min_enc as int, max_enc as int, c) implies cnf@.contains(c) by {
                    lemma_concat_contains(cb, local_cnf@, c);
                    assert(fin.local_new_clause(min_max_already_encoded, min_enc as int, max_enc as int, c) ==> pre.local_new_clause(min_max_already_encoded, min_enc as int, max_enc as int, c));
                }
                assert(fin.window() == Some(Node::widened(min_max_already_encoded, min_enc, max_enc, m as usize)));
                assert forall|c: Seq<Lit>| cnf@.contains(c) implies fin.encoded_clause(c) by {
                    lemma_concat_contains(cb, local_cnf@, c);
                    if local_cnf@.contains(c) {
                        assert(window_clause(c, pre.left_outs(), pre.right_outs(), pre.outputs(), wlo, whc));
                    }
                }
            }
        }
        cnf
    }

    /// Encodes at this node the parts of `[min_enc, max_enc]` that its
    /// recorded window `old_window` does not cover, without recording the
    /// new window.
    #[verifier::rlimit(80)]
    fn encode_new_parts(
        &mut self,
        min_enc: usize,
        max_enc: usize,
        old_window: Option<(usize, usize)>,
        var_manager: &mut BasicVarManager,
    ) -> (cnf: Cnf)
        requires
            old(self).wf(),
            (*old(self)) is Internal,
            old(self).window() == old_window,
            old(var_manager).next_var + old(self).slack() <= u32::MAX,
        ensures
            final(self).wf(),
            final(self).same_but_outputs(*old(self)),
            final(self).slack() + final(var_manager).next_var == old(self).slack() + old(var_manager).next_var,
            old(var_manager).next_var <= final(var_manager).next_var,
            old_window is Some && old_window.unwrap().0 <= min_enc && (max_enc <= old_window.unwrap().1
                || old_window.unwrap().1 == old(self).max_value()) ==> *final(self) == *old(self)
                && *final(var_manager) == *old(var_manager) && cnf@.len() == 0,
            forall|w: int|
                #[trigger] final(self).needed_new(old_window, min_enc as int, max_enc as int, w)
                    ==> has_value(final(self).outputs(), w),
            cnf@ == final(self).local_new_seq(old_window, min_enc as int, max_enc as int),
            min_enc <= max_enc + 1 && (old_window is Some ==> old_window.unwrap().0 <= old_window.unwrap().1 + 1
                || old_window.unwrap().1 == old(self).max_value()) ==> {
                &&& clauses_within(
                    cnf@,
                    *final(self),
                    Node::widened(old_window, min_enc, max_enc, old(self).max_value() as usize).0 as int,
                    Node::widened(old_window, min_enc, max_enc, old(self).max_value() as usize).1 as int,
                )
                &&& forall|c: Seq<Lit>|
                    final(self).local_new_clause(old_window, min_enc as int, max_enc as int, c)
                        ==> #[trigger] cnf@.contains(c)
            },
    {
        proof {
            self.lemma_wf_facts();
        }
        // The window the node records once this encoding is done
        let ghost m = self.max_value() as int;
        let ghost ordered = min_enc <= max_enc + 1 && (old_window is Some ==> old_window.unwrap().0
            <= old_window.unwrap().1 + 1 || old_window.unwrap().1 == self.max_value());
        let ghost was_covered = old_window is Some && old_window.unwrap().0 <= min_enc && (max_enc
            <= old_window.unwrap().1 || old_window.unwrap().1 == self.max_value());
        let ghost (wlo, whi) = match old_window {
            None => (min_enc as int, max_enc as int),
            Some((a, b)) => (
                if min_enc < a { min_enc as int } else { a as int },
                if max_enc > b { max_enc as int } else { b as int },
            ),
        };
        let ghost whc = if whi < m { whi } else { m };
        // Encode changes for current node
        let local_cnf = match old_window {
            None => {
                // First time encoding this node
                let part = self.encode_from_till(min_enc, max_enc, var_manager);
                proof {
                    assert forall|c: Seq<Lit>| #[trigger] part@.contains(c) implies window_clause(c, self.left_outs(), self.right_outs(), self.outputs(), wlo, whc) by {
                        self.lemma_window_clamp(c, self.outputs(), min_enc as int, max_enc as int);
                    }
                    assert forall|c: Seq<Lit>| self.local_new_clause(old_window, min_enc as int, max_enc as int, c) implies #[trigger] part@.contains(c) by {
                        self.lemma_window_clamp(c, self.outputs(), min_enc as int, max_enc as int);
                    }
                }
                part
            },
            Some((old_min_enc, old_max_enc)) => {
                // Part already encoded
                let mut local_cnf = Cnf::new();
                let ghost mut p1: Seq<Seq<Lit>> = Seq::empty();
                if min_enc < old_min_enc {
                    let part = self.encode_from_till(min_enc, old_min_enc - 1, var_manager);
                    proof {
                        p1 = part@;
                        if ordered {
                            assert forall|c: Seq<Lit>| #[trigger] part@.contains(c) implies window_clause(c, self.left_outs(), self.right_outs(), self.outputs(), wlo, whc) by {
                                lemma_keeps_refl(self.outputs());
                                self.lemma_window_clamp(c, self.outputs(), min_enc as int, old_min_enc - 1);
                                let h = if old_min_enc - 1 < m { old_min_enc - 1 } else { m };
                                lemma_window_mono(c, self.left_outs(), self.right_outs(), self.outputs(), self.outputs(), min_enc as int, h, wlo, whc);
                            }
                        }
                    }
                    local_cnf.extend(part);
                    proof {
                        if ordered {
                            assert forall|c: Seq<Lit>| #[trigger] local_cnf@.contains(c) implies window_clause(c, self.left_outs(), self.right_outs(), self.outputs(), wlo, whc) by {
                                lemma_concat_contains(Seq::empty(), part@, c);
                            }
                        }
                        assert(local_cnf@ =~= p1);
                        assert(p1 == self.local_seq(min_enc as int, old_min_enc - 1));
                    }
                } else {
                    proof {
                        assert(local_cnf@ =~= Seq::<Seq<Lit>>::empty());
                    }
                }
                let ghost mid1 = *self;
                proof {
                    // The first part's clauses over the outputs it left
                    if ordered && min_enc < old_min_enc && min_enc <= m {
                        assert(forall|c: Seq<Lit>| window_clause(c, self.left_outs(), self.right_outs(), self.outputs(), min_enc as int, old_min_enc - 1) ==> #[trigger] p1.contains(c));
                    }
                }
                proof {
                    if ordered {
                        assert(clauses_within(local_cnf@, *self, wlo, whc));
                    }
                }
                if max_enc > old_max_enc {
                    proof {
                        if was_covered {
                            Node::lemma_nothing_needed_above(*self, old_max_enc as int + 1, max_enc as int);
                        }
                    }
                    let ghost before = *self;
                    let ghost lc = local_cnf@;
                    let part = self.encode_from_till(old_max_enc + 1, max_enc, var_manager);
                    proof {
                        lemma_keeps_refl(self.outputs());
                        if ordered && wlo <= old_max_enc + 1 {
                            assert forall|c: Seq<Lit>| #[trigger] part@.contains(c) implies window_clause(c, self.left_outs(), self.right_outs(), self.outputs(), wlo, whc) by {
                                self.lemma_window_clamp(c, self.outputs(), old_max_enc + 1, max_enc as int);
                                let h = if max_enc < m { max_enc as int } else { m };
                                lemma_window_mono(c, self.left_outs(), self.right_outs(), self.outputs(), self.outputs(), old_max_enc + 1, h, wlo, whc);
                            }
                        }
                        if ordered {
                            assert forall|c: Seq<Lit>| #[trigger] lc.contains(c) implies window_clause(c, self.left_outs(), self.right_outs(), self.outputs(), wlo, whc) by {
                                assert(window_clause(c, before.left_outs(), before.right_outs(), before.outputs(), wlo, whc));
                                lemma_window_mono(c, self.left_outs(), self.right_outs(), before.outputs(), self.outputs(), wlo, whc, wlo, whc);
                            }
                        }
                    }
                    local_cnf.extend(part);
                    proof {
                        if min_enc < old_min_enc && min_enc <= m {
                            lemma_window_seq_agree(self.left_outs(), self.right_outs(), before.outputs(), self.outputs(), min_enc as int, old_min_enc - 1);
                        }
                        assert(before.local_seq(min_enc as int, old_min_enc - 1) == self.local_seq(min_enc as int, old_min_enc - 1));
                        assert(local_cnf@ =~= self.local_new_seq(old_window, min_enc as int, max_enc as int));
                    }
                    proof {
                        if ordered {
                            assert forall|c: Seq<Lit>| #[trigger] local_cnf@.contains(c) implies window_clause(c, self.left_outs(), self.right_outs(), self.outputs(), wlo, whc) by {
                                lemma_concat_contains(lc, part@, c);
                            }
                            assert forall|c: Seq<Lit>| self.local_new_clause(old_window, min_enc as int, max_enc as int, c) implies #[trigger] local_cnf@.contains(c) by {
                                lemma_concat_contains(lc, part@, c);
                                if min_enc < old_min_enc && window_clause(c, self.left_outs(), self.right_outs(), self.outputs(), min_enc as int, old_min_enc - 1) {
                                    if min_enc > m {
                                        self.lemma_window_clamp(c, self.outputs(), min_enc as int, old_min_enc - 1);
                                    } else {
                                        if old_max_enc == m {
                                            Node::lemma_nothing_needed_above(before, old_max_enc as int + 1, max_enc as int);
                                        }
                                        lemma_window_fewer_outputs(c, self.left_outs(), self.right_outs(), before.outputs(), self.outputs(), min_enc as int, old_min_enc - 1);
                                    }
                                } else if window_clause(c, self.left_outs(), self.right_outs(), self.outputs(), old_max_enc + 1, max_enc as int) {
                                    self.lemma_window_clamp(c, self.outputs(), old_max_enc + 1, max_enc as int);
                                }
                            }
                        }
                    }
                } else {
                    proof {
                        assert(local_cnf@ =~= self.local_new_seq(old_window, min_enc as int, max_enc as int));
                        if ordered {
                            assert forall|c: Seq<Lit>| self.local_new_clause(old_window, min_enc as int, max_enc as int, c) implies #[trigger] local_cnf@.contains(c) by {
                                if min_enc > m && min_enc < old_min_enc {
                                    if window_clause(c, self.left_outs(), self.right_outs(), self.outputs(), min_enc as int, old_min_enc - 1) {
                                        self.lemma_window_clamp(c, self.outputs(), min_enc as int, old_min_enc - 1);
                                    }
                                }
                            }
                        }
                    }
                }
                local_cnf
            },
        };
        local_cnf
    }

    /// No output value above the maximum of a well formed internal node is
    /// needed.
    pub proof fn lemma_nothing_needed_above(n: Node, lo: int, hi: int)
        requires
            n.wf(),
            n is Internal,
            lo > n.max_value(),
        ensures
            forall|w: int| !#[trigger] needed(n.left_outs(), n.right_outs(), lo, hi, w),
    {
        if let Node::Internal { left, right, .. } = n {
            left.lemma_wf_facts();
            right.lemma_wf_facts();
            let l = left.outputs();
            let r = right.outputs();
            assert forall|w: int| !#[trigger] needed(l, r, lo, hi, w) by {
                if needed(l, r, lo, hi, w) {
                    if has_value(l, w) {
                        let k = choose|k: int| 0 <= k < l.len() && #[trigger] l[k].0 == w;
                    } else if has_value(r, w) {
                        let k = choose|k: int| 0 <= k < r.len() && #[trigger] r[k].0 == w;
                    } else {
                        let (x, y) = choose|x: int, y: int| #[trigger] pair_sum(l, r, hi, w, x, y);
                        assert(l[x].0 <= left.max_value());
                        assert(r[y].0 <= right.max_value());
                    }
                }
            }
        }
    }

    /// Every output value that the subtree can take has a literal at every
    /// internal node.
    pub open spec fn all_reserved(self) -> bool
        decreases self,
    {
        match self {
            Node::Leaf { .. } => true,
            Node::Internal { out_lits, max_val, left, right, .. } => {
                &&& forall|w: int|
                    #[trigger] needed(left.outputs(), right.outputs(), 0, max_val as int, w)
                        ==> has_value(out_lits@, w)
                &&& left.all_reserved()
                &&& right.all_reserved()
            },
        }
    }

    /// Reserves all variables this node might need. This is used if
    /// variables in the encoding should have consecutive indices.
    pub fn reserve_all_vars(&mut self, var_manager: &mut BasicVarManager)
        requires
            old(self).wf(),
            old(var_manager).next_var + old(self).slack() <= u32::MAX,
        ensures
            final(self).wf(),
            final(self).same_but_outputs(*old(self)),
            final(self).slack() + final(var_manager).next_var == old(self).slack() + old(var_manager).next_var,
            old(var_manager).next_var <= final(var_manager).next_var,
            (*old(self)) is Leaf ==> *final(self) == *old(self),
            forall|w: int|
                #[trigger] needed(old(self).left_outs(), old(self).right_outs(), 0, old(self).max_value() as int, w)
                    ==> has_value(final(self).outputs(), w),
            keeps(old(self).outputs(), final(self).outputs()),
    {
        let max_val = match self {
            Node::Leaf { .. } => return,
            Node::Internal { max_val, .. } => *max_val,
        };
        self.reserve_vars_from_till(0, max_val, var_manager);
    }

    /// Reserves all variables this node and the subtree below might need.
    /// This is used if variables in the encoding should have consecutive
    /// indices.
    pub fn reserve_all_vars_rec(&mut self, var_manager: &mut BasicVarManager)
        requires
            old(self).wf(),
            old(var_manager).next_var + old(self).slack() <= u32::MAX,
        ensures
            final(self).wf(),
            final(self).same_tree(*old(self)),
            final(self).slack() + final(var_manager).next_var == old(self).slack() + old(var_manager).next_var,
            old(var_manager).next_var <= final(var_manager).next_var,
            final(self).all_reserved(),
            final(self).window() == old(self).window(),
            old(self).windows_ordered() ==> final(self).windows_ordered(),
            (*old(self)) is Leaf ==> *final(self) == *old(self),
        decreases *old(self),
    {
        proof {
            self.lemma_wf_facts();
        }
        match self {
            Node::Leaf { .. } => return,
            Node::Internal { left, right, .. } => {
                proof {
                    left.lemma_wf_facts();
                    right.lemma_wf_facts();
                    assert(old(self).slack() == (old(self).max_value() - old(self).outputs().len()) + left.slack() + right.slack());
                }
                (&mut **left).reserve_all_vars_rec(var_manager);
                proof {
                    left.lemma_wf_facts();
                }
                (&mut **right).reserve_all_vars_rec(var_manager);
            },
        }
        let ghost mid = *self;
        proof {
            assert(mid is Internal);
        }
        self.reserve_all_vars(var_manager);
        proof {
            let ghost fin = *self;
            if let Node::Internal { out_lits, max_val, left, right, .. } = fin {
                if let Node::Internal { left: ml, right: mr, max_val: mm, .. } = mid {
                    assert(left == ml && right == mr && max_val == mm);
                    assert(mid.left_outs() == left.outputs());
                    assert(mid.right_outs() == right.outputs());
                    assert(ml.all_reserved() && mr.all_reserved());
                    assert forall|w: int|
                        #[trigger] needed(left.outputs(), right.outputs(), 0, max_val as int, w)
                        implies has_value(out_lits@, w) by {
                        assert(needed(mid.left_outs(), mid.right_outs(), 0, mid.max_value() as int, w));
                    }
                }
            }
        }
    }
}

} // verus!
