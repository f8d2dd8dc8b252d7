use vstd::prelude::*;
use crate::gte::{
    heavy, lemma_heavy_sub, negate_inputs, negs, outs_between, sum_weights, unique_lits, weight_of,
    GeneralizedTotalizer, InvertedGeneralizedTotalizer,
};
use crate::node::{window_clause, Node};
use crate::types::Lit;

verus! {

/// The value of literal `l` under the assignment `a` of the variables.
pub open spec fn lit_value(a: spec_fn(u32) -> bool, l: Lit) -> bool {
    a(l.var.idx) != l.negated
}

/// Some literal of clause `c` is true under `a`.
pub open spec fn clause_holds(a: spec_fn(u32) -> bool, c: Seq<Lit>) -> bool {
    exists|i: int| 0 <= i < c.len() && lit_value(a, #[trigger] c[i])
}

/// Every output of `s` that `a` makes true has a value of at most `bound`.
pub open spec fn outputs_bounded(a: spec_fn(u32) -> bool, s: Seq<(usize, Lit)>, bound: int) -> bool {
    forall|i: int| 0 <= i < s.len() && lit_value(a, #[trigger] s[i].1) ==> s[i].0 <= bound
}

/// `a` makes the outputs of `s` true exactly at the values up to `bound`.
pub open spec fn outputs_threshold(a: spec_fn(u32) -> bool, s: Seq<(usize, Lit)>, bound: int) -> bool {
    forall|i: int| 0 <= i < s.len() ==> (lit_value(a, #[trigger] s[i].1) <==> s[i].0 <= bound)
}

impl Node {
    /// The total weight of the leaves whose literal `a` makes true.
    pub open spec fn true_weight(self, a: spec_fn(u32) -> bool) -> int
        decreases self,
    {
        match self {
            Node::Leaf { lit, weight } => if lit_value(a, lit) {
                weight as int
            } else {
                0
            },
            Node::Internal { left, right, .. } => left.true_weight(a) + right.true_weight(a),
        }
    }

    /// Under `a`, every output literal of every internal node of the subtree
    /// is true exactly when its value is at most the true weight below it.
    pub open spec fn threshold_model(self, a: spec_fn(u32) -> bool) -> bool
        decreases self,
    {
        match self {
            Node::Leaf { .. } => true,
            Node::Internal { out_lits, left, right, .. } => {
                &&& outputs_threshold(a, out_lits@, self.true_weight(a))
                &&& left.threshold_model(a)
                &&& right.threshold_model(a)
            },
        }
    }

    pub proof fn lemma_true_weight_nonneg(self, a: spec_fn(u32) -> bool)
        ensures
            self.true_weight(a) >= 0,
        decreases self,
    {
        if let Node::Internal { left, right, .. } = self {
            left.lemma_true_weight_nonneg(a);
            right.lemma_true_weight_nonneg(a);
        }
    }

    /// Under a threshold model, the true outputs of a node are bounded by its
    /// true weight.
    pub proof fn lemma_outputs_bounded(self, a: spec_fn(u32) -> bool)
        requires
            self.threshold_model(a),
        ensures
            outputs_bounded(a, self.outputs(), self.true_weight(a)),
    {
    }

    /// An assignment that sets every output literal by the threshold rule
    /// satisfies every clause that the windows recorded in the tree stand
    /// for, whatever the inputs.
    pub proof fn lemma_threshold_model_satisfies(self, a: spec_fn(u32) -> bool, c: Seq<Lit>)
        requires
            self.threshold_model(a),
            self.encoded_clause(c),
        ensures
            clause_holds(a, c),
        decreases self,
    {
        if let Node::Internal { out_lits, left, right, min_max_enc, .. } = self {
            if left.encoded_clause(c) {
                left.lemma_threshold_model_satisfies(a, c);
            } else if right.encoded_clause(c) {
                right.lemma_threshold_model_satisfies(a, c);
            } else {
                let w = min_max_enc.unwrap();
                left.lemma_outputs_bounded(a);
                right.lemma_outputs_bounded(a);
                left.lemma_true_weight_nonneg(a);
                right.lemma_true_weight_nonneg(a);
                lemma_threshold_window(
                    a,
                    c,
                    left.outputs(),
                    right.outputs(),
                    out_lits@,
                    w.0 as int,
                    w.1 as int,
                    left.true_weight(a),
                    right.true_weight(a),
                );
            }
        }
    }
}

/// At one node: if the true outputs of the children are bounded by `sl` and
/// `sr`, and the node's outputs are true exactly up to `sl + sr`, every
/// window clause holds.
pub proof fn lemma_threshold_window(
    a: spec_fn(u32) -> bool,
    c: Seq<Lit>,
    l: Seq<(usize, Lit)>,
    r: Seq<(usize, Lit)>,
    out: Seq<(usize, Lit)>,
    lo: int,
    hi: int,
    sl: int,
    sr: int,
)
    requires
        outputs_bounded(a, l, sl),
        outputs_bounded(a, r, sr),
        sl >= 0,
        sr >= 0,
        outputs_threshold(a, out, sl + sr),
        window_clause(c, l, r, out, lo, hi),
    ensures
        clause_holds(a, c),
{
    if exists|i: int, k: int|
        0 <= i < l.len() && 0 <= k < out.len() && lo <= l[i].0 <= hi && #[trigger] out[k].0
            == #[trigger] l[i].0 && c == seq![l[i].1.neg(), out[k].1] {
        let (i, k) = choose|i: int, k: int|
            0 <= i < l.len() && 0 <= k < out.len() && lo <= l[i].0 <= hi && #[trigger] out[k].0
                == #[trigger] l[i].0 && c == seq![l[i].1.neg(), out[k].1];
        if lit_value(a, l[i].1) {
            assert(lit_value(a, c[1]));
        } else {
            assert(lit_value(a, c[0]));
        }
    } else if exists|j: int, k: int|
        0 <= j < r.len() && 0 <= k < out.len() && lo <= r[j].0 <= hi && #[trigger] out[k].0
            == #[trigger] r[j].0 && c == seq![r[j].1.neg(), out[k].1] {
        let (j, k) = choose|j: int, k: int|
            0 <= j < r.len() && 0 <= k < out.len() && lo <= r[j].0 <= hi && #[trigger] out[k].0
                == #[trigger] r[j].0 && c == seq![r[j].1.neg(), out[k].1];
        if lit_value(a, r[j].1) {
            assert(lit_value(a, c[1]));
        } else {
            assert(lit_value(a, c[0]));
        }
    } else {
        let (i, j, k) = choose|i: int, j: int, k: int|
            0 <= i < l.len() && 0 <= j < r.len() && 0 <= k < out.len() && 0 < l[i].0 < hi && lo
                <= l[i].0 + r[j].0 <= hi && #[trigger] out[k].0 == #[trigger] l[i].0
                + #[trigger] r[j].0 && c == seq![l[i].1.neg(), r[j].1.neg(), out[k].1];
        if lit_value(a, l[i].1) && lit_value(a, r[j].1) {
            assert(lit_value(a, c[2]));
        } else if !lit_value(a, l[i].1) {
            assert(lit_value(a, c[0]));
        } else {
            assert(lit_value(a, c[1]));
        }
    }
}

/// The total weight of the entries of `s` whose literal `a` makes true.
pub open spec fn true_sum(s: Seq<(Lit, usize)>, a: spec_fn(u32) -> bool) -> int
    decreases s.len(),
{
    if s.len() == 0 {
        0
    } else {
        true_sum(s.drop_last(), a) + if lit_value(a, s.last().0) {
            s.last().1 as int
        } else {
            0
        }
    }
}

pub proof fn lemma_true_sum_concat(x: Seq<(Lit, usize)>, y: Seq<(Lit, usize)>, a: spec_fn(u32) -> bool)
    ensures
        true_sum(x + y, a) == true_sum(x, a) + true_sum(y, a),
    decreases y.len(),
{
    if y.len() > 0 {
        assert((x + y).drop_last() =~= x + y.drop_last());
        lemma_true_sum_concat(x, y.drop_last(), a);
    } else {
        assert(x + y =~= x);
    }
}

/// A true literal contributes its whole weight to the true sum.
pub proof fn lemma_true_sum_bounds(s: Seq<(Lit, usize)>, a: spec_fn(u32) -> bool, l: Lit)
    ensures
        true_sum(s, a) >= 0,
        lit_value(a, l) ==> true_sum(s, a) >= weight_of(s, l),
        forall|i: int| 0 <= i < s.len() && lit_value(a, #[trigger] s[i].0) ==> true_sum(s, a) >= s[i].1,
    decreases s.len(),
{
    if s.len() > 0 {
        lemma_true_sum_bounds(s.drop_last(), a, l);
        assert forall|i: int| 0 <= i < s.len() && lit_value(a, #[trigger] s[i].0) implies true_sum(s, a) >= s[i].1 by {
            if i < s.len() - 1 {
                assert(s.drop_last()[i] == s[i]);
            }
        }
    }
}

impl Node {
    /// The true weight of a subtree is the true sum over its leaves.
    pub proof fn lemma_true_weight_leaves(self, a: spec_fn(u32) -> bool)
        ensures
            self.true_weight(a) == true_sum(self.leaves(), a),
        decreases self,
    {
        match self {
            Node::Leaf { lit, weight } => {
                assert(self.leaves().drop_last() =~= Seq::<(Lit, usize)>::empty());
                assert(true_sum(Seq::<(Lit, usize)>::empty(), a) == 0);
            },
            Node::Internal { left, right, .. } => {
                left.lemma_true_weight_leaves(a);
                right.lemma_true_weight_leaves(a);
                lemma_true_sum_concat(left.leaves(), right.leaves(), a);
            },
        }
    }
}

/// In a sequence with unique literals, the weight of a literal is that of
/// its entry.
pub proof fn lemma_unique_weight(s: Seq<(Lit, usize)>, i: int)
    requires
        unique_lits(s),
        0 <= i < s.len(),
    ensures
        weight_of(s, s[i].0) == s[i].1,
    decreases s.len(),
{
    let p = s.drop_last();
    assert(unique_lits(p));
    if i < s.len() - 1 {
        lemma_unique_weight(p, i);
        assert(s.last().0 != s[i].0);
    } else {
        assert forall|j: int| 0 <= j < p.len() implies #[trigger] p[j].0 != s[i].0 by {
            assert(s[j].0 != s[i].0);
        }
        crate::gte::lemma_weight_absent(p, s[i].0);
    }
}

pub proof fn lemma_heavy_weights(s: Seq<(Lit, usize)>, w: nat)
    ensures
        forall|k: int| 0 <= k < heavy(s, w).len() ==> #[trigger] heavy(s, w)[k].1 > w,
    decreases s.len(),
{
    if s.len() > 0 {
        lemma_heavy_weights(s.drop_last(), w);
        let h = heavy(s.drop_last(), w);
        assert forall|k: int| 0 <= k < heavy(s, w).len() implies #[trigger] heavy(s, w)[k].1 > w by {
            if k < h.len() {
                assert(heavy(s, w)[k] == h[k]);
            }
        }
    }
}

/// Every literal of `outs_between(s, lo, hi)` negates an output of a value
/// above `lo`.
pub proof fn lemma_outs_between(s: Seq<(usize, Lit)>, lo: usize, hi: usize)
    ensures
        forall|k: int|
            0 <= k < outs_between(s, lo, hi).len() ==> exists|i: int|
                0 <= i < s.len() && lo < s[i].0 && #[trigger] outs_between(s, lo, hi)[k] == s[i].1.neg(),
    decreases s.len(),
{
    if s.len() > 0 {
        let p = s.drop_last();
        lemma_outs_between(p, lo, hi);
        let t = outs_between(s, lo, hi);
        assert forall|k: int| 0 <= k < t.len() implies exists|i: int|
            0 <= i < s.len() && lo < s[i].0 && #[trigger] t[k] == s[i].1.neg() by {
            if k < outs_between(p, lo, hi).len() {
                let i = choose|i: int| 0 <= i < p.len() && lo < p[i].0 && #[trigger] outs_between(p, lo, hi)[k] == p[i].1.neg();
                assert(s[i] == p[i]);
            } else {
                assert(t[k] == s[s.len() - 1].1.neg());
            }
        }
    }
}

impl GeneralizedTotalizer {
    /// The total weight of the inputs, in the tree or buffered, that `a`
    /// makes true.
    pub open spec fn input_true_weight(&self, a: spec_fn(u32) -> bool) -> int {
        true_sum(self.tree_leaves(), a) + true_sum(self.lit_buffer@, a)
    }

    /// Enforcing an upper bound forbids no assignment within it: where the
    /// inputs that `a` makes true weigh at most `k` and every output literal
    /// follows the threshold rule, `a` satisfies every clause the encoding
    /// stands for and every assumption of `enforce_ub(k)`.
    pub proof fn lemma_enforce_ub_complete(&self, a: spec_fn(u32) -> bool, k: usize)
        requires
            self.wf(),
            self.root matches Some(r) ==> r.threshold_model(a),
            self.input_true_weight(a) <= k,
        ensures
            forall|c: Seq<Lit>|
                (self.root matches Some(r) && r.encoded_clause(c)) ==> clause_holds(a, c),
            self.enforce_ub_result(k) matches Ok(assumps) ==> forall|i: int|
                0 <= i < assumps.len() ==> lit_value(a, #[trigger] assumps[i]),
    {
        let buf = self.lit_buffer@;
        let ins = self.in_lits@;
        let leaves = self.tree_leaves();
        let x = Lit::pos(0);
        lemma_true_sum_bounds(buf, a, x);
        lemma_true_sum_bounds(leaves, a, x);
        assert forall|c: Seq<Lit>| (self.root matches Some(r) && r.encoded_clause(c)) implies clause_holds(a, c) by {
            let r = self.root.unwrap();
            r.lemma_threshold_model_satisfies(a, c);
        }
        if let Ok(assumps) = self.enforce_ub_result(k) {
            lemma_heavy_sub(ins, k as nat);
            lemma_heavy_weights(ins, k as nat);
            let hv = heavy(ins, k as nat);
            let base = negs(buf) + negs(hv);
            assert forall|i: int| 0 <= i < assumps.len() implies lit_value(a, #[trigger] assumps[i]) by {
                if i < buf.len() {
                    assert(assumps[i] == buf[i].0.neg());
                    assert(buf[i].1 > k);
                } else if i < base.len() {
                    let j = i - buf.len();
                    assert(assumps[i] == hv[j].0.neg());
                    let m = choose|m: int| 0 <= m < ins.len() && #[trigger] hv[j] == ins[m];
                    lemma_unique_weight(ins, m);
                    lemma_true_sum_bounds(leaves, a, ins[m].0);
                } else {
                    let root = self.root.unwrap();
                    if let Node::Internal { out_lits, max_val, .. } = *root {
                        let top = crate::gte::sat_add(k, self.max_leaf_weight);
                        lemma_outs_between(out_lits@, k, top);
                        let t = outs_between(out_lits@, k, top);
                        assert(assumps == base + t);
                        let q = i - base.len();
                        assert(assumps[i] == t[q]);
                        let m = choose|m: int| 0 <= m < out_lits@.len() && k < out_lits@[m].0 && #[trigger] t[q] == out_lits@[m].1.neg();
                        (*root).lemma_true_weight_leaves(a);
                    }
                }
            }
        }
    }
}

/// Each entry is true either as it stands or negated: the two true sums
/// make up the whole weight.
pub proof fn lemma_true_sum_negated(s: Seq<(Lit, usize)>, a: spec_fn(u32) -> bool)
    ensures
        true_sum(s, a) + true_sum(negate_inputs(s), a) == sum_weights(s),
    decreases s.len(),
{
    if s.len() > 0 {
        lemma_true_sum_negated(s.drop_last(), a);
        assert(negate_inputs(s).drop_last() =~= negate_inputs(s.drop_last()));
    }
}

impl InvertedGeneralizedTotalizer {
    /// The total weight of the inputs as added (the negations of the
    /// encoded ones) that `a` makes true.
    pub open spec fn added_true_weight(&self, a: spec_fn(u32) -> bool) -> int {
        true_sum(negate_inputs(self.gte.tree_leaves()), a) + true_sum(negate_inputs(self.gte.lit_buffer@), a)
    }

    /// Enforcing a lower bound forbids no assignment that meets it: where
    /// the added inputs that `a` makes true weigh at least `lb` and every
    /// output literal follows the threshold rule, `a` satisfies every clause
    /// the encoding stands for and every assumption of `enforce_lb(lb)`.
    pub proof fn lemma_enforce_lb_complete(&self, a: spec_fn(u32) -> bool, lb: usize)
        requires
            self.wf(),
            self.gte.root matches Some(r) ==> r.threshold_model(a),
            self.added_true_weight(a) >= lb,
        ensures
            forall|c: Seq<Lit>|
                (self.gte.root matches Some(r) && r.encoded_clause(c)) ==> clause_holds(a, c),
            self.enforce_lb_result(lb) matches Ok(assumps) ==> forall|i: int|
                0 <= i < assumps.len() ==> lit_value(a, #[trigger] assumps[i]),
    {
        let g = self.gte;
        lemma_true_sum_negated(g.tree_leaves(), a);
        lemma_true_sum_negated(g.lit_buffer@, a);
        crate::gte::lemma_sum_concat(g.in_lits@, g.lit_buffer@);
        if let Some(r) = g.root {
            r.lemma_true_weight_leaves(a);
            lemma_leaves_sum(*r);
        }
        assert(sum_weights(g.tree_leaves()) == sum_weights(g.in_lits@)) by {
            if g.root is None {
                assert(g.tree_leaves().len() == 0);
            }
        }
        if lb < g.total_weight {
            let ub = (g.total_weight - lb) as usize;
            assert(g.input_true_weight(a) <= ub);
            g.lemma_enforce_ub_complete(a, ub);
        } else {
            let x = Lit::pos(0);
            lemma_true_sum_bounds(g.lit_buffer@, a, x);
            lemma_true_sum_bounds(g.tree_leaves(), a, x);
            g.lemma_enforce_ub_complete(a, usize::MAX);
        }
    }
}

/// The weights at the leaves of a well formed subtree sum to its maximum.
pub proof fn lemma_leaves_sum(n: Node)
    requires
        n.wf(),
    ensures
        sum_weights(n.leaves()) == n.max_value(),
    decreases n,
{
    match n {
        Node::Leaf { .. } => {
            assert(n.leaves().drop_last() =~= Seq::<(Lit, usize)>::empty());
            assert(sum_weights(Seq::<(Lit, usize)>::empty()) == 0);
        },
        Node::Internal { left, right, .. } => {
            lemma_leaves_sum(*left);
            lemma_leaves_sum(*right);
            crate::gte::lemma_sum_concat(left.leaves(), right.leaves());
        },
    }
}

} // verus!
