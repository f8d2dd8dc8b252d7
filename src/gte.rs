use vstd::prelude::*;
use crate::node::Node;
use crate::types::{BasicVarManager, Cnf, EncodingError, Lit};

verus! {

/// The sum of the weights in `s`.
pub open spec fn sum_weights(s: Seq<(Lit, usize)>) -> nat
    decreases s.len(),
{
    if s.len() == 0 {
        0
    } else {
        sum_weights(s.drop_last()) + s.last().1 as nat
    }
}

/// The total weight that `s` gives literal `l`.
pub open spec fn weight_of(s: Seq<(Lit, usize)>, l: Lit) -> nat
    decreases s.len(),
{
    if s.len() == 0 {
        0
    } else {
        weight_of(s.drop_last(), l) + if s.last().0 == l {
            s.last().1 as nat
        } else {
            0
        }
    }
}

/// No literal occurs twice in `s`.
pub open spec fn unique_lits(s: Seq<(Lit, usize)>) -> bool {
    forall|i: int, j: int| 0 <= i < j < s.len() ==> s[i].0 != s[j].0
}

/// Every weight in `s` is positive.
pub open spec fn positive_weights(s: Seq<(Lit, usize)>) -> bool {
    forall|i: int| 0 <= i < s.len() ==> #[trigger] s[i].1 >= 1
}

/// The entries of `s` with weight at most `w`, in order.
pub open spec fn light(s: Seq<(Lit, usize)>, w: nat) -> Seq<(Lit, usize)>
    decreases s.len(),
{
    if s.len() == 0 {
        s
    } else if s.last().1 <= w {
        light(s.drop_last(), w).push(s.last())
    } else {
        light(s.drop_last(), w)
    }
}

/// The entries of `s` with weight above `w`, in order.
pub open spec fn heavy(s: Seq<(Lit, usize)>, w: nat) -> Seq<(Lit, usize)>
    decreases s.len(),
{
    if s.len() == 0 {
        s
    } else if s.last().1 > w {
        heavy(s.drop_last(), w).push(s.last())
    } else {
        heavy(s.drop_last(), w)
    }
}

pub proof fn lemma_sum_concat(a: Seq<(Lit, usize)>, b: Seq<(Lit, usize)>)
    ensures
        sum_weights(a + b) == sum_weights(a) + sum_weights(b),
    decreases b.len(),
{
    if b.len() > 0 {
        assert((a + b).drop_last() =~= a + b.drop_last());
        lemma_sum_concat(a, b.drop_last());
    } else {
        assert(a + b =~= a);
    }
}

pub proof fn lemma_weight_concat(a: Seq<(Lit, usize)>, b: Seq<(Lit, usize)>, l: Lit)
    ensures
        weight_of(a + b, l) == weight_of(a, l) + weight_of(b, l),
    decreases b.len(),
{
    if b.len() > 0 {
        assert((a + b).drop_last() =~= a + b.drop_last());
        lemma_weight_concat(a, b.drop_last(), l);
    } else {
        assert(a + b =~= a);
    }
}

pub proof fn lemma_weight_insert(s: Seq<(Lit, usize)>, i: int, e: (Lit, usize), l: Lit)
    requires
        0 <= i <= s.len(),
    ensures
        weight_of(s.insert(i, e), l) == weight_of(s, l) + if e.0 == l {
            e.1 as nat
        } else {
            0
        },
{
    assert(s.insert(i, e) =~= s.subrange(0, i) + seq![e] + s.subrange(i, s.len() as int));
    assert(s =~= s.subrange(0, i) + s.subrange(i, s.len() as int));
    lemma_weight_concat(s.subrange(0, i) + seq![e], s.subrange(i, s.len() as int), l);
    lemma_weight_concat(s.subrange(0, i), seq![e], l);
    lemma_weight_concat(s.subrange(0, i), s.subrange(i, s.len() as int), l);
    assert(seq![e].drop_last() =~= Seq::<(Lit, usize)>::empty());
    assert(weight_of(Seq::<(Lit, usize)>::empty(), l) == 0);
    assert(weight_of(seq![e], l) == if e.0 == l {
        e.1 as nat
    } else {
        0
    });
}

pub proof fn lemma_sum_update(s: Seq<(Lit, usize)>, i: int, e: (Lit, usize))
    requires
        0 <= i < s.len(),
    ensures
        sum_weights(s.update(i, e)) == sum_weights(s) - s[i].1 + e.1,
        forall|l: Lit|
            #[trigger] weight_of(s.update(i, e), l) == weight_of(s, l) - (if s[i].0 == l {
                s[i].1 as int
            } else {
                0
            }) + (if e.0 == l {
                e.1 as int
            } else {
                0
            }),
    decreases s.len(),
{
    let t = s.update(i, e);
    if i == s.len() - 1 {
        assert(t.drop_last() =~= s.drop_last());
    } else {
        assert(t.drop_last() =~= s.drop_last().update(i, e));
        lemma_sum_update(s.drop_last(), i, e);
    }
    assert forall|l: Lit|
        #[trigger] weight_of(t, l) == weight_of(s, l) - (if s[i].0 == l {
            s[i].1 as int
        } else {
            0
        }) + (if e.0 == l {
            e.1 as int
        } else {
            0
        }) by {
        assert(weight_of(t, l) == weight_of(t.drop_last(), l) + if t.last().0 == l {
            t.last().1 as nat
        } else {
            0
        });
        assert(weight_of(s, l) == weight_of(s.drop_last(), l) + if s.last().0 == l {
            s.last().1 as nat
        } else {
            0
        });
    }
}

pub proof fn lemma_sum_insert(s: Seq<(Lit, usize)>, i: int, e: (Lit, usize))
    requires
        0 <= i <= s.len(),
    ensures
        sum_weights(s.insert(i, e)) == sum_weights(s) + e.1,
{
    assert(s.insert(i, e) =~= s.subrange(0, i) + seq![e] + s.subrange(i, s.len() as int));
    assert(s =~= s.subrange(0, i) + s.subrange(i, s.len() as int));
    lemma_sum_concat(s.subrange(0, i) + seq![e], s.subrange(i, s.len() as int));
    lemma_sum_concat(s.subrange(0, i), seq![e]);
    lemma_sum_concat(s.subrange(0, i), s.subrange(i, s.len() as int));
    assert(seq![e].drop_last() =~= Seq::<(Lit, usize)>::empty());
    assert(sum_weights(Seq::<(Lit, usize)>::empty()) == 0);
    assert(sum_weights(seq![e]) == e.1);
}

pub proof fn lemma_elem_le_sum(s: Seq<(Lit, usize)>, j: int)
    requires
        0 <= j < s.len(),
    ensures
        s[j].1 <= sum_weights(s),
    decreases s.len(),
{
    if j < s.len() - 1 {
        lemma_elem_le_sum(s.drop_last(), j);
    }
}

/// The position of literal `l` in `s`, if any.
fn find_lit(s: &Vec<(Lit, usize)>, l: Lit) -> (r: Option<usize>)
    ensures
        r matches Some(j) ==> j < s@.len() && s@[j as int].0 == l,
        r is None ==> forall|k: int| 0 <= k < s@.len() ==> #[trigger] s@[k].0 != l,
{
    let mut j: usize = 0;
    while j < s.len()
        invariant
            0 <= j <= s@.len(),
            forall|k: int| 0 <= k < j ==> #[trigger] s@[k].0 != l,
        decreases s@.len() - j,
    {
        if s[j].0 == l {
            return Some(j);
        }
        j = j + 1;
    }
    None
}

pub proof fn lemma_weight_absent(s: Seq<(Lit, usize)>, l: Lit)
    requires
        forall|i: int| 0 <= i < s.len() ==> #[trigger] s[i].0 != l,
    ensures
        weight_of(s, l) == 0,
    decreases s.len(),
{
    if s.len() > 0 {
        lemma_weight_absent(s.drop_last(), l);
    }
}

pub proof fn lemma_split_sum(s: Seq<(Lit, usize)>, w: nat)
    ensures
        sum_weights(light(s, w)) + sum_weights(heavy(s, w)) == sum_weights(s),
        light(s, w).len() + heavy(s, w).len() == s.len(),
    decreases s.len(),
{
    if s.len() > 0 {
        lemma_split_sum(s.drop_last(), w);
        if s.last().1 <= w {
            assert(light(s, w).drop_last() =~= light(s.drop_last(), w));
        } else {
            assert(heavy(s, w).drop_last() =~= heavy(s.drop_last(), w));
        }
    }
}

/// The largest weight in `s`, zero for an empty `s`.
pub open spec fn max_weight_in(s: Seq<(Lit, usize)>) -> nat
    decreases s.len(),
{
    if s.len() == 0 {
        0
    } else if s.last().1 > max_weight_in(s.drop_last()) {
        s.last().1 as nat
    } else {
        max_weight_in(s.drop_last())
    }
}

/// The weights of `s` are in ascending order.
pub open spec fn ascending(s: Seq<(Lit, usize)>) -> bool {
    forall|i: int, j: int| 0 <= i < j < s.len() ==> s[i].1 <= s[j].1
}

/// Where an entry of weight `w` goes into `t`: after the last entry, going
/// back over the trailing entries heavier than `w`.
pub open spec fn asc_pos(t: Seq<(Lit, usize)>, w: usize) -> int
    decreases t.len(),
{
    if t.len() == 0 {
        0
    } else if t.last().1 > w {
        asc_pos(t.drop_last(), w)
    } else {
        t.len() as int
    }
}

/// The entries of `s` sorted by ascending weight, stably: entries of equal
/// weight keep their order.
pub open spec fn sort_by_weight(s: Seq<(Lit, usize)>) -> Seq<(Lit, usize)>
    decreases s.len(),
{
    if s.len() == 0 {
        s
    } else {
        let t = sort_by_weight(s.drop_last());
        t.insert(asc_pos(t, s.last().1), s.last())
    }
}

/// Inserts `e` after every entry of the ascending `s` whose weight is at most
/// that of `e`.
fn insert_ascending(s: &mut Vec<(Lit, usize)>, e: (Lit, usize))
    requires
        ascending(old(s)@),
    ensures
        ascending(final(s)@),
        0 <= asc_pos(old(s)@, e.1) <= old(s)@.len(),
        final(s)@ == old(s)@.insert(asc_pos(old(s)@, e.1), e),
{
    let mut p: usize = s.len();
    proof {
        assert(s@.subrange(0, s@.len() as int) =~= s@);
    }
    while p > 0 && s[p - 1].1 > e.1
        invariant
            0 <= p <= s@.len(),
            ascending(s@),
            forall|k: int| p <= k < s@.len() ==> #[trigger] s@[k].1 > e.1,
            asc_pos(s@, e.1) == asc_pos(s@.subrange(0, p as int), e.1),
        decreases p,
    {
        proof {
            assert(s@.subrange(0, p as int).drop_last() =~= s@.subrange(0, p - 1));
        }
        p = p - 1;
    }
    proof {
        if p > 0 {
            assert(s@.subrange(0, p as int).last() == s@[p - 1]);
        }
    }
    let ghost s0 = s@;
    s.insert(p, e);
    proof {
        assert forall|i: int, j: int| 0 <= i < j < s@.len() implies s@[i].1 <= s@[j].1 by {
            if j < p {
            } else if j == p {
                if i < p {
                    assert(s0[i].1 <= s0[p - 1].1 || i == p - 1);
                }
            } else if i < p {
                assert(s0[i].1 <= s0[j - 1].1);
            } else if i == p {
                assert(s0[j - 1].1 > e.1);
            } else {
                assert(s0[i - 1].1 <= s0[j - 1].1);
            }
        }
    }
}

/// `a + b`, saturating at `usize::MAX`.
pub open spec fn sat_add(a: usize, b: usize) -> usize {
    if a + b > usize::MAX {
        usize::MAX
    } else {
        (a + b) as usize
    }
}

/// The negations of the literals of `s`, in order.
pub open spec fn negs(s: Seq<(Lit, usize)>) -> Seq<Lit> {
    s.map_values(|e: (Lit, usize)| e.0.neg())
}

/// The negations of the output literals of values in `(lo, hi]`, in order.
pub open spec fn outs_between(s: Seq<(usize, Lit)>, lo: usize, hi: usize) -> Seq<Lit>
    decreases s.len(),
{
    if s.len() == 0 {
        Seq::empty()
    } else if lo < s.last().0 <= hi {
        outs_between(s.drop_last(), lo, hi).push(s.last().1.neg())
    } else {
        outs_between(s.drop_last(), lo, hi)
    }
}

/// The depth of the balanced tree over `n` inputs: `1 + ceil(log2(n))`.
pub open spec fn log_depth(n: nat) -> nat
    decreases n,
{
    if n <= 1 {
        1
    } else {
        1 + log_depth((n - n / 2) as nat)
    }
}

pub proof fn lemma_log_depth_mono(a: nat, b: nat)
    requires
        a <= b,
    ensures
        1 <= log_depth(a) <= log_depth(b),
    decreases b,
{
    if b > 1 {
        if a > 1 {
            lemma_log_depth_mono((a - a / 2) as nat, (b - b / 2) as nat);
        } else {
            lemma_log_depth_mono(1, (b - b / 2) as nat);
        }
    }
}

/// `n` is the balanced tree over the inputs `s`: a leaf for a single input;
/// otherwise an internal node with no outputs, no window and no clauses,
/// whose left subtree is built over the first `len / 2` inputs and whose
/// right subtree over the rest.
pub open spec fn balanced_over(n: Node, s: Seq<(Lit, usize)>) -> bool
    decreases s.len(),
{
    if s.len() <= 1 {
        s.len() == 1 && n == (Node::Leaf { lit: s[0].0, weight: s[0].1 })
    } else {
        match n {
            Node::Leaf { .. } => false,
            Node::Internal { out_lits, n_clauses, min_max_enc, left, right, .. } => {
                &&& out_lits@.len() == 0
                &&& n_clauses == 0
                &&& min_max_enc is None
                &&& balanced_over(*left, s.subrange(0, s.len() as int / 2))
                &&& balanced_over(*right, s.subrange(s.len() as int / 2, s.len() as int))
            },
        }
    }
}

/// A well formed balanced tree over `n` inputs has depth `log_depth(n)`.
pub proof fn lemma_balanced_depth(x: Node, s: Seq<(Lit, usize)>)
    requires
        balanced_over(x, s),
        x.wf(),
    ensures
        x.depth_of() == log_depth(s.len()),
    decreases s.len(),
{
    if s.len() > 1 {
        if let Node::Internal { left, right, .. } = x {
            let h = s.len() as int / 2;
            lemma_balanced_depth(*left, s.subrange(0, h));
            lemma_balanced_depth(*right, s.subrange(h, s.len() as int));
            lemma_log_depth_mono(h as nat, (s.len() - h) as nat);
        }
    }
}

/// `e` is the root that joining the balanced tree over `t` to `old_root`
/// makes: that tree where there was no root, else a new internal node with
/// no outputs, no window and no clauses over the old root and that tree.
pub open spec fn extended_root(e: Node, old_root: Option<Box<Node>>, t: Seq<(Lit, usize)>) -> bool {
    match old_root {
        None => balanced_over(e, t),
        Some(r0) => e matches Node::Internal { out_lits, n_clauses, min_max_enc, left, right, .. }
            && out_lits@.len() == 0 && n_clauses == 0 && min_max_enc is None && *left == *r0
            && balanced_over(*right, t),
    }
}

/// `e` is the root of `old` once the buffered inputs of weight at most `w`
/// have joined the tree. Where none has, it is the old root. Otherwise, in
/// reserving mode, the new subtree has the shape of the balanced tree over
/// the sorted inputs and all its outputs, and the joining node has the old
/// root on its left.
pub open spec fn extension_of(e: Node, old: GeneralizedTotalizer, w: nat) -> bool {
    let t = sort_by_weight(light(old.lit_buffer@, w));
    if t.len() == 0 {
        old.root matches Some(r0) && e == *r0
    } else if !old.reserve_vars {
        extended_root(e, old.root, t)
    } else {
        let sub = match old.root {
            None => e,
            Some(_) => *e->right,
        };
        &&& (old.root matches Some(r0) ==> e matches Node::Internal { n_clauses, min_max_enc, left, .. }
            && n_clauses == 0 && min_max_enc is None && *left == *r0)
        &&& (old.root is None || e is Internal)
        &&& exists|x: Node| #[trigger] balanced_over(x, t) && sub.same_tree(x)
        &&& sub.all_reserved()
    }
}

/// Implementation of the binary adder tree generalized totalizer encoding.
/// The implementation is incremental. This encoding only supports upper
/// bounding; lower bounding is achieved by negating the input literals, as
/// [`InvertedGeneralizedTotalizer`] does.
pub struct GeneralizedTotalizer {
    /// Input literals and weights already in the tree
    pub in_lits: Vec<(Lit, usize)>,
    /// Input literals and weights not yet in the tree
    pub lit_buffer: Vec<(Lit, usize)>,
    /// The root of the tree, if constructed
    pub root: Option<Box<Node>>,
    /// Whether or not to reserve all variables when constructing the tree
    pub reserve_vars: bool,
    /// Maximum weight of a leaf: encoding for an upper bound `ub` covers
    /// output values up to `ub` plus this weight
    pub max_leaf_weight: usize,
    /// Sum of all input weight
    pub total_weight: usize,
    /// The number of variables in the encoding
    pub n_vars: usize,
    /// The number of clauses in the encoding
    pub n_clauses: usize,
}

impl GeneralizedTotalizer {
    /// The largest output value of the tree, zero without a tree.
    pub open spec fn root_max(&self) -> nat {
        match self.root {
            None => 0,
            Some(r) => r.max_value(),
        }
    }

    /// The inputs at the leaves of the tree, left to right.
    pub open spec fn tree_leaves(&self) -> Seq<(Lit, usize)> {
        match self.root {
            None => Seq::empty(),
            Some(r) => r.leaves(),
        }
    }

    /// The number of output variables the tree can still mint.
    pub open spec fn root_slack(&self) -> int {
        match self.root {
            None => 0,
            Some(r) => r.slack(),
        }
    }

    /// The number of output variables that one encoding call may mint at
    /// most, whatever the bounds asked for: what the tree can still mint,
    /// plus what a balanced subtree over the buffered inputs and the node
    /// joining it to the tree can.
    pub open spec fn var_room(&self) -> int {
        self.root_slack() + log_depth(self.lit_buffer@.len()) * self.total_weight
    }

    pub open spec fn wf(&self) -> bool {
        &&& unique_lits(self.in_lits@)
        &&& unique_lits(self.lit_buffer@)
        &&& positive_weights(self.in_lits@)
        &&& positive_weights(self.lit_buffer@)
        &&& (self.root matches Some(r) ==> r.wf() && r.windows_ordered())
        &&& (self.root is None ==> self.in_lits@.len() == 0)
        &&& self.root_max() == sum_weights(self.in_lits@)
        &&& self.total_weight == sum_weights(self.in_lits@) + sum_weights(self.lit_buffer@)
        &&& forall|l: Lit| #[trigger] weight_of(self.in_lits@, l) == weight_of(self.tree_leaves(), l)
    }

    /// An encoder with nothing added and nothing encoded.
    pub open spec fn is_empty_with(&self, reserving: bool) -> bool {
        &&& self.in_lits@.len() == 0
        &&& self.lit_buffer@.len() == 0
        &&& self.root is None
        &&& self.reserve_vars == reserving
        &&& self.max_leaf_weight == 0
        &&& self.total_weight == 0
        &&& self.n_vars == 0
        &&& self.n_clauses == 0
    }

    pub fn new() -> (r: GeneralizedTotalizer)
        ensures
            r.wf(),
            r.is_empty_with(false),
    {
        GeneralizedTotalizer {
            in_lits: Vec::new(),
            lit_buffer: Vec::new(),
            root: None,
            reserve_vars: false,
            max_leaf_weight: 0,
            total_weight: 0,
            n_vars: 0,
            n_clauses: 0,
        }
    }

    /// An encoder that mints all output variables a subtree might need as
    /// soon as the subtree is built, so that they get consecutive indices.
    pub fn new_reserving() -> (r: GeneralizedTotalizer)
        ensures
            r.wf(),
            r.is_empty_with(true),
    {
        GeneralizedTotalizer {
            in_lits: Vec::new(),
            lit_buffer: Vec::new(),
            root: None,
            reserve_vars: true,
            max_leaf_weight: 0,
            total_weight: 0,
            n_vars: 0,
            n_clauses: 0,
        }
    }

    /// Adds weighted literals to the encoding; weights of a literal added
    /// more than once are summed, and zero weights are ignored.
    pub fn add(&mut self, lits: Vec<(Lit, usize)>)
        requires
            old(self).wf(),
            old(self).total_weight + sum_weights(lits@) <= usize::MAX,
        ensures
            final(self).wf(),
            final(self).total_weight == old(self).total_weight + sum_weights(lits@),
            forall|l: Lit|
                #[trigger] weight_of(final(self).lit_buffer@, l) == weight_of(old(self).lit_buffer@, l)
                    + weight_of(lits@, l),
            final(self).in_lits == old(self).in_lits,
            final(self).root == old(self).root,
            final(self).reserve_vars == old(self).reserve_vars,
            final(self).max_leaf_weight == old(self).max_leaf_weight,
            final(self).n_vars == old(self).n_vars,
            final(self).n_clauses == old(self).n_clauses,
            final(self).lit_buffer@.len() <= old(self).lit_buffer@.len() + lits@.len(),
            (forall|i: int| 0 <= i < lits@.len() ==> #[trigger] lits@[i].1 == 0) ==> final(self).lit_buffer
                == old(self).lit_buffer,
    {
        let ghost buf0 = self.lit_buffer@;
        let ghost total0 = self.total_weight as int;
        let mut i: usize = 0;
        while i < lits.len()
            invariant
                0 <= i <= lits@.len(),
                unique_lits(self.lit_buffer@),
                positive_weights(self.lit_buffer@),
                self.total_weight == total0 + sum_weights(lits@.subrange(0, i as int)),
                sum_weights(self.lit_buffer@) == sum_weights(buf0) + sum_weights(lits@.subrange(0, i as int)),
                total0 + sum_weights(lits@) <= usize::MAX,
                sum_weights(buf0) <= total0,
                forall|l: Lit|
                    #[trigger] weight_of(self.lit_buffer@, l) == weight_of(buf0, l) + weight_of(lits@.subrange(0, i as int), l),
                self.lit_buffer@.len() <= buf0.len() + i,
                (forall|k: int| 0 <= k < i ==> #[trigger] lits@[k].1 == 0) ==> self.lit_buffer == old(self).lit_buffer,
                self.in_lits == old(self).in_lits,
                self.root == old(self).root,
                self.reserve_vars == old(self).reserve_vars,
                self.max_leaf_weight == old(self).max_leaf_weight,
                self.n_vars == old(self).n_vars,
                self.n_clauses == old(self).n_clauses,
            decreases lits@.len() - i,
        {
            let (l, w) = lits[i];
            let ghost pre = lits@.subrange(0, i as int);
            let ghost post = lits@.subrange(0, i + 1);
            let ghost bprev = self.lit_buffer@;
            proof {
                assert(post.drop_last() =~= pre);
                assert(post.last() == (l, w));
                lemma_sum_concat(post, lits@.subrange(i + 1, lits@.len() as int));
                assert(lits@ =~= post + lits@.subrange(i + 1, lits@.len() as int));
            }
            if w > 0 {
                self.total_weight = self.total_weight + w;
                let found = find_lit(&self.lit_buffer, l);
                if let Some(j) = found {
                    let ghost b = self.lit_buffer@;
                    let old_w = self.lit_buffer[j].1;
                    proof {
                        lemma_elem_le_sum(b, j as int);
                        lemma_sum_update(b, j as int, (l, (old_w + w) as usize));
                    }
                    self.lit_buffer.set(j, (l, old_w + w));
                    proof {
                        assert forall|x: int, y: int| 0 <= x < y < self.lit_buffer@.len() implies self.lit_buffer@[x].0 != self.lit_buffer@[y].0 by {
                            assert(b[x].0 != b[y].0);
                        }
                    }
                } else {
                    let ghost b = self.lit_buffer@;
                    proof {
                        lemma_weight_absent(b, l);
                        assert(b.push((l, w)).drop_last() =~= b);
                    }
                    self.lit_buffer.push((l, w));
                }
            } else {
                proof {
                    assert(w == 0);
                }
            }
            proof {
                assert forall|x: Lit| #[trigger] weight_of(post, x) == weight_of(pre, x) + if l == x {
                    w as nat
                } else {
                    0
                } by {}
                assert forall|x: Lit| #[trigger] weight_of(self.lit_buffer@, x) == weight_of(bprev, x) + if l == x {
                    w as nat
                } else {
                    0
                } by {
                    if w > 0 {
                        if !(exists|k: int| 0 <= k < bprev.len() && bprev[k].0 == l) {
                            assert(self.lit_buffer@.drop_last() =~= bprev);
                        }
                    }
                }
            }
            i = i + 1;
        }
        proof {
            assert(lits@.subrange(0, lits@.len() as int) =~= lits@);
        }
    }

    /// Recursively builds a balanced tree whose leaves are `lits[from..to]`,
    /// in order.
    pub fn build_tree(lits: &Vec<(Lit, usize)>, from: usize, to: usize) -> (r: Node)
        requires
            from < to <= lits@.len(),
            positive_weights(lits@.subrange(from as int, to as int)),
            sum_weights(lits@.subrange(from as int, to as int)) <= usize::MAX,
        ensures
            r.wf(),
            r.leaves() == lits@.subrange(from as int, to as int),
            r.max_value() == sum_weights(lits@.subrange(from as int, to as int)),
            r.depth_of() == log_depth((to - from) as nat),
            r.slack() <= (log_depth((to - from) as nat) - 1) * r.max_value(),
            r.outputs().len() == if to - from == 1 { 1int } else { 0 },
            r.window() is None,
            r.windows_ordered(),
            balanced_over(r, lits@.subrange(from as int, to as int)),
        decreases to - from,
    {
        let ghost s = lits@.subrange(from as int, to as int);
        if to - from == 1 {
            proof {
                assert(s.drop_last() =~= Seq::<(Lit, usize)>::empty());
                assert(s[0] == lits@[from as int]);
                assert(sum_weights(Seq::<(Lit, usize)>::empty()) == 0);
                assert(seq![(lits@[from as int].0, lits@[from as int].1)] =~= s);
            }
            return Node::new_leaf(lits[from].0, lits[from].1);
        }
        let split = from + (to - from) / 2;
        let ghost a = lits@.subrange(from as int, split as int);
        let ghost b = lits@.subrange(split as int, to as int);
        proof {
            assert(s =~= a + b);
            lemma_sum_concat(a, b);
            assert(positive_weights(a)) by {
                assert forall|k: int| 0 <= k < a.len() implies #[trigger] a[k].1 >= 1 by {
                    assert(a[k] == s[k]);
                }
            }
            assert(positive_weights(b)) by {
                assert forall|k: int| 0 <= k < b.len() implies #[trigger] b[k].1 >= 1 by {
                    assert(b[k] == s[k + (split - from)]);
                }
            }
        }
        let left = GeneralizedTotalizer::build_tree(lits, from, split);
        let right = GeneralizedTotalizer::build_tree(lits, split, to);
        let r = Node::new_internal(left, right);
        proof {
            assert(s.subrange(0, s.len() as int / 2) =~= a);
            assert(s.subrange(s.len() as int / 2, s.len() as int) =~= b);
            let n = (to - from) as nat;
            lemma_log_depth_mono((split - from) as nat, (to - split) as nat);
            assert((to - split) as nat == (n - n / 2) as nat);
            r.lemma_slack_depth();
            r.lemma_wf_facts();
            let d = r.depth_of() as int;
            let m = r.max_value() as int;
            assert((d - 1) * m <= (log_depth(n) - 1) * m) by (nonlinear_arith)
                requires
                    d <= log_depth(n),
                    m >= 0;
        }
        r
    }

    /// Moves the buffered inputs of weight at most `max_weight` into the
    /// tree: they form a new subtree, sorted by ascending weight, which
    /// becomes the root or is joined with the old root under a new one.
    #[verifier::rlimit(60)]
    fn extend_tree(&mut self, max_weight: usize, var_manager: &mut BasicVarManager)
        requires
            old(self).wf(),
            old(var_manager).next_var + old(self).var_room() <= u32::MAX,
        ensures
            final(self).wf(),
            final(self).root_slack() + final(var_manager).next_var <= old(self).var_room() + old(var_manager).next_var,
            old(var_manager).next_var <= final(var_manager).next_var,
            final(self).lit_buffer@ == heavy(old(self).lit_buffer@, max_weight as nat),
            forall|l: Lit|
                #[trigger] weight_of(final(self).in_lits@, l) == weight_of(old(self).in_lits@, l)
                    + weight_of(light(old(self).lit_buffer@, max_weight as nat), l),
            final(self).max_leaf_weight == if max_weight_in(light(old(self).lit_buffer@, max_weight as nat)) > old(self).max_leaf_weight {
                max_weight_in(light(old(self).lit_buffer@, max_weight as nat))
            } else {
                old(self).max_leaf_weight as nat
            },
            final(self).total_weight == old(self).total_weight,
            final(self).reserve_vars == old(self).reserve_vars,
            final(self).n_vars == old(self).n_vars,
            final(self).n_clauses == old(self).n_clauses,
            light(old(self).lit_buffer@, max_weight as nat).len() == 0 ==> *final(self) == *old(self)
                && *final(var_manager) == *old(var_manager),
            (light(old(self).lit_buffer@, max_weight as nat).len() > 0 || old(self).root is Some)
                ==> final(self).root is Some && extension_of(*final(self).root.unwrap(), *old(self), max_weight as nat),
            light(old(self).lit_buffer@, max_weight as nat).len() > 0 && !old(self).reserve_vars
                ==> *final(var_manager) == *old(var_manager) && final(self).root is Some && {
                let t = sort_by_weight(light(old(self).lit_buffer@, max_weight as nat));
                let r = *final(self).root.unwrap();
                match old(self).root {
                    None => balanced_over(r, t),
                    Some(r0) => r matches Node::Internal { out_lits, n_clauses, min_max_enc, left, right, .. }
                        && out_lits@.len() == 0 && n_clauses == 0 && min_max_enc is None && *left == *r0
                        && balanced_over(*right, t),
                }
            },
    {
        let ghost buf = self.lit_buffer@;
        let ghost mw = max_weight as nat;
        let mut new_lits: Vec<(Lit, usize)> = Vec::new();
        let mut rest: Vec<(Lit, usize)> = Vec::new();
        let mut max_leaf_weight = self.max_leaf_weight;
        let mut i: usize = 0;
        while i < self.lit_buffer.len()
            invariant
                buf == self.lit_buffer@,
                *self == *old(self),
                mw == max_weight,
                0 <= i <= buf.len(),
                positive_weights(buf),
                ascending(new_lits@),
                new_lits@ == sort_by_weight(light(buf.subrange(0, i as int), mw)),
                positive_weights(new_lits@),
                new_lits@.len() == light(buf.subrange(0, i as int), mw).len(),
                sum_weights(new_lits@) == sum_weights(light(buf.subrange(0, i as int), mw)),
                forall|x: Lit| #[trigger] weight_of(new_lits@, x) == weight_of(light(buf.subrange(0, i as int), mw), x),
                rest@ == heavy(buf.subrange(0, i as int), mw),
                max_leaf_weight == if max_weight_in(light(buf.subrange(0, i as int), mw)) > self.max_leaf_weight {
                    max_weight_in(light(buf.subrange(0, i as int), mw))
                } else {
                    self.max_leaf_weight as nat
                },
            decreases buf.len() - i,
        {
            let (l, w) = self.lit_buffer[i];
            let ghost pre = buf.subrange(0, i as int);
            let ghost post = buf.subrange(0, i + 1);
            proof {
                assert(post.drop_last() =~= pre);
                assert(post.last() == (l, w));
            }
            if w <= max_weight {
                if w > max_leaf_weight {
                    // Track maximum leaf weight
                    max_leaf_weight = w;
                }
                let ghost nl = new_lits@;
                insert_ascending(&mut new_lits, (l, w));
                proof {
                    let p = asc_pos(nl, w);
                    assert(light(post, mw).drop_last() =~= light(pre, mw));
                    lemma_sum_insert(nl, p, (l, w));
                    assert(light(post, mw) == light(pre, mw).push((l, w)));
                    assert(light(post, mw).drop_last() =~= light(pre, mw));
                    assert forall|x: Lit| #[trigger] weight_of(new_lits@, x) == weight_of(light(post, mw), x) by {
                        lemma_weight_insert(nl, p, (l, w), x);
                    }
                    assert forall|k: int| 0 <= k < new_lits@.len() implies #[trigger] new_lits@[k].1 >= 1 by {
                        if k < p {
                            assert(new_lits@[k] == nl[k]);
                        } else if k > p {
                            assert(new_lits@[k] == nl[k - 1]);
                        }
                    }
                }
            } else {
                rest.push((l, w));
                proof {
                    assert(light(post, mw) == light(pre, mw));
                }
            }
            i = i + 1;
        }
        proof {
            assert(buf.subrange(0, buf.len() as int) =~= buf);
            lemma_split_sum(buf, mw);
            if new_lits@.len() == 0 {
                lemma_all_heavy(buf, mw);
            }
        }
        if new_lits.len() == 0 {
            return;
        }
        let ghost lt = light(buf, mw);
        proof {
            lemma_split_sum(buf, mw);
        }
        proof {
            assert(new_lits@.subrange(0, new_lits@.len() as int) =~= new_lits@);
        }
        let mut subtree = GeneralizedTotalizer::build_tree(&new_lits, 0, new_lits.len());
        proof {
            let k = lt.len() as int;
            let t = self.total_weight as int;
            let wn = sum_weights(lt) as int;
            assert(wn <= t);
            assert(k <= buf.len());
            lemma_log_depth_mono(k as nat, buf.len());
            let lk = log_depth(k as nat) as int;
            let lb = log_depth(buf.len()) as int;
            assert((lk - 1) * wn <= (lb - 1) * t) by (nonlinear_arith)
                requires
                    1 <= lk <= lb,
                    0 <= wn <= t;
            assert((lb - 1) * t + t == lb * t) by (nonlinear_arith);
            if self.root is Some {
                self.root.unwrap().lemma_wf_facts();
            }
        }
        let ghost built = subtree;
        proof {
            assert(new_lits@ == sort_by_weight(lt));
        }
        if self.reserve_vars {
            subtree.reserve_all_vars_rec(var_manager);
        }
        proof {
            lemma_same_tree_refl(built);
            subtree.lemma_same_tree_leaves(built);
        }
        let ghost old_root = self.root;
        let ghost old_leaves = self.tree_leaves();
        let ghost sub = subtree;
        self.root = match self.root.take() {
            None => Some(Box::new(subtree)),
            Some(old_root) => {
                let mut new_root = Node::new_internal(*old_root, subtree);
                if self.reserve_vars {
                    new_root.reserve_all_vars(var_manager);
                }
                Some(Box::new(new_root))
            },
        };
        self.max_leaf_weight = max_leaf_weight;
        let ghost root1 = self.root;
        let ghost leaves1 = self.tree_leaves();
        proof {
            assert(sub.leaves() == new_lits@);
            assert(self.tree_leaves() == old_leaves + new_lits@) by {
                if old_root is None {
                    assert(old_leaves + new_lits@ =~= new_lits@);
                }
            }
            assert forall|x: Lit| #[trigger] weight_of(self.tree_leaves(), x) == weight_of(old(self).in_lits@, x) + weight_of(lt, x) by {
                lemma_weight_concat(old_leaves, new_lits@, x);
            }
        }
        // Move the admitted inputs over to the ones in the tree
        let mut i: usize = 0;
        while i < self.lit_buffer.len()
            invariant
                buf == self.lit_buffer@,
                mw == max_weight,
                0 <= i <= buf.len(),
                unique_lits(self.in_lits@),
                positive_weights(self.in_lits@),
                positive_weights(buf),
                sum_weights(self.in_lits@) == sum_weights(old(self).in_lits@) + sum_weights(light(buf.subrange(0, i as int), mw)),
                sum_weights(old(self).in_lits@) + sum_weights(lt) <= usize::MAX,
                lt == light(buf, mw),
                self.root == root1,
                forall|x: Lit| #[trigger] weight_of(leaves1, x) == weight_of(old(self).in_lits@, x) + weight_of(lt, x),
                self.total_weight == old(self).total_weight,
                self.max_leaf_weight == max_leaf_weight,
                self.reserve_vars == old(self).reserve_vars,
                self.n_vars == old(self).n_vars,
                self.n_clauses == old(self).n_clauses,
                forall|x: Lit|
                    #[trigger] weight_of(self.in_lits@, x) == weight_of(old(self).in_lits@, x) + weight_of(light(buf.subrange(0, i as int), mw), x),
            decreases buf.len() - i,
        {
            let (l, w) = self.lit_buffer[i];
            let ghost pre = buf.subrange(0, i as int);
            let ghost post = buf.subrange(0, i + 1);
            let ghost iprev = self.in_lits@;
            proof {
                assert(post.drop_last() =~= pre);
                assert(post.last() == (l, w));
            }
            if w <= max_weight {
                proof {
                    assert(light(post, mw).drop_last() =~= light(pre, mw));
                    lemma_light_prefix_sum(buf, i as int + 1, mw);
                }
                match find_lit(&self.in_lits, l) {
                    Some(j) => {
                        let old_w = self.in_lits[j].1;
                        proof {
                            lemma_elem_le_sum(iprev, j as int);
                            lemma_sum_update(iprev, j as int, (l, (old_w + w) as usize));
                        }
                        self.in_lits.set(j, (l, old_w + w));
                        proof {
                            assert forall|x: int, y: int| 0 <= x < y < self.in_lits@.len() implies self.in_lits@[x].0 != self.in_lits@[y].0 by {
                                assert(iprev[x].0 != iprev[y].0);
                            }
                        }
                    },
                    None => {
                        proof {
                            lemma_weight_absent(iprev, l);
                            assert(iprev.push((l, w)).drop_last() =~= iprev);
                        }
                        self.in_lits.push((l, w));
                    },
                }
                proof {
                    assert forall|x: Lit| #[trigger] weight_of(self.in_lits@, x) == weight_of(iprev, x) + if l == x {
                        w as nat
                    } else {
                        0
                    } by {
                        if !(exists|k: int| 0 <= k < iprev.len() && iprev[k].0 == l) {
                            assert(self.in_lits@.drop_last() =~= iprev);
                        }
                    }
                }
            } else {
                proof {
                    assert(light(post, mw) == light(pre, mw));
                }
            }
            i = i + 1;
        }
        self.lit_buffer = rest;
        proof {
            lemma_heavy_sub(buf, mw);
            assert(buf.subrange(0, buf.len() as int) =~= buf);
            let k = lt.len() as int;
            let t = self.total_weight as int;
            let wn = sum_weights(lt) as int;
            assert(wn <= t);
            lemma_log_depth_mono(k as nat, buf.len());
            let lk = log_depth(k as nat) as int;
            let lb = log_depth(buf.len()) as int;
            assert((lk - 1) * wn <= (lb - 1) * t) by (nonlinear_arith)
                requires
                    1 <= lk <= lb,
                    0 <= wn <= t;
            assert((lb - 1) * t + t == lb * t) by (nonlinear_arith);
        }
    }
}

/// The heavy entries of `s` are entries of `s`, and keep its literals
/// unique and its weights positive.
pub proof fn lemma_heavy_sub(s: Seq<(Lit, usize)>, w: nat)
    requires
        unique_lits(s),
        positive_weights(s),
    ensures
        unique_lits(heavy(s, w)),
        positive_weights(heavy(s, w)),
        forall|k: int| 0 <= k < heavy(s, w).len() ==> exists|j: int| 0 <= j < s.len() && #[trigger] heavy(s, w)[k] == s[j],
    decreases s.len(),
{
    if s.len() > 0 {
        let p = s.drop_last();
        assert(unique_lits(p));
        assert(positive_weights(p));
        lemma_heavy_sub(p, w);
        let h = heavy(p, w);
        if s.last().1 > w {
            let t = h.push(s.last());
            assert forall|k: int| 0 <= k < t.len() implies exists|j: int| 0 <= j < s.len() && #[trigger] t[k] == s[j] by {
                if k < h.len() {
                    let j = choose|j: int| 0 <= j < p.len() && #[trigger] h[k] == p[j];
                    assert(t[k] == s[j]);
                } else {
                    assert(t[k] == s[s.len() - 1]);
                }
            }
            assert forall|x: int, y: int| 0 <= x < y < t.len() implies t[x].0 != t[y].0 by {
                if y == h.len() {
                    let j = choose|j: int| 0 <= j < p.len() && #[trigger] h[x] == p[j];
                    assert(s[j].0 != s[s.len() - 1].0);
                } else {
                    assert(h[x].0 != h[y].0);
                }
            }
            assert forall|k: int| 0 <= k < t.len() implies #[trigger] t[k].1 >= 1 by {
                if k < h.len() {
                    assert(t[k] == h[k]);
                }
            }
        } else {
            assert forall|k: int| 0 <= k < h.len() implies exists|j: int| 0 <= j < s.len() && #[trigger] h[k] == s[j] by {
                let j = choose|j: int| 0 <= j < p.len() && #[trigger] h[k] == p[j];
                assert(h[k] == s[j]);
            }
        }
    }
}

/// Without light entries, every entry is heavy.
pub proof fn lemma_all_heavy(s: Seq<(Lit, usize)>, w: nat)
    requires
        light(s, w).len() == 0,
    ensures
        heavy(s, w) == s,
    decreases s.len(),
{
    if s.len() > 0 {
        assert(s.last().1 > w);
        lemma_all_heavy(s.drop_last(), w);
        assert(s.drop_last().push(s.last()) =~= s);
    }
}

pub proof fn lemma_same_tree_refl(n: Node)
    ensures
        n.same_tree(n),
    decreases n,
{
    if let Node::Internal { left, right, .. } = n {
        lemma_same_tree_refl(*left);
        lemma_same_tree_refl(*right);
    }
}

/// The sum of the light prefix is bounded by the sum of all light entries.
pub proof fn lemma_light_prefix_sum(s: Seq<(Lit, usize)>, n: int, w: nat)
    requires
        0 <= n <= s.len(),
    ensures
        sum_weights(light(s.subrange(0, n), w)) <= sum_weights(light(s, w)),
    decreases s.len() - n,
{
    if n < s.len() {
        lemma_light_prefix_sum(s, n + 1, w);
        let pre = s.subrange(0, n);
        let post = s.subrange(0, n + 1);
        assert(post.drop_last() =~= pre);
        if post.last().1 <= w {
            assert(light(post, w).drop_last() =~= light(pre, w));
        }
    } else {
        assert(s.subrange(0, n) =~= s);
    }
}

impl GeneralizedTotalizer {
    /// The lowest output value that encoding the bounds `[min_ub, max_ub]`
    /// asks of the tree.
    pub open spec fn enc_lo(min_ub: usize) -> usize {
        sat_add(min_ub, 1)
    }

    /// The highest output value that encoding up to `max_ub` asks of the tree.
    pub open spec fn enc_hi(&self, max_ub: usize) -> usize {
        sat_add(max_ub, self.max_leaf_weight)
    }

    /// Everything that encoding the bounds `[min_ub, max_ub]` needs is in
    /// place: no buffered input is light enough to join the tree, and every
    /// window the tree needs is encoded.
    pub open spec fn covers_ub(&self, min_ub: usize, max_ub: usize) -> bool {
        &&& light(self.lit_buffer@, max_ub as nat).len() == 0
        &&& (self.root matches Some(r) ==> r.covered(
            GeneralizedTotalizer::enc_lo(min_ub) as int,
            self.enc_hi(max_ub) as int,
        ))
    }

    /// What `enforce_ub(ub)` returns: the negations of buffered inputs (all
    /// of which must be heavier than `ub`), of inputs in the tree heavier
    /// than `ub`, and of the root outputs in `(ub, ub + max_leaf_weight]`.
    pub open spec fn enforce_ub_result(&self, ub: usize) -> Result<Seq<Lit>, EncodingError> {
        let base = negs(self.lit_buffer@) + negs(heavy(self.in_lits@, ub as nat));
        if exists|i: int| 0 <= i < self.lit_buffer@.len() && #[trigger] self.lit_buffer@[i].1 <= ub {
            Err(EncodingError::NotEncoded)
        } else {
            match self.root {
                None => Ok(base),
                Some(r) => match *r {
                    Node::Leaf { .. } => Ok(base),
                    Node::Internal { out_lits, min_max_enc, max_val, .. } => {
                        if ub >= max_val {
                            Ok(base)
                        } else {
                            match min_max_enc {
                                None => Err(EncodingError::NotEncoded),
                                Some((a, b)) => {
                                    let top = sat_add(ub, self.max_leaf_weight);
                                    if b < (if top < max_val { top } else { max_val }) || a > ub + 1 {
                                        Err(EncodingError::NotEncoded)
                                    } else {
                                        Ok(base + outs_between(out_lits@, ub, top))
                                    }
                                },
                            }
                        }
                    },
                },
            }
        }
    }

    /// What encoding the bounds `[min_ub, max_ub]` from scratch takes `old` to (`fin`, with the variable manager going
    /// from `vm0` to `vm1`) and returns (`r`).
    pub open spec fn ub_encoded(
        old: GeneralizedTotalizer,
        fin: GeneralizedTotalizer,
        min_ub: usize,
        max_ub: usize,
        vm0: BasicVarManager,
        vm1: BasicVarManager,
        r: Result<Cnf, EncodingError>,
    ) -> bool {
        &&& (fin.root_slack() + vm1.next_var <= old.var_room() + vm0.next_var)
        &&& (vm0.next_var <= vm1.next_var)
        &&& (min_ub > max_ub ==> r == Err::<Cnf, EncodingError>(EncodingError::InvalidLimits)
            && fin == old && vm1 == vm0)
        &&& (min_ub <= max_ub ==> r is Ok)
        &&& (r matches Ok(cnf) ==> {
            &&& fin.lit_buffer@ == heavy(old.lit_buffer@, max_ub as nat)
            &&& forall|l: Lit|
                #[trigger] weight_of(fin.in_lits@, l) == weight_of(old.in_lits@, l)
                    + weight_of(light(old.lit_buffer@, max_ub as nat), l)
            &&& fin.total_weight == old.total_weight
            &&& fin.reserve_vars == old.reserve_vars
            &&& fin.max_leaf_weight == if max_weight_in(light(old.lit_buffer@, max_ub as nat)) > old.max_leaf_weight {
                max_weight_in(light(old.lit_buffer@, max_ub as nat))
            } else {
                old.max_leaf_weight as nat
            }
            &&& fin.covers_ub(min_ub, max_ub)
            &&& forall|c: Seq<Lit>|
                cnf@.contains(c) <==> (fin.root matches Some(r) && r.encoded_clause(c))
            &&& (fin.root matches Some(r) ==> r.reserved(
                GeneralizedTotalizer::enc_lo(min_ub) as int,
                fin.enc_hi(max_ub) as int,
            ))
            &&& (old.root is None && !old.reserve_vars && light(old.lit_buffer@, max_ub as nat).len() > 0
                ==> fin.root is Some && exists|x: Node| {
                    let r = *fin.root.unwrap();
                    &&& #[trigger] balanced_over(x, sort_by_weight(light(old.lit_buffer@, max_ub as nat)))
                    &&& r.same_tree(x)
                    &&& r.outputs_from(
                        x,
                        GeneralizedTotalizer::enc_lo(min_ub) as int,
                        fin.enc_hi(max_ub) as int,
                    )
                })
            &&& fin.n_clauses == sat_add(old.n_clauses, cnf@.len() as usize)
            &&& fin.n_vars == sat_add(
                old.n_vars,
                (vm1.next_var - vm0.next_var) as usize,
            )
        })
        &&& (r matches Ok(cnf) ==> (fin.root is None ==> cnf@.len() == 0) && (fin.root is Some
            ==> exists|e: Node| #[trigger] extension_of(e, old, max_ub as nat) && {
                let rt = *fin.root.unwrap();
                let lo = GeneralizedTotalizer::enc_lo(min_ub) as int;
                let hi = fin.enc_hi(max_ub) as int;
                &&& rt.same_tree(e)
                &&& (!old.reserve_vars ==> vm1.next_var == vm0.next_var + rt.rec_mint_count(e, lo, hi)
                        && rt.rec_minted(e, lo, hi, vm0.next_var as int))
                    &&& rt.outputs_from(e, lo, hi)
                &&& cnf@ == rt.rec_seq(lo, hi)
                &&& rt.counted(e, lo, hi, true)
                &&& (!old.reserve_vars ==> vm1.next_var + rt.slack() == vm0.next_var + e.slack())
            }))
    }

    /// What encoding the bounds `[min_ub, max_ub]` incrementally takes `old` to (`fin`, with the variable manager going
    /// from `vm0` to `vm1`) and returns (`r`).
    pub open spec fn ub_changed(
        old: GeneralizedTotalizer,
        fin: GeneralizedTotalizer,
        min_ub: usize,
        max_ub: usize,
        vm0: BasicVarManager,
        vm1: BasicVarManager,
        r: Result<Cnf, EncodingError>,
    ) -> bool {
        &&& (fin.root_slack() + vm1.next_var <= old.var_room() + vm0.next_var)
        &&& (vm0.next_var <= vm1.next_var)
        &&& (min_ub > max_ub ==> r == Err::<Cnf, EncodingError>(EncodingError::InvalidLimits)
            && fin == old && vm1 == vm0)
        &&& (min_ub <= max_ub ==> r is Ok)
        &&& (r matches Ok(cnf) ==> {
            &&& fin.lit_buffer@ == heavy(old.lit_buffer@, max_ub as nat)
            &&& forall|l: Lit|
                #[trigger] weight_of(fin.in_lits@, l) == weight_of(old.in_lits@, l)
                    + weight_of(light(old.lit_buffer@, max_ub as nat), l)
            &&& fin.total_weight == old.total_weight
            &&& fin.reserve_vars == old.reserve_vars
            &&& fin.max_leaf_weight == if max_weight_in(light(old.lit_buffer@, max_ub as nat)) > old.max_leaf_weight {
                max_weight_in(light(old.lit_buffer@, max_ub as nat))
            } else {
                old.max_leaf_weight as nat
            }
            &&& fin.covers_ub(min_ub, max_ub)
            &&& forall|c: Seq<Lit>|
                cnf@.contains(c) ==> (fin.root matches Some(r) && r.encoded_clause(c))
            &&& fin.n_clauses == sat_add(old.n_clauses, cnf@.len() as usize)
            &&& fin.n_vars == sat_add(
                old.n_vars,
                (vm1.next_var - vm0.next_var) as usize,
            )
        })
        &&& (min_ub <= max_ub && old.covers_ub(min_ub, max_ub) ==> fin == old
            && vm1 == vm0 && (r matches Ok(cnf) && cnf@.len() == 0))
        &&& (r matches Ok(cnf) ==> (light(old.lit_buffer@, max_ub as nat).len() == 0 && old.root is Some
            ==> fin.root is Some && {
                let r0 = *old.root.unwrap();
                let r1 = *fin.root.unwrap();
                let lo = GeneralizedTotalizer::enc_lo(min_ub) as int;
                let hi = fin.enc_hi(max_ub) as int;
                &&& r1.reserved_new(r0, lo, hi)
                &&& forall|c: Seq<Lit>| r1.new_clause(r0, lo, hi, c) ==> cnf@.contains(c)
            }))
        &&& (r matches Ok(cnf) ==> (fin.root is None ==> cnf@.len() == 0) && (fin.root is Some
            ==> exists|e: Node| #[trigger] extension_of(e, old, max_ub as nat) && {
                let rt = *fin.root.unwrap();
                let lo = GeneralizedTotalizer::enc_lo(min_ub) as int;
                let hi = fin.enc_hi(max_ub) as int;
                &&& rt.same_tree(e)
                &&& cnf@ == rt.change_seq(e, lo, hi)
                &&& rt.counted(e, lo, hi, false)
                &&& (!old.reserve_vars ==> vm1.next_var + rt.slack() == vm0.next_var + e.slack())
            }))
    }

    /// Encodes the tree for upper bounds from `min_ub` to `max_ub`, encoding
    /// every window from scratch.
    pub fn encode_ub(
        &mut self,
        min_ub: usize,
        max_ub: usize,
        var_manager: &mut BasicVarManager,
    ) -> (r: Result<Cnf, EncodingError>)
        requires
            old(self).wf(),
            old(var_manager).next_var + old(self).var_room() <= u32::MAX,
        ensures
            final(self).wf(),
            GeneralizedTotalizer::ub_encoded(*old(self), *final(self), min_ub, max_ub, *old(var_manager), *final(var_manager), r),
    {
        if min_ub > max_ub {
            return Err(EncodingError::InvalidLimits);
        }
        let n_vars_before = var_manager.n_used();
        self.extend_tree(max_ub, var_manager);
        let ghost vm_ext = *var_manager;
        let ghost extended = self.root;
        proof {
            lemma_heavy_not_light(old(self).lit_buffer@, max_ub as nat);
        }
        let min_enc = min_ub.saturating_add(1);
        let max_enc = max_ub.saturating_add(self.max_leaf_weight);
        let cnf = match self.root.take() {
            None => Cnf::new(),
            Some(mut root) => {
                proof {
                    (*root).lemma_wf_facts();
                    assert(log_depth(self.lit_buffer@.len()) * self.total_weight >= 0) by (nonlinear_arith);
                }
                let ghost before = *root;
                let cnf = (&mut *root).encode_rec(min_enc, max_enc, var_manager);
                proof {
                    (*root).lemma_same_tree_leaves(before);
                }
                self.root = Some(root);
                cnf
            },
        };
        proof {
            if old(self).root is None && !old(self).reserve_vars && light(old(self).lit_buffer@, max_ub as nat).len() > 0 {
                let x = *extended.unwrap();
                assert(balanced_over(x, sort_by_weight(light(old(self).lit_buffer@, max_ub as nat))));
            }
        }
        self.n_clauses = self.n_clauses.saturating_add(cnf.n_clauses());
        self.n_vars = self.n_vars.saturating_add(var_manager.n_used() - n_vars_before);
        Ok(cnf)
    }

    /// Encodes the tree for upper bounds from `min_ub` to `max_ub`, emitting
    /// only the clauses that earlier encodings did not.
    pub fn encode_ub_change(
        &mut self,
        min_ub: usize,
        max_ub: usize,
        var_manager: &mut BasicVarManager,
    ) -> (r: Result<Cnf, EncodingError>)
        requires
            old(self).wf(),
            old(var_manager).next_var + old(self).var_room() <= u32::MAX,
        ensures
            final(self).wf(),
            GeneralizedTotalizer::ub_changed(*old(self), *final(self), min_ub, max_ub, *old(var_manager), *final(var_manager), r),
    {
        if min_ub > max_ub {
            return Err(EncodingError::InvalidLimits);
        }
        let n_vars_before = var_manager.n_used();
        self.extend_tree(max_ub, var_manager);
        let ghost extended = self.root;
        let ghost vm_ext = *var_manager;
        proof {
            lemma_heavy_not_light(old(self).lit_buffer@, max_ub as nat);
        }
        let min_enc = min_ub.saturating_add(1);
        let max_enc = max_ub.saturating_add(self.max_leaf_weight);
        let cnf = match self.root.take() {
            None => Cnf::new(),
            Some(mut root) => {
                proof {
                    (*root).lemma_wf_facts();
                    assert(log_depth(self.lit_buffer@.len()) * self.total_weight >= 0) by (nonlinear_arith);
                }
                let ghost before = *root;
                let cnf = (&mut *root).encode_change_rec(min_enc, max_enc, var_manager);
                proof {
                    (*root).lemma_same_tree_leaves(before);
                }
                self.root = Some(root);
                cnf
            },
        };
        self.n_clauses = self.n_clauses.saturating_add(cnf.n_clauses());
        self.n_vars = self.n_vars.saturating_add(var_manager.n_used() - n_vars_before);
        Ok(cnf)
    }
}

/// The heavy entries hold no light entry.
pub proof fn lemma_heavy_not_light(s: Seq<(Lit, usize)>, w: nat)
    ensures
        light(heavy(s, w), w).len() == 0,
    decreases s.len(),
{
    if s.len() > 0 {
        lemma_heavy_not_light(s.drop_last(), w);
        if s.last().1 > w {
            assert(heavy(s, w).drop_last() =~= heavy(s.drop_last(), w));
        }
    }
}

impl GeneralizedTotalizer {
    /// The assumptions that enforce `sum <= ub`, or `NotEncoded` where the
    /// current encoding cannot express that bound.
    pub fn enforce_ub(&self, ub: usize) -> (r: Result<Vec<Lit>, EncodingError>)
        requires
            self.wf(),
        ensures
            r matches Ok(v) ==> self.enforce_ub_result(ub) == Ok::<Seq<Lit>, EncodingError>(v@),
            r matches Err(e) ==> self.enforce_ub_result(ub) == Err::<Seq<Lit>, EncodingError>(e),
    {
        let mut assumps: Vec<Lit> = Vec::new();
        let ghost buf = self.lit_buffer@;
        // Assume literals that have higher weight than `ub`
        let mut i: usize = 0;
        while i < self.lit_buffer.len()
            invariant
                buf == self.lit_buffer@,
                0 <= i <= buf.len(),
                forall|k: int| 0 <= k < i ==> #[trigger] buf[k].1 > ub,
                assumps@ == negs(buf.subrange(0, i as int)),
            decreases buf.len() - i,
        {
            let (l, w) = self.lit_buffer[i];
            if w <= ub {
                return Err(EncodingError::NotEncoded);
            }
            assumps.push(l.negate());
            proof {
                assert(negs(buf.subrange(0, i + 1)) =~= negs(buf.subrange(0, i as int)).push(l.neg()));
            }
            i = i + 1;
        }
        proof {
            assert(buf.subrange(0, buf.len() as int) =~= buf);
        }
        let ghost ins = self.in_lits@;
        let mut i: usize = 0;
        while i < self.in_lits.len()
            invariant
                ins == self.in_lits@,
                0 <= i <= ins.len(),
                assumps@ == negs(buf) + negs(heavy(ins.subrange(0, i as int), ub as nat)),
            decreases ins.len() - i,
        {
            let (l, w) = self.in_lits[i];
            let ghost pre = ins.subrange(0, i as int);
            let ghost post = ins.subrange(0, i + 1);
            proof {
                assert(post.drop_last() =~= pre);
            }
            if w > ub {
                assumps.push(l.negate());
                proof {
                    assert(negs(heavy(post, ub as nat)) =~= negs(heavy(pre, ub as nat)).push(l.neg()));
                    assert(negs(buf) + negs(heavy(post, ub as nat)) =~= (negs(buf) + negs(heavy(pre, ub as nat))).push(l.neg()));
                }
            }
            i = i + 1;
        }
        proof {
            assert(ins.subrange(0, ins.len() as int) =~= ins);
        }
        // Enforce bound on internal tree
        match &self.root {
            None => Ok(assumps),
            Some(root_node) => match &**root_node {
                // The weight of a lone leaf is already enforced above
                Node::Leaf { .. } => Ok(assumps),
                Node::Internal { out_lits, min_max_enc, max_val, .. } => {
                    if ub >= *max_val {
                        Ok(assumps)
                    } else if let Some((min_enc, max_enc)) = *min_max_enc {
                        let top = ub.saturating_add(self.max_leaf_weight);
                        if max_enc < (if top < *max_val { top } else { *max_val }) || min_enc > ub + 1 {
                            Err(EncodingError::NotEncoded)
                        } else {
                            let ghost base = assumps@;
                            let mut k: usize = 0;
                            while k < out_lits.len()
                                invariant
                                    0 <= k <= out_lits@.len(),
                                    assumps@ == base + outs_between(out_lits@.subrange(0, k as int), ub, top),
                                decreases out_lits@.len() - k,
                            {
                                let (v, l) = out_lits[k];
                                let ghost pre = out_lits@.subrange(0, k as int);
                                let ghost post = out_lits@.subrange(0, k + 1);
                                proof {
                                    assert(post.drop_last() =~= pre);
                                }
                                if ub < v && v <= top {
                                    assumps.push(l.negate());
                                    proof {
                                        assert(base + outs_between(post, ub, top) =~= (base + outs_between(pre, ub, top)).push(l.neg()));
                                    }
                                }
                                k = k + 1;
                            }
                            proof {
                                assert(out_lits@.subrange(0, out_lits@.len() as int) =~= out_lits@);
                            }
                            Ok(assumps)
                        }
                    } else {
                        Err(EncodingError::NotEncoded)
                    }
                },
            },
        }
    }

    /// Gets the maximum depth of the tree
    pub fn get_depth(&mut self) -> (r: usize)
        ensures
            *final(self) == *old(self),
            r == match old(self).root {
                None => 0,
                Some(n) => n.depth_of(),
            },
    {
        match &self.root {
            None => 0,
            Some(root_node) => root_node.get_depth(),
        }
    }

    /// The number of clauses the encoding has emitted.
    pub fn n_clauses(&self) -> (r: usize)
        ensures
            r == self.n_clauses,
    {
        self.n_clauses
    }

    /// The number of variables the encoding has minted.
    pub fn n_vars(&self) -> (r: usize)
        ensures
            r == self.n_vars,
    {
        self.n_vars
    }
}

/// The inputs `s` with every literal negated.
pub open spec fn negate_inputs(s: Seq<(Lit, usize)>) -> Seq<(Lit, usize)> {
    s.map_values(|e: (Lit, usize)| (e.0.neg(), e.1))
}

pub proof fn lemma_negate_inputs(s: Seq<(Lit, usize)>)
    ensures
        sum_weights(negate_inputs(s)) == sum_weights(s),
        forall|l: Lit| #[trigger] weight_of(negate_inputs(s), l) == weight_of(s, l.neg()),
    decreases s.len(),
{
    if s.len() > 0 {
        lemma_negate_inputs(s.drop_last());
        assert(negate_inputs(s).drop_last() =~= negate_inputs(s.drop_last()));
        assert forall|l: Lit| #[trigger] weight_of(negate_inputs(s), l) == weight_of(s, l.neg()) by {
            assert(weight_of(negate_inputs(s.drop_last()), l) == weight_of(s.drop_last(), l.neg()));
            assert(s.last().0.neg() == l <==> s.last().0 == l.neg());
        }
    }
}

/// A copy of the inputs `s`.
fn copy_inputs(s: &Vec<(Lit, usize)>, negate: bool) -> (r: Vec<(Lit, usize)>)
    ensures
        r@ == if negate {
            negate_inputs(s@)
        } else {
            s@
        },
{
    let mut r: Vec<(Lit, usize)> = Vec::new();
    let mut i: usize = 0;
    while i < s.len()
        invariant
            0 <= i <= s@.len(),
            r@ == if negate {
                negate_inputs(s@.subrange(0, i as int))
            } else {
                s@.subrange(0, i as int)
            },
        decreases s@.len() - i,
    {
        let (l, w) = s[i];
        if negate {
            r.push((l.negate(), w));
        } else {
            r.push((l, w));
        }
        proof {
            assert(negate_inputs(s@.subrange(0, i + 1)) =~= negate_inputs(s@.subrange(0, i as int)).push((l.neg(), w)));
            assert(s@.subrange(0, i + 1) =~= s@.subrange(0, i as int).push((l, w)));
        }
        i = i + 1;
    }
    proof {
        assert(s@.subrange(0, s@.len() as int) =~= s@);
    }
    r
}

/// The generalized totalizer for lower bounds: the input literals are
/// negated into an upper bounding encoding, and a lower bound `lb` on the
/// inputs becomes the upper bound `W - lb` on their negations, where `W` is
/// the total input weight.
pub struct InvertedGeneralizedTotalizer {
    /// The upper bounding encoding of the negated inputs
    pub gte: GeneralizedTotalizer,
}

impl InvertedGeneralizedTotalizer {
    pub open spec fn wf(&self) -> bool {
        self.gte.wf()
    }

    /// The upper bound on the negated inputs that stands for the lower bound
    /// `bound`, or `Unsat` where the total weight does not exceed it.
    pub open spec fn converted_bound(&self, bound: usize) -> Result<usize, EncodingError> {
        if self.gte.total_weight > bound {
            Ok((self.gte.total_weight - bound) as usize)
        } else {
            Err(EncodingError::Unsat)
        }
    }

    /// What `enforce_lb(lb)` returns.
    pub open spec fn enforce_lb_result(&self, lb: usize) -> Result<Seq<Lit>, EncodingError> {
        match self.converted_bound(lb) {
            Ok(ub) => self.gte.enforce_ub_result(ub),
            Err(e) => Err(e),
        }
    }

    pub fn new() -> (r: InvertedGeneralizedTotalizer)
        ensures
            r.wf(),
            r.gte.is_empty_with(false),
    {
        InvertedGeneralizedTotalizer { gte: GeneralizedTotalizer::new() }
    }

    pub fn new_reserving() -> (r: InvertedGeneralizedTotalizer)
        ensures
            r.wf(),
            r.gte.is_empty_with(true),
    {
        InvertedGeneralizedTotalizer { gte: GeneralizedTotalizer::new_reserving() }
    }

    /// Adds weighted literals; their negations go into the encoding.
    pub fn add(&mut self, lits: Vec<(Lit, usize)>)
        requires
            old(self).wf(),
            old(self).gte.total_weight + sum_weights(lits@) <= usize::MAX,
        ensures
            final(self).wf(),
            final(self).gte.total_weight == old(self).gte.total_weight + sum_weights(lits@),
            forall|l: Lit|
                #[trigger] weight_of(final(self).gte.lit_buffer@, l) == weight_of(old(self).gte.lit_buffer@, l)
                    + weight_of(lits@, l.neg()),
            final(self).gte.in_lits == old(self).gte.in_lits,
            final(self).gte.root == old(self).gte.root,
            final(self).gte.max_leaf_weight == old(self).gte.max_leaf_weight,
            final(self).gte.lit_buffer@.len() <= old(self).gte.lit_buffer@.len() + lits@.len(),
    {
        let negated = copy_inputs(&lits, true);
        proof {
            lemma_negate_inputs(lits@);
        }
        self.gte.add(negated);
    }

    /// Converts a lower bound on the inputs to an upper bound on the tree of
    /// negated inputs.
    pub fn convert_lb_ub(&self, bound: usize) -> (r: Result<usize, EncodingError>)
        ensures
            r == self.converted_bound(bound),
    {
        if self.gte.total_weight > bound {
            Ok(self.gte.total_weight - bound)
        } else {
            Err(EncodingError::Unsat)
        }
    }

    /// Encodes lower bounds from `min_lb` to `max_lb` from scratch, as upper
    /// bounds from `W - max_lb` to `W - min_lb` on the negated inputs (zero
    /// where a bound is not below `W`).
    pub fn encode_lb(
        &mut self,
        min_lb: usize,
        max_lb: usize,
        var_manager: &mut BasicVarManager,
    ) -> (r: Result<Cnf, EncodingError>)
        requires
            old(self).wf(),
            old(var_manager).next_var + old(self).gte.var_room() <= u32::MAX,
        ensures
            final(self).wf(),
            min_lb > max_lb ==> r == Err::<Cnf, EncodingError>(EncodingError::InvalidLimits)
                && *final(self) == *old(self) && *final(var_manager) == *old(var_manager),
            min_lb <= max_lb && min_lb > old(self).gte.total_weight ==> r == Err::<Cnf, EncodingError>(EncodingError::Unsat)
                && *final(self) == *old(self) && *final(var_manager) == *old(var_manager),
            min_lb <= max_lb && min_lb <= old(self).gte.total_weight ==> GeneralizedTotalizer::ub_encoded(
                old(self).gte,
                final(self).gte,
                InvertedGeneralizedTotalizer::lb_to_ub(old(self).gte.total_weight, max_lb),
                InvertedGeneralizedTotalizer::lb_to_ub(old(self).gte.total_weight, min_lb),
                *old(var_manager),
                *final(var_manager),
                r,
            ),
    {
        if min_lb > max_lb {
            return Err(EncodingError::InvalidLimits);
        }
        if min_lb > self.gte.total_weight {
            return Err(EncodingError::Unsat);
        }
        let int_min_ub = match self.convert_lb_ub(max_lb) {
            Ok(b) => b,
            Err(_) => 0,
        };
        let int_max_ub = match self.convert_lb_ub(min_lb) {
            Ok(b) => b,
            Err(_) => 0,
        };
        self.gte.encode_ub(int_min_ub, int_max_ub, var_manager)
    }

    /// Encodes lower bounds from `min_lb` to `max_lb`, emitting only the
    /// clauses that earlier encodings did not.
    pub fn encode_lb_change(
        &mut self,
        min_lb: usize,
        max_lb: usize,
        var_manager: &mut BasicVarManager,
    ) -> (r: Result<Cnf, EncodingError>)
        requires
            old(self).wf(),
            old(var_manager).next_var + old(self).gte.var_room() <= u32::MAX,
        ensures
            final(self).wf(),
            min_lb > max_lb ==> r == Err::<Cnf, EncodingError>(EncodingError::InvalidLimits)
                && *final(self) == *old(self) && *final(var_manager) == *old(var_manager),
            min_lb <= max_lb && min_lb > old(self).gte.total_weight ==> r == Err::<Cnf, EncodingError>(EncodingError::Unsat)
                && *final(self) == *old(self) && *final(var_manager) == *old(var_manager),
            min_lb <= max_lb && min_lb <= old(self).gte.total_weight ==> GeneralizedTotalizer::ub_changed(
                old(self).gte,
                final(self).gte,
                InvertedGeneralizedTotalizer::lb_to_ub(old(self).gte.total_weight, max_lb),
                InvertedGeneralizedTotalizer::lb_to_ub(old(self).gte.total_weight, min_lb),
                *old(var_manager),
                *final(var_manager),
                r,
            ),
    {
        if min_lb > max_lb {
            return Err(EncodingError::InvalidLimits);
        }
        if min_lb > self.gte.total_weight {
            return Err(EncodingError::Unsat);
        }
        let int_min_ub = match self.convert_lb_ub(max_lb) {
            Ok(b) => b,
            Err(_) => 0,
        };
        let int_max_ub = match self.convert_lb_ub(min_lb) {
            Ok(b) => b,
            Err(_) => 0,
        };
        self.gte.encode_ub_change(int_min_ub, int_max_ub, var_manager)
    }

    /// The upper bound on the negated inputs that the lower bound `lb`
    /// stands for when encoding: `W - lb`, or zero where `lb >= W`.
    pub open spec fn lb_to_ub(total: usize, lb: usize) -> usize {
        if total > lb {
            (total - lb) as usize
        } else {
            0
        }
    }

    /// The assumptions that enforce `sum >= lb`: `Unsat` where `lb` is not
    /// below the total weight, `NotEncoded` where the current encoding cannot
    /// express the bound.
    pub fn enforce_lb(&self, lb: usize) -> (r: Result<Vec<Lit>, EncodingError>)
        requires
            self.wf(),
        ensures
            r matches Ok(v) ==> self.enforce_lb_result(lb) == Ok::<Seq<Lit>, EncodingError>(v@),
            r matches Err(e) ==> self.enforce_lb_result(lb) == Err::<Seq<Lit>, EncodingError>(e),
    {
        let ub = match self.convert_lb_ub(lb) {
            Ok(ub) => ub,
            Err(e) => return Err(e),
        };
        self.gte.enforce_ub(ub)
    }

    /// Gets the maximum depth of the tree
    pub fn get_depth(&mut self) -> (r: usize)
        ensures
            *final(self) == *old(self),
            r == match old(self).gte.root {
                None => 0,
                Some(n) => n.depth_of(),
            },
    {
        self.gte.get_depth()
    }

    pub fn n_clauses(&self) -> (r: usize)
        ensures
            r == self.gte.n_clauses,
    {
        self.gte.n_clauses()
    }

    pub fn n_vars(&self) -> (r: usize)
        ensures
            r == self.gte.n_vars,
    {
        self.gte.n_vars()
    }
}

/// Lower bounds are dual to upper bounds on the negated inputs: given an
/// upper bounding encoding `g` of the negations of the inputs of `inv`, in
/// the same state, `enforce_lb(k)` on `inv` succeeds exactly when `k` is
/// below the total weight `W` and `enforce_ub(W - k)` on `g` succeeds, and
/// then both give the same assumptions.
pub proof fn lemma_lb_ub_duality(inv: InvertedGeneralizedTotalizer, g: GeneralizedTotalizer, k: usize)
    requires
        inv.wf(),
        g == inv.gte,
    ensures
        inv.enforce_lb_result(k) is Ok <==> (k < g.total_weight && g.enforce_ub_result(
            (g.total_weight - k) as usize,
        ) is Ok),
        k < g.total_weight ==> inv.enforce_lb_result(k) == g.enforce_ub_result((g.total_weight - k) as usize),
        k >= g.total_weight ==> inv.enforce_lb_result(k) == Err::<Seq<Lit>, EncodingError>(EncodingError::Unsat),
{
}

/// An upper bounding and a lower bounding generalized totalizer over the
/// same inputs, for bounding a sum from both sides.
pub struct DoubleGeneralizedTotalizer {
    /// Upper bounding encoding
    pub ub_gte: GeneralizedTotalizer,
    /// Lower bounding encoding
    pub lb_gte: InvertedGeneralizedTotalizer,
}

impl DoubleGeneralizedTotalizer {
    pub open spec fn wf(&self) -> bool {
        &&& self.ub_gte.wf()
        &&& self.lb_gte.wf()
        &&& self.ub_gte.total_weight == self.lb_gte.gte.total_weight
    }

    pub fn new() -> (r: DoubleGeneralizedTotalizer)
        ensures
            r.wf(),
            r.ub_gte.is_empty_with(false),
            r.lb_gte.gte.is_empty_with(false),
    {
        DoubleGeneralizedTotalizer {
            ub_gte: GeneralizedTotalizer::new(),
            lb_gte: InvertedGeneralizedTotalizer::new(),
        }
    }

    pub fn new_reserving() -> (r: DoubleGeneralizedTotalizer)
        ensures
            r.wf(),
            r.ub_gte.is_empty_with(true),
            r.lb_gte.gte.is_empty_with(true),
    {
        DoubleGeneralizedTotalizer {
            ub_gte: GeneralizedTotalizer::new_reserving(),
            lb_gte: InvertedGeneralizedTotalizer::new_reserving(),
        }
    }

    /// Adds the weighted literals to both encodings.
    pub fn add(&mut self, lits: Vec<(Lit, usize)>)
        requires
            old(self).wf(),
            old(self).ub_gte.total_weight + sum_weights(lits@) <= usize::MAX,
        ensures
            final(self).wf(),
            final(self).ub_gte.total_weight == old(self).ub_gte.total_weight + sum_weights(lits@),
            forall|l: Lit|
                #[trigger] weight_of(final(self).ub_gte.lit_buffer@, l) == weight_of(old(self).ub_gte.lit_buffer@, l)
                    + weight_of(lits@, l),
            forall|l: Lit|
                #[trigger] weight_of(final(self).lb_gte.gte.lit_buffer@, l) == weight_of(old(self).lb_gte.gte.lit_buffer@, l)
                    + weight_of(lits@, l.neg()),
    {
        let copy = copy_inputs(&lits, false);
        self.ub_gte.add(copy);
        self.lb_gte.add(lits);
    }

    pub fn encode_ub(
        &mut self,
        min_ub: usize,
        max_ub: usize,
        var_manager: &mut BasicVarManager,
    ) -> (r: Result<Cnf, EncodingError>)
        requires
            old(self).wf(),
            old(var_manager).next_var + old(self).ub_gte.var_room() <= u32::MAX,
        ensures
            final(self).wf(),
            final(self).lb_gte == old(self).lb_gte,
            GeneralizedTotalizer::ub_encoded(
                old(self).ub_gte,
                final(self).ub_gte,
                min_ub,
                max_ub,
                *old(var_manager),
                *final(var_manager),
                r,
            ),
    {
        self.ub_gte.encode_ub(min_ub, max_ub, var_manager)
    }

    pub fn encode_ub_change(
        &mut self,
        min_ub: usize,
        max_ub: usize,
        var_manager: &mut BasicVarManager,
    ) -> (r: Result<Cnf, EncodingError>)
        requires
            old(self).wf(),
            old(var_manager).next_var + old(self).ub_gte.var_room() <= u32::MAX,
        ensures
            final(self).wf(),
            final(self).lb_gte == old(self).lb_gte,
            GeneralizedTotalizer::ub_changed(
                old(self).ub_gte,
                final(self).ub_gte,
                min_ub,
                max_ub,
                *old(var_manager),
                *final(var_manager),
                r,
            ),
    {
        self.ub_gte.encode_ub_change(min_ub, max_ub, var_manager)
    }

    pub fn enforce_ub(&self, ub: usize) -> (r: Result<Vec<Lit>, EncodingError>)
        requires
            self.wf(),
        ensures
            r matches Ok(v) ==> self.ub_gte.enforce_ub_result(ub) == Ok::<Seq<Lit>, EncodingError>(v@),
            r matches Err(e) ==> self.ub_gte.enforce_ub_result(ub) == Err::<Seq<Lit>, EncodingError>(e),
    {
        self.ub_gte.enforce_ub(ub)
    }

    pub fn encode_lb(
        &mut self,
        min_lb: usize,
        max_lb: usize,
        var_manager: &mut BasicVarManager,
    ) -> (r: Result<Cnf, EncodingError>)
        requires
            old(self).wf(),
            old(var_manager).next_var + old(self).lb_gte.gte.var_room() <= u32::MAX,
        ensures
            final(self).wf(),
            final(self).ub_gte == old(self).ub_gte,
            min_lb > max_lb ==> r == Err::<Cnf, EncodingError>(EncodingError::InvalidLimits)
                && *final(self) == *old(self) && *final(var_manager) == *old(var_manager),
            min_lb <= max_lb && min_lb > old(self).lb_gte.gte.total_weight ==> r == Err::<Cnf, EncodingError>(EncodingError::Unsat)
                && *final(self) == *old(self) && *final(var_manager) == *old(var_manager),
            min_lb <= max_lb && min_lb <= old(self).lb_gte.gte.total_weight ==> GeneralizedTotalizer::ub_encoded(
                old(self).lb_gte.gte,
                final(self).lb_gte.gte,
                InvertedGeneralizedTotalizer::lb_to_ub(old(self).lb_gte.gte.total_weight, max_lb),
                InvertedGeneralizedTotalizer::lb_to_ub(old(self).lb_gte.gte.total_weight, min_lb),
                *old(var_manager),
                *final(var_manager),
                r,
            ),
    {
        self.lb_gte.encode_lb(min_lb, max_lb, var_manager)
    }

    pub fn encode_lb_change(
        &mut self,
        min_lb: usize,
        max_lb: usize,
        var_manager: &mut BasicVarManager,
    ) -> (r: Result<Cnf, EncodingError>)
        requires
            old(self).wf(),
            old(var_manager).next_var + old(self).lb_gte.gte.var_room() <= u32::MAX,
        ensures
            final(self).wf(),
            final(self).ub_gte == old(self).ub_gte,
            min_lb > max_lb ==> r == Err::<Cnf, EncodingError>(EncodingError::InvalidLimits)
                && *final(self) == *old(self) && *final(var_manager) == *old(var_manager),
            min_lb <= max_lb && min_lb > old(self).lb_gte.gte.total_weight ==> r == Err::<Cnf, EncodingError>(EncodingError::Unsat)
                && *final(self) == *old(self) && *final(var_manager) == *old(var_manager),
            min_lb <= max_lb && min_lb <= old(self).lb_gte.gte.total_weight ==> GeneralizedTotalizer::ub_changed(
                old(self).lb_gte.gte,
                final(self).lb_gte.gte,
                InvertedGeneralizedTotalizer::lb_to_ub(old(self).lb_gte.gte.total_weight, max_lb),
                InvertedGeneralizedTotalizer::lb_to_ub(old(self).lb_gte.gte.total_weight, min_lb),
                *old(var_manager),
                *final(var_manager),
                r,
            ),
    {
        self.lb_gte.encode_lb_change(min_lb, max_lb, var_manager)
    }

    pub fn enforce_lb(&self, lb: usize) -> (r: Result<Vec<Lit>, EncodingError>)
        requires
            self.wf(),
        ensures
            r matches Ok(v) ==> self.lb_gte.enforce_lb_result(lb) == Ok::<Seq<Lit>, EncodingError>(v@),
            r matches Err(e) ==> self.lb_gte.enforce_lb_result(lb) == Err::<Seq<Lit>, EncodingError>(e),
    {
        self.lb_gte.enforce_lb(lb)
    }

    /// The number of clauses of both encodings together.
    pub fn n_clauses(&self) -> (r: usize)
        ensures
            r == sat_add(self.ub_gte.n_clauses, self.lb_gte.gte.n_clauses),
    {
        self.ub_gte.n_clauses().saturating_add(self.lb_gte.n_clauses())
    }

    /// The number of variables of both encodings together.
    pub fn n_vars(&self) -> (r: usize)
        ensures
            r == sat_add(self.ub_gte.n_vars, self.lb_gte.gte.n_vars),
    {
        self.ub_gte.n_vars().saturating_add(self.lb_gte.n_vars())
    }
}

} // verus!
