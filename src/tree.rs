//! Parse trees: nodes that hold a rule and a byte span of the source, never a
//! copy of its text, and the well-formedness of their spans.
use vstd::prelude::*;
use crate::grammar::{Rule, Tree, leaf, node};
use crate::lexer::{Token, tokens_sorted};

verus! {

/// A node of a parse tree: the rule it stands for, the span `[start, end)` of
/// the source it covers, and its children in source order.
#[derive(Debug)]
pub struct Node {
    pub rule: Rule,
    pub start: usize,
    pub end: usize,
    pub children: Vec<Node>,
}

impl View for Node {
    type V = Tree;

    open spec fn view(&self) -> Tree {
        tree_of(*self)
    }
}

/// The tree that a node stands for.
#[verifier::opaque]
pub open spec fn tree_of(n: Node) -> Tree
    decreases n,
{
    Tree {
        rule: n.rule,
        start: n.start as int,
        end: n.end as int,
        children: Seq::new(
            n.children@.len(),
            |k: int|
                if 0 <= k < n.children@.len() {
                    tree_of(n.children@[k])
                } else {
                    Tree { rule: n.rule, start: 0, end: 0, children: Seq::empty() }
                },
        ),
    }
}

/// The trees of a sequence of nodes.
pub open spec fn trees(s: Seq<Node>) -> Seq<Tree> {
    Seq::new(s.len(), |k: int| s[k]@)
}

/// Every node's span is non-empty or empty but never reversed, lies within its
/// parent's span, and its siblings' spans do not overlap and come in source order.
pub open spec fn well_formed(x: Tree) -> bool
    decreases x,
{
    &&& x.start <= x.end
    &&& forall|k: int|
        #![trigger x.children[k]]
        0 <= k < x.children.len() ==> x.start <= x.children[k].start && x.children[k].end <= x.end
            && well_formed(x.children[k])
    &&& forall|a: int, b: int|
        0 <= a < b < x.children.len() ==> #[trigger] x.children[a].end
            <= #[trigger] x.children[b].start
}

/// Every node of `x` starts where a token of `t` starts and ends where one ends.
pub open spec fn on_token_bounds(x: Tree, t: Seq<Token>) -> bool
    decreases x,
{
    &&& exists|a: int| 0 <= a < t.len() && #[trigger] t[a].start == x.start
    &&& exists|b: int| 0 <= b < t.len() && #[trigger] t[b].end == x.end
    &&& forall|k: int|
        #![trigger x.children[k]]
        0 <= k < x.children.len() ==> on_token_bounds(x.children[k], t)
}

/// `x` is well formed, lies within the tokens `i .. j`, and its nodes begin
/// and end on token boundaries.
pub open spec fn fits(x: Tree, t: Seq<Token>, i: int, j: int) -> bool {
    &&& 0 <= i < j <= t.len()
    &&& t[i].start <= x.start
    &&& x.end <= t[j - 1].end
    &&& well_formed(x)
    &&& on_token_bounds(x, t)
}

/// The trees `xs` are well formed, lie within the tokens `i .. j`, and do not
/// overlap, in order.
pub open spec fn seq_fits(xs: Seq<Tree>, t: Seq<Token>, i: int, j: int) -> bool {
    &&& 0 <= i <= j <= t.len()
    &&& xs.len() > 0 ==> i < j
    &&& forall|k: int|
        #![trigger xs[k]]
        0 <= k < xs.len() ==> t[i].start <= xs[k].start && xs[k].end <= t[j - 1].end
            && well_formed(xs[k]) && on_token_bounds(xs[k], t)
    &&& forall|a: int, b: int| 0 <= a < b < xs.len() ==> #[trigger] xs[a].end <= #[trigger] xs[b].start
}

pub proof fn lemma_leaf_fits(rule: Rule, t: Seq<Token>, i: int)
    requires
        tokens_sorted(t),
        0 <= i < t.len(),
    ensures
        fits(leaf(rule, t, i), t, i, i + 1),
{
    assert(t[i].start < t[i].end);
    assert(t[i].start == leaf(rule, t, i).start);
    assert(t[i].end == leaf(rule, t, i).end);
}

pub proof fn lemma_widen(x: Tree, t: Seq<Token>, i: int, j: int, i2: int, j2: int)
    requires
        tokens_sorted(t),
        fits(x, t, i2, j2),
        0 <= i <= i2,
        j2 <= j <= t.len(),
    ensures
        fits(x, t, i, j),
{
    if i < i2 {
        assert(t[i].start < t[i].end);
        assert(t[i].end <= t[i2].start);
    }
    if j2 < j {
        assert(t[j2 - 1].end <= t[j - 1].start);
        assert(t[j - 1].start < t[j - 1].end);
    }
}

pub proof fn lemma_seq_widen(xs: Seq<Tree>, t: Seq<Token>, i: int, j: int, i2: int, j2: int)
    requires
        tokens_sorted(t),
        seq_fits(xs, t, i2, j2),
        0 <= i <= i2,
        j2 <= j <= t.len(),
        i < j,
    ensures
        seq_fits(xs, t, i, j),
{
    if xs.len() > 0 {
        if i < i2 {
            assert(t[i].start < t[i].end);
            assert(t[i].end <= t[i2].start);
        }
        if j2 < j {
            assert(t[j2 - 1].end <= t[j - 1].start);
            assert(t[j - 1].start < t[j - 1].end);
        }
    }
}

pub proof fn lemma_seq_one(x: Tree, t: Seq<Token>, i: int, j: int)
    requires
        fits(x, t, i, j),
    ensures
        seq_fits(seq![x], t, i, j),
{
}

pub proof fn lemma_seq_empty(t: Seq<Token>, i: int)
    requires
        0 <= i <= t.len(),
    ensures
        seq_fits(seq![], t, i, i),
{
}

pub proof fn lemma_seq_concat(xs: Seq<Tree>, ys: Seq<Tree>, t: Seq<Token>, i: int, j: int, k: int)
    requires
        tokens_sorted(t),
        seq_fits(xs, t, i, j),
        seq_fits(ys, t, j, k),
    ensures
        seq_fits(xs + ys, t, i, k),
{
    let zs = xs + ys;
    assert forall|m: int|
        #![trigger zs[m]]
        0 <= m < zs.len() implies t[i].start <= zs[m].start && zs[m].end <= t[k - 1].end
        && well_formed(zs[m]) && on_token_bounds(zs[m], t) by {
        if m < xs.len() {
            assert(zs[m] == xs[m]);
            if j < k {
                assert(t[j - 1].end <= t[k - 1].start);
                assert(t[k - 1].start < t[k - 1].end);
            }
        } else {
            assert(zs[m] == ys[m - xs.len()]);
            if i < j {
                assert(t[i].start < t[i].end);
                assert(t[i].end <= t[j].start);
            }
        }
    }
    assert forall|a: int, b: int| 0 <= a < b < zs.len() implies #[trigger] zs[a].end
        <= #[trigger] zs[b].start by {
        if b < xs.len() {
            assert(zs[a] == xs[a] && zs[b] == xs[b]);
        } else if a >= xs.len() {
            assert(zs[a] == ys[a - xs.len()] && zs[b] == ys[b - xs.len()]);
        } else {
            assert(zs[a] == xs[a] && zs[b] == ys[b - xs.len()]);
            assert(xs[a].end <= t[j - 1].end);
            assert(t[j].start <= ys[b - xs.len()].start);
            assert(t[j - 1].end <= t[j].start);
        }
    }
}

pub proof fn lemma_node_fits(rule: Rule, t: Seq<Token>, i: int, j: int, cs: Seq<Tree>)
    requires
        tokens_sorted(t),
        seq_fits(cs, t, i, j),
        i < j,
    ensures
        fits(node(rule, t, i, j, cs), t, i, j),
{
    let x = node(rule, t, i, j, cs);
    assert(t[i].start < t[i].end);
    if i < j - 1 {
        assert(t[i].end <= t[j - 1].start);
        assert(t[j - 1].start < t[j - 1].end);
    }
    assert(x.children == cs);
    assert(t[i].start == x.start);
    assert(t[j - 1].end == x.end);
}

/// A node without children for the token at `i`.
pub(crate) fn make_leaf(rule: Rule, t: &Vec<Token>, i: usize) -> (n: Node)
    requires
        i < t@.len(),
    ensures
        n@ == leaf(rule, t@, i as int),
{
    let n = Node { rule, start: t[i].start, end: t[i].end, children: Vec::new() };
    proof {
        reveal(tree_of);
    }
    assert(n@.children =~= Seq::<Tree>::empty());
    n
}

/// A node spanning the tokens `i .. j`.
pub(crate) fn make_node(rule: Rule, t: &Vec<Token>, i: usize, j: usize, children: Vec<Node>) -> (n: Node)
    requires
        i < j <= t@.len(),
    ensures
        n@ == node(rule, t@, i as int, j as int, trees(children@)),
{
    let n = Node { rule, start: t[i].start, end: t[j - 1].end, children };
    proof {
        reveal(tree_of);
    }
    assert(n@.children =~= trees(n.children@));
    n
}

} // verus!
