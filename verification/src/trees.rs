//! Computation trees of a constant: every way the graph types combine to realise it.
use vstd::prelude::*;
use std::collections::HashMap;
use crate::bits::{is_base, is_base_const, lemma_odd_part_factor, lemma_tz_small, odd_part, odd_part_of};
use crate::graph_types::{
    copy_params,
    binary_params_ok, is_binary, lists_view, GraphType, GraphTypeView,
    Variant,
};

verus! {

/// A computation tree: a base constant, a binary graph type over two sub-trees, or a leapfrog
/// graph type with its parameters.
#[derive(Debug, PartialEq, Eq)]
pub enum Tree {
    /// A constant that is 1, 0 or a power of two, or that the table does not list.
    Leaf(usize),
    /// An adder, subtractor or cascade of two sub-trees; `p0` and `p1` are the parameters
    /// as the table gives them, whose even parts are shifts.
    Node { variant: Variant, left: Box<Tree>, right: Box<Tree>, p0: usize, p1: usize },
    /// A leapfrog graph, kept as it is.
    Leapfrog { variant: Variant, params: Vec<usize> },
}

/// A computation tree as a value.
pub enum TreeView {
    Leaf(usize),
    Node { variant: Variant, left: Box<TreeView>, right: Box<TreeView>, p0: usize, p1: usize },
    Leapfrog { variant: Variant, params: Seq<usize> },
}

/// The value of a tree.
pub open spec fn tree_view(t: Tree) -> TreeView
    decreases t,
{
    match t {
        Tree::Leaf(c) => TreeView::Leaf(c),
        Tree::Node { variant, left, right, p0, p1 } => TreeView::Node {
            variant,
            left: Box::new(tree_view(*left)),
            right: Box::new(tree_view(*right)),
            p0,
            p1,
        },
        Tree::Leapfrog { variant, params } => TreeView::Leapfrog { variant, params: params@ },
    }
}

impl View for Tree {
    type V = TreeView;

    open spec fn view(&self) -> TreeView {
        tree_view(*self)
    }
}

/// The values of a list of trees.
pub open spec fn trees_view(v: Seq<Tree>) -> Seq<TreeView> {
    v.map_values(|t: Tree| t@)
}

/// The number of levels of a tree.
pub open spec fn height(t: TreeView) -> nat
    decreases t,
{
    match t {
        TreeView::Node { left, right, .. } => {
            let hl = height(*left);
            let hr = height(*right);
            1 + if hl >= hr {
                hl
            } else {
                hr
            }
        },
        _ => 1,
    }
}

impl Tree {
    /// A copy of this tree.
    pub fn copy(&self) -> (r: Tree)
        ensures
            r@ == self@,
        decreases self,
    {
        match self {
            Tree::Leaf(c) => Tree::Leaf(*c),
            Tree::Node { variant, left, right, p0, p1 } => {
                let l = left.copy();
                let r = right.copy();
                Tree::Node { variant: *variant, left: Box::new(l), right: Box::new(r), p0: *p0, p1: *p1 }
            },
            Tree::Leapfrog { variant, params } => Tree::Leapfrog {
                variant: *variant,
                params: copy_params(params),
            },
        }
    }
}

/// A copy of a list of trees.
pub fn copy_trees(v: &Vec<Tree>) -> (r: Vec<Tree>)
    ensures
        trees_view(r@) == trees_view(v@),
{
    let mut r: Vec<Tree> = Vec::new();
    let mut i: usize = 0;
    while i < v.len()
        invariant
            i <= v@.len(),
            trees_view(r@) == trees_view(v@.take(i as int)),
        decreases v@.len() - i,
    {
        let ghost old_r = r@;
        let t = v[i].copy();
        r.push(t);
        assert(trees_view(r@) =~= trees_view(old_r).push(t@));
        assert(trees_view(v@.take(i + 1)) =~= trees_view(v@.take(i as int)).push(v@[i as int]@));
        i = i + 1;
    }
    assert(v@.take(i as int) =~= v@);
    r
}

/// A constant that is a leaf of its trees: 0 or a power of two, or one that the table does
/// not list or lists no graph type for.
pub open spec fn is_leaf_const(all: Seq<Seq<GraphTypeView>>, c: usize) -> bool {
    is_base_const(c as nat) || c / 2 >= all.len() || all[(c / 2) as int].len() == 0
}

/// The sub-constant of a parameter: the parameter without its trailing zero bits.
pub open spec fn sub_const(p: usize) -> usize {
    odd_part(p as nat) as usize
}

/// The trees of `c` are at most `d` levels deep (so that building them terminates).
pub open spec fn depth_ok(all: Seq<Seq<GraphTypeView>>, c: usize, d: nat) -> bool
    decreases d, 0nat, 0nat,
{
    if d == 0 {
        false
    } else if is_leaf_const(all, c) {
        true
    } else {
        gts_ok(all, all[(c / 2) as int], (d - 1) as nat)
    }
}

/// The sub-constants of each graph type have trees at most `e` levels deep.
pub open spec fn gts_ok(all: Seq<Seq<GraphTypeView>>, gts: Seq<GraphTypeView>, e: nat) -> bool
    decreases e, 2nat, gts.len(),
{
    if gts.len() == 0 {
        true
    } else {
        gts_ok(all, gts.drop_last(), e) && gt_ok(all, gts.last(), e)
    }
}

/// The sub-constants of a graph type have trees at most `e` levels deep.
pub open spec fn gt_ok(all: Seq<Seq<GraphTypeView>>, gt: GraphTypeView, e: nat) -> bool
    decreases e, 1nat, 0nat,
{
    if is_binary(gt.variant) {
        depth_ok(all, sub_const(gt.params[0]), e) && depth_ok(all, sub_const(gt.params[1]), e)
    } else {
        true
    }
}

/// Building the trees of `c` terminates: they have a bounded depth.
pub open spec fn has_depth(all: Seq<Seq<GraphTypeView>>, c: usize) -> bool {
    exists|d: nat| depth_ok(all, c, d)
}

/// Each tree of `ls` paired with each tree of `rs`, in that order, under a node.
pub open spec fn nodes_of(
    ls: Seq<TreeView>,
    rs: Seq<TreeView>,
    variant: Variant,
    p0: usize,
    p1: usize,
) -> Seq<TreeView>
    decreases ls.len(),
{
    if ls.len() == 0 {
        seq![]
    } else {
        nodes_of(ls.drop_last(), rs, variant, p0, p1) + rs.map_values(
            |r: TreeView|
                TreeView::Node {
                    variant,
                    left: Box::new(ls.last()),
                    right: Box::new(r),
                    p0,
                    p1,
                },
        )
    }
}

/// The trees of `c`, following the graph types for at most `fuel` levels.
pub open spec fn trees_of(all: Seq<Seq<GraphTypeView>>, c: usize, fuel: nat) -> Seq<TreeView>
    decreases fuel, 0nat, 0nat,
{
    if fuel == 0 {
        seq![]
    } else if is_leaf_const(all, c) {
        seq![TreeView::Leaf(c)]
    } else {
        trees_for(all, all[(c / 2) as int], (fuel - 1) as nat)
    }
}

/// The trees of each graph type in turn.
pub open spec fn trees_for(all: Seq<Seq<GraphTypeView>>, gts: Seq<GraphTypeView>, e: nat) -> Seq<
    TreeView,
>
    decreases e, 2nat, gts.len(),
{
    if gts.len() == 0 {
        seq![]
    } else {
        trees_for(all, gts.drop_last(), e) + trees_gt(all, gts.last(), e)
    }
}

/// The trees of one graph type: for an adder, subtractor or cascade, each left tree with
/// each right tree, and for a cascade of two different parameters also the swapped
/// products; a leapfrog graph is a tree of its own.
pub open spec fn trees_gt(all: Seq<Seq<GraphTypeView>>, gt: GraphTypeView, e: nat) -> Seq<TreeView>
    decreases e, 1nat, 0nat,
{
    if is_binary(gt.variant) {
        let p0 = gt.params[0];
        let p1 = gt.params[1];
        let lt = trees_of(all, sub_const(p0), e);
        let rt = trees_of(all, sub_const(p1), e);
        nodes_of(lt, rt, gt.variant, p0, p1) + if gt.variant == Variant::Cascade && p0 != p1 {
            nodes_of(rt, lt, gt.variant, p1, p0)
        } else {
            seq![]
        }
    } else {
        seq![TreeView::Leapfrog { variant: gt.variant, params: gt.params }]
    }
}

/// The trees of `c`, for a constant whose trees have a bounded depth.
pub open spec fn build_trees_of(all: Seq<Seq<GraphTypeView>>, c: usize) -> Seq<TreeView> {
    trees_of(all, c, choose|d: nat| depth_ok(all, c, d))
}

pub proof fn lemma_trees_stable(all: Seq<Seq<GraphTypeView>>, c: usize, d: nat, d2: nat)
    requires
        depth_ok(all, c, d),
        d <= d2,
    ensures
        depth_ok(all, c, d2),
        trees_of(all, c, d) == trees_of(all, c, d2),
    decreases d, 0nat, 0nat,
{
    if d > 0 && !is_leaf_const(all, c) {
        lemma_trees_for_stable(all, all[(c / 2) as int], (d - 1) as nat, (d2 - 1) as nat);
    }
}

pub proof fn lemma_trees_for_stable(
    all: Seq<Seq<GraphTypeView>>,
    gts: Seq<GraphTypeView>,
    e: nat,
    e2: nat,
)
    requires
        gts_ok(all, gts, e),
        e <= e2,
    ensures
        gts_ok(all, gts, e2),
        trees_for(all, gts, e) == trees_for(all, gts, e2),
    decreases e, 2nat, gts.len(),
{
    if gts.len() > 0 {
        lemma_trees_for_stable(all, gts.drop_last(), e, e2);
        lemma_trees_gt_stable(all, gts.last(), e, e2);
    }
}

pub proof fn lemma_trees_gt_stable(all: Seq<Seq<GraphTypeView>>, gt: GraphTypeView, e: nat, e2: nat)
    requires
        gt_ok(all, gt, e),
        e <= e2,
    ensures
        gt_ok(all, gt, e2),
        trees_gt(all, gt, e) == trees_gt(all, gt, e2),
    decreases e, 1nat, 0nat,
{
    if is_binary(gt.variant) {
        lemma_trees_stable(all, sub_const(gt.params[0]), e, e2);
        lemma_trees_stable(all, sub_const(gt.params[1]), e, e2);
    }
}

/// Any bound on the depth gives the same trees.
pub proof fn lemma_build_trees_of(all: Seq<Seq<GraphTypeView>>, c: usize, d: nat)
    requires
        depth_ok(all, c, d),
    ensures
        build_trees_of(all, c) == trees_of(all, c, d),
{
    let d0 = choose|d: nat| depth_ok(all, c, d);
    if d0 <= d {
        lemma_trees_stable(all, c, d0, d);
    } else {
        lemma_trees_stable(all, c, d, d0);
    }
}

/// Every tree of `trees_of(c, d)` is at most `d` levels high.
pub proof fn lemma_trees_height(all: Seq<Seq<GraphTypeView>>, c: usize, d: nat)
    requires
        depth_ok(all, c, d),
    ensures
        forall|i: int|
            0 <= i < trees_of(all, c, d).len() ==> height(#[trigger] trees_of(all, c, d)[i]) <= d,
    decreases d, 0nat, 0nat,
{
    if d > 0 && !is_leaf_const(all, c) {
        lemma_trees_for_height(all, all[(c / 2) as int], (d - 1) as nat);
        let t = trees_for(all, all[(c / 2) as int], (d - 1) as nat);
        assert(trees_of(all, c, d) == t);
        assert forall|i: int| 0 <= i < t.len() implies height(#[trigger] t[i]) <= d by {}
    } else if d > 0 {
        assert(trees_of(all, c, d) == seq![TreeView::Leaf(c)]);
        assert(height(TreeView::Leaf(c)) == 1);
    }
}

pub proof fn lemma_trees_for_height(all: Seq<Seq<GraphTypeView>>, gts: Seq<GraphTypeView>, e: nat)
    requires
        gts_ok(all, gts, e),
    ensures
        forall|i: int|
            0 <= i < trees_for(all, gts, e).len() ==> height(#[trigger] trees_for(all, gts, e)[i])
                <= e + 1,
    decreases e, 2nat, gts.len(),
{
    if gts.len() > 0 {
        lemma_trees_for_height(all, gts.drop_last(), e);
        lemma_trees_gt_height(all, gts.last(), e);
        let a = trees_for(all, gts.drop_last(), e);
        let b = trees_gt(all, gts.last(), e);
        assert forall|i: int| 0 <= i < (a + b).len() implies height(#[trigger] (a + b)[i]) <= e + 1 by {
            if i < a.len() {
                assert((a + b)[i] == a[i]);
            } else {
                assert((a + b)[i] == b[i - a.len()]);
            }
        }
    }
}

pub proof fn lemma_trees_gt_height(all: Seq<Seq<GraphTypeView>>, gt: GraphTypeView, e: nat)
    requires
        gt_ok(all, gt, e),
    ensures
        forall|i: int|
            0 <= i < trees_gt(all, gt, e).len() ==> height(#[trigger] trees_gt(all, gt, e)[i]) <= e
                + 1,
    decreases e, 1nat, 0nat,
{
    if is_binary(gt.variant) {
        let p0 = gt.params[0];
        let p1 = gt.params[1];
        lemma_trees_height(all, sub_const(p0), e);
        lemma_trees_height(all, sub_const(p1), e);
        let lt = trees_of(all, sub_const(p0), e);
        let rt = trees_of(all, sub_const(p1), e);
        lemma_nodes_height(lt, rt, gt.variant, p0, p1, e);
        lemma_nodes_height(rt, lt, gt.variant, p1, p0, e);
        let a = nodes_of(lt, rt, gt.variant, p0, p1);
        let b = if gt.variant == Variant::Cascade && p0 != p1 {
            nodes_of(rt, lt, gt.variant, p1, p0)
        } else {
            seq![]
        };
        assert forall|i: int| 0 <= i < (a + b).len() implies height(#[trigger] (a + b)[i]) <= e + 1 by {
            if i < a.len() {
                assert((a + b)[i] == a[i]);
            } else {
                assert((a + b)[i] == b[i - a.len()]);
            }
        }
    }
}

pub proof fn lemma_nodes_height(
    ls: Seq<TreeView>,
    rs: Seq<TreeView>,
    variant: Variant,
    p0: usize,
    p1: usize,
    e: nat,
)
    requires
        forall|i: int| 0 <= i < ls.len() ==> height(#[trigger] ls[i]) <= e,
        forall|i: int| 0 <= i < rs.len() ==> height(#[trigger] rs[i]) <= e,
    ensures
        forall|i: int|
            0 <= i < nodes_of(ls, rs, variant, p0, p1).len() ==> height(
                #[trigger] nodes_of(ls, rs, variant, p0, p1)[i],
            ) <= e + 1,
    decreases ls.len(),
{
    if ls.len() > 0 {
        lemma_nodes_height(ls.drop_last(), rs, variant, p0, p1, e);
        let a = nodes_of(ls.drop_last(), rs, variant, p0, p1);
        let b = rs.map_values(
            |r: TreeView|
                TreeView::Node {
                    variant,
                    left: Box::new(ls.last()),
                    right: Box::new(r),
                    p0,
                    p1,
                },
        );
        assert(height(ls.last()) <= e);
        assert forall|i: int| 0 <= i < (a + b).len() implies height(#[trigger] (a + b)[i]) <= e + 1 by {
            if i < a.len() {
                assert((a + b)[i] == a[i]);
            } else {
                assert((a + b)[i] == b[i - a.len()]);
                assert(height(rs[i - a.len()]) <= e);
            }
        }
    }
}

pub proof fn lemma_gts_ok_each(all: Seq<Seq<GraphTypeView>>, gts: Seq<GraphTypeView>, e: nat, i: int)
    requires
        gts_ok(all, gts, e),
        0 <= i < gts.len(),
    ensures
        gt_ok(all, gts[i], e),
    decreases gts.len(),
{
    if i < gts.len() - 1 {
        lemma_gts_ok_each(all, gts.drop_last(), e, i);
    }
}

/// Every key of the cache is a constant with bounded depth, mapped to its trees.
pub open spec fn cache_ok(all: Seq<Seq<GraphTypeView>>, cache: Map<usize, Vec<Tree>>) -> bool {
    forall|k: usize|
        #[trigger] cache.contains_key(k) ==> has_depth(all, k) && trees_view(cache[k]@)
            == build_trees_of(all, k)
}

/// `k` is `c` or a sub-constant met while following the graph types of `c` for at most `d`
/// levels.
pub open spec fn reaches(all: Seq<Seq<GraphTypeView>>, c: usize, k: usize, d: nat) -> bool
    decreases d, 0nat, 0nat,
{
    if d == 0 {
        false
    } else if k == c {
        true
    } else if is_leaf_const(all, c) {
        false
    } else {
        reaches_gts(all, all[(c / 2) as int], k, (d - 1) as nat)
    }
}

/// `k` is met below one of the graph types.
pub open spec fn reaches_gts(all: Seq<Seq<GraphTypeView>>, gts: Seq<GraphTypeView>, k: usize, e: nat) -> bool
    decreases e, 2nat, gts.len(),
{
    if gts.len() == 0 {
        false
    } else {
        reaches_gts(all, gts.drop_last(), k, e) || reaches_gt(all, gts.last(), k, e)
    }
}

/// `k` is met below a graph type: below one of its sub-constants.
pub open spec fn reaches_gt(all: Seq<Seq<GraphTypeView>>, gt: GraphTypeView, k: usize, e: nat) -> bool
    decreases e, 1nat, 0nat,
{
    is_binary(gt.variant) && (reaches(all, sub_const(gt.params[0]), k, e) || reaches(
        all,
        sub_const(gt.params[1]),
        k,
        e,
    ))
}

/// `k` is `c` or a sub-constant met while following the graph types of `c`.
pub open spec fn reachable(all: Seq<Seq<GraphTypeView>>, c: usize, k: usize) -> bool {
    exists|d: nat| reaches(all, c, k, d)
}

proof fn lemma_reaches_gts_each(
    all: Seq<Seq<GraphTypeView>>,
    gts: Seq<GraphTypeView>,
    k: usize,
    e: nat,
    i: int,
)
    requires
        0 <= i < gts.len(),
        reaches_gt(all, gts[i], k, e),
    ensures
        reaches_gts(all, gts, k, e),
    decreases gts.len(),
{
    if i < gts.len() - 1 {
        assert(gts.drop_last()[i] == gts[i]);
        lemma_reaches_gts_each(all, gts.drop_last(), k, e, i);
    }
}

/// A sub-constant of a binary graph type reaches `k`.
pub open spec fn sub_reaches(all: Seq<Seq<GraphTypeView>>, gt: GraphTypeView, k: usize) -> bool {
    is_binary(gt.variant) && (reachable(all, sub_const(gt.params[0]), k) || reachable(
        all,
        sub_const(gt.params[1]),
        k,
    ))
}

/// Every constant reachable from a cached one is cached too, as in a cache that only
/// building trees has filled.
pub open spec fn cache_closed(all: Seq<Seq<GraphTypeView>>, cache: Map<usize, Vec<Tree>>) -> bool {
    forall|c: usize, k: usize|
        #[trigger] cache.contains_key(c) && #[trigger] reachable(all, c, k) ==> cache.contains_key(k)
}

proof fn lemma_reaches_gts_index(
    all: Seq<Seq<GraphTypeView>>,
    gts: Seq<GraphTypeView>,
    k: usize,
    e: nat,
) -> (i: int)
    requires
        reaches_gts(all, gts, k, e),
    ensures
        0 <= i < gts.len(),
        reaches_gt(all, gts[i], k, e),
    decreases gts.len(),
{
    if reaches_gt(all, gts.last(), k, e) {
        gts.len() - 1
    } else {
        let i = lemma_reaches_gts_index(all, gts.drop_last(), k, e);
        assert(gts.drop_last()[i] == gts[i]);
        i
    }
}

/// What a constant reaches, other than itself, it reaches through a sub-constant of one of
/// its graph types.
proof fn lemma_reachable_step(all: Seq<Seq<GraphTypeView>>, c: usize, k: usize) -> (i: int)
    requires
        reachable(all, c, k),
        k != c,
    ensures
        !is_leaf_const(all, c),
        0 <= i < all[(c / 2) as int].len(),
        sub_reaches(all, all[(c / 2) as int][i], k),
{
    let d = choose|d: nat| reaches(all, c, k, d);
    let gts = all[(c / 2) as int];
    let i = lemma_reaches_gts_index(all, gts, k, (d - 1) as nat);
    let gt = gts[i];
    if reaches(all, sub_const(gt.params[0]), k, (d - 1) as nat) {
        assert(reachable(all, sub_const(gt.params[0]), k));
    } else {
        assert(reaches(all, sub_const(gt.params[1]), k, (d - 1) as nat));
        assert(reachable(all, sub_const(gt.params[1]), k));
    }
    i
}


/// The cache after building the trees of `c`: it holds them, it keeps every entry it had,
/// and it gained only entries for `c` and sub-constants met below it.
pub open spec fn cache_grown(
    all: Seq<Seq<GraphTypeView>>,
    c: usize,
    d: nat,
    before: Map<usize, Vec<Tree>>,
    after: Map<usize, Vec<Tree>>,
) -> bool {
    &&& after.contains_key(c)
    &&& forall|k: usize| #[trigger] before.contains_key(k) ==> after.contains_key(k) && after[k] == before[k]
    &&& forall|k: usize| #[trigger] after.contains_key(k) ==> before.contains_key(k) || reaches(all, c, k, d)
}

/// Appends each tree of `ls` paired with each tree of `rs` under a node.
fn push_nodes(
    trees: &mut Vec<Tree>,
    ls: &Vec<Tree>,
    rs: &Vec<Tree>,
    variant: Variant,
    p0: usize,
    p1: usize,
)
    ensures
        trees_view(final(trees)@) == trees_view(old(trees)@) + nodes_of(
            trees_view(ls@),
            trees_view(rs@),
            variant,
            p0,
            p1,
        ),
{
    let ghost lv = trees_view(ls@);
    let ghost rv = trees_view(rs@);
    let mut i: usize = 0;
    assert(lv.take(0) =~= Seq::<TreeView>::empty());
    assert(trees_view(trees@) =~= trees_view(old(trees)@) + nodes_of(lv.take(0), rv, variant, p0, p1));
    while i < ls.len()
        invariant
            i <= ls@.len(),
            lv == trees_view(ls@),
            rv == trees_view(rs@),
            trees_view(trees@) == trees_view(old(trees)@) + nodes_of(lv.take(i as int), rv, variant, p0, p1),
        decreases ls@.len() - i,
    {
        let ghost base = trees_view(trees@);
        let ghost mk = |r: TreeView|
            TreeView::Node { variant, left: Box::new(lv[i as int]), right: Box::new(r), p0, p1 };
        let mut j: usize = 0;
        assert(base =~= base + rv.take(0).map_values(mk));
        while j < rs.len()
            invariant
                i < ls@.len(),
                j <= rs@.len(),
                lv == trees_view(ls@),
                rv == trees_view(rs@),
                mk == (|r: TreeView|
                    TreeView::Node { variant, left: Box::new(lv[i as int]), right: Box::new(r), p0, p1 }),
                trees_view(trees@) == base + rv.take(j as int).map_values(mk),
            decreases rs@.len() - j,
        {
            let ghost before = trees@;
            let l = ls[i].copy();
            let r = rs[j].copy();
            let node = Tree::Node { variant, left: Box::new(l), right: Box::new(r), p0, p1 };
            trees.push(node);
            assert(trees_view(trees@) =~= trees_view(before).push(node@));
            assert(node@ == mk(rv[j as int]));
            assert(rv.take(j + 1).map_values(mk) =~= rv.take(j as int).map_values(mk).push(mk(rv[j as int])));
            j = j + 1;
        }
        assert(rv.take(j as int) =~= rv);
        assert(lv.take(i + 1).drop_last() =~= lv.take(i as int));
        assert(lv.take(i + 1).last() == lv[i as int]);
        assert(nodes_of(lv.take(i + 1), rv, variant, p0, p1) == nodes_of(lv.take(i as int), rv, variant, p0, p1)
            + rv.map_values(mk));
        i = i + 1;
    }
    assert(lv.take(i as int) =~= lv);
}

fn build_trees_rec(
    all: &Vec<Vec<GraphType>>,
    constant: usize,
    cache: &mut HashMap<usize, Vec<Tree>>,
    Ghost(d): Ghost<nat>,
) -> (r: Vec<Tree>)
    requires
        binary_params_ok(lists_view(all@)),
        depth_ok(lists_view(all@), constant, d),
        cache_ok(lists_view(all@), old(cache)@),
    ensures
        trees_view(r@) == build_trees_of(lists_view(all@), constant),
        cache_ok(lists_view(all@), final(cache)@),
        cache_grown(lists_view(all@), constant, d, old(cache)@, final(cache)@),
        old(cache)@.contains_key(constant) ==> final(cache)@ == old(cache)@,
        cache_closed(lists_view(all@), old(cache)@) ==> cache_closed(lists_view(all@), final(cache)@)
            && forall|k: usize|
            #[trigger] reachable(lists_view(all@), constant, k) ==> final(cache)@.contains_key(k),
    decreases d,
{
    broadcast use vstd::std_specs::hash::group_hash_axioms;
    let ghost a = lists_view(all@);
    let ghost c0 = cache@;
    proof {
        lemma_build_trees_of(a, constant, d);
    }
    match cache.get(&constant) {
        Some(cached) => {
            return copy_trees(cached);
        },
        None => {},
    }
    let position = constant / 2;
    if is_base(constant) || position >= all.len() || all[position].len() == 0 {
        let result = vec![Tree::Leaf(constant)];
        assert(trees_view(result@) =~= seq![TreeView::Leaf(constant)]);
        let stored = copy_trees(&result);
        cache.insert(constant, stored);
        proof {
            assert forall|k: usize| #[trigger] reachable(a, constant, k) implies k == constant by {
                if k != constant {
                    lemma_reachable_step(a, constant, k);
                }
            }
            if cache_closed(a, c0) {
                assert forall|c: usize, k: usize|
                    #[trigger] cache@.contains_key(c) && #[trigger] reachable(a, c, k)
                    implies cache@.contains_key(k) by {
                    if c != constant {
                        assert(c0.contains_key(c));
                    }
                }
            }
        }
        return result;
    }
    let gts = &all[position];
    let ghost gv = a[position as int];
    assert(gv == gts@.map_values(|g: GraphType| g@));
    let ghost e = (d - 1) as nat;
    let mut trees: Vec<Tree> = Vec::new();
    let mut i: usize = 0;
    assert(gv.take(0) =~= Seq::<GraphTypeView>::empty());
    while i < gts.len()
        invariant
            i <= gts@.len(),
            a == lists_view(all@),
            binary_params_ok(a),
            position < a.len(),
            gv == a[position as int],
            gv == gts@.map_values(|g: GraphType| g@),
            d >= 1,
            e == d - 1,
            gts_ok(a, gv, e),
            trees_view(trees@) == trees_for(a, gv.take(i as int), e),
            cache_ok(a, cache@),
            !c0.contains_key(constant),
            !is_leaf_const(a, constant),
            position == constant / 2,
            forall|k: usize| #[trigger] c0.contains_key(k) ==> cache@.contains_key(k) && cache@[k] == c0[k],
            forall|k: usize| #[trigger] cache@.contains_key(k) ==> c0.contains_key(k) || reaches(a, constant, k, d),
            cache_closed(a, c0) ==> cache_closed(a, cache@),
            cache_closed(a, c0) ==> forall|j: int, k: usize|
                0 <= j < i && #[trigger] sub_reaches(a, gv[j], k) ==> cache@.contains_key(k),
        decreases gts@.len() - i,
    {
        let gt = &gts[i];
        proof {
            lemma_gts_ok_each(a, gv, e, i as int);
            assert(gv[i as int] == gt@);
            assert(is_binary(a[position as int][i as int].variant) ==> a[position as int][i as int].params.len() >= 2);
            assert(gv.take(i + 1).drop_last() =~= gv.take(i as int));
            assert(gv.take(i + 1).last() == gt@);
        }
        let ghost before = trees_view(trees@);
        if gt.variant.is_binary() {
            let p0 = gt.params[0];
            let p1 = gt.params[1];
            let p0_odd = if p0 > 0 {
                odd_part_of(p0)
            } else {
                p0
            };
            let p1_odd = if p1 > 0 {
                odd_part_of(p1)
            } else {
                p1
            };
            assert(p0_odd == sub_const(p0));
            assert(p1_odd == sub_const(p1));
            let ghost ca = cache@;
            let left_trees = build_trees_rec(all, p0_odd, cache, Ghost(e));
            let ghost cb = cache@;
            let right_trees = build_trees_rec(all, p1_odd, cache, Ghost(e));
            proof {
                assert forall|k: usize| #[trigger] cache@.contains_key(k) implies c0.contains_key(k)
                    || reaches(a, constant, k, d) by {
                    if k == constant {
                        assert(reaches(a, constant, k, d));
                    } else if !c0.contains_key(k) {
                        if ca.contains_key(k) {
                            assert(reaches(a, constant, k, d));
                        } else {
                            if !cb.contains_key(k) {
                                assert(reaches(a, p1_odd, k, e));
                            } else {
                                assert(reaches(a, p0_odd, k, e));
                            }
                            assert(gv[i as int] == gt@);
                            assert(gt@.params[0] == p0 && gt@.params[1] == p1);
                            assert(is_binary(gt@.variant));
                            assert(sub_const(gt@.params[0]) == p0_odd);
                            assert(sub_const(gt@.params[1]) == p1_odd);
                            assert(reaches(a, p0_odd, k, e) || reaches(a, p1_odd, k, e));
                            assert(reaches_gt(a, gt@, k, e));
                            lemma_reaches_gts_each(a, gv, k, e, i as int);
                            assert(position == constant / 2);
                            assert(reaches_gts(a, a[(constant / 2) as int], k, (d - 1) as nat));
                            assert(reaches(a, constant, k, d));
                        }
                    }
                }
            }
            proof {
                lemma_build_trees_of(a, p0_odd, e);
                lemma_build_trees_of(a, p1_odd, e);
                if cache_closed(a, c0) {
                    assert forall|j: int, k: usize|
                        0 <= j < i + 1 && #[trigger] sub_reaches(a, gv[j], k) implies cache@.contains_key(k) by {
                        if j == i {
                            assert(gv[j] == gt@);
                            assert(gt@.params[0] == p0 && gt@.params[1] == p1);
                            if reachable(a, p0_odd, k) {
                                assert(cb.contains_key(k));
                            }
                        } else {
                            assert(ca.contains_key(k));
                        }
                    }
                }
            }
            push_nodes(&mut trees, &left_trees, &right_trees, gt.variant, p0, p1);
            if gt.variant == Variant::Cascade && p0 != p1 {
                push_nodes(&mut trees, &right_trees, &left_trees, gt.variant, p1, p0);
                assert(trees_view(trees@) =~= before + trees_gt(a, gt@, e));
            } else {
                assert(trees_view(trees@) =~= before + trees_gt(a, gt@, e));
            }
        } else {
            let leap = Tree::Leapfrog { variant: gt.variant, params: copy_params(&gt.params) };
            trees.push(leap);
            assert(trees_view(trees@) =~= before + trees_gt(a, gt@, e));
            proof {
                if cache_closed(a, c0) {
                    assert forall|j: int, k: usize|
                        0 <= j < i + 1 && #[trigger] sub_reaches(a, gv[j], k) implies cache@.contains_key(k) by {
                        if j == i {
                            assert(gv[j] == gt@);
                        }
                    }
                }
            }
        }
        i = i + 1;
    }
    assert(gv.take(i as int) =~= gv);
    let ghost cl = cache@;
    let stored = copy_trees(&trees);
    cache.insert(constant, stored);
    proof {
        if cache_closed(a, c0) {
            assert forall|k: usize| #[trigger] reachable(a, constant, k) implies cache@.contains_key(k) by {
                if k != constant {
                    let j = lemma_reachable_step(a, constant, k);
                    assert(sub_reaches(a, gv[j], k));
                    assert(cl.contains_key(k));
                }
            }
            assert forall|c: usize, k: usize|
                #[trigger] cache@.contains_key(c) && #[trigger] reachable(a, c, k)
                implies cache@.contains_key(k) by {
                if c != constant {
                    assert(cl.contains_key(c));
                    assert(cl.contains_key(k));
                } else {
                    assert(reachable(a, constant, k));
                }
            }
        }
    }
    trees
}

/// Builds every computation tree for `constant`, reusing and filling `cache`.
pub fn build_trees(
    all_types: &Vec<Vec<GraphType>>,
    constant: usize,
    cache: &mut HashMap<usize, Vec<Tree>>,
) -> (r: Vec<Tree>)
    requires
        binary_params_ok(lists_view(all_types@)),
        has_depth(lists_view(all_types@), constant),
        cache_ok(lists_view(all_types@), old(cache)@),
    ensures
        trees_view(r@) == build_trees_of(lists_view(all_types@), constant),
        cache_ok(lists_view(all_types@), final(cache)@),
        final(cache)@.contains_key(constant),
        trees_view(final(cache)@[constant]@) == trees_view(r@),
        forall|k: usize| #[trigger] old(cache)@.contains_key(k) ==> final(cache)@.contains_key(k)
            && final(cache)@[k] == old(cache)@[k],
        forall|k: usize| #[trigger] final(cache)@.contains_key(k) ==> old(cache)@.contains_key(k)
            || reachable(lists_view(all_types@), constant, k),
        old(cache)@.contains_key(constant) ==> final(cache)@ == old(cache)@ && trees_view(r@)
            == trees_view(old(cache)@[constant]@),
        cache_closed(lists_view(all_types@), old(cache)@) ==> cache_closed(
            lists_view(all_types@),
            final(cache)@,
        ),
        cache_closed(lists_view(all_types@), old(cache)@) ==> forall|k: usize|
            #[trigger] reachable(lists_view(all_types@), constant, k) ==> final(cache)@.contains_key(k)
                && trees_view(final(cache)@[k]@) == build_trees_of(lists_view(all_types@), k),
{
    let ghost a = lists_view(all_types@);
    let ghost d = choose|d: nat| depth_ok(a, constant, d);
    let r = build_trees_rec(all_types, constant, cache, Ghost(d));
    assert forall|k: usize| #[trigger] cache@.contains_key(k) implies old(cache)@.contains_key(k)
        || reachable(a, constant, k) by {
        if !old(cache)@.contains_key(k) {
            assert(reaches(a, constant, k, d));
        }
    }
    r
}

/// `ok` records, for each odd constant the table lists, whether its trees are at most `r`
/// levels deep.
pub open spec fn levels_recorded(all: Seq<Seq<GraphTypeView>>, ok: Seq<bool>, r: nat) -> bool {
    &&& ok.len() == all.len()
    &&& forall|c: usize|
        c % 2 == 1 && c / 2 < all.len() ==> #[trigger] ok[(c / 2) as int] == depth_ok(all, c, r)
}

/// The sub-constant of a parameter is 0 or odd.
proof fn lemma_sub_const(p: usize)
    ensures
        sub_const(p) == 0 || sub_const(p) % 2 == 1,
        sub_const(p) <= p,
{
    if p > 0 {
        lemma_odd_part_factor(p as nat);
        lemma_tz_small(p);
    }
}

/// When the levels of the table's constants agree at `k` and `r`, so do the next levels of
/// any constant.
proof fn lemma_next_level(all: Seq<Seq<GraphTypeView>>, x: usize, k: nat, r: nat)
    requires
        k >= 1,
        r >= 1,
        forall|c: usize|
            c % 2 == 1 && c / 2 < all.len() ==> #[trigger] depth_ok(all, c, k) == depth_ok(all, c, r),
    ensures
        depth_ok(all, x, k + 1) == depth_ok(all, x, r + 1),
{
    if !is_leaf_const(all, x) {
        lemma_next_level_gts(all, all[(x / 2) as int], k, r);
    }
}

proof fn lemma_next_level_gts(all: Seq<Seq<GraphTypeView>>, gts: Seq<GraphTypeView>, k: nat, r: nat)
    requires
        k >= 1,
        r >= 1,
        forall|c: usize|
            c % 2 == 1 && c / 2 < all.len() ==> #[trigger] depth_ok(all, c, k) == depth_ok(all, c, r),
    ensures
        gts_ok(all, gts, k) == gts_ok(all, gts, r),
    decreases gts.len(),
{
    if gts.len() > 0 {
        lemma_next_level_gts(all, gts.drop_last(), k, r);
        let gt = gts.last();
        if is_binary(gt.variant) {
            lemma_sub_const(gt.params[0]);
            lemma_sub_const(gt.params[1]);
            lemma_child_level(all, sub_const(gt.params[0]), k, r);
            lemma_child_level(all, sub_const(gt.params[1]), k, r);
        }
        assert(gt_ok(all, gt, k) == gt_ok(all, gt, r));
        assert(gts_ok(all, gts, k) == (gts_ok(all, gts.drop_last(), k) && gt_ok(all, gt, k)));
        assert(gts_ok(all, gts, r) == (gts_ok(all, gts.drop_last(), r) && gt_ok(all, gt, r)));
    }
}

proof fn lemma_child_level(all: Seq<Seq<GraphTypeView>>, s: usize, k: nat, r: nat)
    requires
        k >= 1,
        r >= 1,
        s == 0 || s % 2 == 1,
        forall|c: usize|
            c % 2 == 1 && c / 2 < all.len() ==> #[trigger] depth_ok(all, c, k) == depth_ok(all, c, r),
    ensures
        depth_ok(all, s, k) == depth_ok(all, s, r),
{
    if s == 0 {
        assert(is_base_const(0));
    } else if s / 2 < all.len() {
        assert(depth_ok(all, s, k) == depth_ok(all, s, r));
    }
}

/// Once the levels of the table stop changing, they never change again.
proof fn lemma_fixpoint(all: Seq<Seq<GraphTypeView>>, r: nat, k: nat)
    requires
        r >= 1,
        r <= k,
        forall|c: usize|
            c % 2 == 1 && c / 2 < all.len() ==> #[trigger] depth_ok(all, c, r + 1) == depth_ok(all, c, r),
    ensures
        forall|c: usize|
            c % 2 == 1 && c / 2 < all.len() ==> #[trigger] depth_ok(all, c, k) == depth_ok(all, c, r),
    decreases k,
{
    if k > r {
        lemma_fixpoint(all, r, (k - 1) as nat);
        assert forall|c: usize| c % 2 == 1 && c / 2 < all.len() implies #[trigger] depth_ok(all, c, k)
            == depth_ok(all, c, r) by {
            lemma_next_level(all, c, (k - 1) as nat, r);
        }
    }
}

/// Whether the sub-constant `s` has trees at most `r` levels deep, read from `ok`.
fn child_ok(
    all: &Vec<Vec<GraphType>>,
    s: usize,
    ok: &Vec<bool>,
    r_pos: bool,
    Ghost(r): Ghost<nat>,
) -> (res: bool)
    requires
        levels_recorded(lists_view(all@), ok@, r),
        r_pos == (r >= 1),
        s == 0 || s % 2 == 1,
    ensures
        res == depth_ok(lists_view(all@), s, r),
{
    let ghost a = lists_view(all@);
    if is_base(s) || s / 2 >= all.len() || all[s / 2].len() == 0 {
        proof {
            if s / 2 < all.len() {
                assert(a[(s / 2) as int].len() == all@[(s / 2) as int]@.len());
            }
        }
        r_pos
    } else {
        assert(a[(s / 2) as int].len() == all@[(s / 2) as int]@.len());
        ok[s / 2]
    }
}

/// Whether the constant `c` has trees at most `r + 1` levels deep, from the levels `ok`
/// records for depth `r`.
fn node_ok(
    all: &Vec<Vec<GraphType>>,
    c: usize,
    ok: &Vec<bool>,
    r_pos: bool,
    Ghost(r): Ghost<nat>,
) -> (res: bool)
    requires
        binary_params_ok(lists_view(all@)),
        levels_recorded(lists_view(all@), ok@, r),
        r_pos == (r >= 1),
    ensures
        res == depth_ok(lists_view(all@), c, r + 1),
{
    let ghost a = lists_view(all@);
    let position = c / 2;
    if is_base(c) || position >= all.len() || all[position].len() == 0 {
        proof {
            if position < all.len() {
                assert(a[position as int].len() == all@[position as int]@.len());
            }
        }
        return true;
    }
    let gts = &all[position];
    let ghost gv = a[position as int];
    assert(gv == gts@.map_values(|g: GraphType| g@));
    let mut i: usize = 0;
    let mut acc = true;
    assert(gv.take(0) =~= Seq::<GraphTypeView>::empty());
    while i < gts.len()
        invariant
            i <= gts@.len(),
            a == lists_view(all@),
            binary_params_ok(a),
            position < a.len(),
            gv == a[position as int],
            gv == gts@.map_values(|g: GraphType| g@),
            levels_recorded(a, ok@, r),
            r_pos == (r >= 1),
            acc == gts_ok(a, gv.take(i as int), r),
        decreases gts@.len() - i,
    {
        let gt = &gts[i];
        proof {
            assert(gv[i as int] == gt@);
            assert(is_binary(a[position as int][i as int].variant) ==> a[position as int][i as int].params.len() >= 2);
            assert(gv.take(i + 1).drop_last() =~= gv.take(i as int));
            assert(gv.take(i + 1).last() == gt@);
            assert(gts_ok(a, gv.take(i + 1), r) == (gts_ok(a, gv.take(i as int), r) && gt_ok(a, gt@, r)));
        }
        if gt.variant.is_binary() {
            let p0 = gt.params[0];
            let p1 = gt.params[1];
            assert(p0 == gt@.params[0] && p1 == gt@.params[1]);
            let s0 = if p0 > 0 {
                odd_part_of(p0)
            } else {
                p0
            };
            let s1 = if p1 > 0 {
                odd_part_of(p1)
            } else {
                p1
            };
            proof {
                lemma_sub_const(p0);
                lemma_sub_const(p1);
            }
            assert(s0 == sub_const(p0));
            assert(s1 == sub_const(p1));
            let ok0 = child_ok(all, s0, ok, r_pos, Ghost(r));
            let ok1 = child_ok(all, s1, ok, r_pos, Ghost(r));
            acc = acc && ok0 && ok1;
        }
        i = i + 1;
    }
    assert(gv.take(i as int) =~= gv);
    acc
}

/// The depth of the trees of `constant`, up to `limit`: `Some(d)` with `d <= limit` when its
/// trees are at most `d` levels deep, `None` when no such `d` exists (for instance when the
/// graph types of a constant lead back to it).
pub fn recursion_depth(all_types: &Vec<Vec<GraphType>>, constant: usize, limit: usize) -> (r: Option<usize>)
    requires
        binary_params_ok(lists_view(all_types@)),
    ensures
        (match r {
            Some(d) => d <= limit && depth_ok(lists_view(all_types@), constant, d as nat),
            None => forall|d: nat| d <= limit ==> !depth_ok(lists_view(all_types@), constant, d),
        }),
{
    let ghost a = lists_view(all_types@);
    let n = all_types.len();
    let mut ok: Vec<bool> = Vec::new();
    let mut p: usize = 0;
    while p < n
        invariant
            p <= n,
            n == a.len(),
            ok@.len() == p,
            forall|q: int| 0 <= q < p ==> !#[trigger] ok@[q],
        decreases n - p,
    {
        ok.push(false);
        p = p + 1;
    }
    let mut r: usize = 0;
    assert(levels_recorded(a, ok@, 0));
    if limit == 0 {
        return None;
    }
    loop
        invariant
            n == a.len(),
            a == lists_view(all_types@),
            binary_params_ok(a),
            levels_recorded(a, ok@, r as nat),
            r < limit,
            forall|d: nat| d <= r ==> !depth_ok(a, constant, d),
        decreases limit - r,
    {
        if node_ok(all_types, constant, &ok, r > 0, Ghost(r as nat)) {
            return Some(r + 1);
        }
        if r + 1 >= limit {
            return None;
        }
        let mut next: Vec<bool> = Vec::new();
        let mut changed = false;
        let mut q: usize = 0;
        while q < n
            invariant
                q <= n,
                n == a.len(),
                a == lists_view(all_types@),
                binary_params_ok(a),
                levels_recorded(a, ok@, r as nat),
                next@.len() == q,
                forall|c: usize|
                    c % 2 == 1 && c / 2 < q ==> #[trigger] next@[(c / 2) as int] == depth_ok(
                        a,
                        c,
                        (r + 1) as nat,
                    ),
                !changed ==> forall|c: usize|
                    c % 2 == 1 && c / 2 < q ==> #[trigger] depth_ok(a, c, (r + 1) as nat) == depth_ok(
                        a,
                        c,
                        r as nat,
                    ),
            decreases n - q,
        {
            let v = if q <= (usize::MAX - 1) / 2 {
                node_ok(all_types, 2 * q + 1, &ok, r > 0, Ghost(r as nat))
            } else {
                false
            };
            proof {
                assert forall|c: usize| c % 2 == 1 && c / 2 == q implies #[trigger] depth_ok(
                    a,
                    c,
                    (r + 1) as nat,
                ) == v by {
                    assert(c == 2 * q + 1);
                }
                assert forall|c: usize| c % 2 == 1 && c / 2 == q implies ok@[(c / 2) as int]
                    == depth_ok(a, c, r as nat) by {}
            }
            let ghost old_next = next@;
            if v != ok[q] {
                changed = true;
            }
            next.push(v);
            assert forall|c: usize| c % 2 == 1 && c / 2 < q + 1 implies #[trigger] next@[(c / 2) as int]
                == depth_ok(a, c, (r + 1) as nat) by {
                if c / 2 < q {
                    assert(next@[(c / 2) as int] == old_next[(c / 2) as int]);
                }
            }
            q = q + 1;
        }
        if !changed && r > 0 {
            proof {
                assert forall|d: nat| d <= limit implies !#[trigger] depth_ok(a, constant, d) by {
                    if d > r {
                        let k = (d - 1) as nat;
                        lemma_fixpoint(a, r as nat, k);
                        lemma_next_level(a, constant, k, r as nat);
                        assert(k + 1 == d);
                    }
                }
            }
            return None;
        }
        ok = next;
        r = r + 1;
    }
}


/// A constant that the table does not list (past its end, or with no graph types), and a
/// constant that is 0 or a power of two, has exactly one computation tree: itself, as a leaf.
pub proof fn law_unlisted_constant_is_a_leaf(all: Seq<Seq<GraphTypeView>>, c: usize)
    requires
        c / 2 >= all.len() || all[(c / 2) as int].len() == 0 || is_base_const(c as nat),
    ensures
        build_trees_of(all, c) == seq![TreeView::Leaf(c)],
{
    assert(depth_ok(all, c, 1));
    let d = choose|d: nat| depth_ok(all, c, d);
    assert(depth_ok(all, c, d));
    assert(d > 0);
}

/// Every constant whose trees have a bounded depth has at least one computation tree.
pub proof fn law_every_constant_has_a_tree(all: Seq<Seq<GraphTypeView>>, c: usize)
    requires
        has_depth(all, c),
    ensures
        build_trees_of(all, c).len() >= 1,
{
    let d = choose|d: nat| depth_ok(all, c, d);
    lemma_trees_nonempty(all, c, d);
}

proof fn lemma_nodes_nonempty(
    ls: Seq<TreeView>,
    rs: Seq<TreeView>,
    variant: Variant,
    p0: usize,
    p1: usize,
)
    requires
        ls.len() >= 1,
        rs.len() >= 1,
    ensures
        nodes_of(ls, rs, variant, p0, p1).len() >= 1,
{
    let back = rs.map_values(
        |r: TreeView|
            TreeView::Node { variant, left: Box::new(ls.last()), right: Box::new(r), p0, p1 },
    );
    assert(nodes_of(ls, rs, variant, p0, p1) == nodes_of(ls.drop_last(), rs, variant, p0, p1) + back);
}

proof fn lemma_trees_nonempty(all: Seq<Seq<GraphTypeView>>, c: usize, d: nat)
    requires
        depth_ok(all, c, d),
    ensures
        trees_of(all, c, d).len() >= 1,
    decreases d, 0nat, 0nat,
{
    if !is_leaf_const(all, c) {
        lemma_trees_for_nonempty(all, all[(c / 2) as int], (d - 1) as nat);
    }
}

proof fn lemma_trees_for_nonempty(all: Seq<Seq<GraphTypeView>>, gts: Seq<GraphTypeView>, e: nat)
    requires
        gts.len() >= 1,
        gts_ok(all, gts, e),
    ensures
        trees_for(all, gts, e).len() >= 1,
    decreases e, 2nat, gts.len(),
{
    lemma_trees_gt_nonempty(all, gts.last(), e);
}

proof fn lemma_trees_gt_nonempty(all: Seq<Seq<GraphTypeView>>, gt: GraphTypeView, e: nat)
    requires
        gt_ok(all, gt, e),
    ensures
        trees_gt(all, gt, e).len() >= 1,
    decreases e, 1nat, 0nat,
{
    if is_binary(gt.variant) {
        let p0 = gt.params[0];
        let p1 = gt.params[1];
        lemma_trees_nonempty(all, sub_const(p0), e);
        lemma_trees_nonempty(all, sub_const(p1), e);
        lemma_nodes_nonempty(
            trees_of(all, sub_const(p0), e),
            trees_of(all, sub_const(p1), e),
            gt.variant,
            p0,
            p1,
        );
    }
}

} // verus!
