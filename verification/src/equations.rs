//! Turning computation trees into named assignment steps.
use vstd::prelude::*;
use crate::bits::{
    bit_len, bit_length, eff_scale, eff_scale_of, odd_part, odd_part_of, trailing_zeros,
    trailing_zeros_of, tz,
};
use crate::graph_types::{
    binary_params_ok, decimal_params_of, join_params, lemma_wf_binary_params, lists_view, variant_name, GraphType, GraphTypeView,
    Variant,
};
use crate::text::{
    find_last, inline_shift, inline_shift_of, leaf_expr, lookup, pairs_view, replace_word,
    replace_words, replace_words_of, shift_expr_of, step_name, step_name_of, wrap, wrap_of,
};
use crate::trees::{
    build_trees, build_trees_of, cache_ok, depth_ok, height, lemma_build_trees_of,
    lemma_trees_height, recursion_depth, trees_of, trees_view, Tree, TreeView,
};
use crate::graph_types::{get_graph_types_data, graph_data_of, join};
use crate::text::{dec, usize_to_string};
use std::collections::HashMap;

verus! {

/// A single assignment step, e.g. `s0 = a + (a << 3)`.
#[derive(Debug, PartialEq, Eq)]
pub struct Step {
    pub name: String,
    pub expr: String,
}

impl View for Step {
    type V = (Seq<char>, Seq<char>);

    open spec fn view(&self) -> (Seq<char>, Seq<char>) {
        (self.name@, self.expr@)
    }
}

/// The steps as (name, expression) texts.
pub open spec fn steps_view(v: Seq<Step>) -> Seq<(Seq<char>, Seq<char>)> {
    v.map_values(|s: Step| s@)
}

/// The shift that the even part of a parameter stands for; 0 for 0.
pub open spec fn shift_raw_of(p: usize) -> int {
    if p > 0 {
        tz(p as nat) as int
    } else {
        0
    }
}

/// The odd part of a parameter; 0 for 0.
pub open spec fn odd_of(p: usize) -> usize {
    odd_part(p as nat) as usize
}

pub open spec fn max_int(a: int, b: int) -> int {
    if a >= b {
        a
    } else {
        b
    }
}

pub open spec fn min_int(a: int, b: int) -> int {
    if a <= b {
        a
    } else {
        b
    }
}

/// An expression left as it is when the shift is 0, else stored in a new step whose name is
/// returned.
pub open spec fn emit_shift_scaled_of(
    expr: Seq<char>,
    shift: int,
    steps: Seq<(Seq<char>, Seq<char>)>,
) -> (Seq<(Seq<char>, Seq<char>)>, Seq<char>) {
    if shift == 0 {
        (steps, expr)
    } else {
        let name = step_name_of(steps.len());
        (steps.push((name, inline_shift_of(expr, shift))), name)
    }
}

/// The steps of a cascade's outer stage replayed after `steps`: each renamed to the next free
/// name, with the input replaced by `wrapped` and earlier names by their new ones.
pub open spec fn replay_of(
    tmp: Seq<(Seq<char>, Seq<char>)>,
    steps: Seq<(Seq<char>, Seq<char>)>,
    remap: Seq<(Seq<char>, Seq<char>)>,
    input: Seq<char>,
    wrapped: Seq<char>,
) -> (Seq<(Seq<char>, Seq<char>)>, Seq<(Seq<char>, Seq<char>)>)
    decreases tmp.len(),
{
    if tmp.len() == 0 {
        (steps, remap)
    } else {
        let new_name = step_name_of(steps.len());
        let new_expr = replace_words_of(tmp[0].1, seq![(input, wrapped)] + remap);
        replay_of(
            tmp.drop_first(),
            steps.push((new_name, new_expr)),
            remap.push((tmp[0].0, new_name)),
            input,
            wrapped,
        )
    }
}

/// The steps that compute a tree, appended to `steps`, and the name or inline expression of
/// its value; `node_scale` is the number of fractional bits the value is scaled down by.
pub open spec fn flatten_of(
    tree: TreeView,
    node_scale: int,
    steps: Seq<(Seq<char>, Seq<char>)>,
    input: Seq<char>,
) -> (Seq<(Seq<char>, Seq<char>)>, Seq<char>)
    decreases tree,
{
    match tree {
        TreeView::Leaf(c) => {
            if c == 1 {
                (steps, input)
            } else {
                (steps, inline_shift_of(input, trailing_zeros_of(c) - node_scale))
            }
        },
        TreeView::Leapfrog { variant, params } => {
            let name = step_name_of(steps.len());
            let expr = "<"@ + variant_name(variant) + "("@ + decimal_params_of(params) + ")>"@;
            (steps.push((name, expr)), name)
        },
        TreeView::Node { variant, left, right, p0, p1 } => {
            let p0_shift = shift_raw_of(p0);
            let p1_shift = shift_raw_of(p1);
            let p0_odd = odd_of(p0);
            let p1_odd = odd_of(p1);
            let scaled = node_scale > 0;
            let p0_child_scale = eff_scale_of(p0_odd as nat, scaled);
            if variant == Variant::Cascade {
                let inner_scale = eff_scale_of(p0 as nat, scaled);
                let outer_scale = node_scale - inner_scale;
                let (st1, left_base) = flatten_of(*left, p0_child_scale, steps, input);
                let intermediate = inline_shift_of(
                    left_base,
                    p0_child_scale + p0_shift - inner_scale,
                );
                let (tmp, right_result) = flatten_of(*right, outer_scale, seq![], input);
                cascade_tail_of(tmp, st1, input, wrap_of(intermediate), right_result, p1_shift)
            } else {
                let c0 = child_scale_of(eff_scale_of(p0_odd as nat, scaled), node_scale, p0_shift);
                let c1 = child_scale_of(eff_scale_of(p1_odd as nat, scaled), node_scale, p1_shift);
                let (st1, left_base) = flatten_of(*left, c0, steps, input);
                let (st2, right_base) = flatten_of(*right, c1, st1, input);
                let expr = add_sub_of(
                    variant,
                    left_base,
                    right_base,
                    c0 + p0_shift - node_scale,
                    c1 + p1_shift - node_scale,
                );
                let name = step_name_of(st2.len());
                (st2.push((name, expr)), name)
            }
        },
    }
}

/// The scale of an operand of an adder or subtractor: its own scale, but no more than what
/// the node's scale leaves after the operand's shift.
pub open spec fn child_scale_of(eff: int, node_scale: int, shift: int) -> int {
    min_int(eff, max_int(node_scale - shift, 0))
}

/// The expression of an adder or subtractor over two operands and their net shifts. When
/// both operands need a right shift, the common part is applied to the result instead; an
/// adder puts a lone shift on its right operand.
pub open spec fn add_sub_of(
    variant: Variant,
    left_base: Seq<char>,
    right_base: Seq<char>,
    left_net: int,
    right_net: int,
) -> Seq<char> {
    let factor = max_int(left_net, right_net);
    let both_right = left_net < 0 && right_net < 0;
    let left_adj = if both_right {
        left_net - factor
    } else {
        left_net
    };
    let right_adj = if both_right {
        right_net - factor
    } else {
        right_net
    };
    let result_shift = if both_right {
        factor
    } else {
        0
    };
    let swap = variant == Variant::Adder && left_adj != 0 && right_adj == 0;
    let left_expr = if swap {
        inline_shift_of(right_base, right_adj)
    } else {
        inline_shift_of(left_base, left_adj)
    };
    let right_expr = if swap {
        inline_shift_of(left_base, left_adj)
    } else {
        inline_shift_of(right_base, right_adj)
    };
    let add_sub = if variant == Variant::Adder {
        "("@ + wrap_of(left_expr) + " + "@ + wrap_of(right_expr) + ")"@
    } else if variant == Variant::Subtractor {
        "("@ + wrap_of(left_expr) + " - "@ + wrap_of(right_expr) + ")"@
    } else {
        "<"@ + variant_name(variant) + ">"@
    };
    if result_shift == 0 {
        add_sub
    } else {
        inline_shift_of(add_sub, result_shift)
    }
}

/// The end of a cascade: the outer stage's steps replayed after `steps`, its result renamed
/// (or stored with the input replaced), then the second parameter's shift.
pub open spec fn cascade_tail_of(
    tmp: Seq<(Seq<char>, Seq<char>)>,
    steps: Seq<(Seq<char>, Seq<char>)>,
    input: Seq<char>,
    wrapped: Seq<char>,
    right_result: Seq<char>,
    p1_shift: int,
) -> (Seq<(Seq<char>, Seq<char>)>, Seq<char>) {
    let (st2, remap) = replay_of(tmp, steps, seq![], input, wrapped);
    match lookup(remap, right_result) {
        Some(mapped) => emit_shift_scaled_of(mapped, p1_shift, st2),
        None => {
            let subbed = replace_words_of(right_result, seq![(input, wrapped)]);
            let name = step_name_of(st2.len());
            emit_shift_scaled_of(name, p1_shift, st2.push((name, subbed)))
        },
    }
}

/// The scales met while flattening a tree stay far inside `i32`.
pub open spec fn scale_fits(tree: TreeView, node_scale: int) -> bool {
    height(tree) * 128 + (if node_scale >= 0 {
        node_scale
    } else {
        -node_scale
    }) < 0x4000_0000
}

/// Emits a shift as a named step (use only when a step name is required as a return value).
pub fn emit_shift_scaled(expr: &str, shift: i32, steps: &mut Vec<Step>) -> (r: String)
    requires
        shift > i32::MIN,
    ensures
        (steps_view(final(steps)@), r@) == emit_shift_scaled_of(expr@, shift as int, steps_view(old(steps)@)),
{
    if shift == 0 {
        return String::from_str(expr);
    }
    let name = step_name(steps.len());
    let ghost before = steps@;
    let step = Step { name: name.clone(), expr: inline_shift(expr, shift) };
    steps.push(step);
    assert(steps_view(steps@) =~= steps_view(before).push(step@));
    name
}

fn push_step(steps: &mut Vec<Step>, name: String, expr: String)
    ensures
        steps_view(final(steps)@) == steps_view(old(steps)@).push((name@, expr@)),
{
    let ghost before = steps@;
    let step = Step { name, expr };
    steps.push(step);
    assert(steps_view(steps@) =~= steps_view(before).push(step@));
}

/// The steps of a cascade's outer stage, replayed after `steps` under new names.
fn replay_steps(
    tmp_steps: &Vec<Step>,
    steps: &mut Vec<Step>,
    input_var: &str,
    wrapped: &String,
) -> (remap: Vec<(String, String)>)
    ensures
        replay_of(steps_view(tmp_steps@), steps_view(old(steps)@), seq![], input_var@, wrapped@) == (
        steps_view(final(steps)@),
        pairs_view(remap@),
        ),
{
    let ghost tmpv = steps_view(tmp_steps@);
    let ghost st1 = steps_view(steps@);
    let mut remap: Vec<(String, String)> = Vec::new();
    let mut subst: Vec<(String, String)> = Vec::new();
    subst.push((String::from_str(input_var), wrapped.clone()));
    let mut k: usize = 0;
    assert(tmpv.skip(0) =~= tmpv);
    assert(pairs_view(remap@) =~= Seq::<(Seq<char>, Seq<char>)>::empty());
    assert(pairs_view(subst@) =~= seq![(input_var@, wrapped@)] + pairs_view(remap@));
    while k < tmp_steps.len()
        invariant
            k <= tmp_steps@.len(),
            tmpv == steps_view(tmp_steps@),
            replay_of(tmpv, st1, seq![], input_var@, wrapped@) == replay_of(
                tmpv.skip(k as int),
                steps_view(steps@),
                pairs_view(remap@),
                input_var@,
                wrapped@,
            ),
            pairs_view(subst@) == seq![(input_var@, wrapped@)] + pairs_view(remap@),
        decreases tmp_steps@.len() - k,
    {
        let ghost rest = tmpv.skip(k as int);
        assert(rest[0] == tmp_steps@[k as int]@);
        assert(rest.drop_first() =~= tmpv.skip(k + 1));
        let new_name = step_name(steps.len());
        let new_expr = replace_words(tmp_steps[k].expr.as_str(), &subst);
        let ghost old_remap = remap@;
        let ghost old_subst = subst@;
        remap.push((tmp_steps[k].name.clone(), new_name.clone()));
        subst.push((tmp_steps[k].name.clone(), new_name.clone()));
        assert(pairs_view(remap@) =~= pairs_view(old_remap).push((tmp_steps@[k as int].name@, new_name@)));
        assert(pairs_view(subst@) =~= pairs_view(old_subst).push((tmp_steps@[k as int].name@, new_name@)));
        assert(pairs_view(subst@) =~= seq![(input_var@, wrapped@)] + pairs_view(remap@));
        push_step(steps, new_name, new_expr);
        k = k + 1;
    }
    assert(tmpv.skip(k as int) =~= Seq::<(Seq<char>, Seq<char>)>::empty());
    remap
}

fn child_scale(eff: i32, node_scale: i32, shift: i32) -> (r: i32)
    requires
        0 <= eff <= 64,
        0 <= shift <= 64,
        -0x4000_0000 < node_scale < 0x4000_0000,
    ensures
        r == child_scale_of(eff as int, node_scale as int, shift as int),
        0 <= r <= 64,
{
    let m = if node_scale - shift > 0 {
        node_scale - shift
    } else {
        0
    };
    if eff <= m {
        eff
    } else {
        m
    }
}

fn add_sub_expr(variant: Variant, left_base: &String, right_base: &String, left_net: i32, right_net: i32) -> (r: String)
    requires
        -0x4000_0000 < left_net < 0x4000_0000,
        -0x4000_0000 < right_net < 0x4000_0000,
    ensures
        r@ == add_sub_of(variant, left_base@, right_base@, left_net as int, right_net as int),
{
    let (left_net_adj, right_net_adj, result_shift) = if left_net < 0 && right_net < 0 {
        let factor = if left_net >= right_net {
            left_net
        } else {
            right_net
        };
        (left_net - factor, right_net - factor, factor)
    } else {
        (left_net, right_net, 0)
    };
    let swap = variant == Variant::Adder && left_net_adj != 0 && right_net_adj == 0;
    let left_expr = if swap {
        inline_shift(right_base.as_str(), right_net_adj)
    } else {
        inline_shift(left_base.as_str(), left_net_adj)
    };
    let right_expr = if swap {
        inline_shift(left_base.as_str(), left_net_adj)
    } else {
        inline_shift(right_base.as_str(), right_net_adj)
    };
    let add_sub = if variant == Variant::Adder {
        let mut e = String::from_str("(");
        e.append(wrap(left_expr.as_str()).as_str());
        e.append(" + ");
        e.append(wrap(right_expr.as_str()).as_str());
        e.append(")");
        e
    } else if variant == Variant::Subtractor {
        let mut e = String::from_str("(");
        e.append(wrap(left_expr.as_str()).as_str());
        e.append(" - ");
        e.append(wrap(right_expr.as_str()).as_str());
        e.append(")");
        e
    } else {
        let mut e = String::from_str("<");
        e.append(variant.name());
        e.append(">");
        e
    };
    if result_shift == 0 {
        add_sub
    } else {
        inline_shift(add_sub.as_str(), result_shift)
    }
}

fn cascade_tail(
    tmp_steps: &Vec<Step>,
    steps: &mut Vec<Step>,
    input_var: &str,
    wrapped: &String,
    right_result: &String,
    p1_shift: i32,
) -> (r: String)
    requires
        0 <= p1_shift <= 64,
    ensures
        (steps_view(final(steps)@), r@) == cascade_tail_of(
            steps_view(tmp_steps@),
            steps_view(old(steps)@),
            input_var@,
            wrapped@,
            right_result@,
            p1_shift as int,
        ),
{
    let remap = replay_steps(tmp_steps, steps, input_var, wrapped);
    let remapped = match find_last(&remap, right_result) {
        Some(j) => remap[j].1.clone(),
        None => {
            let mut one: Vec<(String, String)> = Vec::new();
            one.push((String::from_str(input_var), wrapped.clone()));
            assert(pairs_view(one@) =~= seq![(input_var@, wrapped@)]);
            let subbed = replace_words(right_result.as_str(), &one);
            let new_name = step_name(steps.len());
            push_step(steps, new_name.clone(), subbed);
            new_name
        },
    };
    emit_shift_scaled(remapped.as_str(), p1_shift, steps)
}

/// Appends to `steps` the steps that compute `tree`, and returns the name (or the inline
/// expression) that holds its value.
pub fn flatten(tree: &Tree, node_scale: i32, steps: &mut Vec<Step>, input_var: &str) -> (r: String)
    requires
        scale_fits(tree@, node_scale as int),
    ensures
        (steps_view(final(steps)@), r@) == flatten_of(
            tree@,
            node_scale as int,
            steps_view(old(steps)@),
            input_var@,
        ),
    decreases tree,
{
    match tree {
        Tree::Leaf(c) => {
            if *c == 1 {
                return String::from_str(input_var);
            }
            let shift_raw = trailing_zeros(*c) as i32;
            let net = shift_raw - node_scale;
            inline_shift(input_var, net)
        },
        Tree::Leapfrog { variant, params } => {
            let name = step_name(steps.len());
            let mut expr = String::from_str("<");
            expr.append(variant.name());
            expr.append("(");
            expr.append(join_params(params, false).as_str());
            expr.append(")>");
            push_step(steps, name.clone(), expr);
            name
        },
        Tree::Node { variant, left, right, p0, p1 } => {
            let p0_shift_raw: i32 = if *p0 > 0 {
                trailing_zeros(*p0) as i32
            } else {
                0
            };
            let p1_shift_raw: i32 = if *p1 > 0 {
                trailing_zeros(*p1) as i32
            } else {
                0
            };
            let p0_odd = if *p0 > 0 {
                odd_part_of(*p0)
            } else {
                *p0
            };
            let p1_odd = if *p1 > 0 {
                odd_part_of(*p1)
            } else {
                *p1
            };
            let scaled = node_scale > 0;
            let p0_child_scale = eff_scale(p0_odd, scaled);
            if *variant == Variant::Cascade {
                let inner_scale = eff_scale(*p0, scaled);
                let outer_scale = node_scale - inner_scale;
                let left_base = flatten(left, p0_child_scale, steps, input_var);
                let inner_net = p0_child_scale + p0_shift_raw - inner_scale;
                let intermediate = inline_shift(left_base.as_str(), inner_net);
                let mut tmp_steps: Vec<Step> = Vec::new();
                assert(steps_view(tmp_steps@) =~= Seq::<(Seq<char>, Seq<char>)>::empty());
                let right_result = flatten(right, outer_scale, &mut tmp_steps, input_var);
                let wrapped = wrap(intermediate.as_str());
                return cascade_tail(&tmp_steps, steps, input_var, &wrapped, &right_result, p1_shift_raw);
            }
            let p0_child_scale_add = child_scale(eff_scale(p0_odd, scaled), node_scale, p0_shift_raw);
            let p1_child_scale_add = child_scale(eff_scale(p1_odd, scaled), node_scale, p1_shift_raw);
            let left_base = flatten(left, p0_child_scale_add, steps, input_var);
            let right_base = flatten(right, p1_child_scale_add, steps, input_var);
            let left_net = p0_child_scale_add + p0_shift_raw - node_scale;
            let right_net = p1_child_scale_add + p1_shift_raw - node_scale;
            let expr = add_sub_expr(*variant, &left_base, &right_base, left_net, right_net);
            let name = step_name(steps.len());
            push_step(steps, name.clone(), expr);
            name
        },
    }
}

/// An ordered sequence of steps that together compute `constant * input`.
#[derive(Debug, PartialEq, Eq)]
pub struct StepSequence {
    pub steps: Vec<Step>,
}

impl View for StepSequence {
    type V = Seq<(Seq<char>, Seq<char>)>;

    open spec fn view(&self) -> Seq<(Seq<char>, Seq<char>)> {
        steps_view(self.steps@)
    }
}

/// The deepest recursion through the graph types that is followed. A recursion that deep
/// overflows any thread's stack long before.
pub const MAX_DEPTH: usize = 0x10_0000;

/// The trees of `c` have a depth of at most `MAX_DEPTH`.
pub open spec fn depth_within_limit(all: Seq<Seq<GraphTypeView>>, c: usize) -> bool {
    exists|d: nat| d <= MAX_DEPTH && depth_ok(all, c, d)
}

/// The scale that the whole tree starts with: the constant's bit length when scaled.
pub open spec fn initial_scale_of(odd_constant: usize, scaled: bool) -> int {
    if scaled {
        bit_len(odd_constant as nat) as int
    } else {
        0
    }
}

/// The single step of a constant that needs no adder: its product with the input, or,
/// scaled, the product of its odd part shifted right by the odd part's bit length.
pub open spec fn trivial_step_of(constant: usize, input: Seq<char>, scaled: bool) -> Seq<char> {
    let oc = odd_constant_of(constant);
    if scaled {
        inline_shift_of(shift_expr_of(oc as nat, input), -(bit_len(oc as nat) as int))
    } else {
        shift_expr_of(constant as nat, input)
    }
}

/// The left shift that turns the odd part's result into the constant's, when not scaled (a
/// scaled result stands for the fraction `c / 2^bit_len(c)`, the same for `c` and its odd
/// part).
pub open spec fn even_shift_of(constant: usize, scaled: bool) -> int {
    if !scaled && constant > 0 {
        tz(constant as nat) as int
    } else {
        0
    }
}

/// The steps with the result renamed to the output name, in the last step and wherever
/// earlier steps mention it.
pub open spec fn renamed_of(
    steps: Seq<(Seq<char>, Seq<char>)>,
    last_name: Seq<char>,
    output: Option<Seq<char>>,
) -> Seq<(Seq<char>, Seq<char>)> {
    match output {
        None => steps,
        Some(o) => Seq::new(
            steps.len(),
            |i: int|
                if i == steps.len() - 1 {
                    (o, steps[i].1)
                } else {
                    (steps[i].0, replace_words_of(steps[i].1, seq![(last_name, o)]))
                },
        ),
    }
}

/// The steps after the last name is settled: a single direct assignment when no step was
/// needed; otherwise the odd part's result shifted to the constant's in a step of its own
/// (when not scaled and the constant is even), then renamed to the output name.
pub open spec fn finalize_of(
    steps: Seq<(Seq<char>, Seq<char>)>,
    last_name: Seq<char>,
    constant: usize,
    input: Seq<char>,
    output: Option<Seq<char>>,
    scaled: bool,
) -> Seq<(Seq<char>, Seq<char>)> {
    if steps.len() == 0 {
        let name = match output {
            Some(o) => o,
            None => "s0"@,
        };
        seq![(name, trivial_step_of(constant, input, scaled))]
    } else {
        let (st, last) = emit_shift_scaled_of(last_name, even_shift_of(constant, scaled), steps);
        renamed_of(st, last, output)
    }
}

/// The step sequence of one tree of the constant's odd part.
pub open spec fn sequence_of(
    tree: TreeView,
    constant: usize,
    input: Seq<char>,
    output: Option<Seq<char>>,
    scaled: bool,
) -> Seq<(Seq<char>, Seq<char>)> {
    let (steps, last_name) = flatten_of(
        tree,
        initial_scale_of(odd_constant_of(constant), scaled),
        seq![],
        input,
    );
    finalize_of(steps, last_name, constant, input, output, scaled)
}

/// The odd part of a constant; 0 for 0.
pub open spec fn odd_constant_of(constant: usize) -> usize {
    odd_part(constant as nat) as usize
}

/// All equation sequences for `constant * input`: one per computation tree of its odd part.
pub open spec fn equations_of(
    all: Seq<Seq<GraphTypeView>>,
    constant: usize,
    input: Seq<char>,
    output: Option<Seq<char>>,
    scaled: bool,
) -> Seq<Seq<(Seq<char>, Seq<char>)>> {
    build_trees_of(all, odd_constant_of(constant)).map_values(
        |t: TreeView| sequence_of(t, constant, input, output, scaled),
    )
}

/// The views of step sequences.
pub open spec fn sequences_view(v: Seq<StepSequence>) -> Seq<Seq<(Seq<char>, Seq<char>)>> {
    v.map_values(|q: StepSequence| q@)
}

/// The single step of a constant that needs no adder.
fn trivial_step(constant: usize, odd_constant: usize, input_var: &str, scaled: bool) -> (r: String)
    requires
        odd_constant == odd_constant_of(constant),
    ensures
        r@ == trivial_step_of(constant, input_var@, scaled),
{
    if scaled {
        let product = leaf_expr(odd_constant, input_var);
        let bits = bit_length(odd_constant);
        inline_shift(product.as_str(), -bits)
    } else {
        leaf_expr(constant, input_var)
    }
}

fn rename_result(steps: &mut Vec<Step>, last_name: &String, out: &str)
    requires
        old(steps)@.len() > 0,
    ensures
        steps_view(final(steps)@) == renamed_of(steps_view(old(steps)@), last_name@, Some(out@)),
{
    let ghost v = steps_view(steps@);
    let n = steps.len();
    let last_expr = steps[n - 1].expr.clone();
    steps.set(n - 1, Step { name: String::from_str(out), expr: last_expr });
    let mut i: usize = 0;
    while i < n - 1
        invariant
            n == steps@.len(),
            n == v.len(),
            n > 0,
            i <= n - 1,
            forall|j: int|
                0 <= j < i ==> #[trigger] steps@[j]@ == (v[j].0, replace_words_of(
                    v[j].1,
                    seq![(last_name@, out@)],
                )),
            forall|j: int| i <= j < n - 1 ==> #[trigger] steps@[j]@ == v[j],
            steps@[n - 1]@ == (out@, v[n - 1].1),
        decreases n - 1 - i,
    {
        let new_expr = replace_word(steps[i].expr.as_str(), last_name.as_str(), out);
        let name = steps[i].name.clone();
        let ghost before = steps@;
        assert(before[i as int]@ == v[i as int]);
        let step = Step { name, expr: new_expr };
        assert(step@ == (v[i as int].0, replace_words_of(v[i as int].1, seq![(last_name@, out@)])));
        steps.set(i, step);
        assert forall|j: int| 0 <= j < n && j != i implies #[trigger] steps@[j] == before[j] by {}
        assert(steps@[i as int] == step);
        i = i + 1;
    }
    assert(steps_view(steps@) =~= renamed_of(v, last_name@, Some(out@)));
}

/// Returns all equation sequences for `constant * input_var`, over a decoded table of graph
/// types; `scaled` keeps the values in `[0, 1)` as fixed-point numbers.
pub fn equations_for(
    all_types: &Vec<Vec<GraphType>>,
    constant: usize,
    input_var: &str,
    output_var: Option<&str>,
    scaled: bool,
) -> (r: Vec<StepSequence>)
    requires
        binary_params_ok(lists_view(all_types@)),
        depth_within_limit(lists_view(all_types@), odd_constant_of(constant)),
    ensures
        sequences_view(r@) == equations_of(
            lists_view(all_types@),
            constant,
            input_var@,
            match output_var {
                Some(o) => Some(o@),
                None => None,
            },
            scaled,
        ),
{
    let ghost a = lists_view(all_types@);
    let ghost out_v = match output_var {
        Some(o) => Some(o@),
        None => None::<Seq<char>>,
    };
    let odd_constant = if constant > 0 {
        odd_part_of(constant)
    } else {
        constant
    };
    let ghost d = choose|d: nat| d <= MAX_DEPTH && depth_ok(a, odd_constant, d);
    proof {
        lemma_build_trees_of(a, odd_constant, d);
        lemma_trees_height(a, odd_constant, d);
    }
    let mut cache: HashMap<usize, Vec<Tree>> = HashMap::new();
    assert(cache_ok(a, cache@));
    let trees = build_trees(all_types, odd_constant, &mut cache);
    let ghost tv = trees_view(trees@);
    let node_scale = if scaled {
        bit_length(odd_constant)
    } else {
        0
    };
    let mut result: Vec<StepSequence> = Vec::new();
    let mut k: usize = 0;
    while k < trees.len()
        invariant
            k <= trees@.len(),
            tv == trees_view(trees@),
            tv == trees_of(a, odd_constant, d),
            d <= MAX_DEPTH,
            forall|i: int| 0 <= i < tv.len() ==> height(#[trigger] tv[i]) <= d,
            node_scale == initial_scale_of(odd_constant, scaled),
            odd_constant == odd_constant_of(constant),
            0 <= node_scale <= 64,
            out_v == (match output_var {
                Some(o) => Some(o@),
                None => None::<Seq<char>>,
            }),
            sequences_view(result@) == tv.take(k as int).map_values(
                |t: TreeView| sequence_of(t, constant, input_var@, out_v, scaled),
            ),
        decreases trees@.len() - k,
    {
        let tree = &trees[k];
        assert(tv[k as int] == tree@);
        assert(height(tree@) <= d);
        let mut steps: Vec<Step> = Vec::new();
        assert(steps_view(steps@) =~= Seq::<(Seq<char>, Seq<char>)>::empty());
        let last_name = flatten(tree, node_scale, &mut steps, input_var);
        let ghost flat = steps_view(steps@);
        assert((flat, last_name@) == flatten_of(tree@, node_scale as int, seq![], input_var@));
        if steps.len() == 0 {
            let name = match output_var {
                Some(o) => String::from_str(o),
                None => String::from_str("s0"),
            };
            let expr = trivial_step(constant, odd_constant, input_var, scaled);
            let ghost name_v = name@;
            let ghost expr_v = expr@;
            push_step(&mut steps, name, expr);
            assert(steps_view(steps@) =~= seq![(name_v, expr_v)]);
        } else {
            let shift: i32 = if !scaled && constant > 0 {
                trailing_zeros(constant) as i32
            } else {
                0
            };
            assert(shift == even_shift_of(constant, scaled));
            let last = emit_shift_scaled(last_name.as_str(), shift, &mut steps);
            let ghost st = steps_view(steps@);
            assert((st, last@) == emit_shift_scaled_of(last_name@, shift as int, flat));
            assert(st.len() > 0);
            match output_var {
                Some(out) => {
                    rename_result(&mut steps, &last, out);
                    assert(out_v == Some(out@));
                },
                None => {},
            }
        }
        assert(steps_view(steps@) == sequence_of(tree@, constant, input_var@, out_v, scaled));
        let ghost before = result@;
        let q = StepSequence { steps };
        result.push(q);
        assert(sequences_view(result@) =~= sequences_view(before).push(q@));
        assert(tv.take(k + 1).map_values(
            |t: TreeView| sequence_of(t, constant, input_var@, out_v, scaled),
        ) =~= tv.take(k as int).map_values(
            |t: TreeView| sequence_of(t, constant, input_var@, out_v, scaled),
        ).push(sequence_of(tv[k as int], constant, input_var@, out_v, scaled)));
        k = k + 1;
    }
    assert(tv.take(k as int) =~= tv);
    result
}

/// Why the equations of a constant cannot be had.
#[derive(Debug, PartialEq, Eq)]
pub enum EquationsError {
    /// The table could not be decompressed or decoded; the message says why.
    Data(String),
    /// The graph types of the constant lead back to themselves, or deeper than `MAX_DEPTH`:
    /// following them would not end.
    Unbounded,
}

/// Returns all equation sequences for `constant * input_var`, from the compressed table of
/// graph types. `output_var` renames the result; `scaled` keeps the values in `[0, 1)` as
/// fixed-point numbers.
pub fn get_equations(
    compressed: &[u8],
    constant: usize,
    input_var: &str,
    output_var: Option<&str>,
    scaled: bool,
) -> (r: Result<Vec<StepSequence>, EquationsError>)
    ensures
        (match r {
            Ok(v) => graph_data_of(compressed@) matches Ok(all) && depth_within_limit(
                all,
                odd_constant_of(constant),
            ) && sequences_view(v@) == equations_of(
                all,
                constant,
                input_var@,
                match output_var {
                    Some(o) => Some(o@),
                    None => None,
                },
                scaled,
            ),
            Err(EquationsError::Data(e)) => graph_data_of(compressed@) == Err::<
                Seq<Seq<GraphTypeView>>,
                Seq<char>,
            >(e@),
            Err(EquationsError::Unbounded) => graph_data_of(compressed@) matches Ok(all)
                && !depth_within_limit(all, odd_constant_of(constant)),
        }),
{
    let all_types = match get_graph_types_data(compressed) {
        Ok(all) => all,
        Err(e) => return Err(EquationsError::Data(e)),
    };
    let odd_constant = if constant > 0 {
        odd_part_of(constant)
    } else {
        constant
    };
    proof {
        lemma_wf_binary_params(lists_view(all_types@));
    }
    match recursion_depth(&all_types, odd_constant, MAX_DEPTH) {
        Some(_) => {},
        None => {
            return Err(EquationsError::Unbounded);
        },
    }
    Ok(equations_for(&all_types, constant, input_var, output_var, scaled))
}

/// A step as text: `name = expr`.
pub open spec fn step_line_of(s: (Seq<char>, Seq<char>)) -> Seq<char> {
    s.0 + " = "@ + s.1
}

/// The name that holds the result of a sequence: its last step's, or `x` when it has none.
pub open spec fn result_of(steps: Seq<(Seq<char>, Seq<char>)>) -> Seq<char> {
    if steps.len() == 0 {
        "x"@
    } else {
        steps.last().0
    }
}

/// A sequence as text: one step per line.
pub open spec fn sequence_text_of(steps: Seq<(Seq<char>, Seq<char>)>) -> Seq<char> {
    join(steps.map_values(|s: (Seq<char>, Seq<char>)| step_line_of(s)), "\n"@)
}

impl Step {
    /// The step as text: `name = expr`.
    pub fn __str__(&self) -> (r: String)
        ensures
            r@ == step_line_of(self@),
    {
        let mut r = self.name.clone();
        r.append(" = ");
        r.append(self.expr.as_str());
        r
    }
}

impl StepSequence {
    /// The name of the variable that holds the result: the last step's, or `x`.
    pub fn result(&self) -> (r: String)
        ensures
            r@ == result_of(self@),
    {
        let n = self.steps.len();
        if n == 0 {
            String::from_str("x")
        } else {
            self.steps[n - 1].name.clone()
        }
    }

    /// The steps as text, one per line.
    pub fn __str__(&self) -> (r: String)
        ensures
            r@ == sequence_text_of(self@),
    {
        let ghost v = self@;
        let ghost f = |s: (Seq<char>, Seq<char>)| step_line_of(s);
        let mut r = String::new();
        let mut i: usize = 0;
        while i < self.steps.len()
            invariant
                i <= self.steps@.len(),
                v == self@,
                v == steps_view(self.steps@),
                f == (|s: (Seq<char>, Seq<char>)| step_line_of(s)),
                r@ == join(v.take(i as int).map_values(f), "\n"@),
            decreases self.steps@.len() - i,
        {
            let line = self.steps[i].__str__();
            let ghost before = v.take(i as int).map_values(f);
            let ghost after = v.take(i + 1).map_values(f);
            assert(after.drop_last() =~= before);
            assert(v[i as int] == self.steps@[i as int]@);
            assert(after.last() == line@);
            if i > 0 {
                r.append("\n");
            } else {
                assert(after.len() == 1);
            }
            r.append(line.as_str());
            i = i + 1;
        }
        assert(v.take(i as int) =~= v);
        r
    }
}

/// The block that shows one sequence in a report.
pub open spec fn report_block_of(i: nat, steps: Seq<(Seq<char>, Seq<char>)>) -> Seq<char> {
    "# combination "@ + dec(i) + "  (result: "@ + result_of(steps) + ")\n"@ + sequence_text_of(
        steps,
    ) + "\n\n"@
}

/// The blocks of the first sequences of a report, in order.
pub open spec fn report_blocks_of(seqs: Seq<Seq<(Seq<char>, Seq<char>)>>) -> Seq<char>
    decreases seqs.len(),
{
    if seqs.len() == 0 {
        seq![]
    } else {
        report_blocks_of(seqs.drop_last()) + report_block_of((seqs.len() - 1) as nat, seqs.last())
    }
}

/// The printed report of all equation sequences for a constant.
pub open spec fn report_of(
    constant: usize,
    input: Seq<char>,
    seqs: Seq<Seq<(Seq<char>, Seq<char>)>>,
) -> Seq<char> {
    "# "@ + dec(constant as nat) + "*"@ + input + "  —  "@ + dec(seqs.len()) + " combination(s)\n\n"@
        + report_blocks_of(seqs)
}

/// The report opens with a header line that names the constant asked for (even ones as they
/// are, not their odd part), the input, and the number of sequences.
pub proof fn law_report_header(
    constant: usize,
    input: Seq<char>,
    seqs: Seq<Seq<(Seq<char>, Seq<char>)>>,
)
    ensures
        ({
            let h = "# "@ + dec(constant as nat) + "*"@ + input + "  —  "@ + dec(seqs.len())
                + " combination(s)\n\n"@;
            report_of(constant, input, seqs).len() >= h.len() && report_of(constant, input, seqs).subrange(
                0,
                h.len() as int,
            ) == h
        }),
{
    let h = "# "@ + dec(constant as nat) + "*"@ + input + "  —  "@ + dec(seqs.len())
        + " combination(s)\n\n"@;
    assert(report_of(constant, input, seqs) == h + report_blocks_of(seqs));
    assert((h + report_blocks_of(seqs)).subrange(0, h.len() as int) =~= h);
}

/// The text that pretty-prints all equation sequences for a constant.
#[verifier::spinoff_prover]
#[verifier::rlimit(40)]
pub fn equations_report(constant: usize, input_var: &str, seqs: &Vec<StepSequence>) -> (r: String)
    ensures
        r@ == report_of(constant, input_var@, sequences_view(seqs@)),
{
    let ghost v = sequences_view(seqs@);
    let mut r = String::from_str("# ");
    r.append(usize_to_string(constant).as_str());
    r.append("*");
    r.append(input_var);
    r.append("  —  ");
    r.append(usize_to_string(seqs.len()).as_str());
    r.append(" combination(s)\n\n");
    let ghost header = r@;
    let mut i: usize = 0;
    assert(v.take(0) =~= Seq::<Seq<(Seq<char>, Seq<char>)>>::empty());
    while i < seqs.len()
        invariant
            i <= seqs@.len(),
            v == sequences_view(seqs@),
            r@ == header + report_blocks_of(v.take(i as int)),
            header == "# "@ + dec(constant as nat) + "*"@ + input_var@ + "  —  "@ + dec(v.len())
                + " combination(s)\n\n"@,
        decreases seqs@.len() - i,
    {
        let q = &seqs[i];
        assert(v[i as int] == q@);
        assert(v.take(i + 1).drop_last() =~= v.take(i as int));
        r.append("# combination ");
        r.append(usize_to_string(i).as_str());
        r.append("  (result: ");
        r.append(q.result().as_str());
        r.append(")\n");
        r.append(q.__str__().as_str());
        r.append("\n\n");
        i = i + 1;
    }
    assert(v.take(i as int) =~= v);
    r
}

/// Steps named `s0`, `s1`, ... in order.
pub open spec fn names_sequential(steps: Seq<(Seq<char>, Seq<char>)>) -> bool {
    names_from(steps, 0)
}

/// The steps from position `n0` on are named after their positions.
pub open spec fn names_from(steps: Seq<(Seq<char>, Seq<char>)>, n0: nat) -> bool {
    forall|i: int| n0 <= i < steps.len() ==> #[trigger] steps[i].0 == step_name_of(i as nat)
}

/// `steps` is kept at the front of `longer`.
pub open spec fn is_prefix(steps: Seq<(Seq<char>, Seq<char>)>, longer: Seq<(Seq<char>, Seq<char>)>) -> bool {
    steps.len() <= longer.len() && longer.subrange(0, steps.len() as int) == steps
}

proof fn lemma_push_named(steps: Seq<(Seq<char>, Seq<char>)>, expr: Seq<char>, n0: nat)
    requires
        names_from(steps, n0),
    ensures
        names_from(steps.push((step_name_of(steps.len()), expr)), n0),
        is_prefix(steps, steps.push((step_name_of(steps.len()), expr))),
{
    let longer = steps.push((step_name_of(steps.len()), expr));
    assert(longer.subrange(0, steps.len() as int) =~= steps);
}

proof fn lemma_prefix_trans(
    a: Seq<(Seq<char>, Seq<char>)>,
    b: Seq<(Seq<char>, Seq<char>)>,
    c: Seq<(Seq<char>, Seq<char>)>,
)
    requires
        is_prefix(a, b),
        is_prefix(b, c),
    ensures
        is_prefix(a, c),
{
    assert(c.subrange(0, a.len() as int) =~= b.subrange(0, a.len() as int));
}

proof fn lemma_replay_names(
    tmp: Seq<(Seq<char>, Seq<char>)>,
    steps: Seq<(Seq<char>, Seq<char>)>,
    remap: Seq<(Seq<char>, Seq<char>)>,
    input: Seq<char>,
    wrapped: Seq<char>,
    n0: nat,
)
    requires
        names_from(steps, n0),
    ensures
        names_from(replay_of(tmp, steps, remap, input, wrapped).0, n0),
        is_prefix(steps, replay_of(tmp, steps, remap, input, wrapped).0),
    decreases tmp.len(),
{
    if tmp.len() > 0 {
        let new_name = step_name_of(steps.len());
        let new_expr = replace_words_of(tmp[0].1, seq![(input, wrapped)] + remap);
        let next = steps.push((new_name, new_expr));
        lemma_push_named(steps, new_expr, n0);
        lemma_replay_names(tmp.drop_first(), next, remap.push((tmp[0].0, new_name)), input, wrapped, n0);
        lemma_prefix_trans(steps, next, replay_of(tmp, steps, remap, input, wrapped).0);
    } else {
        assert(steps.subrange(0, steps.len() as int) =~= steps);
    }
}

proof fn lemma_emit_names(expr: Seq<char>, shift: int, steps: Seq<(Seq<char>, Seq<char>)>, n0: nat)
    requires
        names_from(steps, n0),
    ensures
        names_from(emit_shift_scaled_of(expr, shift, steps).0, n0),
        is_prefix(steps, emit_shift_scaled_of(expr, shift, steps).0),
{
    if shift != 0 {
        lemma_push_named(steps, inline_shift_of(expr, shift), n0);
    } else {
        assert(steps.subrange(0, steps.len() as int) =~= steps);
    }
}

proof fn lemma_flatten_names_from(
    tree: TreeView,
    node_scale: int,
    steps: Seq<(Seq<char>, Seq<char>)>,
    input: Seq<char>,
    n0: nat,
)
    requires
        names_from(steps, n0),
    ensures
        names_from(flatten_of(tree, node_scale, steps, input).0, n0),
        is_prefix(steps, flatten_of(tree, node_scale, steps, input).0),
    decreases tree,
{
    match tree {
        TreeView::Leaf(c) => {
            assert(steps.subrange(0, steps.len() as int) =~= steps);
        },
        TreeView::Leapfrog { variant, params } => {
            let expr = "<"@ + variant_name(variant) + "("@ + decimal_params_of(params) + ")>"@;
            lemma_push_named(steps, expr, n0);
        },
        TreeView::Node { variant, left, right, p0, p1 } => {
            let p0_shift = shift_raw_of(p0);
            let p1_shift = shift_raw_of(p1);
            let p0_odd = odd_of(p0);
            let p1_odd = odd_of(p1);
            let scaled = node_scale > 0;
            let p0_child_scale = eff_scale_of(p0_odd as nat, scaled);
            if variant == Variant::Cascade {
                let inner_scale = eff_scale_of(p0 as nat, scaled);
                let outer_scale = node_scale - inner_scale;
                lemma_flatten_names_from(*left, p0_child_scale, steps, input, n0);
                let (st1, left_base) = flatten_of(*left, p0_child_scale, steps, input);
                let intermediate = inline_shift_of(left_base, p0_child_scale + p0_shift - inner_scale);
                let (tmp, right_result) = flatten_of(*right, outer_scale, seq![], input);
                let wrapped = wrap_of(intermediate);
                lemma_replay_names(tmp, st1, seq![], input, wrapped, n0);
                let (st2, remap) = replay_of(tmp, st1, seq![], input, wrapped);
                lemma_prefix_trans(steps, st1, st2);
                match lookup(remap, right_result) {
                    Some(mapped) => {
                        lemma_emit_names(mapped, p1_shift, st2, n0);
                        lemma_prefix_trans(steps, st2, emit_shift_scaled_of(mapped, p1_shift, st2).0);
                    },
                    None => {
                        let subbed = replace_words_of(right_result, seq![(input, wrapped)]);
                        let name = step_name_of(st2.len());
                        let st3 = st2.push((name, subbed));
                        lemma_push_named(st2, subbed, n0);
                        lemma_prefix_trans(steps, st2, st3);
                        lemma_emit_names(name, p1_shift, st3, n0);
                        lemma_prefix_trans(steps, st3, emit_shift_scaled_of(name, p1_shift, st3).0);
                    },
                }
            } else {
                let c0 = child_scale_of(eff_scale_of(p0_odd as nat, scaled), node_scale, p0_shift);
                let c1 = child_scale_of(eff_scale_of(p1_odd as nat, scaled), node_scale, p1_shift);
                lemma_flatten_names_from(*left, c0, steps, input, n0);
                let (st1, left_base) = flatten_of(*left, c0, steps, input);
                lemma_flatten_names_from(*right, c1, st1, input, n0);
                let (st2, right_base) = flatten_of(*right, c1, st1, input);
                lemma_prefix_trans(steps, st1, st2);
                let expr = add_sub_of(
                    variant,
                    left_base,
                    right_base,
                    c0 + p0_shift - node_scale,
                    c1 + p1_shift - node_scale,
                );
                lemma_push_named(st2, expr, n0);
                lemma_prefix_trans(steps, st2, st2.push((step_name_of(st2.len()), expr)));
            }
        },
    }
}

/// Flattening only appends steps, and names each new step after its position, whatever the
/// steps before it are called; steps named `s0`, `s1`, ... stay so.
pub proof fn law_flatten_names(
    tree: TreeView,
    node_scale: int,
    steps: Seq<(Seq<char>, Seq<char>)>,
    input: Seq<char>,
)
    ensures
        is_prefix(steps, flatten_of(tree, node_scale, steps, input).0),
        names_from(flatten_of(tree, node_scale, steps, input).0, steps.len()),
        names_sequential(steps) ==> names_sequential(flatten_of(tree, node_scale, steps, input).0),
{
    lemma_flatten_names_from(tree, node_scale, steps, input, steps.len());
    if names_sequential(steps) {
        lemma_flatten_names_from(tree, node_scale, steps, input, 0);
    }
}

proof fn lemma_replay_last(
    tmp: Seq<(Seq<char>, Seq<char>)>,
    steps: Seq<(Seq<char>, Seq<char>)>,
    remap: Seq<(Seq<char>, Seq<char>)>,
    input: Seq<char>,
    wrapped: Seq<char>,
)
    ensures
        ({
            let (st2, remap2) = replay_of(tmp, steps, remap, input, wrapped);
            &&& st2.len() == steps.len() + tmp.len()
            &&& remap2.len() == remap.len() + tmp.len()
            &&& tmp.len() > 0 ==> remap2.last() == (tmp.last().0, st2.last().0)
        }),
    decreases tmp.len(),
{
    if tmp.len() > 0 {
        let new_name = step_name_of(steps.len());
        let new_expr = replace_words_of(tmp[0].1, seq![(input, wrapped)] + remap);
        let rest = tmp.drop_first();
        lemma_replay_last(rest, steps.push((new_name, new_expr)), remap.push((tmp[0].0, new_name)), input, wrapped);
        if rest.len() > 0 {
            assert(rest.last() == tmp.last());
        } else {
            assert(tmp.len() == 1);
        }
    }
}

/// Flattening a node or a leapfrog graph appends at least one step, and the name it returns
/// is that of its last step.
pub proof fn law_flatten_result_is_last(
    tree: TreeView,
    node_scale: int,
    steps: Seq<(Seq<char>, Seq<char>)>,
    input: Seq<char>,
)
    requires
        !(tree is Leaf),
    ensures
        flatten_of(tree, node_scale, steps, input).0.len() > steps.len(),
        flatten_of(tree, node_scale, steps, input).1 == flatten_of(tree, node_scale, steps, input).0.last().0,
    decreases tree,
{
    law_flatten_names(tree, node_scale, steps, input);
    match tree {
        TreeView::Node { variant, left, right, p0, p1 } => {
            if variant == Variant::Cascade {
                let p0_shift = shift_raw_of(p0);
                let p1_shift = shift_raw_of(p1);
                let p0_odd = odd_of(p0);
                let scaled = node_scale > 0;
                let p0_child_scale = eff_scale_of(p0_odd as nat, scaled);
                let inner_scale = eff_scale_of(p0 as nat, scaled);
                let outer_scale = node_scale - inner_scale;
                law_flatten_names(*left, p0_child_scale, steps, input);
                let (st1, left_base) = flatten_of(*left, p0_child_scale, steps, input);
                let intermediate = inline_shift_of(left_base, p0_child_scale + p0_shift - inner_scale);
                let wrapped = wrap_of(intermediate);
                let (tmp, right_result) = flatten_of(*right, outer_scale, seq![], input);
                lemma_replay_last(tmp, st1, seq![], input, wrapped);
                let (st2, remap) = replay_of(tmp, st1, seq![], input, wrapped);
                if *right is Leaf {
                    assert(tmp.len() == 0);
                    assert(remap.len() == 0) by {
                        assert(replay_of(tmp, st1, seq![], input, wrapped) == (st1, Seq::<(Seq<char>, Seq<char>)>::empty()));
                    }
                    assert(lookup(remap, right_result) is None);
                } else {
                    assert(names_sequential(Seq::<(Seq<char>, Seq<char>)>::empty()));
                    law_flatten_result_is_last(*right, outer_scale, seq![], input);
                    assert(tmp.len() > 0);
                    assert(remap.last().0 == right_result);
                    assert(lookup(remap, right_result) == Some(st2.last().0));
                    assert(st2.len() > st1.len());
                }
            } else {
                let scaled = node_scale > 0;
                let c0 = child_scale_of(eff_scale_of(odd_of(p0) as nat, scaled), node_scale, shift_raw_of(p0));
                let c1 = child_scale_of(eff_scale_of(odd_of(p1) as nat, scaled), node_scale, shift_raw_of(p1));
                law_flatten_names(*left, c0, steps, input);
                let (st1, left_base) = flatten_of(*left, c0, steps, input);
                law_flatten_names(*right, c1, st1, input);
            }
        },
        _ => {},
    }
}

/// Every equation sequence has at least one step. Without an output name its steps are
/// named `s0`, `s1`, ... in order; with one, the last step carries the output name and the
/// others are named after their positions.
pub proof fn law_sequence_names(
    tree: TreeView,
    constant: usize,
    input: Seq<char>,
    output: Option<Seq<char>>,
    scaled: bool,
)
    ensures
        ({
            let q = sequence_of(tree, constant, input, output, scaled);
            &&& q.len() >= 1
            &&& output is None ==> names_sequential(q)
            &&& output matches Some(o) ==> q.last().0 == o && forall|i: int|
                0 <= i < q.len() - 1 ==> #[trigger] q[i].0 == step_name_of(i as nat)
        }),
{
    reveal_strlit("s0");
    reveal_strlit("s");
    assert(dec(0) == seq!['0']);
    assert("s0"@ =~= step_name_of(0));
    let ns = initial_scale_of(odd_constant_of(constant), scaled);
    assert(names_sequential(Seq::<(Seq<char>, Seq<char>)>::empty()));
    law_flatten_names(tree, ns, seq![], input);
    let (steps, last_name) = flatten_of(tree, ns, seq![], input);
    if steps.len() > 0 {
        lemma_emit_names(last_name, even_shift_of(constant, scaled), steps, 0);
    }
}

/// Scaled equations stand for the fraction `c / 2^bit_len(c)`, the same for a constant and
/// its double: shifting the constant left changes nothing.
pub proof fn law_scaled_equations_shift_invariant(
    all: Seq<Seq<GraphTypeView>>,
    constant: usize,
    input: Seq<char>,
    output: Option<Seq<char>>,
)
    requires
        constant > 0,
        2 * constant <= usize::MAX,
    ensures
        equations_of(all, (2 * constant) as usize, input, output, true) == equations_of(
            all,
            constant,
            input,
            output,
            true,
        ),
{
    crate::bits::lemma_odd_part_double(constant as nat);
    let c2 = (2 * constant) as usize;
    assert(odd_constant_of(c2) == odd_constant_of(constant));
    let ts = build_trees_of(all, odd_constant_of(constant));
    assert forall|t: TreeView| #[trigger] sequence_of(t, c2, input, output, true) == sequence_of(
        t,
        constant,
        input,
        output,
        true,
    ) by {}
    assert(equations_of(all, c2, input, output, true) =~= equations_of(
        all,
        constant,
        input,
        output,
        true,
    ));
}

} // verus!
