use constant_multiplication::equations::{
    equations_for, equations_report, flatten, get_equations, EquationsError, Step, StepSequence,
    MAX_DEPTH,
};
use constant_multiplication::graph_types::{GraphType, Variant};
use constant_multiplication::trees::{build_trees, recursion_depth, Tree};
use std::collections::HashMap;

fn gt(variant: Variant, params: &[usize]) -> GraphType {
    GraphType { variant, params: params.to_vec() }
}

/// Graph types for the odd constants 3, 5, 7, 9, 13, 15 and 45.
fn table() -> Vec<Vec<GraphType>> {
    let mut t: Vec<Vec<GraphType>> = (0..24).map(|_| Vec::new()).collect();
    t[1] = vec![gt(Variant::Adder, &[1, 2])];
    t[2] = vec![gt(Variant::Adder, &[1, 4]), gt(Variant::Subtractor, &[8, 3])];
    t[3] = vec![gt(Variant::Subtractor, &[8, 1])];
    t[4] = vec![gt(Variant::Adder, &[1, 8]), gt(Variant::Cascade, &[3, 3])];
    t[6] = vec![gt(Variant::Leapfrog4_1, &[1, 2, 3, 4]), gt(Variant::Adder, &[5, 8])];
    t[7] = vec![gt(Variant::Cascade, &[3, 5]), gt(Variant::Subtractor, &[16, 1])];
    t[22] = vec![gt(Variant::Cascade, &[12, 5])];
    t
}

fn encode_table(table: &[Vec<GraphType>]) -> Vec<u8> {
    let mut out = Vec::new();
    let mut buf = unsigned_varint::encode::usize_buffer();
    out.extend_from_slice(unsigned_varint::encode::usize(table.len(), &mut buf));
    for list in table {
        out.extend_from_slice(unsigned_varint::encode::usize(list.len(), &mut buf));
        for g in list {
            let tag = (0u8..19).find(|&t| Variant::from_tag(t) == Some(g.variant)).unwrap();
            out.push(tag);
            for p in &g.params {
                out.extend_from_slice(unsigned_varint::encode::usize(*p, &mut buf));
            }
        }
    }
    out
}

fn as_text(seqs: &[StepSequence]) -> Vec<Vec<(String, String)>> {
    seqs.iter().map(|q| q.steps.iter().map(|s| (s.name.clone(), s.expr.clone())).collect()).collect()
}

fn texts(v: Vec<Vec<(&str, &str)>>) -> Vec<Vec<(String, String)>> {
    v.into_iter().map(|q| q.into_iter().map(|(n, e)| (n.to_string(), e.to_string())).collect()).collect()
}

fn leaf(c: usize) -> Box<Tree> {
    Box::new(Tree::Leaf(c))
}

fn node(variant: Variant, left: Box<Tree>, right: Box<Tree>, p0: usize, p1: usize) -> Box<Tree> {
    Box::new(Tree::Node { variant, left, right, p0, p1 })
}

#[test]
fn build_trees_of_base_and_unlisted_constants() {
    let all = table();
    let mut cache = HashMap::new();
    assert_eq!(build_trees(&all, 1, &mut cache), vec![Tree::Leaf(1)]);
    assert_eq!(build_trees(&all, 0, &mut cache), vec![Tree::Leaf(0)]);
    assert_eq!(build_trees(&all, 17, &mut cache), vec![Tree::Leaf(17)]);
    assert_eq!(build_trees(&all, 21, &mut cache), vec![Tree::Leaf(21)]);
}

#[test]
fn build_trees_pairs_subtrees_and_swaps_cascades() {
    let all = table();
    let mut cache = HashMap::new();
    let three = || node(Variant::Adder, leaf(1), leaf(1), 1, 2);
    let five_a = || node(Variant::Adder, leaf(1), leaf(1), 1, 4);
    let five_s = || node(Variant::Subtractor, leaf(1), three(), 8, 3);
    let trees = build_trees(&all, 15, &mut cache);
    assert_eq!(
        trees,
        vec![
            *node(Variant::Cascade, three(), five_a(), 3, 5),
            *node(Variant::Cascade, three(), five_s(), 3, 5),
            *node(Variant::Cascade, five_a(), three(), 5, 3),
            *node(Variant::Cascade, five_s(), three(), 5, 3),
            *node(Variant::Subtractor, leaf(1), leaf(1), 16, 1),
        ]
    );
    assert_eq!(build_trees(&all, 15, &mut cache), trees);
    assert_eq!(cache.len(), 4);
}

#[test]
fn build_trees_keeps_equal_cascade_once() {
    let all = table();
    let mut cache = HashMap::new();
    assert_eq!(build_trees(&all, 9, &mut cache).len(), 2);
}

#[test]
fn recursion_depth_of_table_constants() {
    let all = table();
    assert_eq!(recursion_depth(&all, 1, MAX_DEPTH), Some(1));
    assert_eq!(recursion_depth(&all, 3, MAX_DEPTH), Some(2));
    assert_eq!(recursion_depth(&all, 5, MAX_DEPTH), Some(3));
    assert_eq!(recursion_depth(&all, 15, MAX_DEPTH), Some(4));
    assert_eq!(recursion_depth(&all, 45, MAX_DEPTH), Some(4));
    assert_eq!(recursion_depth(&all, 15, 3), None);
    assert_eq!(recursion_depth(&all, 15, 0), None);
}

#[test]
fn recursion_depth_of_cyclic_table() {
    let mut all = table();
    all[1] = vec![gt(Variant::Adder, &[3, 1])];
    assert_eq!(recursion_depth(&all, 3, MAX_DEPTH), None);
    assert_eq!(recursion_depth(&all, 15, MAX_DEPTH), None);
    assert_eq!(recursion_depth(&all, 7, MAX_DEPTH), Some(2));
}

#[test]
fn flatten_adder_tree() {
    let mut steps: Vec<Step> = Vec::new();
    let tree = node(Variant::Adder, leaf(1), leaf(1), 1, 2);
    let name = flatten(&tree, 0, &mut steps, "x");
    assert_eq!(name, "s0");
    assert_eq!(steps, vec![Step { name: "s0".to_string(), expr: "(x + (x << 1))".to_string() }]);
}

#[test]
fn flatten_leaves_emit_no_step() {
    let mut steps: Vec<Step> = Vec::new();
    assert_eq!(flatten(&Tree::Leaf(1), 0, &mut steps, "x"), "x");
    assert_eq!(flatten(&Tree::Leaf(8), 0, &mut steps, "x"), "(x << 3)");
    assert_eq!(flatten(&Tree::Leaf(8), 5, &mut steps, "x"), "(x >> 2)");
    assert_eq!(flatten(&Tree::Leaf(0), 0, &mut steps, "x"), format!("(x << {})", usize::BITS));
    assert!(steps.is_empty());
}

#[test]
fn flatten_leapfrog_and_unknown_node() {
    let mut steps: Vec<Step> = Vec::new();
    let leap = Tree::Leapfrog { variant: Variant::Leapfrog5_2, params: vec![1, 2, 3, 4, 5] };
    assert_eq!(flatten(&leap, 0, &mut steps, "x"), "s0");
    let odd = node(Variant::Leapfrog4_1, leaf(1), leaf(1), 1, 1);
    assert_eq!(flatten(&odd, 0, &mut steps, "x"), "s1");
    assert_eq!(
        steps,
        vec![
            Step { name: "s0".to_string(), expr: "<Leapfrog5_2(1, 2, 3, 4, 5)>".to_string() },
            Step { name: "s1".to_string(), expr: "<Leapfrog4_1>".to_string() },
        ]
    );
}

#[test]
fn flatten_appends_after_existing_steps() {
    let mut steps = vec![Step { name: "s0".to_string(), expr: "x".to_string() }];
    let tree = node(Variant::Subtractor, leaf(1), leaf(1), 8, 1);
    assert_eq!(flatten(&tree, 0, &mut steps, "x"), "s1");
    assert_eq!(steps[1], Step { name: "s1".to_string(), expr: "((x << 3) - x)".to_string() });
}

#[test]
fn equations_keep_the_input_name() {
    let all = table();
    let got = as_text(&equations_for(&all, 15, "in_1", Some("out"), true));
    assert_eq!(got[4], vec![("out".to_string(), "(in_1 - (in_1 >> 4))".to_string())]);
    assert_eq!(got[0][0].1, "((in_1 + (in_1 >> 1)) >> 1)");
}

#[test]
fn scaled_equations_depend_on_odd_part_only() {
    let all = table();
    for c in [1usize, 3, 5, 7, 9, 13, 15, 45] {
        assert_eq!(equations_for(&all, 4 * c, "x", None, true), equations_for(&all, c, "x", None, true));
    }
}

#[test]
fn equation_steps_are_named_in_order() {
    let all = table();
    for c in [1usize, 3, 5, 7, 9, 13, 15, 45] {
        for q in equations_for(&all, c, "x", None, false) {
            assert!(!q.steps.is_empty());
            for (i, s) in q.steps.iter().enumerate() {
                assert_eq!(s.name, format!("s{}", i));
            }
        }
        for q in equations_for(&all, c, "x", Some("y"), true) {
            assert_eq!(q.result(), "y");
        }
    }
}

#[test]
fn get_equations_from_compressed_table() {
    let all = table();
    let compressed = lz4_flex::compress_prepend_size(&encode_table(&all));
    assert_eq!(get_equations(&compressed, 45, "x", Some("y"), false), Ok(equations_for(&all, 45, "x", Some("y"), false)));
}

#[test]
fn get_equations_reports_bad_data() {
    match get_equations(&[1, 2], 3, "x", None, false) {
        Err(EquationsError::Data(msg)) => assert!(msg.starts_with("Failed to decompress: ")),
        other => panic!("unexpected {:?}", other),
    }
    let compressed = lz4_flex::compress_prepend_size(&[1]);
    assert_eq!(
        get_equations(&compressed, 3, "x", None, false),
        Err(EquationsError::Data("Failed to deserialize: Failed to decode vec length: not enough input bytes".to_string()))
    );
}

#[test]
fn get_equations_refuses_cyclic_table() {
    let mut all = table();
    all[1] = vec![gt(Variant::Adder, &[3, 1])];
    let compressed = lz4_flex::compress_prepend_size(&encode_table(&all));
    assert_eq!(get_equations(&compressed, 6, "x", None, false), Err(EquationsError::Unbounded));
    assert_eq!(get_equations(&compressed, 7, "x", None, false).map(|v| v.len()), Ok(1));
}

#[test]
fn step_and_sequence_text() {
    let q = StepSequence {
        steps: vec![
            Step { name: "s0".to_string(), expr: "(x + (x << 1))".to_string() },
            Step { name: "y".to_string(), expr: "((x << 3) - s0)".to_string() },
        ],
    };
    assert_eq!(q.steps[0].__str__(), "s0 = (x + (x << 1))");
    assert_eq!(q.__str__(), "s0 = (x + (x << 1))\ny = ((x << 3) - s0)");
    assert_eq!(q.result(), "y");
    let empty = StepSequence { steps: vec![] };
    assert_eq!(empty.result(), "x");
    assert_eq!(empty.__str__(), "");
}

#[test]
fn report_of_equations() {
    let all = table();
    assert_eq!(
        equations_report(3, "x", &equations_for(&all, 3, "x", Some("y"), false)),
        "# 3*x  —  1 combination(s)\n\n# combination 0  (result: y)\ny = (x + (x << 1))\n\n"
    );
    assert_eq!(
        equations_report(5, "x", &equations_for(&all, 5, "x", None, true)),
        "# 5*x  —  2 combination(s)\n\n# combination 0  (result: s0)\ns0 = ((x + (x >> 2)) >> 1)\n\n# combination 1  (result: s1)\ns0 = ((x + (x >> 1)) >> 1)\ns1 = (x - (s0 >> 1))\n\n"
    );
    assert_eq!(equations_report(1, "x", &vec![]), "# 1*x  —  0 combination(s)\n\n");
}

#[test]
fn equations_2_plain_named() {
    let all = table();
    let got = as_text(&equations_for(&all, 2, "x", None, false));
    assert_eq!(got, texts(vec![vec![("s0", "(x << 1)")]]));
}

#[test]
fn equations_6_plain_renamed() {
    let all = table();
    let got = as_text(&equations_for(&all, 6, "x", Some("y"), false));
    assert_eq!(got, texts(vec![vec![("s0", "(x + (x << 1))"), ("y", "(s0 << 1)")]]));
}

#[test]
fn equations_1_scaled_named() {
    let all = table();
    let got = as_text(&equations_for(&all, 1, "x", None, true));
    assert_eq!(got, texts(vec![vec![("s0", "(x >> 1)")]]));
}

#[test]
fn equations_0_scaled_named() {
    let all = table();
    let got = as_text(&equations_for(&all, 0, "x", None, true));
    assert_eq!(got, texts(vec![vec![("s0", "(0 * x)")]]));
}

#[test]
fn equations_0_plain_named() {
    let all = table();
    let got = as_text(&equations_for(&all, 0, "x", None, false));
    assert_eq!(got, texts(vec![vec![("s0", "(0 * x)")]]));
}

#[test]
fn equations_1_plain_named() {
    let all = table();
    let got = as_text(&equations_for(&all, 1, "x", None, false));
    assert_eq!(got, texts(vec![vec![("s0", "x")]]));
}

#[test]
fn equations_2_scaled_renamed() {
    let all = table();
    let got = as_text(&equations_for(&all, 2, "x", Some("y"), true));
    assert_eq!(got, texts(vec![vec![("y", "(x >> 1)")]]));
}

#[test]
fn equations_3_plain_named() {
    let all = table();
    let got = as_text(&equations_for(&all, 3, "x", None, false));
    assert_eq!(got, texts(vec![vec![("s0", "(x + (x << 1))")]]));
}

#[test]
fn equations_3_scaled_named() {
    let all = table();
    let got = as_text(&equations_for(&all, 3, "x", None, true));
    assert_eq!(got, texts(vec![vec![("s0", "((x + (x >> 1)) >> 1)")]]));
}

#[test]
fn equations_5_plain_named() {
    let all = table();
    let got = as_text(&equations_for(&all, 5, "x", None, false));
    assert_eq!(got, texts(vec![vec![("s0", "(x + (x << 2))")], vec![("s0", "(x + (x << 1))"), ("s1", "((x << 3) - s0)")]]));
}

#[test]
fn equations_5_scaled_renamed() {
    let all = table();
    let got = as_text(&equations_for(&all, 5, "x", Some("y"), true));
    assert_eq!(got, texts(vec![vec![("y", "((x + (x >> 2)) >> 1)")], vec![("s0", "((x + (x >> 1)) >> 1)"), ("y", "(x - (s0 >> 1))")]]));
}

#[test]
fn equations_7_plain_named() {
    let all = table();
    let got = as_text(&equations_for(&all, 7, "x", None, false));
    assert_eq!(got, texts(vec![vec![("s0", "((x << 3) - x)")]]));
}

#[test]
fn equations_7_scaled_named() {
    let all = table();
    let got = as_text(&equations_for(&all, 7, "x", None, true));
    assert_eq!(got, texts(vec![vec![("s0", "(x - (x >> 3))")]]));
}

#[test]
fn equations_9_plain_named() {
    let all = table();
    let got = as_text(&equations_for(&all, 9, "x", None, false));
    assert_eq!(got, texts(vec![vec![("s0", "(x + (x << 3))")], vec![("s0", "(x + (x << 1))"), ("s1", "(s0 + (s0 << 1))")]]));
}

#[test]
fn equations_9_scaled_renamed() {
    let all = table();
    let got = as_text(&equations_for(&all, 9, "x", Some("y"), true));
    assert_eq!(got, texts(vec![vec![("y", "((x + (x >> 3)) >> 1)")], vec![("s0", "((x + (x >> 1)) >> 1)"), ("y", "((s0 + (s0 >> 1)) >> 1)")]]));
}

#[test]
fn equations_13_plain_named() {
    let all = table();
    let got = as_text(&equations_for(&all, 13, "x", None, false));
    assert_eq!(got, texts(vec![vec![("s0", "<Leapfrog4_1(1, 2, 3, 4)>")], vec![("s0", "(x + (x << 2))"), ("s1", "(s0 + (x << 3))")], vec![("s0", "(x + (x << 1))"), ("s1", "((x << 3) - s0)"), ("s2", "(s1 + (x << 3))")]]));
}

#[test]
fn equations_13_scaled_named() {
    let all = table();
    let got = as_text(&equations_for(&all, 13, "x", None, true));
    assert_eq!(got, texts(vec![vec![("s0", "<Leapfrog4_1(1, 2, 3, 4)>")], vec![("s0", "((x + (x >> 2)) >> 1)"), ("s1", "((s0 + x) >> 1)")], vec![("s0", "((x + (x >> 1)) >> 1)"), ("s1", "(x - (s0 >> 1))"), ("s2", "((s1 + x) >> 1)")]]));
}

#[test]
fn equations_15_plain_named() {
    let all = table();
    let got = as_text(&equations_for(&all, 15, "x", None, false));
    assert_eq!(got, texts(vec![vec![("s0", "(x + (x << 1))"), ("s1", "(s0 + (s0 << 2))")], vec![("s0", "(x + (x << 1))"), ("s1", "(s0 + (s0 << 1))"), ("s2", "((s0 << 3) - s1)")], vec![("s0", "(x + (x << 2))"), ("s1", "(s0 + (s0 << 1))")], vec![("s0", "(x + (x << 1))"), ("s1", "((x << 3) - s0)"), ("s2", "(s1 + (s1 << 1))")], vec![("s0", "((x << 4) - x)")]]));
}

#[test]
fn equations_15_scaled_renamed() {
    let all = table();
    let got = as_text(&equations_for(&all, 15, "x", Some("y"), true));
    assert_eq!(got, texts(vec![vec![("s0", "((x + (x >> 1)) >> 1)"), ("y", "(s0 + (s0 >> 2))")], vec![("s0", "((x + (x >> 1)) >> 1)"), ("s1", "((s0 + (s0 >> 1)) >> 1)"), ("y", "((s0 << 1) - s1)")], vec![("s0", "((x + (x >> 2)) >> 1)"), ("y", "(s0 + (s0 >> 1))")], vec![("s0", "((x + (x >> 1)) >> 1)"), ("s1", "(x - (s0 >> 1))"), ("y", "(s1 + (s1 >> 1))")], vec![("y", "(x - (x >> 4))")]]));
}

#[test]
fn equations_17_plain_named() {
    let all = table();
    let got = as_text(&equations_for(&all, 17, "x", None, false));
    assert_eq!(got, texts(vec![vec![("s0", "(17 * x)")]]));
}

#[test]
fn equations_21_scaled_named() {
    let all = table();
    let got = as_text(&equations_for(&all, 21, "x", None, true));
    assert_eq!(got, texts(vec![vec![("s0", "((21 * x) >> 5)")]]));
}

#[test]
fn equations_45_plain_named() {
    let all = table();
    let got = as_text(&equations_for(&all, 45, "x", None, false));
    assert_eq!(got, texts(vec![vec![("s0", "(x + (x << 1))"), ("s1", "((s0 << 2) + ((s0 << 2) << 2))")], vec![("s0", "(x + (x << 1))"), ("s1", "((s0 << 2) + ((s0 << 2) << 1))"), ("s2", "(((s0 << 2) << 3) - s1)")], vec![("s0", "(x + (x << 2))"), ("s1", "(s0 + (s0 << 1))"), ("s2", "(s1 << 2)")], vec![("s0", "(x + (x << 1))"), ("s1", "((x << 3) - s0)"), ("s2", "(s1 + (s1 << 1))"), ("s3", "(s2 << 2)")]]));
}

#[test]
fn equations_45_scaled_named() {
    let all = table();
    let got = as_text(&equations_for(&all, 45, "x", None, true));
    assert_eq!(got, texts(vec![vec![("s0", "((x + (x >> 1)) >> 1)"), ("s1", "(s0 + (s0 >> 2))")], vec![("s0", "((x + (x >> 1)) >> 1)"), ("s1", "((s0 + (s0 >> 1)) >> 1)"), ("s2", "((s0 << 1) - s1)")], vec![("s0", "((x + (x >> 2)) >> 1)"), ("s1", "((s0 + (s0 >> 1)) >> 2)"), ("s2", "(s1 << 2)")], vec![("s0", "((x + (x >> 1)) >> 1)"), ("s1", "(x - (s0 >> 1))"), ("s2", "((s1 + (s1 >> 1)) >> 2)"), ("s3", "(s2 << 2)")]]));
}

#[test]
fn equations_45_plain_renamed() {
    let all = table();
    let got = as_text(&equations_for(&all, 45, "x", Some("y"), false));
    assert_eq!(got, texts(vec![vec![("s0", "(x + (x << 1))"), ("y", "((s0 << 2) + ((s0 << 2) << 2))")], vec![("s0", "(x + (x << 1))"), ("s1", "((s0 << 2) + ((s0 << 2) << 1))"), ("y", "(((s0 << 2) << 3) - s1)")], vec![("s0", "(x + (x << 2))"), ("s1", "(s0 + (s0 << 1))"), ("y", "(s1 << 2)")], vec![("s0", "(x + (x << 1))"), ("s1", "((x << 3) - s0)"), ("s2", "(s1 + (s1 << 1))"), ("y", "(s2 << 2)")]]));
}

#[test]
fn equations_90_plain_named() {
    let all = table();
    let got = as_text(&equations_for(&all, 90, "x", None, false));
    assert_eq!(got, texts(vec![vec![("s0", "(x + (x << 1))"), ("s1", "((s0 << 2) + ((s0 << 2) << 2))"), ("s2", "(s1 << 1)")], vec![("s0", "(x + (x << 1))"), ("s1", "((s0 << 2) + ((s0 << 2) << 1))"), ("s2", "(((s0 << 2) << 3) - s1)"), ("s3", "(s2 << 1)")], vec![("s0", "(x + (x << 2))"), ("s1", "(s0 + (s0 << 1))"), ("s2", "(s1 << 2)"), ("s3", "(s2 << 1)")], vec![("s0", "(x + (x << 1))"), ("s1", "((x << 3) - s0)"), ("s2", "(s1 + (s1 << 1))"), ("s3", "(s2 << 2)"), ("s4", "(s3 << 1)")]]));
}

#[test]
fn equations_90_scaled_named() {
    let all = table();
    let got = as_text(&equations_for(&all, 90, "x", None, true));
    assert_eq!(got, texts(vec![vec![("s0", "((x + (x >> 1)) >> 1)"), ("s1", "(s0 + (s0 >> 2))")], vec![("s0", "((x + (x >> 1)) >> 1)"), ("s1", "((s0 + (s0 >> 1)) >> 1)"), ("s2", "((s0 << 1) - s1)")], vec![("s0", "((x + (x >> 2)) >> 1)"), ("s1", "((s0 + (s0 >> 1)) >> 2)"), ("s2", "(s1 << 2)")], vec![("s0", "((x + (x >> 1)) >> 1)"), ("s1", "(x - (s0 >> 1))"), ("s2", "((s1 + (s1 >> 1)) >> 2)"), ("s3", "(s2 << 2)")]]));
}

#[test]
fn equations_34_plain_named() {
    let all = table();
    let got = as_text(&equations_for(&all, 34, "x", None, false));
    assert_eq!(got, texts(vec![vec![("s0", "(34 * x)")]]));
}


#[test]
fn build_trees_fills_and_reuses_the_cache() {
    let all = vec![vec![], vec![gt(Variant::Adder, &[1, 2])]];
    let mut cache = HashMap::new();
    let trees = build_trees(&all, 3, &mut cache);
    assert_eq!(trees, vec![*node(Variant::Adder, leaf(1), leaf(1), 1, 2)]);
    let mut keys: Vec<usize> = cache.keys().copied().collect();
    keys.sort();
    assert_eq!(keys, vec![1, 3]);
    assert_eq!(cache[&1], vec![Tree::Leaf(1)]);
    assert_eq!(cache[&3], trees);
    assert_eq!(build_trees(&all, 3, &mut cache), trees);
    assert_eq!(build_trees(&all, 1, &mut cache), vec![Tree::Leaf(1)]);
    assert_eq!(cache.len(), 2);
}

#[test]
fn build_trees_reads_only_two_parameters_of_binary_types() {
    let all = vec![vec![], vec![gt(Variant::Adder, &[1, 2, 7]), gt(Variant::Leapfrog4_1, &[1])]];
    let mut cache = HashMap::new();
    let trees = build_trees(&all, 3, &mut cache);
    assert_eq!(trees.len(), 2);
    assert_eq!(trees[0], *node(Variant::Adder, leaf(1), leaf(1), 1, 2));
}

#[test]
fn output_name_renames_only_the_last_step_with_leapfrog_graphs() {
    let mut all = table();
    all[19] = vec![gt(Variant::Cascade, &[3, 13])];
    for scaled in [false, true] {
        let plain = as_text(&equations_for(&all, 39, "x", None, scaled));
        let named = as_text(&equations_for(&all, 39, "x", Some("y"), scaled));
        assert_eq!(plain.len(), 6);
        assert_eq!(plain.len(), named.len());
        for (p, n) in plain.iter().zip(named.iter()) {
            let mut expected = p.clone();
            let last = expected.len() - 1;
            expected[last].0 = "y".to_string();
            assert_eq!(*n, expected);
        }
    }
    let named = as_text(&equations_for(&all, 39, "x", Some("y"), false));
    assert_eq!(named[0], texts(vec![vec![("s0", "(x + (x << 1))"), ("y", "<Leapfrog4_1(1, 2, 3, 4)>")]])[0]);
    assert_eq!(named[3], texts(vec![vec![("s0", "<Leapfrog4_1(1, 2, 3, 4)>"), ("y", "(s0 + (s0 << 1))")]])[0]);
}

#[test]
fn input_named_like_a_graph_type_is_replaced_in_replayed_steps() {
    let mut all = table();
    all[19] = vec![gt(Variant::Cascade, &[3, 13])];
    let plain = as_text(&equations_for(&all, 39, "Leapfrog4_1", None, false));
    assert_eq!(plain[0], texts(vec![vec![("s0", "(Leapfrog4_1 + (Leapfrog4_1 << 1))"), ("s1", "<s0(1, 2, 3, 4)>")]])[0]);
    assert_eq!(plain[3], texts(vec![vec![("s0", "<Leapfrog4_1(1, 2, 3, 4)>"), ("s1", "(s0 + (s0 << 1))")]])[0]);
    let named = as_text(&equations_for(&all, 39, "Leapfrog4_1", Some("y"), false));
    assert_eq!(plain.len(), named.len());
    for (p, n) in plain.iter().zip(named.iter()) {
        let mut expected = p.clone();
        let last = expected.len() - 1;
        expected[last].0 = "y".to_string();
        assert_eq!(*n, expected);
    }
}
