use constant_multiplication::equations::{equations_for, StepSequence};
use constant_multiplication::graph_types::{GraphType, Variant};
use std::collections::HashMap;

fn gt(variant: Variant, params: &[usize]) -> GraphType {
    GraphType { variant, params: params.to_vec() }
}

/// A table whose adders, subtractors and cascades all stand for the constant at their
/// position, with one leapfrog graph.
fn sound_table() -> Vec<Vec<GraphType>> {
    let mut t: Vec<Vec<GraphType>> = (0..30).map(|_| Vec::new()).collect();
    t[1] = vec![gt(Variant::Adder, &[1, 2])];
    t[2] = vec![gt(Variant::Adder, &[1, 4]), gt(Variant::Subtractor, &[8, 3])];
    t[3] = vec![gt(Variant::Subtractor, &[8, 1])];
    t[4] = vec![gt(Variant::Adder, &[1, 8]), gt(Variant::Cascade, &[3, 3])];
    t[6] = vec![gt(Variant::Leapfrog4_1, &[1, 2, 3, 4]), gt(Variant::Adder, &[5, 8])];
    t[7] = vec![gt(Variant::Cascade, &[3, 5]), gt(Variant::Subtractor, &[16, 1])];
    t[22] = vec![gt(Variant::Cascade, &[9, 5]), gt(Variant::Adder, &[40, 5])];
    t[8] = vec![gt(Variant::Adder, &[1, 16])];
    t[25] = vec![gt(Variant::Cascade, &[3, 17]), gt(Variant::Subtractor, &[52, 1])];
    t
}

/// Evaluates the expression at the start of `s`, a word or `(a op b)`, and returns its value
/// and the rest of the text.
fn eval_expr<'a>(s: &'a str, x: i128, vals: &HashMap<String, i128>) -> (i128, &'a str) {
    if let Some(rest) = s.strip_prefix('(') {
        let (a, rest) = eval_expr(rest, x, vals);
        let rest = rest.strip_prefix(' ').unwrap();
        let op_end = rest.find(' ').unwrap();
        let op = &rest[..op_end];
        let (b, rest) = eval_expr(&rest[op_end + 1..], x, vals);
        let rest = rest.strip_prefix(')').unwrap();
        let v = match op {
            "+" => a + b,
            "-" => a - b,
            "*" => a * b,
            "<<" => a << b,
            ">>" => a >> b,
            _ => panic!("unknown operator {}", op),
        };
        (v, rest)
    } else {
        let end = s.find(|c: char| !(c.is_alphanumeric() || c == '_')).unwrap_or(s.len());
        let word = &s[..end];
        let v = if word == "x" {
            x
        } else if let Some(v) = vals.get(word) {
            *v
        } else {
            word.parse::<i128>().unwrap()
        };
        (v, &s[end..])
    }
}

/// The value that the last step of a sequence holds for the input `x`; every step may read
/// only the input and the steps before it.
fn run(q: &StepSequence, x: i128) -> i128 {
    let mut vals: HashMap<String, i128> = HashMap::new();
    let mut last = 0;
    for s in &q.steps {
        let (v, rest) = eval_expr(&s.expr, x, &vals);
        assert_eq!(rest, "");
        vals.insert(s.name.clone(), v);
        last = v;
    }
    last
}

fn is_leapfrog(q: &StepSequence) -> bool {
    q.steps.iter().any(|s| s.expr.contains("<L"))
}

#[test]
fn unscaled_equations_compute_the_constant() {
    let all = sound_table();
    for c in [1usize, 3, 5, 7, 9, 13, 15, 45, 51] {
        let seqs = equations_for(&all, c, "x", None, false);
        assert!(!seqs.is_empty());
        for q in seqs.iter().filter(|q| !is_leapfrog(q)) {
            for x in [0i128, 1, 2, 7, 1000, 123_456_789] {
                assert_eq!(run(q, x), c as i128 * x, "{} * {} by {:?}", c, x, q);
            }
        }
    }
}

#[test]
fn unscaled_equations_of_even_constants_compute_the_constant() {
    let all = sound_table();
    for c in [2usize, 4, 6, 20, 36, 90, 408] {
        for q in equations_for(&all, c, "x", None, false).iter().filter(|q| !is_leapfrog(q)) {
            for x in [0i128, 1, 3, 1000] {
                assert_eq!(run(q, x), c as i128 * x, "{} * {} by {:?}", c, x, q);
            }
        }
    }
}

#[test]
fn scaled_unlisted_constant_is_shifted_down() {
    let all = sound_table();
    let q = &equations_for(&all, 21, "x", None, true)[0];
    assert_eq!(q.steps[0].expr, "((21 * x) >> 5)");
    assert_eq!(run(q, 64), 42);
    let q = &equations_for(&all, 2, "x", None, true)[0];
    assert_eq!(q.steps[0].expr, "(x >> 1)");
}

#[test]
fn named_output_renames_the_last_step_only() {
    let all = sound_table();
    for (c, scaled) in [3usize, 6, 9, 15, 45, 51, 90].iter().flat_map(|c| [(*c, false), (*c, true)]) {
        let plain = equations_for(&all, c, "x", None, scaled);
        let named = equations_for(&all, c, "x", Some("y"), scaled);
        assert_eq!(plain.len(), named.len());
        for (p, n) in plain.iter().zip(named.iter()) {
            let k = p.steps.len() - 1;
            for i in 0..k {
                assert_eq!(p.steps[i], n.steps[i]);
            }
            assert_eq!(n.steps[k].name, "y");
            assert_eq!(n.steps[k].expr, p.steps[k].expr);
        }
    }
}

#[test]
fn scaled_equations_compute_the_scaled_constant() {
    let all = sound_table();
    for c in [1usize, 3, 5, 6, 7, 9, 13, 15, 45, 51, 90] {
        let bits = usize::BITS - c.leading_zeros();
        for q in equations_for(&all, c, "x", None, true).iter().filter(|q| !is_leapfrog(q)) {
            for xx in [1i128, 3, 77] {
                let x = xx << 40;
                assert_eq!(run(q, x) << bits, c as i128 * x, "{} * {} by {:?}", c, x, q);
            }
        }
    }
}
