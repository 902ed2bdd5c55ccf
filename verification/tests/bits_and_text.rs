use constant_multiplication::bits::{bit_length, eff_scale, is_base, odd_part_of, trailing_zeros};
use constant_multiplication::text::{
    extract_shift, inline_shift, leaf_expr, needs_parens, replace_word, replace_words, shift_expr,
    step_name, usize_to_string, wrap,
};

#[test]
fn trailing_zeros_counts_low_zero_bits() {
    assert_eq!(trailing_zeros(1), 0);
    assert_eq!(trailing_zeros(12), 2);
    assert_eq!(trailing_zeros(1 << 40), 40);
    assert_eq!(trailing_zeros(0), usize::BITS);
}

#[test]
fn odd_part_shifts_out_trailing_zeros() {
    assert_eq!(odd_part_of(0), 0);
    assert_eq!(odd_part_of(1), 1);
    assert_eq!(odd_part_of(12), 3);
    assert_eq!(odd_part_of(96), 3);
    assert_eq!(odd_part_of(45), 45);
}

#[test]
fn odd_part_times_power_of_two_gives_value_back() {
    for v in 1usize..300 {
        assert_eq!(odd_part_of(v) << trailing_zeros(v), v);
        assert_eq!(odd_part_of(v) % 2, 1);
    }
}

#[test]
fn is_base_holds_of_zero_and_powers_of_two() {
    assert!(is_base(0));
    assert!(is_base(1));
    assert!(is_base(2));
    assert!(is_base(64));
    assert!(!is_base(3));
    assert!(!is_base(12));
    for v in 0usize..200 {
        assert_eq!(is_base(v), v == 0 || v.count_ones() == 1);
    }
}

#[test]
fn bit_length_is_smallest_exponent_above() {
    assert_eq!(bit_length(0), 0);
    assert_eq!(bit_length(1), 1);
    assert_eq!(bit_length(2), 2);
    assert_eq!(bit_length(7), 3);
    assert_eq!(bit_length(8), 4);
    assert_eq!(bit_length(usize::MAX), usize::BITS as i32);
    for c in 1usize..500 {
        let k = bit_length(c);
        assert!(1usize << (k - 1) <= c);
        assert!(c < 1usize << k);
    }
}

#[test]
fn eff_scale_only_in_scaled_mode_above_one() {
    assert_eq!(eff_scale(5, false), 0);
    assert_eq!(eff_scale(1, true), 0);
    assert_eq!(eff_scale(0, true), 0);
    assert_eq!(eff_scale(5, true), 3);
    assert_eq!(eff_scale(16, true), 5);
}

#[test]
fn decimal_text_of_numbers() {
    assert_eq!(usize_to_string(0), "0");
    assert_eq!(usize_to_string(7), "7");
    assert_eq!(usize_to_string(10), "10");
    assert_eq!(usize_to_string(1234567890), "1234567890");
    assert_eq!(usize_to_string(usize::MAX), usize::MAX.to_string());
    assert_eq!(step_name(0), "s0");
    assert_eq!(step_name(42), "s42");
}

#[test]
fn replace_words_replaces_whole_words_only() {
    let subst = vec![("x".to_string(), "(a + b)".to_string())];
    assert_eq!(replace_words("x + xx + x_1 + (x << 2)", &subst), "(a + b) + xx + x_1 + ((a + b) << 2)");
    let later = vec![("s0".to_string(), "s4".to_string()), ("s0".to_string(), "s9".to_string())];
    assert_eq!(replace_words("(s0 + s01)", &later), "(s9 + s01)");
    assert_eq!(replace_words("", &subst), "");
    assert_eq!(replace_words("é1 x", &subst), "é1 (a + b)");
}

#[test]
fn replace_words_without_pairs_keeps_text() {
    let none: Vec<(String, String)> = Vec::new();
    for s in ["", "x", "((s0 << 2) + x)", "<Leapfrog4_1(1, 2)>", "a_b-c d"] {
        assert_eq!(replace_words(s, &none), s);
    }
}

#[test]
fn replace_word_renames_one_word() {
    assert_eq!(replace_word("(s1 + (s1 << 2))", "s1", "y"), "(y + (y << 2))");
    assert_eq!(replace_word("(s10 + s1)", "s1", "y"), "(s10 + y)");
}

#[test]
fn needs_parens_for_spaced_plus_or_minus() {
    assert!(needs_parens("a + b"));
    assert!(needs_parens("(a - b)"));
    assert!(!needs_parens("(a << 1)"));
    assert!(!needs_parens("a+b"));
    assert!(!needs_parens(""));
}

#[test]
fn wrap_adds_parentheses_when_needed() {
    assert_eq!(wrap("a + b"), "(a + b)");
    assert_eq!(wrap("(a + b)"), "(a + b)");
    assert_eq!(wrap("(x << 1)"), "(x << 1)");
    assert_eq!(wrap("x"), "x");
    assert_eq!(wrap("(a) + (b)"), "(a) + (b)");
    assert_eq!(wrap("a - (b)"), "(a - (b))");
}

#[test]
fn inline_shift_writes_both_directions() {
    assert_eq!(inline_shift("x", 0), "x");
    assert_eq!(inline_shift("x", 3), "(x << 3)");
    assert_eq!(inline_shift("s0", -2), "(s0 >> 2)");
    assert_eq!(inline_shift("x", i32::MAX), format!("(x << {})", i32::MAX));
    assert_eq!(inline_shift("x", i32::MIN + 1), format!("(x >> {})", i32::MAX));
}

#[test]
fn shift_expr_uses_shift_for_powers_of_two() {
    assert_eq!(shift_expr(1, "x"), "x");
    assert_eq!(shift_expr(8, "x"), "(x << 3)");
    assert_eq!(shift_expr(6, "x"), "(6 * x)");
    assert_eq!(shift_expr(0, "x"), "(0 * x)");
    assert_eq!(leaf_expr(17, "a"), "(17 * a)");
    assert_eq!(leaf_expr(2, "a"), "(a << 1)");
}

#[test]
fn extract_shift_writes_even_values_as_shifts() {
    assert_eq!(extract_shift(5), "5");
    assert_eq!(extract_shift(12), "3 << 2");
    assert_eq!(extract_shift(1024), "1 << 10");
    assert_eq!(extract_shift(0), format!("0 << {}", usize::BITS));
}
