//! What the emitted steps compute. Each step's text spells an expression over the input and
//! earlier steps; without scaling, the steps of a tree compute its value times the input,
//! and with a sound table that value is the constant.
use vstd::prelude::*;
use crate::bits::{eff_scale_of, is_base_const, trailing_zeros_of, two_pow, tz, odd_part, lemma_odd_part_factor};
use crate::text::{
    dec, digit_char, inline_shift_of, shift_expr_of, is_word_char, lemma_word_len, lookup, replacement,
    replace_words_of, step_name_of, word_len, wrap_of,
};
use crate::graph_types::{decimal_params_of, is_binary, join, variant_name, GraphTypeView, Variant};
use crate::equations::{
    even_shift_of, max_int, add_sub_of, cascade_tail_of, child_scale_of, emit_shift_scaled_of, equations_of, flatten_of,
    initial_scale_of, odd_constant_of, odd_of, replay_of, sequence_of, shift_raw_of,
};
use crate::trees::{
    build_trees_of, depth_ok, has_depth, is_leaf_const, law_every_constant_has_a_tree,
    law_unlisted_constant_is_a_leaf, nodes_of, sub_const, trees_for, trees_gt, trees_of, TreeView,
};

verus! {

/// The decimal text of a number is made of digits, at least one.
pub proof fn lemma_dec_digits(n: nat)
    ensures
        dec(n).len() >= 1,
        forall|i: int| 0 <= i < dec(n).len() ==> '0' <= #[trigger] dec(n)[i] && dec(n)[i] <= '9',
    decreases n,
{
    if n >= 10 {
        lemma_dec_digits(n / 10);
        assert forall|i: int| 0 <= i < dec(n).len() implies '0' <= #[trigger] dec(n)[i] && dec(n)[i]
            <= '9' by {
            if i < dec(n / 10).len() {
                assert(dec(n)[i] == dec(n / 10)[i]);
            }
        }
    }
}

/// Different numbers have different decimal texts.
pub proof fn lemma_dec_injective(a: nat, b: nat)
    requires
        dec(a) == dec(b),
    ensures
        a == b,
    decreases a,
{
    lemma_dec_digits(a / 10);
    lemma_dec_digits(b / 10);
    if a < 10 && b < 10 {
        assert(dec(a)[0] == digit_char(a));
        assert(dec(b)[0] == digit_char(b));
    } else if a >= 10 && b >= 10 {
        assert(dec(a).last() == digit_char(a % 10));
        assert(dec(b).last() == digit_char(b % 10));
        assert(dec(a).drop_last() =~= dec(a / 10));
        assert(dec(b).drop_last() =~= dec(b / 10));
        lemma_dec_injective(a / 10, b / 10);
    } else if a < 10 {
        assert(dec(b).len() == dec(b / 10).len() + 1);
        assert(dec(a).len() == 1);
    } else {
        assert(dec(a).len() == dec(a / 10).len() + 1);
        assert(dec(b).len() == 1);
    }
}

/// Different positions have different step names.
pub proof fn lemma_step_name_injective(a: nat, b: nat)
    requires
        step_name_of(a) == step_name_of(b),
    ensures
        a == b,
{
    reveal_strlit("s");
    assert(step_name_of(a).skip(1) =~= dec(a));
    assert(step_name_of(b).skip(1) =~= dec(b));
    lemma_dec_injective(a, b);
}

/// A step name is `s` followed by digits.
pub proof fn lemma_step_name_chars(n: nat)
    ensures
        step_name_of(n).len() >= 2,
        step_name_of(n)[0] == 's',
        forall|i: int| 0 <= i < step_name_of(n).len() ==> #[trigger] is_word_char(step_name_of(n)[i]),
{
    reveal_strlit("s");
    lemma_dec_digits(n);
    assert forall|i: int| 0 <= i < step_name_of(n).len() implies #[trigger] is_word_char(
        step_name_of(n)[i],
    ) by {
        if i > 0 {
            assert(step_name_of(n)[i] == dec(n)[i - 1]);
        }
    }
}

/// The word at the start of `s` is made of word characters, and is followed by none.
pub proof fn lemma_word_len_props(s: Seq<char>)
    ensures
        word_len(s) <= s.len(),
        forall|i: int| 0 <= i < word_len(s) ==> #[trigger] is_word_char(s[i]),
        word_len(s) < s.len() ==> !is_word_char(s[word_len(s) as int]),
    decreases s.len(),
{
    if s.len() > 0 && is_word_char(s[0]) {
        lemma_word_len_props(s.drop_first());
        assert forall|i: int| 0 <= i < word_len(s) implies #[trigger] is_word_char(s[i]) by {
            if i > 0 {
                assert(s[i] == s.drop_first()[i - 1]);
            }
        }
        if word_len(s) < s.len() {
            assert(s[word_len(s) as int] == s.drop_first()[word_len(s.drop_first()) as int]);
        }
    }
}

/// No word runs across the joint of `a` and `b`, so replacing words in `a + b` replaces them
/// in each part.
pub proof fn lemma_rw_split(a: Seq<char>, b: Seq<char>, m: Seq<(Seq<char>, Seq<char>)>)
    requires
        a.len() == 0 || b.len() == 0 || !is_word_char(a.last()) || !is_word_char(b[0]),
    ensures
        replace_words_of(a + b, m) == replace_words_of(a, m) + replace_words_of(b, m),
    decreases a.len(),
{
    let c = a + b;
    if a.len() == 0 {
        assert(c =~= b);
    } else if is_word_char(a[0]) {
        lemma_word_len_props(a);
        let k = word_len(a);
        assert(k >= 1) by {
            assert(word_len(a) == 1 + word_len(a.drop_first()));
        }
        assert forall|j: int| 0 <= j < k implies is_word_char(#[trigger] c[j]) by {
            assert(c[j] == a[j]);
        }
        if k < a.len() {
            assert(c[k as int] == a[k as int]);
        } else if b.len() > 0 {
            assert(c[k as int] == b[0]);
        }
        lemma_word_len(c, k);
        assert(c.take(k as int) =~= a.take(k as int));
        assert(c.skip(k as int) =~= a.skip(k as int) + b);
        let rest = a.skip(k as int);
        if rest.len() > 0 {
            assert(rest.last() == a.last());
        }
        lemma_rw_split(rest, b, m);
        assert(c[0] == a[0]);
        assert(replace_words_of(c, m) == replacement(m, c.take(k as int)) + replace_words_of(
            c.skip(k as int),
            m,
        ));
        assert(replace_words_of(a, m) == replacement(m, a.take(k as int)) + replace_words_of(
            rest,
            m,
        ));
        assert(replace_words_of(c, m) =~= replace_words_of(a, m) + replace_words_of(b, m));
    } else {
        let rest = a.drop_first();
        assert(c.drop_first() =~= rest + b);
        if rest.len() > 0 {
            assert(rest.last() == a.last());
        }
        lemma_rw_split(rest, b, m);
        assert(c[0] == a[0]);
        assert(replace_words_of(c, m) =~= replace_words_of(a, m) + replace_words_of(b, m));
    }
}

/// Text without word characters is left as it is.
pub proof fn lemma_rw_no_words(s: Seq<char>, m: Seq<(Seq<char>, Seq<char>)>)
    requires
        forall|i: int| 0 <= i < s.len() ==> !is_word_char(#[trigger] s[i]),
    ensures
        replace_words_of(s, m) == s,
    decreases s.len(),
{
    if s.len() > 0 {
        let rest = s.drop_first();
        assert forall|i: int| 0 <= i < rest.len() implies !is_word_char(#[trigger] rest[i]) by {
            assert(rest[i] == s[i + 1]);
        }
        lemma_rw_no_words(rest, m);
        assert(seq![s[0]] + rest =~= s);
    }
}

/// A single word is replaced as a whole.
pub proof fn lemma_rw_word(w: Seq<char>, m: Seq<(Seq<char>, Seq<char>)>)
    requires
        w.len() > 0,
        forall|i: int| 0 <= i < w.len() ==> is_word_char(#[trigger] w[i]),
    ensures
        replace_words_of(w, m) == replacement(m, w),
{
    lemma_word_len(w, w.len());
    assert(is_word_char(w[0]));
    assert(w.take(w.len() as int) =~= w);
    assert(w.skip(w.len() as int) =~= Seq::<char>::empty());
    assert(replace_words_of(Seq::<char>::empty(), m) == Seq::<char>::empty());
    assert(replace_words_of(w, m) == replacement(m, w.take(w.len() as int)) + replace_words_of(
        w.skip(w.len() as int),
        m,
    ));
    assert(replacement(m, w) + Seq::<char>::empty() =~= replacement(m, w));
}


/// An expression of a step, as a tree: the input, the value of an earlier step, a left or
/// right shift, a multiple, a sum, a difference, an expression between parentheses, a
/// leapfrog graph written out with its head and parameters, or the name of a variant.
pub enum Expr {
    Input,
    Ref(nat),
    Shl(Box<Expr>, nat),
    Shr(Box<Expr>, nat),
    Mul(nat, Box<Expr>),
    Add(Box<Expr>, Box<Expr>),
    Sub(Box<Expr>, Box<Expr>),
    Paren(Box<Expr>),
    Leap(Box<Expr>, Seq<usize>),
    Name(Variant),
}

/// The text of an expression over the input named `input`.
pub open spec fn render(e: Expr, input: Seq<char>) -> Seq<char>
    decreases e,
{
    match e {
        Expr::Input => input,
        Expr::Ref(j) => step_name_of(j),
        Expr::Shl(a, k) => "("@ + render(*a, input) + " << "@ + dec(k) + ")"@,
        Expr::Shr(a, k) => "("@ + render(*a, input) + " >> "@ + dec(k) + ")"@,
        Expr::Mul(v, a) => "("@ + dec(v) + " * "@ + render(*a, input) + ")"@,
        Expr::Add(a, b) => "("@ + render(*a, input) + " + "@ + render(*b, input) + ")"@,
        Expr::Sub(a, b) => "("@ + render(*a, input) + " - "@ + render(*b, input) + ")"@,
        Expr::Paren(a) => "("@ + render(*a, input) + ")"@,
        Expr::Leap(h, ps) => "<"@ + render(*h, input) + "("@ + decimal_params_of(ps) + ")>"@,
        Expr::Name(v) => variant_name(v),
    }
}

/// The value of an expression for the input `x`, where step `j` holds `vals[j]`.
pub open spec fn eval(e: Expr, x: int, vals: Seq<int>) -> int
    decreases e,
{
    match e {
        Expr::Input => x,
        Expr::Ref(j) => vals[j as int],
        Expr::Shl(a, k) => eval(*a, x, vals) * two_pow(k),
        Expr::Shr(a, k) => eval(*a, x, vals) / (two_pow(k) as int),
        Expr::Mul(v, a) => v * eval(*a, x, vals),
        Expr::Add(a, b) => eval(*a, x, vals) + eval(*b, x, vals),
        Expr::Sub(a, b) => eval(*a, x, vals) - eval(*b, x, vals),
        Expr::Paren(a) => eval(*a, x, vals),
        Expr::Leap(..) => 0,
        Expr::Name(..) => 0,
    }
}

/// Every step that the expression reads comes before position `k`.
pub open spec fn refs_below(e: Expr, k: nat) -> bool
    decreases e,
{
    match e {
        Expr::Input => true,
        Expr::Ref(j) => j < k,
        Expr::Shl(a, _) => refs_below(*a, k),
        Expr::Shr(a, _) => refs_below(*a, k),
        Expr::Mul(_, a) => refs_below(*a, k),
        Expr::Add(a, b) => refs_below(*a, k) && refs_below(*b, k),
        Expr::Sub(a, b) => refs_below(*a, k) && refs_below(*b, k),
        Expr::Paren(a) => refs_below(*a, k),
        Expr::Leap(h, _) => refs_below(*h, k),
        Expr::Name(..) => true,
    }
}

/// The expression with the input replaced by `w` and each step `j` by step `n + j`.
pub open spec fn subst(e: Expr, w: Expr, n: nat) -> Expr
    decreases e,
{
    match e {
        Expr::Input => w,
        Expr::Ref(j) => Expr::Ref(n + j),
        Expr::Shl(a, k) => Expr::Shl(Box::new(subst(*a, w, n)), k),
        Expr::Shr(a, k) => Expr::Shr(Box::new(subst(*a, w, n)), k),
        Expr::Mul(v, a) => Expr::Mul(v, Box::new(subst(*a, w, n))),
        Expr::Add(a, b) => Expr::Add(Box::new(subst(*a, w, n)), Box::new(subst(*b, w, n))),
        Expr::Sub(a, b) => Expr::Sub(Box::new(subst(*a, w, n)), Box::new(subst(*b, w, n))),
        Expr::Paren(a) => Expr::Paren(Box::new(subst(*a, w, n))),
        Expr::Leap(h, ps) => Expr::Leap(Box::new(subst(*h, w, n)), ps),
        Expr::Name(v) => Expr::Name(v),
    }
}

/// Each variant name that the expression writes out as a word of its own differs from the
/// input's name.
pub open spec fn names_ok(e: Expr, input: Seq<char>) -> bool
    decreases e,
{
    match e {
        Expr::Shl(a, _) => names_ok(*a, input),
        Expr::Shr(a, _) => names_ok(*a, input),
        Expr::Mul(_, a) => names_ok(*a, input),
        Expr::Add(a, b) => names_ok(*a, input) && names_ok(*b, input),
        Expr::Sub(a, b) => names_ok(*a, input) && names_ok(*b, input),
        Expr::Paren(a) => names_ok(*a, input),
        Expr::Leap(h, _) => names_ok(*h, input),
        Expr::Name(v) => variant_name(v) != input,
        _ => true,
    }
}

/// Each expression of the list keeps its variant names apart from the input's name.
pub open spec fn all_names_ok(asts: Seq<Expr>, input: Seq<char>) -> bool {
    forall|i: int| 0 <= i < asts.len() ==> names_ok(#[trigger] asts[i], input)
}

/// A name that can stand for the input: a word that does not start with a digit and is no
/// step's name.
pub open spec fn input_ok(input: Seq<char>) -> bool {
    &&& input.len() > 0
    &&& forall|i: int| 0 <= i < input.len() ==> #[trigger] is_word_char(input[i])
    &&& !('0' <= input[0] && input[0] <= '9')
    &&& forall|n: nat| input != #[trigger] step_name_of(n)
}

/// Text without word characters.
pub open spec fn punct(s: Seq<char>) -> bool {
    forall|i: int| 0 <= i < s.len() ==> !is_word_char(#[trigger] s[i])
}

proof fn lemma_puncts()
    ensures
        "("@ =~= seq!['('],
        ")"@ =~= seq![')'],
        " << "@ =~= seq![' ', '<', '<', ' '],
        " >> "@ =~= seq![' ', '>', '>', ' '],
        " * "@ =~= seq![' ', '*', ' '],
        " + "@ =~= seq![' ', '+', ' '],
        " - "@ =~= seq![' ', '-', ' '],
        punct("("@),
        punct(")"@),
        punct(" << "@),
        punct(" >> "@),
        punct(" * "@),
        punct(" + "@),
        punct(" - "@),
{
    reveal_strlit("(");
    reveal_strlit(")");
    reveal_strlit(" << ");
    reveal_strlit(" >> ");
    reveal_strlit(" * ");
    reveal_strlit(" + ");
    reveal_strlit(" - ");
    assert(!is_word_char('('));
    assert(!is_word_char(')'));
    assert(!is_word_char(' '));
    assert(!is_word_char('<'));
    assert(!is_word_char('>'));
    assert(!is_word_char('*'));
    assert(!is_word_char('+'));
    assert(!is_word_char('-'));
}


proof fn lemma_rw_close(a: Seq<char>, q: Seq<char>, m: Seq<(Seq<char>, Seq<char>)>)
    requires
        punct(q),
        q.len() > 0,
    ensures
        replace_words_of(a + q, m) == replace_words_of(a, m) + q,
{
    assert(!is_word_char(q[0]));
    lemma_rw_split(a, q, m);
    lemma_rw_no_words(q, m);
}

proof fn lemma_rw_after_punct(a: Seq<char>, q: Seq<char>, b: Seq<char>, m: Seq<(Seq<char>, Seq<char>)>)
    requires
        punct(q),
        q.len() > 0,
    ensures
        replace_words_of(a + q + b, m) == replace_words_of(a, m) + q + replace_words_of(b, m),
{
    let aq = a + q;
    assert(aq.last() == q.last());
    assert(!is_word_char(q[q.len() - 1]));
    lemma_rw_split(aq, b, m);
    lemma_rw_close(a, q, m);
}

proof fn lemma_rw_open(b: Seq<char>, m: Seq<(Seq<char>, Seq<char>)>)
    ensures
        replace_words_of("("@ + b, m) == "("@ + replace_words_of(b, m),
{
    lemma_puncts();
    assert(!is_word_char("("@[0]));
    lemma_rw_split("("@, b, m);
    lemma_rw_no_words("("@, m);
}

proof fn lemma_more_puncts()
    ensures
        "<"@ =~= seq!['<'],
        ")>"@ =~= seq![')', '>'],
        ", "@ =~= seq![',', ' '],
        punct("<"@),
        punct(")>"@),
        punct(", "@),
{
    reveal_strlit("<");
    reveal_strlit(")>");
    reveal_strlit(", ");
    assert(!is_word_char('<'));
    assert(!is_word_char(')'));
    assert(!is_word_char('>'));
    assert(!is_word_char(','));
    assert(!is_word_char(' '));
}

proof fn lemma_rw_prefix_punct(q: Seq<char>, b: Seq<char>, m: Seq<(Seq<char>, Seq<char>)>)
    requires
        punct(q),
        q.len() > 0,
    ensures
        replace_words_of(q + b, m) == q + replace_words_of(b, m),
{
    assert(!is_word_char(q[q.len() - 1]));
    lemma_rw_split(q, b, m);
    lemma_rw_no_words(q, m);
}

/// Text made of word characters, at least one.
pub open spec fn is_word(s: Seq<char>) -> bool {
    s.len() > 0 && forall|i: int| 0 <= i < s.len() ==> is_word_char(#[trigger] s[i])
}

/// The name of a variant is a word that starts with a capital letter.
pub proof fn lemma_variant_name_word(v: Variant)
    ensures
        is_word(variant_name(v)),
        'A' <= variant_name(v)[0] <= 'Z',
{
    match v {
        Variant::Adder => { reveal_strlit("Adder"); },
        Variant::Subtractor => { reveal_strlit("Subtractor"); },
        Variant::Cascade => { reveal_strlit("Cascade"); },
        Variant::Leapfrog4_1 => { reveal_strlit("Leapfrog4_1"); },
        Variant::Leapfrog4_2 => { reveal_strlit("Leapfrog4_2"); },
        Variant::Leapfrog4_3 => { reveal_strlit("Leapfrog4_3"); },
        Variant::Leapfrog4_4 => { reveal_strlit("Leapfrog4_4"); },
        Variant::Leapfrog5_1 => { reveal_strlit("Leapfrog5_1"); },
        Variant::Leapfrog5_2 => { reveal_strlit("Leapfrog5_2"); },
        Variant::Leapfrog5_3 => { reveal_strlit("Leapfrog5_3"); },
        Variant::Leapfrog5_4 => { reveal_strlit("Leapfrog5_4"); },
        Variant::Leapfrog7_1 => { reveal_strlit("Leapfrog7_1"); },
        Variant::Leapfrog7_2 => { reveal_strlit("Leapfrog7_2"); },
        Variant::Leapfrog7_3 => { reveal_strlit("Leapfrog7_3"); },
        Variant::Leapfrog7_4 => { reveal_strlit("Leapfrog7_4"); },
        Variant::Leapfrog7_5 => { reveal_strlit("Leapfrog7_5"); },
        Variant::Leapfrog7_6 => { reveal_strlit("Leapfrog7_6"); },
        Variant::Leapfrog7_7 => { reveal_strlit("Leapfrog7_7"); },
        Variant::Leapfrog7_8 => { reveal_strlit("Leapfrog7_8"); },
    }
}

proof fn lemma_rw_join(parts: Seq<Seq<char>>, m: Seq<(Seq<char>, Seq<char>)>)
    requires
        forall|i: int| 0 <= i < parts.len() ==> is_word(#[trigger] parts[i]) && replacement(
            m,
            parts[i],
        ) == parts[i],
    ensures
        replace_words_of(join(parts, ", "@), m) == join(parts, ", "@),
    decreases parts.len(),
{
    lemma_more_puncts();
    if parts.len() == 0 {
        assert(replace_words_of(Seq::<char>::empty(), m) == Seq::<char>::empty());
    } else if parts.len() == 1 {
        assert(is_word(parts[0]));
        lemma_rw_word(parts[0], m);
    } else {
        let front = parts.drop_last();
        assert forall|i: int| 0 <= i < front.len() implies is_word(#[trigger] front[i]) && replacement(
            m,
            front[i],
        ) == front[i] by {
            assert(front[i] == parts[i]);
        }
        lemma_rw_join(front, m);
        assert(is_word(parts[parts.len() - 1]));
        lemma_rw_word(parts.last(), m);
        lemma_rw_after_punct(join(front, ", "@), ", "@, parts.last(), m);
    }
}

proof fn lemma_rw_params(ps: Seq<usize>, m: Seq<(Seq<char>, Seq<char>)>)
    requires
        forall|v: nat| replacement(m, #[trigger] dec(v)) == dec(v),
    ensures
        replace_words_of(decimal_params_of(ps), m) == decimal_params_of(ps),
{
    let parts = ps.map_values(|v: usize| dec(v as nat));
    assert forall|i: int| 0 <= i < parts.len() implies is_word(#[trigger] parts[i]) && replacement(
        m,
        parts[i],
    ) == parts[i] by {
        let v = ps[i] as nat;
        assert(parts[i] == dec(v));
        lemma_dec_digits(v);
        assert forall|j: int| 0 <= j < dec(v).len() implies is_word_char(#[trigger] dec(v)[j]) by {
            assert('0' <= dec(v)[j] <= '9');
        }
    }
    lemma_rw_join(parts, m);
}

/// Replacing the words of an expression's text, where the input's name is replaced by the
/// text of `w` and each step name `s{j}` by `s{n + j}`, gives the text of the substituted
/// expression.
pub proof fn lemma_rw_render(
    e: Expr,
    input: Seq<char>,
    m: Seq<(Seq<char>, Seq<char>)>,
    w: Expr,
    n: nat,
    k: nat,
)
    requires
        input_ok(input),
        refs_below(e, k),
        replacement(m, input) == render(w, input),
        forall|j: nat| j < k ==> replacement(m, #[trigger] step_name_of(j)) == step_name_of(n + j),
        forall|v: nat| replacement(m, #[trigger] dec(v)) == dec(v),
        names_ok(e, input),
        forall|v: Variant|
            variant_name(v) != input ==> replacement(m, #[trigger] variant_name(v)) == variant_name(v),
    ensures
        replace_words_of(render(e, input), m) == render(subst(e, w, n), input),
    decreases e,
{
    lemma_puncts();
    match e {
        Expr::Input => {
            lemma_rw_word(input, m);
        },
        Expr::Ref(j) => {
            lemma_step_name_chars(j);
            lemma_rw_word(step_name_of(j), m);
        },
        Expr::Shl(a, sh) => {
            let r = render(*a, input);
            lemma_rw_render(*a, input, m, w, n, k);
            lemma_dec_digits(sh);
            assert forall|i: int| 0 <= i < dec(sh).len() implies is_word_char(#[trigger] dec(sh)[i]) by {
                assert('0' <= dec(sh)[i] <= '9');
            }
            lemma_rw_word(dec(sh), m);
            assert(replacement(m, dec(sh)) == dec(sh));
            lemma_rw_close("("@ + r + " << "@ + dec(sh), ")"@, m);
            lemma_rw_after_punct("("@ + r, " << "@, dec(sh), m);
            lemma_rw_open(r, m);
        },
        Expr::Shr(a, sh) => {
            let r = render(*a, input);
            lemma_rw_render(*a, input, m, w, n, k);
            lemma_dec_digits(sh);
            assert forall|i: int| 0 <= i < dec(sh).len() implies is_word_char(#[trigger] dec(sh)[i]) by {
                assert('0' <= dec(sh)[i] <= '9');
            }
            lemma_rw_word(dec(sh), m);
            assert(replacement(m, dec(sh)) == dec(sh));
            lemma_rw_close("("@ + r + " >> "@ + dec(sh), ")"@, m);
            lemma_rw_after_punct("("@ + r, " >> "@, dec(sh), m);
            lemma_rw_open(r, m);
        },
        Expr::Mul(v, a) => {
            let r = render(*a, input);
            lemma_rw_render(*a, input, m, w, n, k);
            lemma_dec_digits(v);
            assert forall|i: int| 0 <= i < dec(v).len() implies is_word_char(#[trigger] dec(v)[i]) by {
                assert('0' <= dec(v)[i] <= '9');
            }
            lemma_rw_word(dec(v), m);
            lemma_rw_close("("@ + dec(v) + " * "@ + r, ")"@, m);
            lemma_rw_after_punct("("@ + dec(v), " * "@, r, m);
            lemma_rw_open(dec(v), m);
        },
        Expr::Add(a, b) => {
            let ra = render(*a, input);
            let rb = render(*b, input);
            lemma_rw_render(*a, input, m, w, n, k);
            lemma_rw_render(*b, input, m, w, n, k);
            lemma_rw_close("("@ + ra + " + "@ + rb, ")"@, m);
            lemma_rw_after_punct("("@ + ra, " + "@, rb, m);
            lemma_rw_open(ra, m);
        },
        Expr::Sub(a, b) => {
            let ra = render(*a, input);
            let rb = render(*b, input);
            lemma_rw_render(*a, input, m, w, n, k);
            lemma_rw_render(*b, input, m, w, n, k);
            lemma_rw_close("("@ + ra + " - "@ + rb, ")"@, m);
            lemma_rw_after_punct("("@ + ra, " - "@, rb, m);
            lemma_rw_open(ra, m);
        },
        Expr::Paren(a) => {
            let ra = render(*a, input);
            lemma_rw_render(*a, input, m, w, n, k);
            lemma_rw_close("("@ + ra, ")"@, m);
            lemma_rw_open(ra, m);
        },
        Expr::Leap(h, ps) => {
            lemma_more_puncts();
            let rh = render(*h, input);
            let pr = decimal_params_of(ps);
            lemma_rw_render(*h, input, m, w, n, k);
            lemma_rw_params(ps, m);
            lemma_rw_close("<"@ + rh + "("@ + pr, ")>"@, m);
            lemma_rw_after_punct("<"@ + rh, "("@, pr, m);
            lemma_rw_prefix_punct("<"@, rh, m);
        },
        Expr::Name(v) => {
            lemma_variant_name_word(v);
            lemma_rw_word(variant_name(v), m);
        },
    }
}


/// The values of steps with the given expressions, for the input `x`, each computed from the
/// ones before it.
pub open spec fn values_of(asts: Seq<Expr>, x: int) -> Seq<int>
    decreases asts.len(),
{
    if asts.len() == 0 {
        seq![]
    } else {
        let v = values_of(asts.drop_last(), x);
        v.push(eval(asts.last(), x, v))
    }
}

/// The steps are named after their positions, their texts are those of the expressions,
/// and each expression reads only steps before its own.
pub open spec fn spells(
    steps: Seq<(Seq<char>, Seq<char>)>,
    asts: Seq<Expr>,
    input: Seq<char>,
) -> bool {
    &&& steps.len() == asts.len()
    &&& forall|i: int|
        0 <= i < steps.len() ==> #[trigger] steps[i] == (step_name_of(i as nat), render(
            asts[i],
            input,
        ))
    &&& forall|i: int| 0 <= i < asts.len() ==> refs_below(#[trigger] asts[i], i as nat)
}

proof fn lemma_refs_mono(e: Expr, k: nat, k2: nat)
    requires
        refs_below(e, k),
        k <= k2,
    ensures
        refs_below(e, k2),
    decreases e,
{
    match e {
        Expr::Shl(a, _) => lemma_refs_mono(*a, k, k2),
        Expr::Shr(a, _) => lemma_refs_mono(*a, k, k2),
        Expr::Mul(_, a) => lemma_refs_mono(*a, k, k2),
        Expr::Add(a, b) => {
            lemma_refs_mono(*a, k, k2);
            lemma_refs_mono(*b, k, k2);
        },
        Expr::Sub(a, b) => {
            lemma_refs_mono(*a, k, k2);
            lemma_refs_mono(*b, k, k2);
        },
        Expr::Paren(a) => lemma_refs_mono(*a, k, k2),
        Expr::Leap(h, _) => lemma_refs_mono(*h, k, k2),
        _ => {},
    }
}

proof fn lemma_refs_subst(e: Expr, w: Expr, n: nat, k: nat)
    requires
        refs_below(e, k),
        refs_below(w, n),
    ensures
        refs_below(subst(e, w, n), n + k),
    decreases e,
{
    match e {
        Expr::Input => lemma_refs_mono(w, n, n + k),
        Expr::Shl(a, _) => lemma_refs_subst(*a, w, n, k),
        Expr::Shr(a, _) => lemma_refs_subst(*a, w, n, k),
        Expr::Mul(_, a) => lemma_refs_subst(*a, w, n, k),
        Expr::Add(a, b) => {
            lemma_refs_subst(*a, w, n, k);
            lemma_refs_subst(*b, w, n, k);
        },
        Expr::Sub(a, b) => {
            lemma_refs_subst(*a, w, n, k);
            lemma_refs_subst(*b, w, n, k);
        },
        Expr::Paren(a) => lemma_refs_subst(*a, w, n, k),
        Expr::Leap(h, _) => lemma_refs_subst(*h, w, n, k),
        _ => {},
    }
}

/// An expression reads only the steps below its bound.
proof fn lemma_eval_prefix(e: Expr, x: int, v1: Seq<int>, v2: Seq<int>, k: nat)
    requires
        refs_below(e, k),
        forall|j: int| 0 <= j < k ==> v1[j] == v2[j],
    ensures
        eval(e, x, v1) == eval(e, x, v2),
    decreases e,
{
    match e {
        Expr::Shl(a, _) => lemma_eval_prefix(*a, x, v1, v2, k),
        Expr::Shr(a, _) => lemma_eval_prefix(*a, x, v1, v2, k),
        Expr::Mul(_, a) => lemma_eval_prefix(*a, x, v1, v2, k),
        Expr::Add(a, b) => {
            lemma_eval_prefix(*a, x, v1, v2, k);
            lemma_eval_prefix(*b, x, v1, v2, k);
        },
        Expr::Sub(a, b) => {
            lemma_eval_prefix(*a, x, v1, v2, k);
            lemma_eval_prefix(*b, x, v1, v2, k);
        },
        Expr::Paren(a) => lemma_eval_prefix(*a, x, v1, v2, k),
        _ => {},
    }
}

/// The value of a substituted expression is that of `e` itself for the value of `w` as
/// input.
proof fn lemma_eval_subst(
    e: Expr,
    w: Expr,
    n: nat,
    k: nat,
    x: int,
    vals: Seq<int>,
    vt: Seq<int>,
)
    requires
        refs_below(e, k),
        forall|j: int| 0 <= j < k ==> vals[n + j] == vt[j],
    ensures
        eval(subst(e, w, n), x, vals) == eval(e, eval(w, x, vals), vt),
    decreases e,
{
    match e {
        Expr::Ref(j) => {
            assert(vals[(n + j) as int] == vt[j as int]);
        },
        Expr::Shl(a, _) => lemma_eval_subst(*a, w, n, k, x, vals, vt),
        Expr::Shr(a, _) => lemma_eval_subst(*a, w, n, k, x, vals, vt),
        Expr::Mul(_, a) => lemma_eval_subst(*a, w, n, k, x, vals, vt),
        Expr::Add(a, b) => {
            lemma_eval_subst(*a, w, n, k, x, vals, vt);
            lemma_eval_subst(*b, w, n, k, x, vals, vt);
        },
        Expr::Sub(a, b) => {
            lemma_eval_subst(*a, w, n, k, x, vals, vt);
            lemma_eval_subst(*b, w, n, k, x, vals, vt);
        },
        Expr::Paren(a) => lemma_eval_subst(*a, w, n, k, x, vals, vt),
        _ => {},
    }
}

proof fn lemma_values_take(asts: Seq<Expr>, k: nat, x: int)
    requires
        k <= asts.len(),
    ensures
        values_of(asts, x).len() == asts.len(),
        values_of(asts, x).take(k as int) == values_of(asts.take(k as int), x),
    decreases asts.len(),
{
    if asts.len() == 0 {
        assert(asts.take(k as int) =~= asts);
    } else if k == asts.len() {
        lemma_values_take(asts.drop_last(), 0, x);
        assert(asts.take(k as int) =~= asts);
        assert(values_of(asts, x).take(k as int) =~= values_of(asts, x));
    } else {
        lemma_values_take(asts.drop_last(), k, x);
        assert(asts.drop_last().take(k as int) =~= asts.take(k as int));
        assert(values_of(asts, x).take(k as int) =~= values_of(asts.drop_last(), x).take(k as int));
    }
}

/// The value of each step is that of its expression over the values of all steps.
proof fn lemma_values_index(asts: Seq<Expr>, i: int, x: int)
    requires
        0 <= i < asts.len(),
        refs_below(asts[i], i as nat),
    ensures
        values_of(asts, x)[i] == eval(asts[i], x, values_of(asts, x)),
{
    lemma_values_take(asts, (i + 1) as nat, x);
    lemma_values_take(asts, i as nat, x);
    let t = asts.take(i + 1);
    lemma_values_take(t, i as nat, x);
    assert(t.drop_last() =~= asts.take(i));
    assert(values_of(t, x)[i] == eval(asts[i], x, values_of(asts.take(i), x)));
    assert(values_of(asts, x)[i] == values_of(asts, x).take(i + 1)[i]);
    lemma_eval_prefix(asts[i], x, values_of(asts.take(i), x), values_of(asts, x), i as nat);
}

/// Values of a longer list of steps agree with those of its beginning.
proof fn lemma_values_extend(asts: Seq<Expr>, longer: Seq<Expr>, x: int)
    requires
        asts.len() <= longer.len(),
        longer.take(asts.len() as int) == asts,
    ensures
        forall|j: int| 0 <= j < asts.len() ==> #[trigger] values_of(longer, x)[j] == values_of(asts, x)[j],
        values_of(asts, x).len() == asts.len(),
        values_of(longer, x).len() == longer.len(),
{
    lemma_values_take(longer, asts.len(), x);
    lemma_values_take(asts, 0, x);
    assert forall|j: int| 0 <= j < asts.len() implies #[trigger] values_of(longer, x)[j] == values_of(asts, x)[j] by {
        assert(values_of(longer, x)[j] == values_of(longer, x).take(asts.len() as int)[j]);
    }
}


/// `e` shifted left by a positive, or right by a negative `k`; `e` itself for 0.
pub open spec fn shifted(e: Expr, k: int) -> Expr {
    if k == 0 {
        e
    } else if k > 0 {
        Expr::Shl(Box::new(e), k as nat)
    } else {
        Expr::Shr(Box::new(e), (-k) as nat)
    }
}

/// `e` between parentheses where its text gets them.
pub open spec fn wrap_expr(e: Expr, input: Seq<char>) -> Expr {
    if wrap_of(render(e, input)) == render(e, input) {
        e
    } else {
        Expr::Paren(Box::new(e))
    }
}

/// The expression of an adder or subtractor step over its operands and their net shifts.
pub open spec fn add_sub_ast(
    variant: Variant,
    el: Expr,
    er: Expr,
    ln: int,
    rn: int,
    input: Seq<char>,
) -> Expr {
    let factor = max_int(ln, rn);
    let both_right = ln < 0 && rn < 0;
    let la = if both_right {
        ln - factor
    } else {
        ln
    };
    let ra = if both_right {
        rn - factor
    } else {
        rn
    };
    let swap = variant == Variant::Adder && la != 0 && ra == 0;
    let left = if swap {
        shifted(er, ra)
    } else {
        shifted(el, la)
    };
    let right = if swap {
        shifted(el, la)
    } else {
        shifted(er, ra)
    };
    let op = if variant == Variant::Adder {
        Expr::Add(Box::new(wrap_expr(left, input)), Box::new(wrap_expr(right, input)))
    } else {
        Expr::Sub(Box::new(wrap_expr(left, input)), Box::new(wrap_expr(right, input)))
    };
    if both_right {
        shifted(op, factor)
    } else {
        op
    }
}

proof fn lemma_shifted_any(e: Expr, k: int, input: Seq<char>, b: nat)
    ensures
        render(shifted(e, k), input) == inline_shift_of(render(e, input), k),
        refs_below(e, b) ==> refs_below(shifted(e, k), b),
{
}

proof fn lemma_shifted(e: Expr, k: int, input: Seq<char>, b: nat)
    requires
        k >= 0,
    ensures
        render(shifted(e, k), input) == inline_shift_of(render(e, input), k),
        forall|x: int, v: Seq<int>| #[trigger] eval(shifted(e, k), x, v) == eval(e, x, v) * two_pow(k as nat),
        refs_below(e, b) ==> refs_below(shifted(e, k), b),
{
    assert(two_pow(0) == 1);
    if k > 0 {
        assert(render(shifted(e, k), input) == inline_shift_of(render(e, input), k));
    }
    assert forall|x: int, v: Seq<int>| #[trigger] eval(shifted(e, k), x, v) == eval(e, x, v)
        * two_pow(k as nat) by {
        if k == 0 {
            assert(eval(e, x, v) * 1 == eval(e, x, v));
        }
    }
}

proof fn lemma_wrap_expr(e: Expr, input: Seq<char>, b: nat)
    ensures
        render(wrap_expr(e, input), input) == wrap_of(render(e, input)),
        forall|x: int, v: Seq<int>| #[trigger] eval(wrap_expr(e, input), x, v) == eval(e, x, v),
        refs_below(e, b) ==> refs_below(wrap_expr(e, input), b),
{
}

proof fn lemma_add_sub_render(
    variant: Variant,
    el: Expr,
    er: Expr,
    ln: int,
    rn: int,
    input: Seq<char>,
    b: nat,
)
    requires
        variant == Variant::Adder || variant == Variant::Subtractor,
    ensures
        render(add_sub_ast(variant, el, er, ln, rn, input), input) == add_sub_of(
            variant,
            render(el, input),
            render(er, input),
            ln,
            rn,
        ),
        refs_below(el, b) && refs_below(er, b) ==> refs_below(
            add_sub_ast(variant, el, er, ln, rn, input),
            b,
        ),
{
    let factor = max_int(ln, rn);
    let both_right = ln < 0 && rn < 0;
    let la = if both_right {
        ln - factor
    } else {
        ln
    };
    let ra = if both_right {
        rn - factor
    } else {
        rn
    };
    lemma_shifted_any(el, la, input, b);
    lemma_shifted_any(er, ra, input, b);
    let swap = variant == Variant::Adder && la != 0 && ra == 0;
    let left = if swap {
        shifted(er, ra)
    } else {
        shifted(el, la)
    };
    let right = if swap {
        shifted(el, la)
    } else {
        shifted(er, ra)
    };
    lemma_wrap_expr(left, input, b);
    lemma_wrap_expr(right, input, b);
    let op = if variant == Variant::Adder {
        Expr::Add(Box::new(wrap_expr(left, input)), Box::new(wrap_expr(right, input)))
    } else {
        Expr::Sub(Box::new(wrap_expr(left, input)), Box::new(wrap_expr(right, input)))
    };
    lemma_shifted_any(op, factor, input, b);
}

proof fn lemma_add_sub_ast(
    variant: Variant,
    el: Expr,
    er: Expr,
    ln: int,
    rn: int,
    input: Seq<char>,
    b: nat,
)
    requires
        ln >= 0,
        rn >= 0,
        variant == Variant::Adder || variant == Variant::Subtractor,
    ensures
        render(add_sub_ast(variant, el, er, ln, rn, input), input) == add_sub_of(
            variant,
            render(el, input),
            render(er, input),
            ln,
            rn,
        ),
        forall|x: int, v: Seq<int>|
            #[trigger] eval(add_sub_ast(variant, el, er, ln, rn, input), x, v) == if variant
                == Variant::Adder {
                eval(el, x, v) * two_pow(ln as nat) + eval(er, x, v) * two_pow(rn as nat)
            } else {
                eval(el, x, v) * two_pow(ln as nat) - eval(er, x, v) * two_pow(rn as nat)
            },
        refs_below(el, b) && refs_below(er, b) ==> refs_below(
            add_sub_ast(variant, el, er, ln, rn, input),
            b,
        ),
{
    lemma_shifted(el, ln, input, b);
    lemma_shifted(er, rn, input, b);
    let swap = variant == Variant::Adder && ln != 0 && rn == 0;
    let left = if swap {
        shifted(er, rn)
    } else {
        shifted(el, ln)
    };
    let right = if swap {
        shifted(el, ln)
    } else {
        shifted(er, rn)
    };
    lemma_wrap_expr(left, input, b);
    lemma_wrap_expr(right, input, b);
    assert forall|x: int, v: Seq<int>|
        #[trigger] eval(add_sub_ast(variant, el, er, ln, rn, input), x, v) == if variant
            == Variant::Adder {
            eval(el, x, v) * two_pow(ln as nat) + eval(er, x, v) * two_pow(rn as nat)
        } else {
            eval(el, x, v) * two_pow(ln as nat) - eval(er, x, v) * two_pow(rn as nat)
        } by {
        assert(eval(shifted(el, ln), x, v) == eval(el, x, v) * two_pow(ln as nat));
        assert(eval(shifted(er, rn), x, v) == eval(er, x, v) * two_pow(rn as nat));
        assert(eval(wrap_expr(left, input), x, v) == eval(left, x, v));
        assert(eval(wrap_expr(right, input), x, v) == eval(right, x, v));
    }
}

/// The renaming of the first `k` step names to the names `n` places further on.
pub open spec fn remap_of(n: nat, k: nat) -> Seq<(Seq<char>, Seq<char>)> {
    Seq::new(k, |j: int| (step_name_of(j as nat), step_name_of((n + j) as nat)))
}

proof fn lemma_lookup_concat(
    a: Seq<(Seq<char>, Seq<char>)>,
    b: Seq<(Seq<char>, Seq<char>)>,
    w: Seq<char>,
)
    ensures
        lookup(a + b, w) == (match lookup(b, w) {
            Some(r) => Some(r),
            None => lookup(a, w),
        }),
    decreases b.len(),
{
    if b.len() == 0 {
        assert(a + b =~= a);
    } else {
        assert((a + b).last() == b.last());
        assert((a + b).drop_last() =~= a + b.drop_last());
        lemma_lookup_concat(a, b.drop_last(), w);
    }
}

proof fn lemma_lookup_remap_hit(n: nat, k: nat, j: nat)
    requires
        j < k,
    ensures
        lookup(remap_of(n, k), step_name_of(j)) == Some(step_name_of(n + j)),
    decreases k,
{
    let r = remap_of(n, k);
    assert(r.last() == (step_name_of((k - 1) as nat), step_name_of((n + k - 1) as nat)));
    if j != k - 1 {
        if step_name_of((k - 1) as nat) == step_name_of(j) {
            lemma_step_name_injective((k - 1) as nat, j);
        }
        assert(r.drop_last() =~= remap_of(n, (k - 1) as nat));
        lemma_lookup_remap_hit(n, (k - 1) as nat, j);
    }
}

proof fn lemma_lookup_remap_miss(n: nat, k: nat, w: Seq<char>)
    requires
        forall|j: nat| j < k ==> w != #[trigger] step_name_of(j),
    ensures
        lookup(remap_of(n, k), w) is None,
    decreases k,
{
    if k > 0 {
        let r = remap_of(n, k);
        assert(r.last().0 == step_name_of((k - 1) as nat));
        assert(r.drop_last() =~= remap_of(n, (k - 1) as nat));
        lemma_lookup_remap_miss(n, (k - 1) as nat, w);
    }
}

/// Numbers, the input and step names are different words.
proof fn lemma_words_differ(input: Seq<char>, v: nat, j: nat)
    requires
        input_ok(input),
    ensures
        dec(v) != step_name_of(j),
        dec(v) != input,
        input != step_name_of(j),
{
    lemma_dec_digits(v);
    lemma_step_name_chars(j);
    assert('0' <= dec(v)[0] <= '9');
    if dec(v) == input {
        assert(input[0] == dec(v)[0]);
    }
}

/// The word map of a replayed step: the input becomes `w`, the first `k` step names move
/// `n` places on, numbers stay.
proof fn lemma_replay_map(input: Seq<char>, wt: Seq<char>, n: nat, k: nat)
    requires
        input_ok(input),
    ensures
        replacement(seq![(input, wt)] + remap_of(n, k), input) == wt,
        forall|j: nat|
            j < k ==> replacement(seq![(input, wt)] + remap_of(n, k), #[trigger] step_name_of(j))
                == step_name_of(n + j),
        forall|v: nat| replacement(seq![(input, wt)] + remap_of(n, k), #[trigger] dec(v)) == dec(v),
        forall|v: Variant|
            variant_name(v) != input ==> replacement(seq![(input, wt)] + remap_of(n, k), #[trigger] variant_name(v))
                == variant_name(v),
{
    let m = seq![(input, wt)] + remap_of(n, k);
    {
        assert forall|v: Variant| variant_name(v) != input implies replacement(m, #[trigger] variant_name(v)) == variant_name(v) by {
            let one = seq![(input, wt)];
            lemma_lookup_concat(one, remap_of(n, k), variant_name(v));
            lemma_variant_name_word(v);
            assert forall|j: nat| j < k implies variant_name(v) != #[trigger] step_name_of(j) by {
                lemma_step_name_chars(j);
            }
            lemma_lookup_remap_miss(n, k, variant_name(v));
            assert(one.drop_last() =~= Seq::<(Seq<char>, Seq<char>)>::empty());
            assert(lookup(one.drop_last(), variant_name(v)) is None);
        }
    }
    lemma_lookup_concat(seq![(input, wt)], remap_of(n, k), input);
    lemma_lookup_remap_miss(n, k, input);
    let one = seq![(input, wt)];
    assert(one.drop_last() =~= Seq::<(Seq<char>, Seq<char>)>::empty());
    assert forall|j: nat| j < k implies replacement(m, #[trigger] step_name_of(j)) == step_name_of(
        n + j,
    ) by {
        lemma_lookup_concat(one, remap_of(n, k), step_name_of(j));
        lemma_lookup_remap_hit(n, k, j);
    }
    assert forall|v: nat| replacement(m, #[trigger] dec(v)) == dec(v) by {
        lemma_lookup_concat(one, remap_of(n, k), dec(v));
        assert forall|j: nat| j < k implies dec(v) != #[trigger] step_name_of(j) by {
            lemma_words_differ(input, v, j);
        }
        lemma_lookup_remap_miss(n, k, dec(v));
        lemma_words_differ(input, v, 0);
        assert(lookup(one.drop_last(), dec(v)) is None);
    }
}


proof fn lemma_spells_push(
    steps: Seq<(Seq<char>, Seq<char>)>,
    asts: Seq<Expr>,
    e: Expr,
    input: Seq<char>,
)
    requires
        spells(steps, asts, input),
        refs_below(e, asts.len()),
    ensures
        spells(steps.push((step_name_of(steps.len()), render(e, input))), asts.push(e), input),
        asts.push(e).take(asts.len() as int) == asts,
{
    assert(asts.push(e).take(asts.len() as int) =~= asts);
}

/// The expressions of a cascade's outer stage, replayed after `asts`: the input replaced by
/// `w` and each step moved past `asts`.
pub open spec fn replayed(asts: Seq<Expr>, tmp_asts: Seq<Expr>, w: Expr, k: nat) -> Seq<Expr> {
    asts + Seq::new(k, |j: int| subst(tmp_asts[j], w, asts.len()))
}

proof fn lemma_replay(
    tmp: Seq<(Seq<char>, Seq<char>)>,
    tmp_asts: Seq<Expr>,
    k: nat,
    steps: Seq<(Seq<char>, Seq<char>)>,
    asts: Seq<Expr>,
    input: Seq<char>,
    w: Expr,
)
    requires
        input_ok(input),
        spells(tmp, tmp_asts, input),
        k <= tmp.len(),
        refs_below(w, asts.len()),
        spells(steps, replayed(asts, tmp_asts, w, k), input),
        all_names_ok(tmp_asts, input),
    ensures
        replay_of(tmp.skip(k as int), steps, remap_of(asts.len(), k), input, render(w, input)).1
            == remap_of(asts.len(), tmp.len()),
        spells(
            replay_of(tmp.skip(k as int), steps, remap_of(asts.len(), k), input, render(w, input)).0,
            replayed(asts, tmp_asts, w, tmp.len()),
            input,
        ),
    decreases tmp.len() - k,
{
    let n = asts.len();
    let t = tmp.skip(k as int);
    if k < tmp.len() {
        assert(t[0] == tmp[k as int]);
        assert(t.drop_first() =~= tmp.skip((k + 1) as int));
        assert(replayed(asts, tmp_asts, w, k).len() == n + k);
        let e = tmp_asts[k as int];
        assert(refs_below(e, k));
        let m = seq![(input, render(w, input))] + remap_of(n, k);
        lemma_replay_map(input, render(w, input), n, k);
        lemma_rw_render(e, input, m, w, n, k);
        let se = subst(e, w, n);
        lemma_refs_subst(e, w, n, k);
        let next = steps.push((step_name_of(steps.len()), render(se, input)));
        lemma_spells_push(steps, replayed(asts, tmp_asts, w, k), se, input);
        assert(replayed(asts, tmp_asts, w, k).push(se) =~= replayed(asts, tmp_asts, w, k + 1));
        assert(remap_of(n, k).push((tmp[k as int].0, step_name_of(steps.len()))) =~= remap_of(
            n,
            k + 1,
        ));
        lemma_replay(tmp, tmp_asts, k + 1, next, asts, input, w);
    } else {
        assert(t.len() == 0);
    }
}

/// The values of replayed steps are those of the outer stage for the value of `w` as input.
proof fn lemma_replay_values(asts: Seq<Expr>, tmp_asts: Seq<Expr>, w: Expr, k: nat, x: int)
    requires
        k <= tmp_asts.len(),
        refs_below(w, asts.len()),
        forall|i: int| 0 <= i < tmp_asts.len() ==> refs_below(#[trigger] tmp_asts[i], i as nat),
    ensures
        values_of(replayed(asts, tmp_asts, w, k), x).len() == asts.len() + k,
        forall|j: int|
            0 <= j < asts.len() ==> #[trigger] values_of(replayed(asts, tmp_asts, w, k), x)[j]
                == values_of(asts, x)[j],
        forall|j: int|
            0 <= j < k ==> #[trigger] values_of(replayed(asts, tmp_asts, w, k), x)[asts.len() + j]
                == values_of(tmp_asts, eval(w, x, values_of(asts, x)))[j],
    decreases k,
{
    let n = asts.len();
    let r = replayed(asts, tmp_asts, w, k);
    let y = eval(w, x, values_of(asts, x));
    assert(r.take(n as int) =~= asts);
    lemma_values_extend(asts, r, x);
    lemma_values_take(tmp_asts, 0, y);
    if k > 0 {
        let k1 = (k - 1) as nat;
        let r1 = replayed(asts, tmp_asts, w, k1);
        lemma_replay_values(asts, tmp_asts, w, k1, x);
        assert(r.drop_last() =~= r1);
        let v1 = values_of(r1, x);
        let e = tmp_asts[k1 as int];
        assert(refs_below(e, k1));
        assert forall|j: int| 0 <= j < k1 implies v1[n + j] == values_of(tmp_asts, y)[j] by {
            assert(v1[n + j] == values_of(r1, x)[n + j]);
        }
        lemma_eval_subst(e, w, n, k1, x, v1, values_of(tmp_asts, y));
        lemma_eval_prefix(w, x, v1, values_of(asts, x), n);
        lemma_values_index(tmp_asts, k1 as int, y);
        assert(values_of(r, x) == v1.push(eval(r.last(), x, v1)));
        assert forall|j: int| 0 <= j < k implies #[trigger] values_of(r, x)[n + j]
            == values_of(tmp_asts, y)[j] by {
            if j < k1 {
                assert(values_of(r, x)[n + j] == v1[n + j]);
            }
        }
    }
}


/// Only a step's own expression spells a step name.
proof fn lemma_render_not_name(e: Expr, input: Seq<char>, j: nat)
    requires
        input_ok(input),
        !(e is Ref),
    ensures
        render(e, input) != step_name_of(j),
{
    lemma_step_name_chars(j);
    lemma_puncts();
    match e {
        Expr::Input => {},
        Expr::Ref(_) => {},
        Expr::Shl(a, k) => {
            let r = "("@ + render(*a, input);
            assert(r[0] == '(');
            assert(render(e, input)[0] == r[0]);
        },
        Expr::Shr(a, k) => {
            let r = "("@ + render(*a, input);
            assert(r[0] == '(');
            assert(render(e, input)[0] == r[0]);
        },
        Expr::Mul(v, a) => {
            let r = "("@ + dec(v);
            assert(r[0] == '(');
            assert(render(e, input)[0] == r[0]);
        },
        Expr::Add(a, b) => {
            let r = "("@ + render(*a, input);
            assert(r[0] == '(');
            assert(render(e, input)[0] == r[0]);
        },
        Expr::Sub(a, b) => {
            let r = "("@ + render(*a, input);
            assert(r[0] == '(');
            assert(render(e, input)[0] == r[0]);
        },
        Expr::Paren(a) => {
            let r = "("@ + render(*a, input);
            assert(r[0] == '(');
            assert(render(e, input)[0] == r[0]);
        },
        Expr::Leap(h, ps) => {
            let r = "<"@ + render(*h, input);
            reveal_strlit("<");
            assert(r[0] == '<');
            assert(render(e, input)[0] == r[0]);
        },
        Expr::Name(v) => {
            lemma_variant_name_word(v);
        },
    }
}

proof fn lemma_names_push(asts: Seq<Expr>, e: Expr, input: Seq<char>)
    ensures
        all_names_ok(asts, input) && names_ok(e, input) ==> all_names_ok(asts.push(e), input),
{
    if all_names_ok(asts, input) && names_ok(e, input) {
        assert forall|i: int| 0 <= i < asts.push(e).len() implies names_ok(#[trigger] asts.push(e)[i], input) by {
            if i < asts.len() {
                assert(asts.push(e)[i] == asts[i]);
            }
        }
    }
}

proof fn lemma_subst_names(e: Expr, w: Expr, n: nat, input: Seq<char>)
    requires
        names_ok(e, input),
        names_ok(w, input),
    ensures
        names_ok(subst(e, w, n), input),
    decreases e,
{
    match e {
        Expr::Shl(a, _) => lemma_subst_names(*a, w, n, input),
        Expr::Shr(a, _) => lemma_subst_names(*a, w, n, input),
        Expr::Mul(_, a) => lemma_subst_names(*a, w, n, input),
        Expr::Add(a, b) => {
            lemma_subst_names(*a, w, n, input);
            lemma_subst_names(*b, w, n, input);
        },
        Expr::Sub(a, b) => {
            lemma_subst_names(*a, w, n, input);
            lemma_subst_names(*b, w, n, input);
        },
        Expr::Paren(a) => lemma_subst_names(*a, w, n, input),
        Expr::Leap(h, _) => lemma_subst_names(*h, w, n, input),
        _ => {},
    }
}

proof fn lemma_add_sub_names(variant: Variant, el: Expr, er: Expr, ln: int, rn: int, input: Seq<char>)
    requires
        names_ok(el, input),
        names_ok(er, input),
    ensures
        names_ok(add_sub_ast(variant, el, er, ln, rn, input), input),
{
    let f = max_int(ln, rn);
    let both_right = ln < 0 && rn < 0;
    let la = if both_right {
        ln - f
    } else {
        ln
    };
    let ra = if both_right {
        rn - f
    } else {
        rn
    };
    lemma_shifted_names(el, la, input);
    lemma_shifted_names(er, ra, input);
    let swap = variant == Variant::Adder && la != 0 && ra == 0;
    let left = if swap {
        shifted(er, ra)
    } else {
        shifted(el, la)
    };
    let right = if swap {
        shifted(el, la)
    } else {
        shifted(er, ra)
    };
    assert(names_ok(wrap_expr(left, input), input));
    assert(names_ok(wrap_expr(right, input), input));
    let op = if variant == Variant::Adder {
        Expr::Add(Box::new(wrap_expr(left, input)), Box::new(wrap_expr(right, input)))
    } else {
        Expr::Sub(Box::new(wrap_expr(left, input)), Box::new(wrap_expr(right, input)))
    };
    assert(names_ok(op, input));
    lemma_shifted_names(op, f, input);
}

proof fn lemma_shifted_names(e: Expr, k: int, input: Seq<char>)
    requires
        names_ok(e, input),
    ensures
        names_ok(shifted(e, k), input),
{
}

/// The value of a step after `emit_shift_scaled_of`: the step `i` shifted left.
proof fn lemma_emit(
    st: Seq<(Seq<char>, Seq<char>)>,
    asts: Seq<Expr>,
    i: nat,
    shift: int,
    input: Seq<char>,
) -> (res: (Seq<Expr>, Expr))
    requires
        spells(st, asts, input),
        i + 1 == asts.len(),
        shift >= 0,
    ensures
        res.1 == Expr::Ref((res.0.len() - 1) as nat),
        spells(emit_shift_scaled_of(step_name_of(i), shift, st).0, res.0, input),
        asts.len() <= res.0.len(),
        res.0.take(asts.len() as int) == asts,
        render(res.1, input) == emit_shift_scaled_of(step_name_of(i), shift, st).1,
        res.1 is Ref,
        refs_below(res.1, res.0.len()),
        all_names_ok(asts, input) ==> all_names_ok(res.0, input),
        forall|x: int|
            #[trigger] eval(res.1, x, values_of(res.0, x)) == values_of(asts, x)[i as int] * two_pow(
                shift as nat,
            ),
{
    if shift != 0 {
        let e = Expr::Shl(Box::new(Expr::Ref(i)), shift as nat);
        assert(names_ok(Expr::Ref(i), input));
        assert(names_ok(e, input));
        lemma_names_push(asts, e, input);
    }
    lemma_shifted(Expr::Ref(i), shift, input, asts.len());
    assert forall|x: int| #[trigger] values_of(asts, x).len() == asts.len() by {
        lemma_values_take(asts, 0, x);
    }
    if shift == 0 {
        assert(asts.take(asts.len() as int) =~= asts);
        assert forall|x: int|
            #[trigger] eval(Expr::Ref(i), x, values_of(asts, x)) == values_of(asts, x)[i as int]
                * two_pow(shift as nat) by {
            assert(two_pow(0) == 1);
            assert(values_of(asts, x)[i as int] * 1 == values_of(asts, x)[i as int]);
        }
        (asts, Expr::Ref(i))
    } else {
        let e = Expr::Shl(Box::new(Expr::Ref(i)), shift as nat);
        assert(render(e, input) == inline_shift_of(step_name_of(i), shift));
        lemma_spells_push(st, asts, e, input);
        let a2 = asts.push(e);
        assert forall|x: int|
            #[trigger] eval(Expr::Ref(asts.len()), x, values_of(a2, x)) == values_of(asts, x)[i as int]
                * two_pow(shift as nat) by {
            assert(a2.drop_last() =~= asts);
            lemma_values_take(asts, 0, x);
            assert(values_of(a2, x) == values_of(asts, x).push(eval(e, x, values_of(asts, x))));
        }
        (a2, Expr::Ref(asts.len()))
    }
}

/// The end of a cascade computes the outer stage's result for the value of `w` as input,
/// shifted left by `p1_shift`.
proof fn lemma_cascade_tail(
    tmp: Seq<(Seq<char>, Seq<char>)>,
    tmp_asts: Seq<Expr>,
    et: Expr,
    steps: Seq<(Seq<char>, Seq<char>)>,
    asts: Seq<Expr>,
    input: Seq<char>,
    w: Expr,
    p1_shift: int,
) -> (res: (Seq<Expr>, Expr))
    requires
        input_ok(input),
        spells(tmp, tmp_asts, input),
        refs_below(et, tmp_asts.len()),
        et is Ref || refs_below(et, 0),
        et is Ref ==> et == Expr::Ref((tmp_asts.len() - 1) as nat),
        spells(steps, asts, input),
        refs_below(w, asts.len()),
        p1_shift >= 0,
        all_names_ok(tmp_asts, input),
        names_ok(et, input),
    ensures
        res.1 == Expr::Ref((res.0.len() - 1) as nat),
        all_names_ok(asts, input) && all_names_ok(tmp_asts, input) && names_ok(w, input) && names_ok(et, input) ==> all_names_ok(res.0, input),
        spells(
            cascade_tail_of(tmp, steps, input, render(w, input), render(et, input), p1_shift).0,
            res.0,
            input,
        ),
        asts.len() <= res.0.len(),
        res.0.take(asts.len() as int) == asts,
        render(res.1, input) == cascade_tail_of(
            tmp,
            steps,
            input,
            render(w, input),
            render(et, input),
            p1_shift,
        ).1,
        res.1 is Ref,
        refs_below(res.1, res.0.len()),
        forall|x: int|
            #[trigger] eval(res.1, x, values_of(res.0, x)) == eval(
                et,
                eval(w, x, values_of(asts, x)),
                values_of(tmp_asts, eval(w, x, values_of(asts, x))),
            ) * two_pow(p1_shift as nat),
{
    let n = asts.len();
    let kk = tmp.len();
    let wt = render(w, input);
    assert(replayed(asts, tmp_asts, w, 0) =~= asts);
    assert(tmp.skip(0) =~= tmp);
    assert(remap_of(n, 0) =~= Seq::<(Seq<char>, Seq<char>)>::empty());
    lemma_replay(tmp, tmp_asts, 0, steps, asts, input, w);
    let r = replayed(asts, tmp_asts, w, kk);
    if all_names_ok(asts, input) && all_names_ok(tmp_asts, input) && names_ok(w, input) {
        assert forall|i: int| 0 <= i < r.len() implies names_ok(#[trigger] r[i], input) by {
            if i >= n {
                lemma_subst_names(tmp_asts[i - n], w, n, input);
            }
        }
    }
    let (st2, remap) = replay_of(tmp, steps, seq![], input, wt);
    assert(remap == remap_of(n, kk));
    assert(spells(st2, r, input));
    assert(r.take(n as int) =~= asts);
    assert forall|i: int| 0 <= i < tmp_asts.len() implies refs_below(#[trigger] tmp_asts[i], i as nat) by {
        assert(spells(tmp, tmp_asts, input));
    }
    match et {
        Expr::Ref(j) => {
            lemma_lookup_remap_hit(n, kk, j);
            let res = lemma_emit(st2, r, n + j, p1_shift, input);
            assert forall|x: int|
                #[trigger] eval(res.1, x, values_of(res.0, x)) == eval(
                    et,
                    eval(w, x, values_of(asts, x)),
                    values_of(tmp_asts, eval(w, x, values_of(asts, x))),
                ) * two_pow(p1_shift as nat) by {
                lemma_replay_values(asts, tmp_asts, w, kk, x);
                assert(values_of(r, x)[(n + j) as int] == values_of(
                    tmp_asts,
                    eval(w, x, values_of(asts, x)),
                )[j as int]);
            }
            assert(res.0.take(n as int) =~= r.take(n as int));
            res
        },
        _ => {
            assert forall|j: nat| j < kk implies render(et, input) != #[trigger] step_name_of(j) by {
                lemma_render_not_name(et, input, j);
            }
            lemma_lookup_remap_miss(n, kk, render(et, input));
            lemma_replay_map(input, wt, n, 0);
            assert(seq![(input, wt)] + remap_of(n, 0) =~= seq![(input, wt)]);
            lemma_rw_render(et, input, seq![(input, wt)], w, n, 0);
            let se = subst(et, w, n);
            lemma_refs_subst(et, w, n, 0);
            lemma_refs_mono(se, n, r.len());
            lemma_spells_push(st2, r, se, input);
            if names_ok(et, input) && names_ok(w, input) {
                lemma_subst_names(et, w, n, input);
            }
            lemma_names_push(r, se, input);
            let r2 = r.push(se);
            let st3 = st2.push((step_name_of(st2.len()), render(se, input)));
            let res = lemma_emit(st3, r2, r.len(), p1_shift, input);
            assert forall|x: int|
                #[trigger] eval(res.1, x, values_of(res.0, x)) == eval(
                    et,
                    eval(w, x, values_of(asts, x)),
                    values_of(tmp_asts, eval(w, x, values_of(asts, x))),
                ) * two_pow(p1_shift as nat) by {
                lemma_values_extend(asts, r, x);
                let v = values_of(r, x);
                assert(r2.drop_last() =~= r);
                assert(values_of(r2, x)[r.len() as int] == eval(se, x, v));
                lemma_eval_subst(et, w, n, 0, x, v, values_of(tmp_asts, eval(w, x, values_of(asts, x))));
                lemma_eval_prefix(w, x, v, values_of(asts, x), n);
            }
            assert(res.0.take(n as int) =~= r2.take(n as int));
            assert(r2.take(n as int) =~= asts);
            res
        },
    }
}


/// A tree whose steps compute a multiple of the input: its leaves are powers of two and its
/// nodes are adders, subtractors or cascades.
pub open spec fn good_tree(t: TreeView) -> bool
    decreases t,
{
    match t {
        TreeView::Leaf(c) => c > 0 && odd_part(c as nat) == 1,
        TreeView::Node { variant, left, right, .. } => is_binary(variant) && good_tree(*left)
            && good_tree(*right),
        TreeView::Leapfrog { .. } => false,
    }
}

/// The constant that a tree multiplies by: a leaf's own value; for a node, its operands
/// shifted left by the trailing zeros of the parameters, then added, subtracted or
/// multiplied.
pub open spec fn tree_value(t: TreeView) -> int
    decreases t,
{
    match t {
        TreeView::Leaf(c) => c as int,
        TreeView::Node { variant, left, right, p0, p1 } => {
            let l = tree_value(*left) * two_pow(shift_raw_of(p0) as nat);
            let r = tree_value(*right) * two_pow(shift_raw_of(p1) as nat);
            if variant == Variant::Adder {
                l + r
            } else if variant == Variant::Subtractor {
                l - r
            } else {
                l * r
            }
        },
        TreeView::Leapfrog { .. } => 0,
    }
}

/// Flattening a good tree without scaling appends steps whose expressions compute, and
/// returns an expression whose value is, the tree's value times the input.
pub proof fn lemma_flatten_computes(
    t: TreeView,
    steps: Seq<(Seq<char>, Seq<char>)>,
    asts: Seq<Expr>,
    input: Seq<char>,
) -> (res: (Seq<Expr>, Expr))
    requires
        good_tree(t),
        input_ok(input),
        spells(steps, asts, input),
    ensures
        spells(flatten_of(t, 0, steps, input).0, res.0, input),
        asts.len() <= res.0.len(),
        res.0.take(asts.len() as int) == asts,
        render(res.1, input) == flatten_of(t, 0, steps, input).1,
        refs_below(res.1, res.0.len()),
        res.1 is Ref || refs_below(res.1, 0),
        res.1 is Ref ==> res.1 == Expr::Ref((res.0.len() - 1) as nat),
        t is Leaf ==> res.0 == asts,
        !(t is Leaf) ==> res.1 is Ref,
        all_names_ok(asts, input) ==> all_names_ok(res.0, input),
        names_ok(res.1, input),
        forall|x: int| #[trigger] eval(res.1, x, values_of(res.0, x)) == tree_value(t) * x,
    decreases t,
{
    assert(asts.take(asts.len() as int) =~= asts);
    match t {
        TreeView::Leaf(c) => {
            if c == 1 {
                assert forall|x: int| #[trigger] eval(Expr::Input, x, values_of(asts, x)) == tree_value(t) * x by {
                    assert(tree_value(t) == 1);
                }
                (asts, Expr::Input)
            } else {
                lemma_odd_part_factor(c as nat);
                let k = tz(c as nat);
                assert(k > 0) by {
                    if k == 0 {
                        assert(two_pow(0) == 1);
                    }
                }
                let e = shifted(Expr::Input, k as int);
                lemma_shifted(Expr::Input, k as int, input, asts.len());
                lemma_shifted_names(Expr::Input, k as int, input);
                lemma_shifted(Expr::Input, k as int, input, 0);
                assert(refs_below(Expr::Input, asts.len()));
                assert(odd_part(c as nat) == 1);
                assert(c == 1 * two_pow(k));
                assert forall|x: int| #[trigger] eval(e, x, values_of(asts, x)) == tree_value(t) * x by {
                    assert(eval(e, x, values_of(asts, x)) == eval(Expr::Input, x, values_of(asts, x)) * two_pow(k));
                    assert(eval(e, x, values_of(asts, x)) == x * two_pow(k));
                    assert(two_pow(k) == c);
                    assert(x * c == c * x) by (nonlinear_arith);
                }
                (asts, e)
            }
        },
        TreeView::Leapfrog { .. } => (asts, Expr::Input),
        TreeView::Node { variant, left, right, p0, p1 } => {
            let p0_shift = shift_raw_of(p0);
            let p1_shift = shift_raw_of(p1);
            let p0_odd = odd_of(p0);
            let p1_odd = odd_of(p1);
            assert(eff_scale_of(p0_odd as nat, false) == 0);
            assert(eff_scale_of(p1_odd as nat, false) == 0);
            assert(eff_scale_of(p0 as nat, false) == 0);
            let res_l = lemma_flatten_computes(*left, steps, asts, input);
            let (a1, el) = res_l;
            let (st1, lb) = flatten_of(*left, 0, steps, input);
            if variant == Variant::Cascade {
                let ei = shifted(el, p0_shift);
                lemma_shifted(el, p0_shift, input, a1.len());
                let w = wrap_expr(ei, input);
                lemma_wrap_expr(ei, input, a1.len());
                assert(spells(seq![], seq![], input));
                let res_r = lemma_flatten_computes(*right, seq![], seq![], input);
                let (at, et) = res_r;
                let (tmp, rr) = flatten_of(*right, 0, seq![], input);
                lemma_shifted_names(el, p0_shift, input);
                assert(names_ok(w, input));
                assert(all_names_ok(Seq::<Expr>::empty(), input));
                let res = lemma_cascade_tail(tmp, at, et, st1, a1, input, w, p1_shift);
                assert(res.0.take(asts.len() as int) =~= a1.take(asts.len() as int));
                assert forall|x: int| #[trigger] eval(res.1, x, values_of(res.0, x)) == tree_value(t) * x by {
                    let y = eval(w, x, values_of(a1, x));
                    let tl = tree_value(*left);
                    let tr = tree_value(*right);
                    let pa = two_pow(p0_shift as nat);
                    let pb = two_pow(p1_shift as nat);
                    assert(eval(el, x, values_of(a1, x)) == tl * x);
                    assert(eval(ei, x, values_of(a1, x)) == tl * x * pa);
                    assert(y == tl * x * pa);
                    assert(eval(et, y, values_of(at, y)) == tr * y);
                    assert(tr * (tl * x * pa) * pb == (tl * pa) * (tr * pb) * x) by (nonlinear_arith);
                }
                res
            } else {
                assert(child_scale_of(0, 0, p0_shift) == 0);
                assert(child_scale_of(0, 0, p1_shift) == 0);
                let res_r = lemma_flatten_computes(*right, st1, a1, input);
                let (a2, er) = res_r;
                let (st2, rb) = flatten_of(*right, 0, st1, input);
                lemma_refs_mono(el, a1.len(), a2.len());
                let e = add_sub_ast(variant, el, er, p0_shift, p1_shift, input);
                lemma_add_sub_ast(variant, el, er, p0_shift, p1_shift, input, a2.len());
                lemma_spells_push(st2, a2, e, input);
                lemma_add_sub_names(variant, el, er, p0_shift, p1_shift, input);
                lemma_names_push(a2, e, input);
                let a3 = a2.push(e);
                assert(a3.take(asts.len() as int) =~= a1.take(asts.len() as int));
                assert forall|x: int| #[trigger] eval(Expr::Ref(a2.len()), x, values_of(a3, x)) == tree_value(t) * x by {
                    let v2 = values_of(a2, x);
                    lemma_values_take(a2, 0, x);
                    assert(a3.drop_last() =~= a2);
                    assert(values_of(a3, x)[a2.len() as int] == eval(e, x, v2));
                    lemma_values_extend(a1, a2, x);
                    lemma_eval_prefix(el, x, v2, values_of(a1, x), a1.len());
                    let tl = tree_value(*left);
                    let tr = tree_value(*right);
                    let pa = two_pow(p0_shift as nat);
                    let pb = two_pow(p1_shift as nat);
                    assert(eval(el, x, v2) == tl * x);
                    assert(eval(er, x, v2) == tr * x);
                    assert(tl * x * pa + tr * x * pb == (tl * pa + tr * pb) * x) by (nonlinear_arith);
                    assert(tl * x * pa - tr * x * pb == (tl * pa - tr * pb) * x) by (nonlinear_arith);
                }
                (a3, Expr::Ref(a2.len()))
            }
        },
    }
}


/// A tree of the shape that building gives: leaves, leapfrog graphs, and adders, subtractors
/// or cascades over such trees.
pub open spec fn built_shape(t: TreeView) -> bool
    decreases t,
{
    match t {
        TreeView::Leaf(_) => true,
        TreeView::Node { variant, left, right, .. } => is_binary(variant) && built_shape(*left)
            && built_shape(*right),
        TreeView::Leapfrog { .. } => true,
    }
}

/// Flattening a tree at any scale appends steps that spell expressions over the input and
/// earlier steps, and returns the text of an expression: the last step for a node or a
/// leapfrog graph, one over the input alone for a leaf.
pub proof fn lemma_flatten_spells(
    t: TreeView,
    node_scale: int,
    steps: Seq<(Seq<char>, Seq<char>)>,
    asts: Seq<Expr>,
    input: Seq<char>,
) -> (res: (Seq<Expr>, Expr))
    requires
        built_shape(t),
        input_ok(input),
        spells(steps, asts, input),
    ensures
        spells(flatten_of(t, node_scale, steps, input).0, res.0, input),
        asts.len() <= res.0.len(),
        res.0.take(asts.len() as int) == asts,
        render(res.1, input) == flatten_of(t, node_scale, steps, input).1,
        refs_below(res.1, res.0.len()),
        res.1 is Ref || refs_below(res.1, 0),
        res.1 is Ref ==> res.1 == Expr::Ref((res.0.len() - 1) as nat),
        t is Leaf ==> res.0 == asts,
        !(t is Leaf) ==> res.1 is Ref,
        all_names_ok(asts, input) ==> all_names_ok(res.0, input),
        names_ok(res.1, input),
    decreases t,
{
    assert(asts.take(asts.len() as int) =~= asts);
    match t {
        TreeView::Leaf(c) => {
            if c == 1 {
                (asts, Expr::Input)
            } else {
                let k = trailing_zeros_of(c) - node_scale;
                lemma_shifted_any(Expr::Input, k, input, 0);
                lemma_shifted_any(Expr::Input, k, input, asts.len());
                lemma_shifted_names(Expr::Input, k, input);
                (asts, shifted(Expr::Input, k))
            }
        },
        TreeView::Leapfrog { variant, params } => {
            let head = if variant_name(variant) == input {
                Expr::Input
            } else {
                Expr::Name(variant)
            };
            let e = Expr::Leap(Box::new(head), params);
            assert(render(head, input) == variant_name(variant));
            assert(refs_below(head, asts.len()));
            assert(names_ok(head, input));
            lemma_spells_push(steps, asts, e, input);
            lemma_names_push(asts, e, input);
            (asts.push(e), Expr::Ref(asts.len()))
        },
        TreeView::Node { variant, left, right, p0, p1 } => {
            let p0_shift = shift_raw_of(p0);
            let p1_shift = shift_raw_of(p1);
            let p0_odd = odd_of(p0);
            let p1_odd = odd_of(p1);
            let scaled = node_scale > 0;
            let p0_child_scale = eff_scale_of(p0_odd as nat, scaled);
            if variant == Variant::Cascade {
                let inner_scale = eff_scale_of(p0 as nat, scaled);
                let outer_scale = node_scale - inner_scale;
                let (a1, el) = lemma_flatten_spells(*left, p0_child_scale, steps, asts, input);
                let net = p0_child_scale + p0_shift - inner_scale;
                let ei = shifted(el, net);
                lemma_shifted_any(el, net, input, a1.len());
                let w = wrap_expr(ei, input);
                lemma_wrap_expr(ei, input, a1.len());
                assert(spells(seq![], seq![], input));
                let (at, et) = lemma_flatten_spells(*right, outer_scale, seq![], seq![], input);
                let (st1, lb) = flatten_of(*left, p0_child_scale, steps, input);
                let (tmp, rr) = flatten_of(*right, outer_scale, seq![], input);
                lemma_shifted_names(el, net, input);
                assert(names_ok(w, input));
                assert(all_names_ok(Seq::<Expr>::empty(), input));
                let res = lemma_cascade_tail(tmp, at, et, st1, a1, input, w, p1_shift);
                assert(res.0.take(asts.len() as int) =~= a1.take(asts.len() as int));
                res
            } else {
                let c0 = child_scale_of(eff_scale_of(p0_odd as nat, scaled), node_scale, p0_shift);
                let c1 = child_scale_of(eff_scale_of(p1_odd as nat, scaled), node_scale, p1_shift);
                let (a1, el) = lemma_flatten_spells(*left, c0, steps, asts, input);
                let (st1, lb) = flatten_of(*left, c0, steps, input);
                let (a2, er) = lemma_flatten_spells(*right, c1, st1, a1, input);
                let (st2, rb) = flatten_of(*right, c1, st1, input);
                lemma_refs_mono(el, a1.len(), a2.len());
                let ln = c0 + p0_shift - node_scale;
                let rn = c1 + p1_shift - node_scale;
                let e = add_sub_ast(variant, el, er, ln, rn, input);
                lemma_add_sub_render(variant, el, er, ln, rn, input, a2.len());
                lemma_spells_push(st2, a2, e, input);
                lemma_add_sub_names(variant, el, er, ln, rn, input);
                lemma_names_push(a2, e, input);
                let a3 = a2.push(e);
                assert(a3.take(asts.len() as int) =~= a1.take(asts.len() as int));
                (a3, Expr::Ref(a2.len()))
            }
        },
    }
}

/// Naming the output renames the last step and changes nothing else, scaled or not, for every
/// tree of the shape that building gives.
pub proof fn law_output_renames(
    tree: TreeView,
    constant: usize,
    input: Seq<char>,
    output: Seq<char>,
    scaled: bool,
)
    requires
        built_shape(tree),
        input_ok(input),
    ensures
        ({
            let q = sequence_of(tree, constant, input, None, scaled);
            sequence_of(tree, constant, input, Some(output), scaled) == q.update(
                q.len() - 1,
                (output, q.last().1),
            )
        }),
{
    let ns = initial_scale_of(odd_constant_of(constant), scaled);
    assert(spells(seq![], seq![], input));
    let r = lemma_flatten_spells(tree, ns, seq![], seq![], input);
    let (st0, last0) = flatten_of(tree, ns, seq![], input);
    let q = sequence_of(tree, constant, input, None, scaled);
    let qo = sequence_of(tree, constant, input, Some(output), scaled);
    if st0.len() == 0 {
        assert(qo =~= q.update(q.len() - 1, (output, q.last().1)));
    } else {
        assert(r.1 is Ref) by {
            if tree is Leaf {
                assert(r.0 == Seq::<Expr>::empty());
            }
        }
        let sh = even_shift_of(constant, scaled);
        let e2 = lemma_emit(st0, r.0, (r.0.len() - 1) as nat, sh, input);
        let (st, last) = emit_shift_scaled_of(last0, sh, st0);
        let asts = e2.0;
        assert(spells(st, asts, input));
        let l = (st.len() - 1) as nat;
        assert(last == step_name_of(l));
        let m = seq![(last, output)];
        assert(m.drop_last() =~= Seq::<(Seq<char>, Seq<char>)>::empty());
        assert forall|wd: Seq<char>| wd != last implies #[trigger] replacement(m, wd) == wd by {
            assert(lookup(m.drop_last(), wd) is None);
        }
        assert forall|v: Variant| #[trigger] replacement(m, variant_name(v)) == variant_name(v) by {
            lemma_variant_name_word(v);
            lemma_step_name_chars(l);
            assert(variant_name(v) != last);
        }
        assert forall|i: int| 0 <= i < l implies #[trigger] replace_words_of(st[i].1, m) == st[i].1 by {
            let e = asts[i];
            assert(st[i] == (step_name_of(i as nat), render(e, input)));
            assert(refs_below(e, i as nat));
            lemma_words_differ(input, 0, l);
            assert(replacement(m, input) == input);
            assert forall|j: nat| j < i implies replacement(m, #[trigger] step_name_of(j)) == step_name_of(0 + j) by {
                if step_name_of(j) == step_name_of(l) {
                    lemma_step_name_injective(j, l);
                }
            }
            assert forall|v: nat| replacement(m, #[trigger] dec(v)) == dec(v) by {
                lemma_words_differ(input, v, l);
            }
            lemma_rw_render(e, input, m, Expr::Input, 0, i as nat);
            lemma_subst_identity(e);
        }
        assert(qo =~= q.update(q.len() - 1, (output, q.last().1)));
    }
}

proof fn lemma_subst_identity(e: Expr)
    ensures
        subst(e, Expr::Input, 0) == e,
    decreases e,
{
    match e {
        Expr::Shl(a, _) => lemma_subst_identity(*a),
        Expr::Shr(a, _) => lemma_subst_identity(*a),
        Expr::Mul(_, a) => lemma_subst_identity(*a),
        Expr::Add(a, b) => {
            lemma_subst_identity(*a);
            lemma_subst_identity(*b);
        },
        Expr::Sub(a, b) => {
            lemma_subst_identity(*a);
            lemma_subst_identity(*b);
        },
        Expr::Paren(a) => lemma_subst_identity(*a),
        Expr::Leap(h, _) => lemma_subst_identity(*h),
        _ => {},
    }
}

proof fn lemma_first_name()
    ensures
        "s0"@ == step_name_of(0),
{
    reveal_strlit("s0");
    reveal_strlit("s");
    assert(dec(0) == seq![digit_char(0)]);
    assert("s0"@ =~= step_name_of(0));
}

/// The steps of a good tree of the constant's odd part, before renaming: the flattened
/// steps and, for an even constant, the step that shifts their result. Their expressions, and
/// the one of the result, which is the last step.
proof fn lemma_shifted_steps(tree: TreeView, constant: usize, input: Seq<char>) -> (res: (
    Seq<Expr>,
    Expr,
))
    requires
        good_tree(tree),
        tree_value(tree) == odd_constant_of(constant),
        input_ok(input),
    ensures
        ({
            let (st, last) = flatten_of(tree, 0, seq![], input);
            let (st2, last2) = emit_shift_scaled_of(last, even_shift_of(constant, false), st);
            &&& st.len() > 0 ==> spells(st2, res.0, input) && res.1 == Expr::Ref(
                (res.0.len() - 1) as nat,
            ) && render(res.1, input) == last2 && forall|x: int|
                #[trigger] eval(res.1, x, values_of(res.0, x)) == constant * x
            &&& st.len() == 0 ==> tree is Leaf && constant > 0 && odd_part(constant as nat) == 1
        }),
{
    assert(spells(seq![], seq![], input));
    let r = lemma_flatten_computes(tree, seq![], seq![], input);
    let (st, last) = flatten_of(tree, 0, seq![], input);
    let oc = odd_constant_of(constant);
    let k = even_shift_of(constant, false) as nat;
    assert(constant == oc * two_pow(k)) by {
        if constant > 0 {
            lemma_odd_part_factor(constant as nat);
            crate::bits::lemma_tz_small(constant);
            assert(oc as nat == odd_part(constant as nat));
        } else {
            assert(odd_part(0) == 0);
        }
    }
    if st.len() > 0 {
        assert(r.1 is Ref) by {
            if tree is Leaf {
                assert(r.0 == Seq::<Expr>::empty());
            }
        }
        let e = lemma_emit(st, r.0, (r.0.len() - 1) as nat, k as int, input);
        assert(k as int == even_shift_of(constant, false));
        assert forall|x: int| #[trigger] eval(e.1, x, values_of(e.0, x)) == constant * x by {
            lemma_values_take(r.0, 0, x);
            assert(eval(r.1, x, values_of(r.0, x)) == oc * x);
            assert(oc * x * two_pow(k) == (oc * two_pow(k)) * x) by (nonlinear_arith);
        }
        e
    } else {
        assert(!(r.1 is Ref));
        let c = tree->Leaf_0;
        assert(c == oc && c > 0 && odd_part(c as nat) == 1);
        assert(constant > 0) by {
            if constant == 0 {
                assert(odd_part(0) == 0);
            }
        }
        lemma_odd_part_factor(constant as nat);
        crate::bits::lemma_tz_small(constant);
        assert(c as nat == odd_part(constant as nat));
        assert(c % 2 == 1);
        assert(odd_part(c as nat) == c);
        assert(odd_part(constant as nat) == 1);
        (seq![], Expr::Input)
    }
}

/// Without scaling, the steps of a good tree of the constant's odd part compute the constant
/// times the input: every step is an expression over the input and earlier steps only, and
/// the last step's value is `constant * x` for every input value `x`.
pub proof fn law_sequence_computes(tree: TreeView, constant: usize, input: Seq<char>)
    requires
        good_tree(tree),
        tree_value(tree) == odd_constant_of(constant),
        input_ok(input),
    ensures
        exists|asts: Seq<Expr>|
            {
                &&& spells(sequence_of(tree, constant, input, None, false), asts, input)
                &&& asts.len() >= 1
                &&& forall|x: int| #[trigger] values_of(asts, x).last() == constant * x
            },
{
    let oc = odd_constant_of(constant);
    assert(initial_scale_of(oc, false) == 0);
    let res = lemma_shifted_steps(tree, constant, input);
    let (st, last) = flatten_of(tree, 0, seq![], input);
    let q = sequence_of(tree, constant, input, None, false);
    lemma_first_name();
    if st.len() == 0 {
        let k = tz(constant as nat);
        lemma_odd_part_factor(constant as nat);
        assert(constant == two_pow(k));
        let e = shifted(Expr::Input, k as int);
        lemma_shifted(Expr::Input, k as int, input, 0);
        if constant == 1 {
            assert(k == 0) by {
                if k > 0 {
                    crate::bits::lemma_two_pow_pos((k - 1) as nat);
                }
            }
        } else {
            assert(k > 0) by {
                if k == 0 {
                    assert(two_pow(0) == 1);
                }
            }
        }
        assert(q == seq![(step_name_of(0), render(e, input))]);
        let asts = seq![e];
        assert(spells(q, asts, input));
        assert forall|x: int| #[trigger] values_of(asts, x).last() == constant * x by {
            assert(asts.drop_last() =~= Seq::<Expr>::empty());
            assert(values_of(asts, x).last() == eval(e, x, seq![]));
            assert(eval(e, x, seq![]) == x * two_pow(k));
            assert(x * constant == constant * x) by (nonlinear_arith);
        }
    } else {
        let asts = res.0;
        assert forall|x: int| #[trigger] values_of(asts, x).last() == constant * x by {
            lemma_values_take(asts, 0, x);
            assert(eval(res.1, x, values_of(asts, x)) == constant * x);
        }
    }
}

/// The constant that a binary graph type with parameters `p0` and `p1` stands for: their sum
/// for an adder, their difference for a subtractor, their product for a cascade.
pub open spec fn combine(variant: Variant, p0: int, p1: int) -> int {
    if variant == Variant::Adder {
        p0 + p1
    } else if variant == Variant::Subtractor {
        p0 - p1
    } else {
        p0 * p1
    }
}

/// Every adder, subtractor and cascade of the table stands for the odd constant at its
/// position: the table lists, at position `p`, ways to compute `2p + 1`.
pub open spec fn table_sound(all: Seq<Seq<GraphTypeView>>) -> bool {
    forall|p: int, i: int|
        0 <= p < all.len() && 0 <= i < all[p].len() && is_binary(#[trigger] all[p][i].variant)
            ==> all[p][i].params.len() >= 2 && combine(
            all[p][i].variant,
            all[p][i].params[0] as int,
            all[p][i].params[1] as int,
        ) == 2 * p + 1
}

/// Each good tree of the list multiplies by `c`.
pub open spec fn all_valued(ts: Seq<TreeView>, c: int) -> bool {
    forall|i: int| 0 <= i < ts.len() && good_tree(#[trigger] ts[i]) ==> tree_value(ts[i]) == c
}

proof fn lemma_sub_const_value(p: usize)
    ensures
        sub_const(p) * two_pow(shift_raw_of(p) as nat) == p,
        sub_const(p) == 0 || sub_const(p) % 2 == 1,
{
    if p > 0 {
        lemma_odd_part_factor(p as nat);
        crate::bits::lemma_tz_small(p);
        let o = odd_part(p as nat);
        let k = tz(p as nat);
        assert(p == o * two_pow(k));
        assert(sub_const(p) == o);
        assert(shift_raw_of(p) == k as int);
        assert(two_pow(shift_raw_of(p) as nat) == two_pow(k));
    } else {
        assert(two_pow(0) == 1);
        assert(odd_part(0) == 0);
        assert(sub_const(p) == 0);
        assert(shift_raw_of(p) == 0);
    }
}

proof fn lemma_nodes_valued(
    ls: Seq<TreeView>,
    rs: Seq<TreeView>,
    variant: Variant,
    p0: usize,
    p1: usize,
)
    requires
        all_valued(ls, sub_const(p0) as int),
        all_valued(rs, sub_const(p1) as int),
    ensures
        all_valued(nodes_of(ls, rs, variant, p0, p1), combine(variant, p0 as int, p1 as int)),
    decreases ls.len(),
{
    let c = combine(variant, p0 as int, p1 as int);
    if ls.len() > 0 {
        lemma_nodes_valued(ls.drop_last(), rs, variant, p0, p1);
        let front = nodes_of(ls.drop_last(), rs, variant, p0, p1);
        let back = rs.map_values(
            |r: TreeView|
                TreeView::Node { variant, left: Box::new(ls.last()), right: Box::new(r), p0, p1 },
        );
        assert(nodes_of(ls, rs, variant, p0, p1) == front + back);
        lemma_sub_const_value(p0);
        lemma_sub_const_value(p1);
        assert forall|i: int| 0 <= i < back.len() && good_tree(#[trigger] back[i]) implies tree_value(
            back[i],
        ) == c by {
            let t = back[i];
            assert(good_tree(ls.last()));
            assert(good_tree(rs[i]));
            assert(tree_value(ls.last()) == sub_const(p0));
            assert(tree_value(rs[i]) == sub_const(p1));
        }
        assert forall|i: int|
            0 <= i < front.len() + back.len() && good_tree(#[trigger] (front + back)[i]) implies tree_value(
            (front + back)[i],
        ) == c by {
            if i < front.len() {
                assert((front + back)[i] == front[i]);
            } else {
                assert((front + back)[i] == back[i - front.len()]);
            }
        }
    }
}

proof fn lemma_concat_valued(a: Seq<TreeView>, b: Seq<TreeView>, c: int)
    requires
        all_valued(a, c),
        all_valued(b, c),
    ensures
        all_valued(a + b, c),
{
    assert forall|i: int| 0 <= i < (a + b).len() && good_tree(#[trigger] (a + b)[i]) implies tree_value(
        (a + b)[i],
    ) == c by {
        if i < a.len() {
            assert((a + b)[i] == a[i]);
        } else {
            assert((a + b)[i] == b[i - a.len()]);
        }
    }
}

/// With a sound table, each good tree of `c` multiplies by `c`.
pub proof fn lemma_trees_valued(all: Seq<Seq<GraphTypeView>>, c: usize, fuel: nat)
    requires
        table_sound(all),
        c == 0 || c % 2 == 1,
    ensures
        all_valued(trees_of(all, c, fuel), c as int),
    decreases fuel, 0nat, 0nat,
{
    if fuel > 0 && !is_leaf_const(all, c) {
        let pos = (c / 2) as int;
        assert(c == 2 * pos + 1);
        assert(all[pos].take(all[pos].len() as int) =~= all[pos]);
        lemma_trees_for_valued(all, all[pos], (fuel - 1) as nat, pos);
    }
}

proof fn lemma_trees_for_valued(
    all: Seq<Seq<GraphTypeView>>,
    gts: Seq<GraphTypeView>,
    e: nat,
    pos: int,
)
    requires
        table_sound(all),
        0 <= pos < all.len(),
        gts.len() <= all[pos].len(),
        gts == all[pos].take(gts.len() as int),
    ensures
        all_valued(trees_for(all, gts, e), 2 * pos + 1),
    decreases e, 2nat, gts.len(),
{
    if gts.len() > 0 {
        assert(gts.drop_last() == all[pos].take(gts.len() - 1));
        lemma_trees_for_valued(all, gts.drop_last(), e, pos);
        assert(gts.last() == all[pos][gts.len() - 1]);
        lemma_trees_gt_valued(all, gts.last(), e, 2 * pos + 1);
        lemma_concat_valued(trees_for(all, gts.drop_last(), e), trees_gt(all, gts.last(), e), 2 * pos + 1);
    }
}

proof fn lemma_trees_gt_valued(all: Seq<Seq<GraphTypeView>>, gt: GraphTypeView, e: nat, c: int)
    requires
        table_sound(all),
        is_binary(gt.variant) ==> gt.params.len() >= 2 && combine(
            gt.variant,
            gt.params[0] as int,
            gt.params[1] as int,
        ) == c,
    ensures
        all_valued(trees_gt(all, gt, e), c),
    decreases e, 1nat, 0nat,
{
    if is_binary(gt.variant) {
        let p0 = gt.params[0];
        let p1 = gt.params[1];
        lemma_sub_const_value(p0);
        lemma_sub_const_value(p1);
        lemma_trees_valued(all, sub_const(p0), e);
        lemma_trees_valued(all, sub_const(p1), e);
        let lt = trees_of(all, sub_const(p0), e);
        let rt = trees_of(all, sub_const(p1), e);
        lemma_nodes_valued(lt, rt, gt.variant, p0, p1);
        if gt.variant == Variant::Cascade && p0 != p1 {
            lemma_nodes_valued(rt, lt, gt.variant, p1, p0);
            assert(combine(gt.variant, p1 as int, p0 as int) == c) by (nonlinear_arith)
                requires
                    gt.variant == Variant::Cascade,
                    combine(gt.variant, p0 as int, p1 as int) == c,
            ;
            lemma_concat_valued(
                nodes_of(lt, rt, gt.variant, p0, p1),
                nodes_of(rt, lt, gt.variant, p1, p0),
                c,
            );
        } else {
            assert(nodes_of(lt, rt, gt.variant, p0, p1) + seq![] =~= nodes_of(lt, rt, gt.variant, p0, p1));
        }
    } else {
        let t = TreeView::Leapfrog { variant: gt.variant, params: gt.params };
        assert(!good_tree(t));
    }
}


/// What the library is for: with a sound table, each unscaled equation sequence of
/// `constant * x` whose tree has no leapfrog graph and no constant missing from the table
/// computes the constant times the input. Its steps are expressions over the
/// input and earlier steps only, and the last step holds `constant * x`
/// for every value `x`.
pub proof fn law_equations_compute(all: Seq<Seq<GraphTypeView>>, constant: usize, input: Seq<char>)
    requires
        table_sound(all),
        input_ok(input),
    ensures
        forall|i: int|
            0 <= i < equations_of(all, constant, input, None, false).len() && good_tree(
                #[trigger] build_trees_of(all, odd_constant_of(constant))[i],
            ) ==> exists|asts: Seq<Expr>|
                {
                    &&& spells(equations_of(all, constant, input, None, false)[i], asts, input)
                    &&& asts.len() >= 1
                    &&& forall|x: int|
                        #[trigger] values_of(asts, x).last() == constant * x
                },
{
    let oc = odd_constant_of(constant);
    let trees = build_trees_of(all, oc);
    assert(oc == 0 || oc % 2 == 1) by {
        if constant > 0 {
            lemma_odd_part_factor(constant as nat);
            crate::bits::lemma_tz_small(constant);
        } else {
            assert(odd_part(0) == 0);
        }
    }
    lemma_trees_valued(all, oc, choose|d: nat| depth_ok(all, oc, d));
    assert forall|i: int|
        0 <= i < equations_of(all, constant, input, None, false).len() && good_tree(
            #[trigger] build_trees_of(all, oc)[i],
        ) implies exists|asts: Seq<Expr>|
        {
            &&& spells(equations_of(all, constant, input, None, false)[i], asts, input)
            &&& asts.len() >= 1
            &&& forall|x: int| #[trigger] values_of(asts, x).last() == constant * x
        } by {
        assert(equations_of(all, constant, input, None, false)[i] == sequence_of(
            trees[i],
            constant,
            input,
            None,
            false,
        ));
        law_sequence_computes(trees[i], constant, input);
    }
}

/// Each tree that building gives has the shape that flattening handles.
pub open spec fn all_shaped(ts: Seq<TreeView>) -> bool {
    forall|i: int| 0 <= i < ts.len() ==> built_shape(#[trigger] ts[i])
}

proof fn lemma_concat_shaped(a: Seq<TreeView>, b: Seq<TreeView>)
    requires
        all_shaped(a),
        all_shaped(b),
    ensures
        all_shaped(a + b),
{
    assert forall|i: int| 0 <= i < (a + b).len() implies built_shape(#[trigger] (a + b)[i]) by {
        if i < a.len() {
            assert((a + b)[i] == a[i]);
        } else {
            assert((a + b)[i] == b[i - a.len()]);
        }
    }
}

proof fn lemma_nodes_shaped(
    ls: Seq<TreeView>,
    rs: Seq<TreeView>,
    variant: Variant,
    p0: usize,
    p1: usize,
)
    requires
        all_shaped(ls),
        all_shaped(rs),
        is_binary(variant),
    ensures
        all_shaped(nodes_of(ls, rs, variant, p0, p1)),
    decreases ls.len(),
{
    if ls.len() > 0 {
        lemma_nodes_shaped(ls.drop_last(), rs, variant, p0, p1);
        let back = rs.map_values(
            |r: TreeView|
                TreeView::Node { variant, left: Box::new(ls.last()), right: Box::new(r), p0, p1 },
        );
        assert forall|i: int| 0 <= i < back.len() implies built_shape(#[trigger] back[i]) by {
            assert(built_shape(ls.last()));
            assert(built_shape(rs[i]));
        }
        lemma_concat_shaped(nodes_of(ls.drop_last(), rs, variant, p0, p1), back);
    }
}

/// The trees of any constant, for any fuel, have the shape that flattening handles.
pub proof fn lemma_trees_shaped(all: Seq<Seq<GraphTypeView>>, c: usize, fuel: nat)
    ensures
        all_shaped(trees_of(all, c, fuel)),
    decreases fuel, 0nat, 0nat,
{
    if fuel > 0 && !is_leaf_const(all, c) {
        lemma_trees_for_shaped(all, all[(c / 2) as int], (fuel - 1) as nat);
    }
}

proof fn lemma_trees_for_shaped(all: Seq<Seq<GraphTypeView>>, gts: Seq<GraphTypeView>, e: nat)
    ensures
        all_shaped(trees_for(all, gts, e)),
    decreases e, 2nat, gts.len(),
{
    if gts.len() > 0 {
        lemma_trees_for_shaped(all, gts.drop_last(), e);
        lemma_trees_gt_shaped(all, gts.last(), e);
        lemma_concat_shaped(trees_for(all, gts.drop_last(), e), trees_gt(all, gts.last(), e));
    }
}

proof fn lemma_trees_gt_shaped(all: Seq<Seq<GraphTypeView>>, gt: GraphTypeView, e: nat)
    ensures
        all_shaped(trees_gt(all, gt, e)),
    decreases e, 1nat, 0nat,
{
    if is_binary(gt.variant) {
        let p0 = gt.params[0];
        let p1 = gt.params[1];
        lemma_trees_shaped(all, sub_const(p0), e);
        lemma_trees_shaped(all, sub_const(p1), e);
        let lt = trees_of(all, sub_const(p0), e);
        let rt = trees_of(all, sub_const(p1), e);
        lemma_nodes_shaped(lt, rt, gt.variant, p0, p1);
        if gt.variant == Variant::Cascade && p0 != p1 {
            lemma_nodes_shaped(rt, lt, gt.variant, p1, p0);
            lemma_concat_shaped(
                nodes_of(lt, rt, gt.variant, p0, p1),
                nodes_of(rt, lt, gt.variant, p1, p0),
            );
        } else {
            assert(nodes_of(lt, rt, gt.variant, p0, p1) + seq![] =~= nodes_of(lt, rt, gt.variant, p0, p1));
        }
    } else {
        assert(built_shape(TreeView::Leapfrog { variant: gt.variant, params: gt.params }));
    }
}

/// Naming the output renames the last step of each sequence and changes nothing else.
pub proof fn law_equations_output_renames(
    all: Seq<Seq<GraphTypeView>>,
    constant: usize,
    input: Seq<char>,
    output: Seq<char>,
    scaled: bool,
)
    requires
        input_ok(input),
    ensures
        equations_of(all, constant, input, Some(output), scaled).len() == equations_of(
            all,
            constant,
            input,
            None,
            scaled,
        ).len(),
        forall|i: int|
            0 <= i < equations_of(all, constant, input, None, scaled).len() ==> ({
                let q = #[trigger] equations_of(all, constant, input, None, scaled)[i];
                equations_of(all, constant, input, Some(output), scaled)[i] == q.update(
                    q.len() - 1,
                    (output, q.last().1),
                )
            }),
{
    let c = odd_constant_of(constant);
    let trees = build_trees_of(all, c);
    lemma_trees_shaped(all, c, choose|d: nat| depth_ok(all, c, d));
    assert forall|i: int|
        0 <= i < equations_of(all, constant, input, None, scaled).len() implies ({
        let q = #[trigger] equations_of(all, constant, input, None, scaled)[i];
        equations_of(all, constant, input, Some(output), scaled)[i] == q.update(
            q.len() - 1,
            (output, q.last().1),
        )
    }) by {
        assert(built_shape(trees[i]));
        law_output_renames(trees[i], constant, input, output, scaled);
    }
}

/// The multiple of the input that `shift_expr_of` writes for `value`.
pub open spec fn shift_expr_ast(value: nat) -> Expr {
    if value == 1 {
        Expr::Input
    } else if value > 0 && odd_part(value) == 1 {
        Expr::Shl(Box::new(Expr::Input), tz(value))
    } else {
        Expr::Mul(value, Box::new(Expr::Input))
    }
}

proof fn lemma_shift_expr_ast(v: nat, input: Seq<char>)
    ensures
        render(shift_expr_ast(v), input) == shift_expr_of(v, input),
        refs_below(shift_expr_ast(v), 0),
{
    assert(render(Expr::Input, input) == input);
    assert(refs_below(Expr::Input, 0));
    if v == 1 {
    } else if v > 0 && odd_part(v) == 1 {
        let e = Expr::Shl(Box::new(Expr::Input), tz(v));
        assert(render(e, input) == "("@ + input + " << "@ + dec(tz(v)) + ")"@);
    } else {
        let e = Expr::Mul(v, Box::new(Expr::Input));
        assert(render(e, input) == "("@ + dec(v) + " * "@ + input + ")"@);
    }
}

/// Every step of a sequence, scaled or not, is named after its position and is an expression
/// over the input and the steps before it (a leapfrog graph writes out its parameters), for
/// every tree of the shape that building gives.
pub proof fn law_sequence_spells(tree: TreeView, constant: usize, input: Seq<char>, scaled: bool)
    requires
        built_shape(tree),
        input_ok(input),
    ensures
        exists|asts: Seq<Expr>| spells(sequence_of(tree, constant, input, None, scaled), asts, input),
{
    let oc = odd_constant_of(constant);
    let ns = initial_scale_of(oc, scaled);
    assert(spells(seq![], seq![], input));
    let r = lemma_flatten_spells(tree, ns, seq![], seq![], input);
    let (st0, last0) = flatten_of(tree, ns, seq![], input);
    let q = sequence_of(tree, constant, input, None, scaled);
    lemma_first_name();
    if st0.len() == 0 {
        let e = if scaled {
            shifted(shift_expr_ast(oc as nat), -(crate::bits::bit_len(oc as nat) as int))
        } else {
            shift_expr_ast(constant as nat)
        };
        lemma_shifted_any(shift_expr_ast(oc as nat), -(crate::bits::bit_len(oc as nat) as int), input, 0);
        lemma_shift_expr_ast(oc as nat, input);
        lemma_shift_expr_ast(constant as nat, input);
        assert(render(e, input) == crate::equations::trivial_step_of(constant, input, scaled));
        assert(q == seq![(step_name_of(0), render(e, input))]);
        assert(spells(q, seq![e], input));
    } else {
        assert(r.1 is Ref) by {
            if tree is Leaf {
                assert(r.0 == Seq::<Expr>::empty());
            }
        }
        let e2 = lemma_emit(st0, r.0, (r.0.len() - 1) as nat, even_shift_of(constant, scaled), input);
        assert(spells(q, e2.0, input));
    }
}

/// The steps are named after their positions and spell expressions over the input and
/// earlier steps only.
pub open spec fn spelled(q: Seq<(Seq<char>, Seq<char>)>, input: Seq<char>) -> bool {
    exists|asts: Seq<Expr>| spells(q, asts, input)
}

/// Every equation sequence, scaled or not, is made of steps named after their positions, each
/// an expression over the input and earlier steps only.
pub proof fn law_equations_spell(
    all: Seq<Seq<GraphTypeView>>,
    constant: usize,
    input: Seq<char>,
    scaled: bool,
)
    requires
        input_ok(input),
    ensures
        forall|i: int|
            0 <= i < equations_of(all, constant, input, None, scaled).len() ==> spelled(
                #[trigger] equations_of(all, constant, input, None, scaled)[i],
                input,
            ),
{
    let c = odd_constant_of(constant);
    let trees = build_trees_of(all, c);
    lemma_trees_shaped(all, c, choose|d: nat| depth_ok(all, c, d));
    assert forall|i: int|
        0 <= i < equations_of(all, constant, input, None, scaled).len() implies spelled(
            #[trigger] equations_of(all, constant, input, None, scaled)[i],
            input,
        ) by {
        assert(built_shape(trees[i]));
        assert(equations_of(all, constant, input, None, scaled)[i] == sequence_of(
            trees[i],
            constant,
            input,
            None,
            scaled,
        ));
        law_sequence_spells(trees[i], constant, input, scaled);
        let w = choose|asts: Seq<Expr>| spells(sequence_of(trees[i], constant, input, None, scaled), asts, input);
        assert(spells(equations_of(all, constant, input, None, scaled)[i], w, input));
    }
}

/// Shifting a value that is a multiple of `2^m` by `k`, with `m + k >= 0`, loses nothing.
proof fn lemma_shift_exact(e: Expr, k: int, x: int, v: Seq<int>, a: int, m: nat)
    requires
        eval(e, x, v) == a * two_pow(m),
        m + k >= 0,
    ensures
        eval(shifted(e, k), x, v) == a * two_pow((m + k) as nat),
{
    if k > 0 {
        crate::bits::lemma_two_pow_adds(m, k as nat);
        assert(a * two_pow(m) * two_pow(k as nat) == a * (two_pow(m) * two_pow(k as nat))) by (nonlinear_arith);
    } else if k < 0 {
        let j = (-k) as nat;
        let r = (m + k) as nat;
        crate::bits::lemma_two_pow_adds(r, j);
        crate::bits::lemma_two_pow_pos(j);
        let d = two_pow(j) as int;
        let q = a * two_pow(r);
        assert(a * two_pow(m) == q * d) by (nonlinear_arith)
            requires
                two_pow(m) == two_pow(r) * two_pow(j),
                q == a * two_pow(r),
                d == two_pow(j),
        ;
        assert((q * d) / d == q) by (nonlinear_arith)
            requires
                d >= 1,
        ;
    }
}

proof fn lemma_pow_mul(a: int, s: nat, q: nat)
    ensures
        a * two_pow(s + q) == (a * two_pow(s)) * two_pow(q),
{
    crate::bits::lemma_two_pow_adds(s, q);
    assert(a * (two_pow(s) * two_pow(q)) == (a * two_pow(s)) * two_pow(q)) by (nonlinear_arith);
}

/// An adder or subtractor step over operands that are exact multiples of powers of two, with
/// shifts that bring both to `2^p`, computes the sum or difference exactly.
proof fn lemma_add_sub_exact(
    variant: Variant,
    el: Expr,
    er: Expr,
    ln: int,
    rn: int,
    input: Seq<char>,
    x: int,
    v: Seq<int>,
    al: int,
    ar: int,
    ml: nat,
    mr: nat,
    p: nat,
    sl: nat,
    sr: nat,
)
    requires
        variant == Variant::Adder || variant == Variant::Subtractor,
        eval(el, x, v) == al * two_pow(ml),
        eval(er, x, v) == ar * two_pow(mr),
        ml + ln == p + sl,
        mr + rn == p + sr,
    ensures
        eval(add_sub_ast(variant, el, er, ln, rn, input), x, v) == (if variant == Variant::Adder {
            al * two_pow(sl) + ar * two_pow(sr)
        } else {
            al * two_pow(sl) - ar * two_pow(sr)
        }) * two_pow(p),
{
    let f = max_int(ln, rn);
    let both_right = ln < 0 && rn < 0;
    let la = if both_right {
        ln - f
    } else {
        ln
    };
    let ra = if both_right {
        rn - f
    } else {
        rn
    };
    let q: nat = if both_right {
        (p - f) as nat
    } else {
        p
    };
    lemma_shift_exact(el, la, x, v, al, ml);
    lemma_shift_exact(er, ra, x, v, ar, mr);
    assert(ml + la == sl + q);
    assert(mr + ra == sr + q);
    lemma_pow_mul(al, sl, q);
    lemma_pow_mul(ar, sr, q);
    let lv = al * two_pow(sl);
    let rv = ar * two_pow(sr);
    assert(eval(shifted(el, la), x, v) == lv * two_pow(q));
    assert(eval(shifted(er, ra), x, v) == rv * two_pow(q));
    let swap = variant == Variant::Adder && la != 0 && ra == 0;
    let left = if swap {
        shifted(er, ra)
    } else {
        shifted(el, la)
    };
    let right = if swap {
        shifted(el, la)
    } else {
        shifted(er, ra)
    };
    lemma_wrap_expr(left, input, 0);
    lemma_wrap_expr(right, input, 0);
    let op = if variant == Variant::Adder {
        Expr::Add(Box::new(wrap_expr(left, input)), Box::new(wrap_expr(right, input)))
    } else {
        Expr::Sub(Box::new(wrap_expr(left, input)), Box::new(wrap_expr(right, input)))
    };
    let total = if variant == Variant::Adder {
        lv + rv
    } else {
        lv - rv
    };
    assert(eval(wrap_expr(left, input), x, v) == eval(left, x, v));
    assert(eval(wrap_expr(right, input), x, v) == eval(right, x, v));
    assert(eval(op, x, v) == total * two_pow(q)) by {
        assert(lv * two_pow(q) + rv * two_pow(q) == (lv + rv) * two_pow(q)) by (nonlinear_arith);
        assert(lv * two_pow(q) - rv * two_pow(q) == (lv - rv) * two_pow(q)) by (nonlinear_arith);
    }
    if both_right {
        lemma_shift_exact(op, f, x, v, total, q);
        assert(q + f == p);
    }
}

/// The largest scale that flattening `t` at scale `ns` works at, counted from the input: an
/// input that is a multiple of `2^scale_bound(t, ns)` loses no bit in a right shift.
pub open spec fn scale_bound(t: TreeView, ns: int) -> int
    decreases t,
{
    match t {
        TreeView::Node { variant, left, right, p0, p1 } => {
            let scaled = ns > 0;
            let p0_shift = shift_raw_of(p0);
            let p1_shift = shift_raw_of(p1);
            if variant == Variant::Cascade {
                let inner = eff_scale_of(p0 as nat, scaled);
                let lb = scale_bound(*left, eff_scale_of(odd_of(p0) as nat, scaled));
                let rb = inner + scale_bound(*right, ns - inner);
                max_int(max_int(ns, 0), max_int(lb, rb))
            } else {
                let c0 = child_scale_of(eff_scale_of(odd_of(p0) as nat, scaled), ns, p0_shift);
                let c1 = child_scale_of(eff_scale_of(odd_of(p1) as nat, scaled), ns, p1_shift);
                max_int(max_int(ns, 0), max_int(scale_bound(*left, c0), scale_bound(*right, c1)))
            }
        },
        _ => max_int(ns, 0),
    }
}

/// Every leaf 1 of the tree is flattened at scale 0: flattening writes such a leaf as the
/// input itself, whatever the scale.
pub open spec fn ones_unscaled(t: TreeView, ns: int) -> bool
    decreases t,
{
    match t {
        TreeView::Leaf(c) => c != 1 || ns == 0,
        TreeView::Node { variant, left, right, p0, p1 } => {
            let scaled = ns > 0;
            if variant == Variant::Cascade {
                let inner = eff_scale_of(p0 as nat, scaled);
                ones_unscaled(*left, eff_scale_of(odd_of(p0) as nat, scaled)) && ones_unscaled(
                    *right,
                    ns - inner,
                )
            } else {
                ones_unscaled(
                    *left,
                    child_scale_of(eff_scale_of(odd_of(p0) as nat, scaled), ns, shift_raw_of(p0)),
                ) && ones_unscaled(
                    *right,
                    child_scale_of(eff_scale_of(odd_of(p1) as nat, scaled), ns, shift_raw_of(p1)),
                )
            }
        },
        TreeView::Leapfrog { .. } => true,
    }
}

proof fn lemma_scale_bound(t: TreeView, ns: int)
    ensures
        scale_bound(t, ns) >= ns,
        scale_bound(t, ns) >= 0,
    decreases t,
{
}

/// Flattening a good tree at scale `ns` appends steps whose last value is the tree's value
/// times the input divided by `2^ns`, exactly, for an input that is a multiple of
/// `2^scale_bound(t, ns)`.
#[verifier::rlimit(60)]
pub proof fn lemma_flatten_scaled(
    t: TreeView,
    ns: int,
    steps: Seq<(Seq<char>, Seq<char>)>,
    asts: Seq<Expr>,
    input: Seq<char>,
) -> (res: (Seq<Expr>, Expr))
    requires
        good_tree(t),
        ones_unscaled(t, ns),
        input_ok(input),
        spells(steps, asts, input),
    ensures
        spells(flatten_of(t, ns, steps, input).0, res.0, input),
        asts.len() <= res.0.len(),
        res.0.take(asts.len() as int) == asts,
        render(res.1, input) == flatten_of(t, ns, steps, input).1,
        refs_below(res.1, res.0.len()),
        res.1 is Ref || refs_below(res.1, 0),
        res.1 is Ref ==> res.1 == Expr::Ref((res.0.len() - 1) as nat),
        t is Leaf ==> res.0 == asts,
        !(t is Leaf) ==> res.1 is Ref,
        all_names_ok(asts, input) ==> all_names_ok(res.0, input),
        names_ok(res.1, input),
        forall|xx: int, k: nat|
            k >= scale_bound(t, ns) ==> #[trigger] eval(
                res.1,
                xx * two_pow(k),
                values_of(res.0, xx * two_pow(k)),
            ) == tree_value(t) * xx * two_pow((k - ns) as nat),
    decreases t,
{
    assert(asts.take(asts.len() as int) =~= asts);
    lemma_scale_bound(t, ns);
    match t {
        TreeView::Leaf(c) => {
            if c == 1 {
                assert forall|xx: int, k: nat| k >= scale_bound(t, ns) implies #[trigger] eval(
                    Expr::Input,
                    xx * two_pow(k),
                    values_of(asts, xx * two_pow(k)),
                ) == tree_value(t) * xx * two_pow((k - ns) as nat) by {
                    assert(ns == 0);
                    assert(tree_value(t) == 1);
                    assert(1 * xx * two_pow(k) == xx * two_pow(k)) by (nonlinear_arith);
                }
                (asts, Expr::Input)
            } else {
                lemma_odd_part_factor(c as nat);
                let tc = tz(c as nat);
                let k0 = trailing_zeros_of(c) - ns;
                assert(trailing_zeros_of(c) == tc);
                lemma_shifted_any(Expr::Input, k0, input, 0);
                lemma_shifted_any(Expr::Input, k0, input, asts.len());
                lemma_shifted_names(Expr::Input, k0, input);
                let e = shifted(Expr::Input, k0);
                assert forall|xx: int, k: nat| k >= scale_bound(t, ns) implies #[trigger] eval(
                    e,
                    xx * two_pow(k),
                    values_of(asts, xx * two_pow(k)),
                ) == tree_value(t) * xx * two_pow((k - ns) as nat) by {
                    let x = xx * two_pow(k);
                    lemma_shift_exact(Expr::Input, k0, x, values_of(asts, x), xx, k);
                    lemma_pow_mul(xx, tc, (k - ns) as nat);
                    assert(c == two_pow(tc));
                    assert(xx * two_pow(tc) * two_pow((k - ns) as nat) == c * xx * two_pow(
                        (k - ns) as nat,
                    )) by (nonlinear_arith)
                        requires
                            c == two_pow(tc),
                    ;
                }
                (asts, e)
            }
        },
        TreeView::Leapfrog { .. } => (asts, Expr::Input),
        TreeView::Node { variant, left, right, p0, p1 } => {
            let p0_shift = shift_raw_of(p0);
            let p1_shift = shift_raw_of(p1);
            let p0_odd = odd_of(p0);
            let p1_odd = odd_of(p1);
            let scaled = ns > 0;
            let p0_child_scale = eff_scale_of(p0_odd as nat, scaled);
            let tl = tree_value(*left);
            let tr = tree_value(*right);
            let pa = two_pow(p0_shift as nat);
            let pb = two_pow(p1_shift as nat);
            if variant == Variant::Cascade {
                let inner = eff_scale_of(p0 as nat, scaled);
                let outer = ns - inner;
                lemma_scale_bound(*left, p0_child_scale);
                lemma_scale_bound(*right, outer);
                let (a1, el) = lemma_flatten_scaled(*left, p0_child_scale, steps, asts, input);
                let net = p0_child_scale + p0_shift - inner;
                let ei = shifted(el, net);
                lemma_shifted_any(el, net, input, a1.len());
                let w = wrap_expr(ei, input);
                lemma_wrap_expr(ei, input, a1.len());
                assert(spells(seq![], seq![], input));
                let (at, et) = lemma_flatten_scaled(*right, outer, seq![], seq![], input);
                let (st1, lb) = flatten_of(*left, p0_child_scale, steps, input);
                let (tmp, rr) = flatten_of(*right, outer, seq![], input);
                lemma_shifted_names(el, net, input);
                assert(names_ok(w, input));
                assert(all_names_ok(Seq::<Expr>::empty(), input));
                let res = lemma_cascade_tail(tmp, at, et, st1, a1, input, w, p1_shift);
                assert(res.0.take(asts.len() as int) =~= a1.take(asts.len() as int));
                lemma_scaled_cascade_value(t, ns, a1, el, at, et, input, res.0, res.1);
                res
            } else {
                let c0 = child_scale_of(eff_scale_of(p0_odd as nat, scaled), ns, p0_shift);
                let c1 = child_scale_of(eff_scale_of(p1_odd as nat, scaled), ns, p1_shift);
                lemma_scale_bound(*left, c0);
                lemma_scale_bound(*right, c1);
                let (a1, el) = lemma_flatten_scaled(*left, c0, steps, asts, input);
                let (st1, lb) = flatten_of(*left, c0, steps, input);
                let (a2, er) = lemma_flatten_scaled(*right, c1, st1, a1, input);
                let (st2, rb) = flatten_of(*right, c1, st1, input);
                lemma_refs_mono(el, a1.len(), a2.len());
                let ln = c0 + p0_shift - ns;
                let rn = c1 + p1_shift - ns;
                let e = add_sub_ast(variant, el, er, ln, rn, input);
                lemma_add_sub_render(variant, el, er, ln, rn, input, a2.len());
                lemma_spells_push(st2, a2, e, input);
                lemma_add_sub_names(variant, el, er, ln, rn, input);
                lemma_names_push(a2, e, input);
                let a3 = a2.push(e);
                assert(a3.take(asts.len() as int) =~= a1.take(asts.len() as int));
                lemma_scaled_node_value(t, ns, a1, el, a2, er, input);
                (a3, Expr::Ref(a2.len()))
            }
        },
    }
}

proof fn lemma_scaled_cascade_value(
    t: TreeView,
    ns: int,
    a1: Seq<Expr>,
    el: Expr,
    at: Seq<Expr>,
    et: Expr,
    input: Seq<char>,
    r0: Seq<Expr>,
    r1: Expr,
)
    requires
        t matches TreeView::Node { variant, .. } && variant == Variant::Cascade,
        ({
            let (p0, p1) = (t->p0, t->p1);
            let scaled = ns > 0;
            let pcs = eff_scale_of(odd_of(p0) as nat, scaled);
            let inner = eff_scale_of(p0 as nat, scaled);
            let w = wrap_expr(shifted(el, pcs + shift_raw_of(p0) - inner), input);
            &&& forall|xx: int, k: nat|
                k >= scale_bound(*t->left, pcs) ==> #[trigger] eval(
                    el,
                    xx * two_pow(k),
                    values_of(a1, xx * two_pow(k)),
                ) == tree_value(*t->left) * xx * two_pow((k - pcs) as nat)
            &&& forall|xx: int, k: nat|
                k >= scale_bound(*t->right, ns - inner) ==> #[trigger] eval(
                    et,
                    xx * two_pow(k),
                    values_of(at, xx * two_pow(k)),
                ) == tree_value(*t->right) * xx * two_pow((k - (ns - inner)) as nat)
            &&& forall|x: int|
                #[trigger] eval(r1, x, values_of(r0, x)) == eval(
                    et,
                    eval(w, x, values_of(a1, x)),
                    values_of(at, eval(w, x, values_of(a1, x))),
                ) * two_pow(shift_raw_of(p1) as nat)
        }),
    ensures
        forall|xx: int, k: nat|
            k >= scale_bound(t, ns) ==> #[trigger] eval(
                r1,
                xx * two_pow(k),
                values_of(r0, xx * two_pow(k)),
            ) == tree_value(t) * xx * two_pow((k - ns) as nat),
{
    let (p0, p1) = (t->p0, t->p1);
    let scaled = ns > 0;
    let pcs = eff_scale_of(odd_of(p0) as nat, scaled);
    let inner = eff_scale_of(p0 as nat, scaled);
    let outer = ns - inner;
    let net = pcs + shift_raw_of(p0) - inner;
    let ei = shifted(el, net);
    let w = wrap_expr(ei, input);
    lemma_wrap_expr(ei, input, 0);
    lemma_scale_bound(*t->left, pcs);
    lemma_scale_bound(*t->right, outer);
    let tl = tree_value(*t->left);
    let tr = tree_value(*t->right);
    let pa = two_pow(shift_raw_of(p0) as nat);
    let pb = two_pow(shift_raw_of(p1) as nat);
    assert forall|xx: int, k: nat| k >= scale_bound(t, ns) implies #[trigger] eval(
        r1,
        xx * two_pow(k),
        values_of(r0, xx * two_pow(k)),
    ) == tree_value(t) * xx * two_pow((k - ns) as nat) by {
        let x = xx * two_pow(k);
        let v1 = values_of(a1, x);
        assert(k >= scale_bound(*t->left, pcs));
        assert(eval(el, x, v1) == tl * xx * two_pow((k - pcs) as nat));
        assert(tl * xx * two_pow((k - pcs) as nat) == (tl * xx) * two_pow((k - pcs) as nat)) by (nonlinear_arith);
        lemma_shift_exact(el, net, x, v1, tl * xx, (k - pcs) as nat);
        let k2 = (k - inner) as nat;
        assert((k - pcs) + net == shift_raw_of(p0) + k2);
        lemma_pow_mul(tl * xx, shift_raw_of(p0) as nat, k2);
        let yy = tl * xx * pa;
        assert((tl * xx) * pa == yy);
        let y = eval(w, x, v1);
        assert(y == yy * two_pow(k2));
        assert(k2 >= scale_bound(*t->right, outer));
        assert(eval(et, yy * two_pow(k2), values_of(at, yy * two_pow(k2))) == tr * yy * two_pow(
            (k2 - outer) as nat,
        ));
        assert((k2 - outer) as nat == (k - ns) as nat);
        let z = two_pow((k - ns) as nat);
        assert(tr * (tl * xx * pa) * z * pb == (tl * pa) * (tr * pb) * xx * z) by (nonlinear_arith);
    }
}

proof fn lemma_scaled_node_value(
    t: TreeView,
    ns: int,
    a1: Seq<Expr>,
    el: Expr,
    a2: Seq<Expr>,
    er: Expr,
    input: Seq<char>,
)
    requires
        t matches TreeView::Node { variant, .. } && (variant == Variant::Adder || variant
            == Variant::Subtractor),
        a1.len() <= a2.len(),
        a2.take(a1.len() as int) == a1,
        refs_below(el, a1.len()),
        ({
            let (p0, p1) = (t->p0, t->p1);
            let scaled = ns > 0;
            let c0 = child_scale_of(eff_scale_of(odd_of(p0) as nat, scaled), ns, shift_raw_of(p0));
            let c1 = child_scale_of(eff_scale_of(odd_of(p1) as nat, scaled), ns, shift_raw_of(p1));
            &&& forall|xx: int, k: nat|
                k >= scale_bound(*t->left, c0) ==> #[trigger] eval(
                    el,
                    xx * two_pow(k),
                    values_of(a1, xx * two_pow(k)),
                ) == tree_value(*t->left) * xx * two_pow((k - c0) as nat)
            &&& forall|xx: int, k: nat|
                k >= scale_bound(*t->right, c1) ==> #[trigger] eval(
                    er,
                    xx * two_pow(k),
                    values_of(a2, xx * two_pow(k)),
                ) == tree_value(*t->right) * xx * two_pow((k - c1) as nat)
        }),
    ensures
        ({
            let (p0, p1) = (t->p0, t->p1);
            let scaled = ns > 0;
            let c0 = child_scale_of(eff_scale_of(odd_of(p0) as nat, scaled), ns, shift_raw_of(p0));
            let c1 = child_scale_of(eff_scale_of(odd_of(p1) as nat, scaled), ns, shift_raw_of(p1));
            let e = add_sub_ast(t->Node_variant, el, er, c0 + shift_raw_of(p0) - ns, c1 + shift_raw_of(p1) - ns, input);
            forall|xx: int, k: nat|
                k >= scale_bound(t, ns) ==> #[trigger] eval(
                    Expr::Ref(a2.len()),
                    xx * two_pow(k),
                    values_of(a2.push(e), xx * two_pow(k)),
                ) == tree_value(t) * xx * two_pow((k - ns) as nat)
        }),
{
    let (variant, p0, p1) = (t->Node_variant, t->p0, t->p1);
    let scaled = ns > 0;
    let c0 = child_scale_of(eff_scale_of(odd_of(p0) as nat, scaled), ns, shift_raw_of(p0));
    let c1 = child_scale_of(eff_scale_of(odd_of(p1) as nat, scaled), ns, shift_raw_of(p1));
    let ln = c0 + shift_raw_of(p0) - ns;
    let rn = c1 + shift_raw_of(p1) - ns;
    let e = add_sub_ast(variant, el, er, ln, rn, input);
    let a3 = a2.push(e);
    lemma_scale_bound(*t->left, c0);
    lemma_scale_bound(*t->right, c1);
    let tl = tree_value(*t->left);
    let tr = tree_value(*t->right);
    let pa = two_pow(shift_raw_of(p0) as nat);
    let pb = two_pow(shift_raw_of(p1) as nat);
    assert forall|xx: int, k: nat| k >= scale_bound(t, ns) implies #[trigger] eval(
        Expr::Ref(a2.len()),
        xx * two_pow(k),
        values_of(a3, xx * two_pow(k)),
    ) == tree_value(t) * xx * two_pow((k - ns) as nat) by {
        let x = xx * two_pow(k);
        let v2 = values_of(a2, x);
        lemma_values_take(a2, 0, x);
        assert(a3.drop_last() =~= a2);
        assert(values_of(a3, x)[a2.len() as int] == eval(e, x, v2));
        lemma_values_extend(a1, a2, x);
        lemma_eval_prefix(el, x, v2, values_of(a1, x), a1.len());
        assert(k >= scale_bound(*t->left, c0));
        assert(k >= scale_bound(*t->right, c1));
        assert(eval(el, x, v2) == tl * xx * two_pow((k - c0) as nat));
        assert(eval(er, x, v2) == tr * xx * two_pow((k - c1) as nat));
        assert(tl * xx * two_pow((k - c0) as nat) == (tl * xx) * two_pow((k - c0) as nat)) by (nonlinear_arith);
        assert(tr * xx * two_pow((k - c1) as nat) == (tr * xx) * two_pow((k - c1) as nat)) by (nonlinear_arith);
        lemma_add_sub_exact(
            variant,
            el,
            er,
            ln,
            rn,
            input,
            x,
            v2,
            tl * xx,
            tr * xx,
            (k - c0) as nat,
            (k - c1) as nat,
            (k - ns) as nat,
            shift_raw_of(p0) as nat,
            shift_raw_of(p1) as nat,
        );
        let z = two_pow((k - ns) as nat);
        assert((tl * xx * pa + tr * xx * pb) * z == (tl * pa + tr * pb) * xx * z) by (nonlinear_arith);
        assert((tl * xx * pa - tr * xx * pb) * z == (tl * pa - tr * pb) * xx * z) by (nonlinear_arith);
    }
}

proof fn lemma_bit_len_shift(v: nat, k: nat)
    requires
        v > 0,
    ensures
        crate::bits::bit_len(v * two_pow(k)) == crate::bits::bit_len(v) + k,
    decreases k,
{
    if k > 0 {
        lemma_bit_len_shift(v, (k - 1) as nat);
        let w = v * two_pow((k - 1) as nat);
        crate::bits::lemma_two_pow_pos((k - 1) as nat);
        assert(w > 0) by (nonlinear_arith)
            requires
                v > 0,
                two_pow((k - 1) as nat) >= 1,
                w == v * two_pow((k - 1) as nat),
        ;
        assert(v * two_pow(k) == 2 * w) by (nonlinear_arith)
            requires
                two_pow(k) == 2 * two_pow((k - 1) as nat),
                w == v * two_pow((k - 1) as nat),
        ;
        assert((2 * w) / 2 == w);
        assert(crate::bits::bit_len(2 * w) == 1 + crate::bits::bit_len(w));
    } else {
        assert(v * 1 == v);
    }
}

/// With scaling, the steps of a good tree of the constant's odd part compute the constant
/// times the input divided by `2^bit_len(constant)`: exactly, for every input that is a
/// multiple of `2^scale_bound(tree, bit_len(odd part))`, on which no right shift drops a
/// bit. (On other inputs the right shifts round down.)
#[verifier::spinoff_prover]
pub proof fn law_scaled_sequence_computes(tree: TreeView, constant: usize, input: Seq<char>)
    requires
        good_tree(tree),
        tree_value(tree) == odd_constant_of(constant),
        input_ok(input),
        tree is Leaf || ones_unscaled(tree, crate::bits::bit_len(odd_constant_of(constant) as nat) as int),
    ensures
        exists|asts: Seq<Expr>|
            {
                &&& spells(sequence_of(tree, constant, input, None, true), asts, input)
                &&& asts.len() >= 1
                &&& forall|xx: int, k: nat|
                    k >= scale_bound(
                        tree,
                        crate::bits::bit_len(odd_constant_of(constant) as nat) as int,
                    ) ==> #[trigger] values_of(asts, xx * two_pow(k)).last() * two_pow(
                        crate::bits::bit_len(constant as nat),
                    ) == constant * (xx * two_pow(k))
            },
{
    let oc = odd_constant_of(constant);
    let bl = crate::bits::bit_len(oc as nat);
    let ns = bl as int;
    assert(initial_scale_of(oc, true) == ns);
    let t = tz(constant as nat);
    assert(constant == oc * two_pow(t) && crate::bits::bit_len(constant as nat) == bl + t) by {
        if constant > 0 {
            lemma_odd_part_factor(constant as nat);
            crate::bits::lemma_tz_small(constant);
            assert(oc as nat == odd_part(constant as nat));
            lemma_bit_len_shift(oc as nat, t);
        } else {
            assert(odd_part(0) == 0);
            assert(tz(0) == 0);
            assert(two_pow(0) == 1);
            assert(crate::bits::bit_len(0) == 0);
        }
    }
    assert(spells(seq![], seq![], input));
    let (st, last) = flatten_of(tree, ns, seq![], input);
    let q = sequence_of(tree, constant, input, None, true);
    lemma_first_name();
    lemma_scale_bound(tree, ns);
    if tree is Leaf {
        let c = tree->Leaf_0;
        assert(st.len() == 0);
        assert(constant > 0) by {
            if constant == 0 {
                assert(odd_part(0) == 0);
            }
        }
        lemma_odd_part_factor(constant as nat);
        crate::bits::lemma_tz_small(constant);
        assert(c as nat == odd_part(constant as nat));
        lemma_odd_part_factor(c as nat);
        assert(c % 2 == 1);
        assert(odd_part(c as nat) == c);
        assert(oc == 1);
        assert(bl == 1) by {
            assert(crate::bits::bit_len(0) == 0);
        }
        let e = shifted(Expr::Input, -1);
        lemma_shifted_any(Expr::Input, -1, input, 0);
        lemma_shift_expr_ast(1, input);
        assert(render(e, input) == crate::equations::trivial_step_of(constant, input, true));
        assert(q == seq![(step_name_of(0), render(e, input))]);
        let asts = seq![e];
        assert(spells(q, asts, input));
        assert(scale_bound(tree, ns) == 1);
        assert forall|xx: int, k: nat| k >= scale_bound(tree, ns) implies #[trigger] values_of(
            asts,
            xx * two_pow(k),
        ).last() * two_pow(crate::bits::bit_len(constant as nat)) == constant * (xx * two_pow(k)) by {
            let x = xx * two_pow(k);
            assert(asts.drop_last() =~= Seq::<Expr>::empty());
            assert(values_of(Seq::<Expr>::empty(), x) == Seq::<int>::empty());
            assert(values_of(asts, x).last() == eval(e, x, seq![]));
            lemma_shift_exact(Expr::Input, -1, x, seq![], xx, k);
            let k1 = (k - 1) as nat;
            assert(eval(e, x, seq![]) == xx * two_pow(k1));
            lemma_pow_mul(xx, k1, 1 + t);
            crate::bits::lemma_two_pow_adds(1, t);
            assert(two_pow(1) == 2) by {
                assert(two_pow(0) == 1);
            }
            assert(k1 + 1 + t == 1 + t + k1);
            lemma_pow_mul(xx, k, t);
            assert(two_pow(k) == 2 * two_pow(k1));
            assert(xx * two_pow(k1) * two_pow(1 + t) == two_pow(t) * (xx * two_pow(k))) by (nonlinear_arith)
                requires
                    two_pow(1 + t) == two_pow(1) * two_pow(t),
                    two_pow(1) == 2,
                    two_pow(k) == 2 * two_pow(k1),
            ;
        }
    } else {
        let r = lemma_flatten_scaled(tree, ns, seq![], seq![], input);
        assert(r.1 is Ref);
        assert(st.len() > 0) by {
            assert(r.0.len() == st.len());
        }
        assert(even_shift_of(constant, true) == 0);
        assert(q == st);
        let asts = r.0;
        assert forall|xx: int, k: nat| k >= scale_bound(tree, ns) implies #[trigger] values_of(
            asts,
            xx * two_pow(k),
        ).last() * two_pow(crate::bits::bit_len(constant as nat)) == constant * (xx * two_pow(k)) by {
            let x = xx * two_pow(k);
            lemma_values_take(asts, 0, x);
            assert(values_of(asts, x).last() == eval(r.1, x, values_of(asts, x)));
            let km = (k - ns) as nat;
            assert(eval(r.1, x, values_of(asts, x)) == oc * xx * two_pow(km));
            crate::bits::lemma_two_pow_adds(km, bl);
            crate::bits::lemma_two_pow_adds(bl, t);
            crate::bits::lemma_two_pow_adds(k, t);
            assert(km + bl == k);
            assert(oc * xx * two_pow(km) * two_pow(bl + t) == oc * two_pow(t) * (xx * two_pow(k))) by (nonlinear_arith)
                requires
                    two_pow(bl + t) == two_pow(bl) * two_pow(t),
                    two_pow(km + bl) == two_pow(km) * two_pow(bl),
                    km + bl == k,
            ;
        }
    }
}

/// The promise of scaled mode: with a sound table whose cascades are proper, each scaled
/// equation sequence of a tree without leapfrog graphs and without constants missing from the
/// table computes `constant * x / 2^bit_len(constant)`, exactly for every input that is a
/// multiple of `2^scale_bound(tree, bit_len(odd part))` (on other inputs the right shifts
/// round down).
pub proof fn law_scaled_equations_compute(
    all: Seq<Seq<GraphTypeView>>,
    constant: usize,
    input: Seq<char>,
)
    requires
        table_sound(all),
        cascades_proper(all),
        input_ok(input),
    ensures
        forall|i: int|
            0 <= i < equations_of(all, constant, input, None, true).len() && good_tree(
                #[trigger] build_trees_of(all, odd_constant_of(constant))[i],
            ) ==> exists|asts: Seq<Expr>|
                {
                    &&& spells(equations_of(all, constant, input, None, true)[i], asts, input)
                    &&& asts.len() >= 1
                    &&& forall|xx: int, k: nat|
                        k >= scale_bound(
                            build_trees_of(all, odd_constant_of(constant))[i],
                            crate::bits::bit_len(odd_constant_of(constant) as nat) as int,
                        ) ==> #[trigger] values_of(asts, xx * two_pow(k)).last() * two_pow(
                            crate::bits::bit_len(constant as nat),
                        ) == constant * (xx * two_pow(k))
                },
{
    let oc = odd_constant_of(constant);
    let trees = build_trees_of(all, oc);
    assert(oc == 0 || oc % 2 == 1) by {
        if constant > 0 {
            lemma_odd_part_factor(constant as nat);
            crate::bits::lemma_tz_small(constant);
        } else {
            assert(odd_part(0) == 0);
        }
    }
    lemma_trees_valued(all, oc, choose|d: nat| depth_ok(all, oc, d));
    lemma_trees_ones(all, oc, choose|d: nat| depth_ok(all, oc, d));
    assert forall|i: int|
        0 <= i < equations_of(all, constant, input, None, true).len() && good_tree(
            #[trigger] build_trees_of(all, oc)[i],
        ) implies exists|asts: Seq<Expr>|
        {
            &&& spells(equations_of(all, constant, input, None, true)[i], asts, input)
            &&& asts.len() >= 1
            &&& forall|xx: int, k: nat|
                k >= scale_bound(trees[i], crate::bits::bit_len(oc as nat) as int)
                    ==> #[trigger] values_of(asts, xx * two_pow(k)).last() * two_pow(
                    crate::bits::bit_len(constant as nat),
                ) == constant * (xx * two_pow(k))
        } by {
        assert(equations_of(all, constant, input, None, true)[i] == sequence_of(
            trees[i],
            constant,
            input,
            None,
            true,
        ));
        if oc == 1 {
            assert(crate::bits::is_base_const(1)) by {
                assert(two_pow(0) == 1);
            }
            assert(trees[i] is Leaf);
        } else {
            assert(ones_unscaled(trees[i], crate::bits::bit_len(oc as nat) as int));
        }
        law_scaled_sequence_computes(trees[i], constant, input);
    }
}

/// No cascade of the table has a power of two for a parameter: such a cascade would only
/// shift its other parameter.
pub open spec fn cascades_proper(all: Seq<Seq<GraphTypeView>>) -> bool {
    forall|p: int, i: int|
        0 <= p < all.len() && 0 <= i < all[p].len() && (#[trigger] all[p][i]).variant
            == Variant::Cascade ==> sub_const(all[p][i].params[0]) != 1 && sub_const(
            all[p][i].params[1],
        ) != 1
}

/// Each tree of the list, a tree of `c`, has its leaves 1 flattened at scale 0 whatever scale
/// it is flattened at, and at scale 0 when `c` is 1.
pub open spec fn all_ones_ok(ts: Seq<TreeView>, c: usize) -> bool {
    forall|i: int, ns: int|
        0 <= i < ts.len() && (c != 1 || ns == 0) ==> #[trigger] ones_unscaled(ts[i], ns)
}

proof fn lemma_child_scale_one(p: usize, ns: int, s: int)
    requires
        sub_const(p) == 1,
    ensures
        eff_scale_of(odd_of(p) as nat, ns > 0) == 0,
        child_scale_of(eff_scale_of(odd_of(p) as nat, ns > 0), ns, s) == 0,
{
}

proof fn lemma_nodes_ones(ls: Seq<TreeView>, rs: Seq<TreeView>, variant: Variant, p0: usize, p1: usize)
    requires
        all_ones_ok(ls, sub_const(p0)),
        all_ones_ok(rs, sub_const(p1)),
        is_binary(variant),
        variant == Variant::Cascade ==> sub_const(p1) != 1,
    ensures
        forall|i: int, ns: int|
            0 <= i < nodes_of(ls, rs, variant, p0, p1).len() ==> #[trigger] ones_unscaled(
                nodes_of(ls, rs, variant, p0, p1)[i],
                ns,
            ),
    decreases ls.len(),
{
    if ls.len() > 0 {
        lemma_nodes_ones(ls.drop_last(), rs, variant, p0, p1);
        let front = nodes_of(ls.drop_last(), rs, variant, p0, p1);
        let back = rs.map_values(
            |r: TreeView|
                TreeView::Node { variant, left: Box::new(ls.last()), right: Box::new(r), p0, p1 },
        );
        assert(nodes_of(ls, rs, variant, p0, p1) == front + back);
        assert forall|i: int, ns: int| 0 <= i < (front + back).len() implies #[trigger] ones_unscaled(
            (front + back)[i],
            ns,
        ) by {
            if i < front.len() {
                assert((front + back)[i] == front[i]);
            } else {
                let j = i - front.len();
                assert((front + back)[i] == back[j]);
                let scaled = ns > 0;
                if variant == Variant::Cascade {
                    let lsc = eff_scale_of(odd_of(p0) as nat, scaled);
                    if sub_const(p0) == 1 {
                        lemma_child_scale_one(p0, ns, 0);
                    }
                    assert(ones_unscaled(ls[ls.len() - 1], lsc));
                    assert(ones_unscaled(rs[j], ns - eff_scale_of(p0 as nat, scaled)));
                } else {
                    let c0 = child_scale_of(eff_scale_of(odd_of(p0) as nat, scaled), ns, shift_raw_of(p0));
                    let c1 = child_scale_of(eff_scale_of(odd_of(p1) as nat, scaled), ns, shift_raw_of(p1));
                    if sub_const(p0) == 1 {
                        lemma_child_scale_one(p0, ns, shift_raw_of(p0));
                    }
                    if sub_const(p1) == 1 {
                        lemma_child_scale_one(p1, ns, shift_raw_of(p1));
                    }
                    assert(ones_unscaled(ls[ls.len() - 1], c0));
                    assert(ones_unscaled(rs[j], c1));
                }
            }
        }
    }
}


/// With a sound table whose cascades are proper, every tree of `c` flattens its leaves 1 at
/// scale 0.
pub proof fn lemma_trees_ones(all: Seq<Seq<GraphTypeView>>, c: usize, fuel: nat)
    requires
        table_sound(all),
        cascades_proper(all),
    ensures
        all_ones_ok(trees_of(all, c, fuel), c),
    decreases fuel, 0nat, 0nat,
{
    if fuel > 0 && !is_leaf_const(all, c) {
        let pos = (c / 2) as int;
        assert(all[pos].take(all[pos].len() as int) =~= all[pos]);
        lemma_trees_for_ones(all, all[pos], (fuel - 1) as nat, pos, c);
        let ts = trees_of(all, c, fuel);
        assert(ts == trees_for(all, all[pos], (fuel - 1) as nat));
        assert forall|i: int, ns: int| 0 <= i < ts.len() && (c != 1 || ns == 0) implies #[trigger] ones_unscaled(
            ts[i],
            ns,
        ) by {
            assert(ones_unscaled(trees_for(all, all[pos], (fuel - 1) as nat)[i], ns));
        }
    } else if fuel > 0 {
        let t = TreeView::Leaf(c);
        let ts = trees_of(all, c, fuel);
        assert(ts == seq![t]);
        assert forall|i: int, ns: int| 0 <= i < ts.len() && (c != 1 || ns == 0) implies #[trigger] ones_unscaled(
            ts[i],
            ns,
        ) by {
            assert(ts[i] == t);
        }
    }
}

proof fn lemma_trees_for_ones(
    all: Seq<Seq<GraphTypeView>>,
    gts: Seq<GraphTypeView>,
    e: nat,
    pos: int,
    c: usize,
)
    requires
        table_sound(all),
        cascades_proper(all),
        0 <= pos < all.len(),
        gts.len() <= all[pos].len(),
        gts == all[pos].take(gts.len() as int),
    ensures
        forall|i: int, ns: int|
            0 <= i < trees_for(all, gts, e).len() ==> #[trigger] ones_unscaled(
                trees_for(all, gts, e)[i],
                ns,
            ),
    decreases e, 2nat, gts.len(),
{
    if gts.len() > 0 {
        assert(gts.drop_last() == all[pos].take(gts.len() - 1));
        lemma_trees_for_ones(all, gts.drop_last(), e, pos, c);
        assert(gts.last() == all[pos][gts.len() - 1]);
        lemma_trees_gt_ones(all, gts.last(), e);
        let a = trees_for(all, gts.drop_last(), e);
        let b = trees_gt(all, gts.last(), e);
        assert forall|i: int, ns: int| 0 <= i < (a + b).len() implies #[trigger] ones_unscaled(
            (a + b)[i],
            ns,
        ) by {
            if i < a.len() {
                assert((a + b)[i] == a[i]);
            } else {
                assert((a + b)[i] == b[i - a.len()]);
            }
        }
    }
}

proof fn lemma_trees_gt_ones(all: Seq<Seq<GraphTypeView>>, gt: GraphTypeView, e: nat)
    requires
        table_sound(all),
        cascades_proper(all),
        is_binary(gt.variant) ==> gt.params.len() >= 2,
        gt.variant == Variant::Cascade ==> sub_const(gt.params[0]) != 1 && sub_const(gt.params[1])
            != 1,
    ensures
        forall|i: int, ns: int|
            0 <= i < trees_gt(all, gt, e).len() ==> #[trigger] ones_unscaled(
                trees_gt(all, gt, e)[i],
                ns,
            ),
    decreases e, 1nat, 0nat,
{
    if is_binary(gt.variant) {
        let p0 = gt.params[0];
        let p1 = gt.params[1];
        lemma_trees_ones(all, sub_const(p0), e);
        lemma_trees_ones(all, sub_const(p1), e);
        let lt = trees_of(all, sub_const(p0), e);
        let rt = trees_of(all, sub_const(p1), e);
        lemma_nodes_ones(lt, rt, gt.variant, p0, p1);
        let a = nodes_of(lt, rt, gt.variant, p0, p1);
        if gt.variant == Variant::Cascade && p0 != p1 {
            lemma_nodes_ones(rt, lt, gt.variant, p1, p0);
            let b = nodes_of(rt, lt, gt.variant, p1, p0);
            assert forall|i: int, ns: int| 0 <= i < (a + b).len() implies #[trigger] ones_unscaled(
                (a + b)[i],
                ns,
            ) by {
                if i < a.len() {
                    assert((a + b)[i] == a[i]);
                } else {
                    assert((a + b)[i] == b[i - a.len()]);
                }
            }
        } else {
            assert(a + seq![] =~= a);
        }
    } else {
        assert(trees_gt(all, gt, e) == seq![TreeView::Leapfrog { variant: gt.variant, params: gt.params }]);
    }
}


/// Every constant whose trees have a bounded depth gets at least one equation sequence, named
/// output or not, scaled or not.
pub proof fn law_equations_nonempty(
    all: Seq<Seq<GraphTypeView>>,
    constant: usize,
    input: Seq<char>,
    output: Option<Seq<char>>,
    scaled: bool,
)
    requires
        has_depth(all, odd_constant_of(constant)),
    ensures
        equations_of(all, constant, input, output, scaled).len() >= 1,
{
    law_every_constant_has_a_tree(all, odd_constant_of(constant));
}

/// A constant whose odd part the table does not list (past its end, or with no graph types),
/// or is 0 or 1, is written as one sequence of one step, `s0`, a direct expression over the
/// input that computes the constant times the input.
pub proof fn law_unlisted_constant_single_step(
    all: Seq<Seq<GraphTypeView>>,
    constant: usize,
    input: Seq<char>,
)
    requires
        input_ok(input),
        ({
            let oc = odd_constant_of(constant);
            oc / 2 >= all.len() || all[(oc / 2) as int].len() == 0 || is_base_const(oc as nat)
        }),
    ensures
        equations_of(all, constant, input, None, false).len() == 1,
        equations_of(all, constant, input, None, false)[0].len() == 1,
        equations_of(all, constant, input, None, false)[0][0].0 == "s0"@,
        exists|e: Expr|
            refs_below(e, 0) && render(e, input) == equations_of(all, constant, input, None, false)[0][0].1
                && forall|x: int| #[trigger] eval(e, x, Seq::<int>::empty()) == constant * x,
{
    let oc = odd_constant_of(constant);
    law_unlisted_constant_is_a_leaf(all, oc);
    let t = TreeView::Leaf(oc);
    assert(build_trees_of(all, oc) == seq![t]);
    let q = sequence_of(t, constant, input, None, false);
    assert(equations_of(all, constant, input, None, false) =~= seq![q]);
    let ns = initial_scale_of(oc, false);
    assert(flatten_of(t, ns, seq![], input).0 == Seq::<(Seq<char>, Seq<char>)>::empty());
    assert(q == seq![("s0"@, shift_expr_of(constant as nat, input))]);
    let e = shift_expr_ast(constant as nat);
    lemma_shift_expr_ast(constant as nat, input);
    let c = constant as nat;
    assert forall|x: int| #[trigger] eval(e, x, Seq::<int>::empty()) == constant * x by {
        let v = Seq::<int>::empty();
        if c == 1 {
            assert(e == Expr::Input);
        } else if c > 0 && odd_part(c) == 1 {
            lemma_odd_part_factor(c);
            let p = two_pow(tz(c));
            assert(c == odd_part(c) * p);
            assert(c == p);
            assert(e == Expr::Shl(Box::new(Expr::Input), tz(c)));
            assert(eval(Expr::Input, x, v) == x);
            assert(eval(e, x, v) == x * p);
            assert(x * p == p * x) by (nonlinear_arith);
        } else {
            assert(e == Expr::Mul(c, Box::new(Expr::Input)));
            assert(eval(Expr::Input, x, v) == x);
            assert(eval(e, x, v) == c * x);
        }
    }
    assert(refs_below(e, 0) && render(e, input) == q[0].1);
}

} // verus!
