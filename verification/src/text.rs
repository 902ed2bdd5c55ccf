//! Text of the shift-and-add expressions: numbers, shifts, parentheses and word replacement.
use vstd::prelude::*;
use crate::bits::{odd_part, odd_part_of, trailing_zeros, trailing_zeros_of, tz};

verus! {

/// The decimal digit for `d < 10`.
pub open spec fn digit_char(d: nat) -> char {
    seq!['0', '1', '2', '3', '4', '5', '6', '7', '8', '9'][d as int]
}

/// Decimal text of a natural number, without leading zeros.
pub open spec fn dec(n: nat) -> Seq<char>
    decreases n,
{
    if n < 10 {
        seq![digit_char(n)]
    } else {
        dec(n / 10).push(digit_char(n % 10))
    }
}

fn digit_str(d: usize) -> (r: &'static str)
    requires
        d < 10,
    ensures
        r@ == seq![digit_char(d as nat)],
{
    if d == 0 {
        proof { reveal_strlit("0"); }
        assert("0"@ =~= seq!['0']);
        "0"
    } else if d == 1 {
        proof { reveal_strlit("1"); }
        assert("1"@ =~= seq!['1']);
        "1"
    } else if d == 2 {
        proof { reveal_strlit("2"); }
        assert("2"@ =~= seq!['2']);
        "2"
    } else if d == 3 {
        proof { reveal_strlit("3"); }
        assert("3"@ =~= seq!['3']);
        "3"
    } else if d == 4 {
        proof { reveal_strlit("4"); }
        assert("4"@ =~= seq!['4']);
        "4"
    } else if d == 5 {
        proof { reveal_strlit("5"); }
        assert("5"@ =~= seq!['5']);
        "5"
    } else if d == 6 {
        proof { reveal_strlit("6"); }
        assert("6"@ =~= seq!['6']);
        "6"
    } else if d == 7 {
        proof { reveal_strlit("7"); }
        assert("7"@ =~= seq!['7']);
        "7"
    } else if d == 8 {
        proof { reveal_strlit("8"); }
        assert("8"@ =~= seq!['8']);
        "8"
    } else {
        proof { reveal_strlit("9"); }
        assert("9"@ =~= seq!['9']);
        "9"
    }
}

/// Decimal text of `n`, as `n.to_string()`.
pub fn usize_to_string(n: usize) -> (r: String)
    ensures
        r@ == dec(n as nat),
    decreases n,
{
    if n < 10 {
        String::from_str(digit_str(n))
    } else {
        let mut s = usize_to_string(n / 10);
        s.append(digit_str(n % 10));
        s
    }
}

/// The name of the step at position `n`: `s{n}`.
pub open spec fn step_name_of(n: nat) -> Seq<char> {
    "s"@ + dec(n)
}

/// The name `s{n}` of the step at position `n`.
pub fn step_name(n: usize) -> (r: String)
    ensures
        r@ == step_name_of(n as nat),
{
    let mut r = String::from_str("s");
    r.append(usize_to_string(n).as_str());
    r
}

/// What `char::is_alphanumeric` returns for a character.
pub uninterp spec fn char_is_alphanumeric(c: char) -> bool;

/// Calls `char::is_alphanumeric`. Claims that the result is `char_is_alphanumeric(c)`, and
/// that for an ASCII character it holds exactly of the digits and the letters, as std
/// documents; what it gives for other characters (Unicode's alphabetic and numeric
/// classes) is left unsaid.
#[verifier::external_body]
fn is_alphanumeric(c: char) -> (r: bool)
    ensures
        r == char_is_alphanumeric(c),
        (c as u32) < 128 ==> (r <==> (('0' <= c && c <= '9') || ('a' <= c && c <= 'z') || ('A'
            <= c && c <= 'Z'))),
{
    c.is_alphanumeric()
}

/// A character that belongs to a word (an identifier or a number): an ASCII digit, letter or
/// `_`, or a non-ASCII alphanumeric character.
pub open spec fn is_word_char(c: char) -> bool {
    if (c as u32) < 128 {
        ('0' <= c && c <= '9') || ('a' <= c && c <= 'z') || ('A' <= c && c <= 'Z') || c == '_'
    } else {
        char_is_alphanumeric(c)
    }
}

fn is_word(c: char) -> (r: bool)
    ensures
        r == is_word_char(c),
{
    is_alphanumeric(c) || c == '_'
}

/// The length of the word at the start of `s`.
pub open spec fn word_len(s: Seq<char>) -> nat
    decreases s.len(),
{
    if s.len() > 0 && is_word_char(s[0]) {
        1 + word_len(s.drop_first())
    } else {
        0
    }
}

pub proof fn lemma_word_len_bound(s: Seq<char>)
    ensures
        word_len(s) <= s.len(),
    decreases s.len(),
{
    if s.len() > 0 && is_word_char(s[0]) {
        lemma_word_len_bound(s.drop_first());
    }
}

/// The replacement that `m` gives for `w`; a later pair takes precedence over an earlier one.
pub open spec fn lookup(m: Seq<(Seq<char>, Seq<char>)>, w: Seq<char>) -> Option<Seq<char>>
    decreases m.len(),
{
    if m.len() == 0 {
        None
    } else if m.last().0 == w {
        Some(m.last().1)
    } else {
        lookup(m.drop_last(), w)
    }
}

/// `w` replaced as `m` says, or `w` itself.
pub open spec fn replacement(m: Seq<(Seq<char>, Seq<char>)>, w: Seq<char>) -> Seq<char> {
    match lookup(m, w) {
        Some(r) => r,
        None => w,
    }
}

/// `s` with each whole word replaced as `m` says; other characters are kept.
pub open spec fn replace_words_of(s: Seq<char>, m: Seq<(Seq<char>, Seq<char>)>) -> Seq<char>
    decreases s.len(),
{
    if s.len() == 0 {
        seq![]
    } else if is_word_char(s[0]) {
        let n = word_len(s);
        if n == 0 {
            seq![]
        } else {
            proof {
                lemma_word_len_bound(s);
            }
            replacement(m, s.take(n as int)) + replace_words_of(s.skip(n as int), m)
        }
    } else {
        seq![s[0]] + replace_words_of(s.drop_first(), m)
    }
}

/// Replacing words by an empty list of pairs leaves the text as it is.
pub proof fn law_replace_words_identity(s: Seq<char>)
    ensures
        replace_words_of(s, seq![]) == s,
    decreases s.len(),
{
    if s.len() > 0 {
        if is_word_char(s[0]) {
            let n = word_len(s);
            lemma_word_len_bound(s);
            assert(n >= 1);
            law_replace_words_identity(s.skip(n as int));
            assert(s.take(n as int) + s.skip(n as int) =~= s);
        } else {
            law_replace_words_identity(s.drop_first());
            assert(seq![s[0]] + s.drop_first() =~= s);
        }
    }
}

/// The pairs of a replacement list, as text.
pub open spec fn pairs_view(v: Seq<(String, String)>) -> Seq<(Seq<char>, Seq<char>)> {
    v.map_values(|p: (String, String)| (p.0@, p.1@))
}

/// A run of `k` word characters that ends the text or a non-word character is the word at
/// the start.
pub proof fn lemma_word_len(t: Seq<char>, k: nat)
    requires
        k <= t.len(),
        forall|j: int| 0 <= j < k ==> is_word_char(#[trigger] t[j]),
        k == t.len() || !is_word_char(t[k as int]),
    ensures
        word_len(t) == k,
    decreases k,
{
    if k > 0 {
        let u = t.drop_first();
        assert forall|j: int| 0 <= j < k - 1 implies is_word_char(#[trigger] u[j]) by {
            assert(u[j] == t[j + 1]);
        }
        if k - 1 < u.len() {
            assert(u[k - 1] == t[k as int]);
        }
        lemma_word_len(u, (k - 1) as nat);
    }
}

/// Index of the last pair of `subst` whose first part is `w`.
pub fn find_last(subst: &Vec<(String, String)>, w: &String) -> (r: Option<usize>)
    ensures
        match r {
            Some(j) => j < subst@.len() && lookup(pairs_view(subst@), w@) == Some(subst@[j as int].1@),
            None => lookup(pairs_view(subst@), w@) is None,
        },
{
    let ghost m = pairs_view(subst@);
    let mut j = subst.len();
    assert(m.take(j as int) =~= m);
    while j > 0
        invariant
            j <= subst@.len(),
            m == pairs_view(subst@),
            lookup(m, w@) == lookup(m.take(j as int), w@),
        decreases j,
    {
        let ghost t = m.take(j as int);
        assert(t.last() == m[j - 1]);
        assert(t.drop_last() =~= m.take(j - 1));
        if subst[j - 1].0 == *w {
            return Some(j - 1);
        }
        j = j - 1;
    }
    assert(m.take(0).len() == 0);
    None
}

/// `s` with each whole word (a maximal run of alphanumeric characters and `_`) replaced by
/// the last pair of `subst` that names it; everything else is copied.
pub fn replace_words(s: &str, subst: &Vec<(String, String)>) -> (r: String)
    ensures
        r@ == replace_words_of(s@, pairs_view(subst@)),
{
    let ghost m = pairs_view(subst@);
    let n = s.unicode_len();
    let mut result = String::new();
    let mut i: usize = 0;
    assert(s@.skip(0) =~= s@);
    while i < n
        invariant
            n == s@.len(),
            i <= n,
            m == pairs_view(subst@),
            replace_words_of(s@, m) == result@ + replace_words_of(s@.skip(i as int), m),
        decreases n - i,
    {
        let c = s.get_char(i);
        let ghost t = s@.skip(i as int);
        assert(t[0] == c);
        if is_word(c) {
            let start = i;
            i = i + 1;
            loop
                invariant_except_break
                    start < i <= n,
                    n == s@.len(),
                    forall|j: int| start <= j < i ==> is_word_char(#[trigger] s@[j]),
                ensures
                    start < i <= n,
                    forall|j: int| start <= j < i ==> is_word_char(#[trigger] s@[j]),
                    i == n || !is_word_char(s@[i as int]),
                decreases n - i,
            {
                if i >= n {
                    break;
                }
                let d = s.get_char(i);
                if !is_word(d) {
                    break;
                }
                i = i + 1;
            }
            let k = i - start;
            proof {
                assert forall|j: int| 0 <= j < k implies is_word_char(#[trigger] t[j]) by {
                    assert(t[j] == s@[start + j]);
                }
                if k < t.len() {
                    assert(t[k as int] == s@[i as int]);
                }
                lemma_word_len(t, k as nat);
                assert(t.skip(k as int) =~= s@.skip(i as int));
            }
            let word = String::from_str(s.substring_char(start, i));
            assert(word@ =~= t.take(k as int));
            match find_last(subst, &word) {
                Some(j) => {
                    result.append(subst[j].1.as_str());
                },
                None => {
                    result.append(word.as_str());
                },
            }
            assert(replace_words_of(t, m) == replacement(m, t.take(k as int)) + replace_words_of(
                t.skip(k as int),
                m,
            ));
        } else {
            let one = s.substring_char(i, i + 1);
            assert(one@ =~= seq![c]);
            result.append(one);
            i = i + 1;
            assert(t.drop_first() =~= s@.skip(i as int));
        }
    }
    assert(s@.skip(n as int) =~= Seq::<char>::empty());
    assert(result@ + Seq::<char>::empty() =~= result@);
    result
}

/// `s` with each whole word `from` replaced by `to`.
pub fn replace_word(s: &str, from: &str, to: &str) -> (r: String)
    ensures
        r@ == replace_words_of(s@, seq![(from@, to@)]),
{
    let mut subst: Vec<(String, String)> = Vec::new();
    subst.push((String::from_str(from), String::from_str(to)));
    assert(pairs_view(subst@) =~= seq![(from@, to@)]);
    replace_words(s, &subst)
}

/// Whether `s` holds `op` with a space on each side.
pub open spec fn has_spaced_op(s: Seq<char>, op: char) -> bool {
    exists|i: int| 0 <= i && i + 2 < s.len() && s[i] == ' ' && #[trigger] s[i + 1] == op && s[i
        + 2] == ' '
}

fn contains_spaced_op(s: &str, op: char) -> (r: bool)
    ensures
        r == has_spaced_op(s@, op),
{
    let n = s.unicode_len();
    let mut i: usize = 0;
    if n < 3 {
        return false;
    }
    while i < n - 2
        invariant
            n == s@.len(),
            n >= 3,
            forall|j: int|
                0 <= j < i && j + 2 < n ==> !(s@[j] == ' ' && #[trigger] s@[j + 1] == op && s@[j
                    + 2] == ' '),
        decreases n - i,
    {
        if s.get_char(i) == ' ' && s.get_char(i + 1) == op && s.get_char(i + 2) == ' ' {
            return true;
        }
        i = i + 1;
    }
    false
}

/// An expression that needs parentheses: it holds ` + ` or ` - `.
pub open spec fn needs_parens_of(e: Seq<char>) -> bool {
    has_spaced_op(e, '+') || has_spaced_op(e, '-')
}

/// Whether an expression holds a top-level looking addition or subtraction.
pub fn needs_parens(expr: &str) -> (r: bool)
    ensures
        r == needs_parens_of(expr@),
{
    contains_spaced_op(expr, '+') || contains_spaced_op(expr, '-')
}

/// An expression between parentheses when it needs them and is not already between them.
pub open spec fn wrap_of(e: Seq<char>) -> Seq<char> {
    if needs_parens_of(e) && !(e.len() > 0 && e[0] == '(' && e.last() == ')') {
        "("@ + e + ")"@
    } else {
        e
    }
}

/// `expr` put between parentheses where it needs them.
pub fn wrap(expr: &str) -> (r: String)
    ensures
        r@ == wrap_of(expr@),
{
    let n = expr.unicode_len();
    let enclosed = n > 0 && expr.get_char(0) == '(' && expr.get_char(n - 1) == ')';
    if needs_parens(expr) && !enclosed {
        let mut r = String::from_str("(");
        r.append(expr);
        r.append(")");
        r
    } else {
        String::from_str(expr)
    }
}

/// `e` shifted left by a positive, or right by a negative amount; `e` itself for 0.
pub open spec fn inline_shift_of(e: Seq<char>, shift: int) -> Seq<char> {
    if shift == 0 {
        e
    } else if shift > 0 {
        "("@ + e + " << "@ + dec(shift as nat) + ")"@
    } else {
        "("@ + e + " >> "@ + dec((-shift) as nat) + ")"@
    }
}

/// Builds an inline shift expression without emitting a step.
pub fn inline_shift(expr: &str, shift: i32) -> (r: String)
    requires
        shift > i32::MIN,
    ensures
        r@ == inline_shift_of(expr@, shift as int),
{
    if shift == 0 {
        return String::from_str(expr);
    }
    let mut r = String::from_str("(");
    r.append(expr);
    if shift > 0 {
        r.append(" << ");
        r.append(usize_to_string(shift as usize).as_str());
    } else {
        let rshift = (-shift) as u32;
        r.append(" >> ");
        r.append(usize_to_string(rshift as usize).as_str());
    }
    r.append(")");
    r
}

/// `inner` multiplied by `value`: itself for 1, a left shift for a power of two, else a
/// product.
pub open spec fn shift_expr_of(value: nat, inner: Seq<char>) -> Seq<char> {
    if value == 1 {
        inner
    } else if value > 0 && odd_part(value) == 1 {
        "("@ + inner + " << "@ + dec(tz(value)) + ")"@
    } else {
        "("@ + dec(value) + " * "@ + inner + ")"@
    }
}

/// The expression for `value * inner`.
pub fn shift_expr(value: usize, inner: &str) -> (r: String)
    ensures
        r@ == shift_expr_of(value as nat, inner@),
{
    if value == 1 {
        return String::from_str(inner);
    }
    let mut r = String::from_str("(");
    if value > 0 && odd_part_of(value) == 1 {
        let shift = trailing_zeros(value);
        r.append(inner);
        r.append(" << ");
        r.append(usize_to_string(shift as usize).as_str());
    } else {
        r.append(usize_to_string(value).as_str());
        r.append(" * ");
        r.append(inner);
    }
    r.append(")");
    r
}

/// The expression for `constant * input_var`.
pub fn leaf_expr(constant: usize, input_var: &str) -> (r: String)
    ensures
        r@ == shift_expr_of(constant as nat, input_var@),
{
    shift_expr(constant, input_var)
}

/// A parameter written as its odd part shifted left, when it is even.
pub open spec fn extract_shift_of(value: usize) -> Seq<char> {
    if trailing_zeros_of(value) == 0 {
        dec(value as nat)
    } else {
        dec(odd_part(value as nat)) + " << "@ + dec(trailing_zeros_of(value))
    }
}

/// `value` as `odd << shift`, or as itself when it is odd.
pub fn extract_shift(value: usize) -> (r: String)
    ensures
        r@ == extract_shift_of(value),
{
    let shift = trailing_zeros(value);
    if shift == 0 {
        usize_to_string(value)
    } else {
        let mut r = usize_to_string(odd_part_of(value));
        r.append(" << ");
        r.append(usize_to_string(shift as usize).as_str());
        r
    }
}

} // verus!
