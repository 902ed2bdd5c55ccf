//! The coding of the graph-type table, written out: decoding the coded form of a table gives
//! the table back.
use vstd::prelude::*;
use crate::bits::{lemma_two_pow_64, lemma_two_pow_adds, lemma_two_pow_monotone, two_pow};
use crate::graph_types::{
    entries_of, entry_of, graph_type_wf, graph_types_of, leb_value, list_of, lists_of,
    params_of, table_wf, varint_len_from, varint_max_len, varint_usize,
    variant_of_tag, GraphTypeView, Variant,
};

verus! {

/// The shortest LEB128 coding of `n`: seven bits per byte, least significant first, the high
/// bit set on every byte but the last.
pub open spec fn leb_enc(n: nat) -> Seq<u8>
    decreases n,
{
    if n < 128 {
        seq![n as u8]
    } else {
        seq![(n % 128 + 128) as u8] + leb_enc(n / 128)
    }
}

/// The tag byte of a variant.
pub open spec fn tag_of(v: Variant) -> u8 {
    match v {
        Variant::Adder => 0,
        Variant::Subtractor => 1,
        Variant::Cascade => 2,
        Variant::Leapfrog4_1 => 3,
        Variant::Leapfrog4_2 => 4,
        Variant::Leapfrog4_3 => 5,
        Variant::Leapfrog4_4 => 6,
        Variant::Leapfrog5_1 => 7,
        Variant::Leapfrog5_2 => 8,
        Variant::Leapfrog5_3 => 9,
        Variant::Leapfrog5_4 => 10,
        Variant::Leapfrog7_1 => 11,
        Variant::Leapfrog7_2 => 12,
        Variant::Leapfrog7_3 => 13,
        Variant::Leapfrog7_4 => 14,
        Variant::Leapfrog7_5 => 15,
        Variant::Leapfrog7_6 => 16,
        Variant::Leapfrog7_7 => 17,
        Variant::Leapfrog7_8 => 18,
    }
}

/// Parameters, each coded in turn.
pub open spec fn enc_params(ps: Seq<usize>) -> Seq<u8>
    decreases ps.len(),
{
    if ps.len() == 0 {
        seq![]
    } else {
        enc_params(ps.drop_last()) + leb_enc(ps.last() as nat)
    }
}

/// A graph type: its tag byte, then its parameters.
pub open spec fn enc_entry(g: GraphTypeView) -> Seq<u8> {
    seq![tag_of(g.variant)] + enc_params(g.params)
}

/// Graph types, each coded in turn.
pub open spec fn enc_entries(gs: Seq<GraphTypeView>) -> Seq<u8>
    decreases gs.len(),
{
    if gs.len() == 0 {
        seq![]
    } else {
        enc_entries(gs.drop_last()) + enc_entry(gs.last())
    }
}

/// A list: its length, then its graph types.
pub open spec fn enc_list(l: Seq<GraphTypeView>) -> Seq<u8> {
    leb_enc(l.len()) + enc_entries(l)
}

/// Lists, each coded in turn.
pub open spec fn enc_lists(ls: Seq<Seq<GraphTypeView>>) -> Seq<u8>
    decreases ls.len(),
{
    if ls.len() == 0 {
        seq![]
    } else {
        enc_lists(ls.drop_last()) + enc_list(ls.last())
    }
}

/// A table: the number of lists, then the lists.
pub open spec fn enc_table(t: Seq<Seq<GraphTypeView>>) -> Seq<u8> {
    leb_enc(t.len()) + enc_lists(t)
}

proof fn lemma_leb_value(m: nat)
    ensures
        leb_value(leb_enc(m)) == m,
        leb_enc(m).len() >= 1,
    decreases m,
{
    if m >= 128 {
        lemma_leb_value(m / 128);
        let e = leb_enc(m);
        assert(e.drop_first() =~= leb_enc(m / 128));
        assert(e[0] == (m % 128 + 128) as u8);
        assert(((m % 128 + 128) as u8) % 128 == m % 128);
    } else {
        let e = leb_enc(m);
        assert(e.drop_first().len() == 0);
        assert(leb_value(e.drop_first()) == 0);
    }
}

proof fn lemma_leb_len(m: nat, j: nat)
    requires
        j >= 1,
        m < two_pow(7 * j),
    ensures
        leb_enc(m).len() <= j,
    decreases j,
{
    if m >= 128 {
        lemma_two_pow_adds(7, (7 * (j - 1)) as nat);
        assert(7 + 7 * (j - 1) == 7 * j);
        reveal_with_fuel(two_pow, 8);
        assert(two_pow(7) == 128);
        if j == 1 {
            assert(false);
        }
        let p = two_pow((7 * (j - 1)) as nat);
        assert(m / 128 < p) by (nonlinear_arith)
            requires
                m < 128 * p,
        ;
        lemma_leb_len(m / 128, (j - 1) as nat);
    }
}

/// Reading the coding of `m`, placed at byte `i` after `i` bytes with the high bit set,
/// succeeds with its end.
proof fn lemma_len_from(b: Seq<u8>, i: nat, m: nat)
    requires
        i + leb_enc(m).len() <= b.len(),
        b.subrange(i as int, (i + leb_enc(m).len()) as int) == leb_enc(m),
        i + leb_enc(m).len() <= varint_max_len(),
        m > 0 || i == 0,
    ensures
        varint_len_from(b, i) == Ok::<nat, Seq<char>>(i + leb_enc(m).len()),
    decreases m,
{
    let e = leb_enc(m);
    assert(b[i as int] == e[0]);
    if m >= 128 {
        lemma_leb_value(m / 128);
        assert(e.drop_first() =~= leb_enc(m / 128));
        assert(b.subrange((i + 1) as int, (i + 1 + leb_enc(m / 128).len()) as int) =~= leb_enc(m / 128));
        lemma_len_from(b, i + 1, m / 128);
    }
}

proof fn lemma_usize_below_bits(n: usize)
    ensures
        n < two_pow(usize::BITS as nat),
{
    lemma_two_pow_64();
    if usize::BITS == 32 {
        reveal_with_fuel(two_pow, 33);
        assert(two_pow(32) == 0x1_0000_0000);
    }
}

/// Decoding the coding of a `usize` gives it back, and reads exactly its bytes.
pub proof fn lemma_varint_roundtrip(n: usize, rest: Seq<u8>)
    ensures
        varint_usize(leb_enc(n as nat) + rest) == Ok::<(usize, nat), Seq<char>>(
            (n, leb_enc(n as nat).len()),
        ),
{
    let e = leb_enc(n as nat);
    let b = e + rest;
    lemma_leb_value(n as nat);
    lemma_usize_below_bits(n);
    if usize::BITS == 64 {
        lemma_two_pow_monotone(64, 70);
        lemma_leb_len(n as nat, 10);
    } else {
        lemma_two_pow_monotone(32, 35);
        lemma_leb_len(n as nat, 5);
    }
    assert(b.subrange(0, e.len() as int) =~= e);
    lemma_len_from(b, 0, n as nat);
    assert(b.take(e.len() as int) =~= e);
    let m = two_pow(usize::BITS as nat);
    let v = n as nat;
    assert(v % m == v) by (nonlinear_arith)
        requires
            v < m,
    ;
}

proof fn lemma_tag_of(v: Variant)
    ensures
        variant_of_tag(tag_of(v)) == Some(v),
{
}

proof fn lemma_params_roundtrip(ps: Seq<usize>, rest: Seq<u8>)
    ensures
        params_of(enc_params(ps) + rest, ps.len()) == (
            Ok::<Seq<usize>, Seq<char>>(ps),
            enc_params(ps).len(),
        ),
    decreases ps.len(),
{
    if ps.len() > 0 {
        let front = ps.drop_last();
        let tail = leb_enc(ps.last() as nat) + rest;
        let s = enc_params(ps) + rest;
        assert(s =~= enc_params(front) + tail);
        lemma_params_roundtrip(front, tail);
        assert(s.skip(enc_params(front).len() as int) =~= tail);
        lemma_varint_roundtrip(ps.last(), rest);
        assert(front.push(ps.last()) =~= ps);
    } else {
        assert(ps =~= Seq::<usize>::empty());
    }
}

proof fn lemma_entry_roundtrip(g: GraphTypeView, rest: Seq<u8>)
    requires
        graph_type_wf(g),
    ensures
        entry_of(enc_entry(g) + rest) == (
            Ok::<GraphTypeView, Seq<char>>(g),
            enc_entry(g).len(),
        ),
{
    let s = enc_entry(g) + rest;
    lemma_tag_of(g.variant);
    assert(s[0] == tag_of(g.variant));
    assert(s.skip(1) =~= enc_params(g.params) + rest);
    lemma_params_roundtrip(g.params, rest);
}

proof fn lemma_entries_roundtrip(gs: Seq<GraphTypeView>, rest: Seq<u8>)
    requires
        forall|i: int| 0 <= i < gs.len() ==> graph_type_wf(#[trigger] gs[i]),
    ensures
        entries_of(enc_entries(gs) + rest, gs.len()) == (
            Ok::<Seq<GraphTypeView>, Seq<char>>(gs),
            enc_entries(gs).len(),
        ),
    decreases gs.len(),
{
    if gs.len() > 0 {
        let front = gs.drop_last();
        let tail = enc_entry(gs.last()) + rest;
        let s = enc_entries(gs) + rest;
        assert(s =~= enc_entries(front) + tail);
        assert forall|i: int| 0 <= i < front.len() implies graph_type_wf(#[trigger] front[i]) by {
            assert(front[i] == gs[i]);
        }
        lemma_entries_roundtrip(front, tail);
        assert(s.skip(enc_entries(front).len() as int) =~= tail);
        assert(graph_type_wf(gs[gs.len() - 1]));
        lemma_entry_roundtrip(gs.last(), rest);
        assert(front.push(gs.last()) =~= gs);
    } else {
        assert(gs =~= Seq::<GraphTypeView>::empty());
    }
}

proof fn lemma_list_roundtrip(l: Seq<GraphTypeView>, rest: Seq<u8>)
    requires
        l.len() <= usize::MAX,
        forall|i: int| 0 <= i < l.len() ==> graph_type_wf(#[trigger] l[i]),
    ensures
        list_of(enc_list(l) + rest) == (
            Ok::<Seq<GraphTypeView>, Seq<char>>(l),
            enc_list(l).len(),
        ),
{
    let s = enc_list(l) + rest;
    let n = l.len() as usize;
    assert(s =~= leb_enc(n as nat) + (enc_entries(l) + rest));
    lemma_varint_roundtrip(n, enc_entries(l) + rest);
    assert(s.skip(leb_enc(n as nat).len() as int) =~= enc_entries(l) + rest);
    lemma_entries_roundtrip(l, rest);
}

proof fn lemma_lists_roundtrip(ls: Seq<Seq<GraphTypeView>>, rest: Seq<u8>)
    requires
        table_wf(ls),
        forall|i: int| 0 <= i < ls.len() ==> (#[trigger] ls[i]).len() <= usize::MAX,
    ensures
        lists_of(enc_lists(ls) + rest, ls.len()) == (
            Ok::<Seq<Seq<GraphTypeView>>, Seq<char>>(ls),
            enc_lists(ls).len(),
        ),
    decreases ls.len(),
{
    if ls.len() > 0 {
        let front = ls.drop_last();
        let last = ls.last();
        let tail = enc_list(last) + rest;
        let s = enc_lists(ls) + rest;
        assert(s =~= enc_lists(front) + tail);
        assert forall|p: int, i: int| 0 <= p < front.len() && 0 <= i < front[p].len() implies #[trigger] graph_type_wf(front[p][i]) by {
            assert(front[p] == ls[p]);
            assert(graph_type_wf(ls[p][i]));
        }
        assert forall|i: int| 0 <= i < front.len() implies (#[trigger] front[i]).len() <= usize::MAX by {
            assert(front[i] == ls[i]);
        }
        lemma_lists_roundtrip(front, tail);
        assert(s.skip(enc_lists(front).len() as int) =~= tail);
        assert(last == ls[ls.len() - 1]);
        assert(last.len() <= usize::MAX);
        assert forall|i: int| 0 <= i < last.len() implies graph_type_wf(#[trigger] last[i]) by {
            assert(graph_type_wf(ls[ls.len() - 1][i]));
        }
        lemma_list_roundtrip(last, rest);
        assert(front.push(last) =~= ls);
    } else {
        assert(ls =~= Seq::<Seq<GraphTypeView>>::empty());
    }
}

/// Decoding the coded form of a table, followed by any bytes, gives the table back.
pub proof fn law_graph_types_roundtrip(t: Seq<Seq<GraphTypeView>>, rest: Seq<u8>)
    requires
        table_wf(t),
        t.len() <= usize::MAX,
        forall|i: int| 0 <= i < t.len() ==> (#[trigger] t[i]).len() <= usize::MAX,
    ensures
        graph_types_of(enc_table(t) + rest) == Ok::<Seq<Seq<GraphTypeView>>, Seq<char>>(t),
{
    let n = t.len() as usize;
    let s = enc_table(t) + rest;
    assert(s =~= leb_enc(n as nat) + (enc_lists(t) + rest));
    lemma_varint_roundtrip(n, enc_lists(t) + rest);
    assert(s.skip(leb_enc(n as nat).len() as int) =~= enc_lists(t) + rest);
    lemma_lists_roundtrip(t, rest);
}

} // verus!
