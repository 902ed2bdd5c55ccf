//! The graph types of each odd constant: their kinds, their parameters, and the compressed,
//! varint-coded table that holds them.
use vstd::prelude::*;
use crate::bits::odd_part;
use crate::bits::odd_part_of;
use crate::text::{dec, extract_shift, extract_shift_of, usize_to_string};
use vstd::slice::slice_subrange;

verus! {

/// The kinds of adder graph that realise an odd constant.
#[allow(non_camel_case_types)]
#[derive(Clone, Copy, Debug, PartialEq, Eq, Structural)]
pub enum Variant {
    Adder,
    Subtractor,
    Cascade,
    Leapfrog4_1,
    Leapfrog4_2,
    Leapfrog4_3,
    Leapfrog4_4,
    Leapfrog5_1,
    Leapfrog5_2,
    Leapfrog5_3,
    Leapfrog5_4,
    Leapfrog7_1,
    Leapfrog7_2,
    Leapfrog7_3,
    Leapfrog7_4,
    Leapfrog7_5,
    Leapfrog7_6,
    Leapfrog7_7,
    Leapfrog7_8,
}

/// The variant that a tag byte of the table stands for.
pub open spec fn variant_of_tag(tag: u8) -> Option<Variant> {
    if tag == 0 {
        Some(Variant::Adder)
    } else if tag == 1 {
        Some(Variant::Subtractor)
    } else if tag == 2 {
        Some(Variant::Cascade)
    } else if tag == 3 {
        Some(Variant::Leapfrog4_1)
    } else if tag == 4 {
        Some(Variant::Leapfrog4_2)
    } else if tag == 5 {
        Some(Variant::Leapfrog4_3)
    } else if tag == 6 {
        Some(Variant::Leapfrog4_4)
    } else if tag == 7 {
        Some(Variant::Leapfrog5_1)
    } else if tag == 8 {
        Some(Variant::Leapfrog5_2)
    } else if tag == 9 {
        Some(Variant::Leapfrog5_3)
    } else if tag == 10 {
        Some(Variant::Leapfrog5_4)
    } else if tag == 11 {
        Some(Variant::Leapfrog7_1)
    } else if tag == 12 {
        Some(Variant::Leapfrog7_2)
    } else if tag == 13 {
        Some(Variant::Leapfrog7_3)
    } else if tag == 14 {
        Some(Variant::Leapfrog7_4)
    } else if tag == 15 {
        Some(Variant::Leapfrog7_5)
    } else if tag == 16 {
        Some(Variant::Leapfrog7_6)
    } else if tag == 17 {
        Some(Variant::Leapfrog7_7)
    } else if tag == 18 {
        Some(Variant::Leapfrog7_8)
    } else {
        None
    }
}

/// Adders, subtractors and cascades combine two sub-constants.
pub open spec fn is_binary(v: Variant) -> bool {
    v == Variant::Adder || v == Variant::Subtractor || v == Variant::Cascade
}

/// The number of parameters that the table stores for a variant.
pub open spec fn param_count_of(v: Variant) -> nat {
    match v {
        Variant::Adder | Variant::Subtractor | Variant::Cascade => 2,
        Variant::Leapfrog4_1 | Variant::Leapfrog4_2 | Variant::Leapfrog4_3 | Variant::Leapfrog4_4 => 4,
        Variant::Leapfrog5_1 | Variant::Leapfrog5_2 | Variant::Leapfrog5_3 | Variant::Leapfrog5_4 => 5,
        _ => 7,
    }
}

/// The name of a variant.
pub open spec fn variant_name(v: Variant) -> Seq<char> {
    match v {
        Variant::Adder => "Adder"@,
        Variant::Subtractor => "Subtractor"@,
        Variant::Cascade => "Cascade"@,
        Variant::Leapfrog4_1 => "Leapfrog4_1"@,
        Variant::Leapfrog4_2 => "Leapfrog4_2"@,
        Variant::Leapfrog4_3 => "Leapfrog4_3"@,
        Variant::Leapfrog4_4 => "Leapfrog4_4"@,
        Variant::Leapfrog5_1 => "Leapfrog5_1"@,
        Variant::Leapfrog5_2 => "Leapfrog5_2"@,
        Variant::Leapfrog5_3 => "Leapfrog5_3"@,
        Variant::Leapfrog5_4 => "Leapfrog5_4"@,
        Variant::Leapfrog7_1 => "Leapfrog7_1"@,
        Variant::Leapfrog7_2 => "Leapfrog7_2"@,
        Variant::Leapfrog7_3 => "Leapfrog7_3"@,
        Variant::Leapfrog7_4 => "Leapfrog7_4"@,
        Variant::Leapfrog7_5 => "Leapfrog7_5"@,
        Variant::Leapfrog7_6 => "Leapfrog7_6"@,
        Variant::Leapfrog7_7 => "Leapfrog7_7"@,
        Variant::Leapfrog7_8 => "Leapfrog7_8"@,
    }
}

impl Variant {
    /// The variant of a tag byte, if the tag is known.
    pub fn from_tag(tag: u8) -> (r: Option<Variant>)
        ensures
            r == variant_of_tag(tag),
    {
        match tag {
            0 => Some(Variant::Adder),
            1 => Some(Variant::Subtractor),
            2 => Some(Variant::Cascade),
            3 => Some(Variant::Leapfrog4_1),
            4 => Some(Variant::Leapfrog4_2),
            5 => Some(Variant::Leapfrog4_3),
            6 => Some(Variant::Leapfrog4_4),
            7 => Some(Variant::Leapfrog5_1),
            8 => Some(Variant::Leapfrog5_2),
            9 => Some(Variant::Leapfrog5_3),
            10 => Some(Variant::Leapfrog5_4),
            11 => Some(Variant::Leapfrog7_1),
            12 => Some(Variant::Leapfrog7_2),
            13 => Some(Variant::Leapfrog7_3),
            14 => Some(Variant::Leapfrog7_4),
            15 => Some(Variant::Leapfrog7_5),
            16 => Some(Variant::Leapfrog7_6),
            17 => Some(Variant::Leapfrog7_7),
            18 => Some(Variant::Leapfrog7_8),
            _ => None,
        }
    }

    /// The number of parameters stored for this variant.
    pub fn param_count(&self) -> (r: usize)
        ensures
            r == param_count_of(*self),
    {
        match self {
            Variant::Adder | Variant::Subtractor | Variant::Cascade => 2,
            Variant::Leapfrog4_1 | Variant::Leapfrog4_2 | Variant::Leapfrog4_3
            | Variant::Leapfrog4_4 => 4,
            Variant::Leapfrog5_1 | Variant::Leapfrog5_2 | Variant::Leapfrog5_3
            | Variant::Leapfrog5_4 => 5,
            _ => 7,
        }
    }

    /// Whether this variant combines two sub-constants.
    pub fn is_binary(&self) -> (r: bool)
        ensures
            r == is_binary(*self),
    {
        match self {
            Variant::Adder | Variant::Subtractor | Variant::Cascade => true,
            _ => false,
        }
    }

    /// The name of this variant.
    pub fn name(&self) -> (r: &'static str)
        ensures
            r@ == variant_name(*self),
    {
        match self {
            Variant::Adder => "Adder",
            Variant::Subtractor => "Subtractor",
            Variant::Cascade => "Cascade",
            Variant::Leapfrog4_1 => "Leapfrog4_1",
            Variant::Leapfrog4_2 => "Leapfrog4_2",
            Variant::Leapfrog4_3 => "Leapfrog4_3",
            Variant::Leapfrog4_4 => "Leapfrog4_4",
            Variant::Leapfrog5_1 => "Leapfrog5_1",
            Variant::Leapfrog5_2 => "Leapfrog5_2",
            Variant::Leapfrog5_3 => "Leapfrog5_3",
            Variant::Leapfrog5_4 => "Leapfrog5_4",
            Variant::Leapfrog7_1 => "Leapfrog7_1",
            Variant::Leapfrog7_2 => "Leapfrog7_2",
            Variant::Leapfrog7_3 => "Leapfrog7_3",
            Variant::Leapfrog7_4 => "Leapfrog7_4",
            Variant::Leapfrog7_5 => "Leapfrog7_5",
            Variant::Leapfrog7_6 => "Leapfrog7_6",
            Variant::Leapfrog7_7 => "Leapfrog7_7",
            Variant::Leapfrog7_8 => "Leapfrog7_8",
        }
    }
}

/// One way to realise a constant: a variant and its parameters.
#[derive(Debug, PartialEq, Eq)]
pub struct GraphType {
    pub variant: Variant,
    pub params: Vec<usize>,
}

/// A graph type as a value: its variant and its parameters.
pub struct GraphTypeView {
    pub variant: Variant,
    pub params: Seq<usize>,
}

impl View for GraphType {
    type V = GraphTypeView;

    open spec fn view(&self) -> GraphTypeView {
        GraphTypeView { variant: self.variant, params: self.params@ }
    }
}

/// The graph types of each list, as values.
pub open spec fn lists_view(v: Seq<Vec<GraphType>>) -> Seq<Seq<GraphTypeView>> {
    v.map_values(|l: Vec<GraphType>| l@.map_values(|g: GraphType| g@))
}

/// A graph type has the number of parameters that its variant stores.
pub open spec fn graph_type_wf(g: GraphTypeView) -> bool {
    g.params.len() == param_count_of(g.variant)
}

/// Every graph type of the table has the number of parameters that its variant stores.
pub open spec fn table_wf(all: Seq<Seq<GraphTypeView>>) -> bool {
    forall|p: int, i: int|
        0 <= p < all.len() && 0 <= i < all[p].len() ==> #[trigger] graph_type_wf(all[p][i])
}

/// Every adder, subtractor and cascade of the table has at least its two parameters, the only
/// ones that building trees reads.
pub open spec fn binary_params_ok(all: Seq<Seq<GraphTypeView>>) -> bool {
    forall|p: int, i: int|
        0 <= p < all.len() && 0 <= i < all[p].len() && is_binary(#[trigger] all[p][i].variant)
            ==> all[p][i].params.len() >= 2
}

/// A well-formed table gives its binary graph types their two parameters.
pub proof fn lemma_wf_binary_params(all: Seq<Seq<GraphTypeView>>)
    requires
        table_wf(all),
    ensures
        binary_params_ok(all),
{
    assert forall|p: int, i: int|
        0 <= p < all.len() && 0 <= i < all[p].len() && is_binary(#[trigger] all[p][i].variant)
        implies all[p][i].params.len() >= 2 by {
        assert(graph_type_wf(all[p][i]));
    }
}

/// A copy of a list of parameters.
pub(crate) fn copy_params(v: &Vec<usize>) -> (r: Vec<usize>)
    ensures
        r@ == v@,
{
    let mut r: Vec<usize> = Vec::new();
    let mut i: usize = 0;
    while i < v.len()
        invariant
            i <= v@.len(),
            r@ == v@.take(i as int),
        decreases v@.len() - i,
    {
        r.push(v[i]);
        i = i + 1;
        assert(r@ =~= v@.take(i as int));
    }
    assert(v@.take(i as int) =~= v@);
    r
}

/// Joins texts with a separator between consecutive ones.
pub open spec fn join(parts: Seq<Seq<char>>, sep: Seq<char>) -> Seq<char>
    decreases parts.len(),
{
    if parts.len() == 0 {
        seq![]
    } else if parts.len() == 1 {
        parts[0]
    } else {
        join(parts.drop_last(), sep) + sep + parts.last()
    }
}

/// The parameters written as `odd << shift`, separated by commas.
pub open spec fn shifted_params_of(params: Seq<usize>) -> Seq<char> {
    join(params.map_values(|v: usize| extract_shift_of(v)), ", "@)
}

/// The parameters in decimal, separated by commas.
pub open spec fn decimal_params_of(params: Seq<usize>) -> Seq<char> {
    join(params.map_values(|v: usize| dec(v as nat)), ", "@)
}

/// Writes each parameter, in shifted form or in decimal, separated by commas.
pub fn join_params(params: &Vec<usize>, shifted: bool) -> (r: String)
    ensures
        shifted ==> r@ == shifted_params_of(params@),
        !shifted ==> r@ == decimal_params_of(params@),
{
    let ghost f = if shifted {
        |v: usize| extract_shift_of(v)
    } else {
        |v: usize| dec(v as nat)
    };
    let mut r = String::new();
    let mut i: usize = 0;
    while i < params.len()
        invariant
            i <= params@.len(),
            f == (if shifted {
                |v: usize| extract_shift_of(v)
            } else {
                |v: usize| dec(v as nat)
            }),
            r@ == join(params@.take(i as int).map_values(f), ", "@),
        decreases params@.len() - i,
    {
        let part = if shifted {
            extract_shift(params[i])
        } else {
            usize_to_string(params[i])
        };
        let ghost before = params@.take(i as int).map_values(f);
        let ghost after = params@.take(i + 1).map_values(f);
        assert(after.drop_last() =~= before);
        assert(after.last() == part@);
        if i > 0 {
            r.append(", ");
        } else {
            assert(after.len() == 1);
        }
        r.append(part.as_str());
        i = i + 1;
    }
    assert(params@.take(i as int) =~= params@);
    r
}

/// The text of a graph type: its name and its parameters as `odd << shift`.
pub open spec fn graph_type_repr_of(g: GraphTypeView) -> Seq<char> {
    variant_name(g.variant) + "("@ + shifted_params_of(g.params) + ")"@
}

impl GraphType {
    /// The text of this graph type, e.g. `Adder(1, 1 << 2)`.
    #[allow(non_snake_case)]
    pub fn __repr__(&self) -> (r: String)
        ensures
            r@ == graph_type_repr_of(self@),
    {
        let mut r = String::from_str(self.variant.name());
        r.append("(");
        r.append(join_params(&self.params, true).as_str());
        r.append(")");
        r
    }

    /// A copy of this graph type.
    pub fn copy(&self) -> (r: GraphType)
        ensures
            r@ == self@,
    {
        GraphType { variant: self.variant, params: copy_params(&self.params) }
    }
}

/// The number that LEB128 bytes stand for: seven bits per byte, least significant first.
pub open spec fn leb_value(s: Seq<u8>) -> nat
    decreases s.len(),
{
    if s.len() == 0 {
        0
    } else {
        (s[0] % 128) as nat + 128 * leb_value(s.drop_first())
    }
}

/// The most bytes that a varint `usize` may take: 10 with 64-bit, 5 with 32-bit `usize`.
pub open spec fn varint_max_len() -> nat {
    if usize::BITS == 64 {
        10
    } else {
        5
    }
}

/// The length of the varint that starts `buf`, read from byte `i` on (the bytes before
/// `i` have their high bit set), or the text of the error: no byte without the high bit,
/// a last byte 0 after others, or more bytes than a `usize` takes.
pub open spec fn varint_len_from(buf: Seq<u8>, i: nat) -> Result<nat, Seq<char>>
    decreases buf.len() - i,
{
    if i >= buf.len() {
        Err("not enough input bytes"@)
    } else if buf[i as int] < 0x80 {
        if buf[i as int] == 0 && i > 0 {
            Err("encoding is not minimal"@)
        } else {
            Ok(i + 1)
        }
    } else if i + 1 >= varint_max_len() {
        Err("input bytes exceed maximum"@)
    } else {
        varint_len_from(buf, i + 1)
    }
}

/// What `unsigned_varint::decode::usize` gives for `buf`: the value, cut to the bits of a
/// `usize`, and the number of bytes read, or the text of its error.
pub open spec fn varint_usize(buf: Seq<u8>) -> Result<(usize, nat), Seq<char>> {
    match varint_len_from(buf, 0) {
        Ok(k) => Ok(
            (
                (leb_value(buf.take(k as int)) % crate::bits::two_pow(usize::BITS as nat)) as usize,
                k,
            ),
        ),
        Err(e) => Err(e),
    }
}

/// Calls `unsigned_varint::decode::usize`. Claims, as the crate's source shows: on success
/// the rest is `buf` without the bytes read, and the value and their number are
/// `varint_usize(buf)`; on failure `varint_usize(buf)` is the text of the error.
#[verifier::external_body]
fn decode_usize(buf: &[u8]) -> (r: Result<(usize, &[u8]), String>)
    ensures
        (match r {
            Ok((n, rest)) => {
                &&& rest@.len() < buf@.len()
                &&& rest@ == buf@.skip(buf@.len() - rest@.len())
                &&& varint_usize(buf@) == Ok::<(usize, nat), Seq<char>>(
                    (n, (buf@.len() - rest@.len()) as nat),
                )
            },
            Err(e) => varint_usize(buf@) == Err::<(usize, nat), Seq<char>>(e@),
        }),
{
    match unsigned_varint::decode::usize(buf) {
        Ok(p) => Ok(p),
        Err(e) => Err(e.to_string()),
    }
}

/// An empty input fails; a first byte below 0x80 is a value of its own, one byte long.
pub proof fn lemma_varint_short(buf: Seq<u8>)
    ensures
        buf.len() == 0 ==> varint_usize(buf) is Err,
        buf.len() > 0 && buf[0] < 0x80 ==> varint_usize(buf) == Ok::<(usize, nat), Seq<char>>(
            (buf[0] as usize, 1),
        ),
{
    if buf.len() == 0 {
        assert(varint_len_from(buf, 0) is Err);
    }
    if buf.len() > 0 && buf[0] < 0x80 {
        assert(varint_len_from(buf, 0) == Ok::<nat, Seq<char>>(1));
        let t = buf.take(1);
        assert(t[0] == buf[0]);
        assert(t.drop_first().len() == 0);
        assert(leb_value(t.drop_first()) == 0);
        assert(buf[0] % 128 == buf[0]);
        assert(leb_value(t) == buf[0] as nat);
        reveal_with_fuel(crate::bits::two_pow, 9);
        crate::bits::lemma_two_pow_monotone(8, usize::BITS as nat);
        assert(crate::bits::two_pow(8) == 256);
        let m = crate::bits::two_pow(usize::BITS as nat);
        let b = buf[0] as nat;
        assert(b % m == b) by (nonlinear_arith)
            requires
                m >= 256,
                b < 128,
        ;
    }
}

/// The parameters at the start of `s`: their values or the error, and the bytes used by the
/// values decoded.
pub open spec fn params_of(s: Seq<u8>, count: nat) -> (Result<Seq<usize>, Seq<char>>, nat)
    decreases count,
{
    if count == 0 {
        (Ok(seq![]), 0)
    } else {
        let (first, used) = params_of(s, (count - 1) as nat);
        match first {
            Err(e) => (Err(e), used),
            Ok(ps) => match varint_usize(s.skip(used as int)) {
                Ok((v, k)) => (Ok(ps.push(v)), used + k),
                Err(e) => (Err("Failed to decode usize: "@ + e), used),
            },
        }
    }
}

pub proof fn lemma_params_of(s: Seq<u8>, count: nat)
    ensures
        params_of(s, count).0 matches Ok(ps) ==> ps.len() == count,
    decreases count,
{
    if count > 0 {
        lemma_params_of(s, (count - 1) as nat);
    }
}

/// Decodes `count` varint-coded parameters from `remaining`, moving it past them.
pub fn decode_params(remaining: &mut &[u8], count: usize) -> (r: Result<Vec<usize>, String>)
    ensures
        ({
            let (spec_r, used) = params_of(old(remaining)@, count as nat);
            &&& used <= old(remaining)@.len()
            &&& final(remaining)@ == old(remaining)@.skip(used as int)
            &&& match r {
                Ok(v) => spec_r == Ok::<Seq<usize>, Seq<char>>(v@),
                Err(e) => spec_r == Err::<Seq<usize>, Seq<char>>(e@),
            }
        }),
        count > 0 && old(remaining)@.len() == 0 ==> r is Err,
        count == 0 ==> (r matches Ok(v) && v@.len() == 0),
{
    let ghost start = *remaining;
    let mut params: Vec<usize> = Vec::new();
    let mut i: usize = 0;
    assert(start@.skip(0) =~= start@);
    while i < count
        invariant
            i <= count,
            params_of(start@, i as nat) == (
            Ok::<Seq<usize>, Seq<char>>(params@),
            (start@.len() - remaining@.len()) as nat,
            ),
            remaining@.len() <= start@.len(),
            remaining@ == start@.skip(start@.len() - remaining@.len()),
            start@ == old(remaining)@,
            params@.len() == i,
            start@.len() == 0 ==> i == 0,
        decreases count - i,
    {
        let ghost used = (start@.len() - remaining@.len()) as nat;
        proof {
            lemma_varint_short(remaining@);
        }
        match decode_usize(*remaining) {
            Ok((param, rest)) => {
                assert(rest@ =~= start@.skip(start@.len() - rest@.len()));
                *remaining = rest;
                params.push(param);
            },
            Err(e) => {
                let mut msg = String::from_str("Failed to decode usize: ");
                msg.append(e.as_str());
                proof {
                    assert(params_of(start@, (i + 1) as nat).0 == Err::<Seq<usize>, Seq<char>>(
                        msg@,
                    ));
                    lemma_params_after_error(start@, (i + 1) as nat, count as nat);
                }
                return Err(msg);
            },
        }
        i = i + 1;
    }
    Ok(params)
}

/// Once the parameters fail, decoding more of them fails the same way.
pub proof fn lemma_params_after_error(s: Seq<u8>, i: nat, n: nat)
    requires
        i <= n,
        params_of(s, i).0 is Err,
    ensures
        params_of(s, n) == params_of(s, i),
    decreases n - i,
{
    if i < n {
        lemma_params_after_error(s, i, (n - 1) as nat);
    }
}

/// The graph type at the start of `s`, or the error, and the bytes used.
pub open spec fn entry_of(s: Seq<u8>) -> (Result<GraphTypeView, Seq<char>>, nat) {
    if s.len() == 0 {
        (Err("Unexpected end of data"@), 0)
    } else {
        match variant_of_tag(s[0]) {
            None => (Err("Unknown variant tag: "@ + dec(s[0] as nat)), 1),
            Some(v) => {
                let (r, used) = params_of(s.skip(1), param_count_of(v));
                match r {
                    Ok(ps) => (Ok(GraphTypeView { variant: v, params: ps }), 1 + used),
                    Err(e) => (Err(e), 1 + used),
                }
            },
        }
    }
}

/// `n` graph types at the start of `s`, or the first error, and the bytes used.
pub open spec fn entries_of(s: Seq<u8>, n: nat) -> (Result<Seq<GraphTypeView>, Seq<char>>, nat)
    decreases n,
{
    if n == 0 {
        (Ok(seq![]), 0)
    } else {
        let (first, used) = entries_of(s, (n - 1) as nat);
        match first {
            Err(e) => (Err(e), used),
            Ok(gs) => {
                let (r, k) = entry_of(s.skip(used as int));
                match r {
                    Ok(g) => (Ok(gs.push(g)), used + k),
                    Err(e) => (Err(e), used + k),
                }
            },
        }
    }
}

/// A list of graph types at the start of `s`: its varint-coded length, then its entries.
pub open spec fn list_of(s: Seq<u8>) -> (Result<Seq<GraphTypeView>, Seq<char>>, nat) {
    match varint_usize(s) {
        Err(e) => (Err("Failed to decode vec length: "@ + e), 0),
        Ok((len, k)) => {
            let (r, used) = entries_of(s.skip(k as int), len as nat);
            (r, k + used)
        },
    }
}

/// `n` lists at the start of `s`, or the first error, and the bytes used.
pub open spec fn lists_of(s: Seq<u8>, n: nat) -> (Result<Seq<Seq<GraphTypeView>>, Seq<char>>, nat)
    decreases n,
{
    if n == 0 {
        (Ok(seq![]), 0)
    } else {
        let (first, used) = lists_of(s, (n - 1) as nat);
        match first {
            Err(e) => (Err(e), used),
            Ok(ls) => {
                let (r, k) = list_of(s.skip(used as int));
                match r {
                    Ok(l) => (Ok(ls.push(l)), used + k),
                    Err(e) => (Err(e), used + k),
                }
            },
        }
    }
}

/// The table of graph types coded in `data`: a varint count, then that many lists, each a
/// varint length and that many entries of a tag byte and its varint parameters. Bytes after
/// the last list are ignored.
pub open spec fn graph_types_of(data: Seq<u8>) -> Result<Seq<Seq<GraphTypeView>>, Seq<char>> {
    match varint_usize(data) {
        Err(e) => Err("Failed to decode count: "@ + e),
        Ok((count, k)) => lists_of(data.skip(k as int), count as nat).0,
    }
}

pub proof fn lemma_entries_after_error(s: Seq<u8>, i: nat, n: nat)
    requires
        i <= n,
        entries_of(s, i).0 is Err,
    ensures
        entries_of(s, n) == entries_of(s, i),
    decreases n - i,
{
    if i < n {
        lemma_entries_after_error(s, i, (n - 1) as nat);
    }
}

pub proof fn lemma_lists_after_error(s: Seq<u8>, i: nat, n: nat)
    requires
        i <= n,
        lists_of(s, i).0 is Err,
    ensures
        lists_of(s, n) == lists_of(s, i),
    decreases n - i,
{
    if i < n {
        lemma_lists_after_error(s, i, (n - 1) as nat);
    }
}

/// Decodes one graph type: its tag byte, then the parameters its variant stores.
fn decode_entry(remaining: &mut &[u8]) -> (r: Result<GraphType, String>)
    ensures
        ({
            let (spec_r, used) = entry_of(old(remaining)@);
            &&& used <= old(remaining)@.len()
            &&& final(remaining)@ == old(remaining)@.skip(used as int)
            &&& match r {
                Ok(g) => spec_r == Ok::<GraphTypeView, Seq<char>>(g@) && graph_type_wf(g@),
                Err(e) => spec_r == Err::<GraphTypeView, Seq<char>>(e@),
            }
        }),
{
    let ghost start = *remaining;
    if remaining.len() == 0 {
        return Err(String::from_str("Unexpected end of data"));
    }
    let variant_tag = remaining[0];
    *remaining = slice_subrange(*remaining, 1, remaining.len());
    let variant = match Variant::from_tag(variant_tag) {
        Some(v) => v,
        None => {
            let mut msg = String::from_str("Unknown variant tag: ");
            msg.append(usize_to_string(variant_tag as usize).as_str());
            return Err(msg);
        },
    };
    let ghost rest1 = remaining@;
    let params = decode_params(remaining, variant.param_count());
    proof {
        lemma_params_of(start@.skip(1), param_count_of(variant));
        assert(rest1 =~= start@.skip(1));
        assert(remaining@ =~= start@.skip((1 + params_of(start@.skip(1), param_count_of(variant)).1) as int));
    }
    match params {
        Ok(ps) => Ok(GraphType { variant, params: ps }),
        Err(e) => Err(e),
    }
}

/// Decodes one list of graph types: its varint length, then its entries.
fn decode_list(remaining: &mut &[u8]) -> (r: Result<Vec<GraphType>, String>)
    ensures
        ({
            let (spec_r, used) = list_of(old(remaining)@);
            &&& used <= old(remaining)@.len()
            &&& final(remaining)@ == old(remaining)@.skip(used as int)
            &&& match r {
                Ok(v) => spec_r == Ok::<Seq<GraphTypeView>, Seq<char>>(v@.map_values(|g: GraphType| g@))
                    && forall|i: int| 0 <= i < v@.len() ==> #[trigger] graph_type_wf(v@[i]@),
                Err(e) => spec_r == Err::<Seq<GraphTypeView>, Seq<char>>(e@),
            }
        }),
{
    let ghost start = *remaining;
    let vec_len = match decode_usize(*remaining) {
        Ok((n, rest)) => {
            *remaining = rest;
            n
        },
        Err(e) => {
            let mut msg = String::from_str("Failed to decode vec length: ");
            msg.append(e.as_str());
            assert(start@.skip(0) =~= start@);
            return Err(msg);
        },
    };
    let ghost k = (start@.len() - remaining@.len()) as nat;
    let ghost s1 = remaining@;
    assert(s1 =~= start@.skip(k as int));
    let mut type_vec: Vec<GraphType> = Vec::new();
    let mut j: usize = 0;
    assert(s1.skip(0) =~= s1);
    assert(type_vec@.map_values(|g: GraphType| g@) =~= Seq::<GraphTypeView>::empty());
    while j < vec_len
        invariant
            j <= vec_len,
            s1 == start@.skip(k as int),
            k <= start@.len(),
            remaining@.len() <= s1.len(),
            remaining@ == s1.skip(s1.len() - remaining@.len()),
            entries_of(s1, j as nat) == (
            Ok::<Seq<GraphTypeView>, Seq<char>>(type_vec@.map_values(|g: GraphType| g@)),
            (s1.len() - remaining@.len()) as nat,
            ),
            forall|i: int| 0 <= i < type_vec@.len() ==> #[trigger] graph_type_wf(type_vec@[i]@),
            start@ == old(remaining)@,
            varint_usize(start@) == Ok::<(usize, nat), Seq<char>>((vec_len, k)),
        decreases vec_len - j,
    {
        let ghost used = (s1.len() - remaining@.len()) as nat;
        let ghost before = remaining@;
        let entry = decode_entry(remaining);
        proof {
            assert(remaining@ =~= s1.skip(s1.len() - remaining@.len()));
            assert(before == s1.skip(used as int));
        }
        match entry {
            Ok(g) => {
                let ghost old_v = type_vec@;
                type_vec.push(g);
                assert(type_vec@.map_values(|g: GraphType| g@) =~= old_v.map_values(
                    |g: GraphType| g@,
                ).push(g@));
            },
            Err(e) => {
                proof {
                    assert(entries_of(s1, (j + 1) as nat).0 == Err::<Seq<GraphTypeView>, Seq<char>>(e@));
                    lemma_entries_after_error(s1, (j + 1) as nat, vec_len as nat);
                    assert(start@.skip(k + (s1.len() - remaining@.len())) =~= remaining@);
                }
                return Err(e);
            },
        }
        j = j + 1;
    }
    proof {
        assert(start@.skip(k + (s1.len() - remaining@.len())) =~= remaining@);
    }
    Ok(type_vec)
}

/// Decodes the table of graph types: a varint count, then that many lists.
pub fn deserialize_graph_types(data: &[u8]) -> (r: Result<Vec<Vec<GraphType>>, String>)
    ensures
        (match r {
            Ok(v) => graph_types_of(data@) == Ok::<Seq<Seq<GraphTypeView>>, Seq<char>>(
                lists_view(v@),
            ) && table_wf(lists_view(v@)),
            Err(e) => graph_types_of(data@) == Err::<Seq<Seq<GraphTypeView>>, Seq<char>>(e@),
        }),
        data@.len() == 0 ==> r is Err,
        data@.len() > 0 && data@[0] == 0 ==> (r matches Ok(v) && v@.len() == 0),
{
    let mut remaining: &[u8] = data;
    proof {
        lemma_varint_short(data@);
    }
    let count = match decode_usize(remaining) {
        Ok((n, rest)) => {
            remaining = rest;
            n
        },
        Err(e) => {
            let mut msg = String::from_str("Failed to decode count: ");
            msg.append(e.as_str());
            return Err(msg);
        },
    };
    assert(data@.len() > 0 && data@[0] == 0 ==> count == 0);
    let ghost s1 = remaining@;
    let mut result: Vec<Vec<GraphType>> = Vec::new();
    let mut i: usize = 0;
    assert(s1.skip(0) =~= s1);
    assert(lists_view(result@) =~= Seq::<Seq<GraphTypeView>>::empty());
    assert(s1 =~= data@.skip(data@.len() - s1.len()));
    while i < count
        invariant
            i <= count,
            s1 == data@.skip(data@.len() - s1.len()),
            s1.len() <= data@.len(),
            varint_usize(data@) == Ok::<(usize, nat), Seq<char>>(
                (count, (data@.len() - s1.len()) as nat),
            ),
            remaining@.len() <= s1.len(),
            remaining@ == s1.skip(s1.len() - remaining@.len()),
            lists_of(s1, i as nat) == (
            Ok::<Seq<Seq<GraphTypeView>>, Seq<char>>(lists_view(result@)),
            (s1.len() - remaining@.len()) as nat,
            ),
            table_wf(lists_view(result@)),
            result@.len() == i,
            data@.len() > 0 && data@[0] == 0 ==> count == 0,
        decreases count - i,
    {
        let ghost before = remaining@;
        let list = decode_list(&mut remaining);
        proof {
            assert(remaining@ =~= s1.skip(s1.len() - remaining@.len()));
        }
        match list {
            Ok(l) => {
                let ghost old_v = result@;
                result.push(l);
                assert(lists_view(result@) =~= lists_view(old_v).push(l@.map_values(|g: GraphType| g@)));
                assert forall|p: int, q: int|
                    0 <= p < lists_view(result@).len() && 0 <= q < lists_view(result@)[p].len()
                    implies #[trigger] graph_type_wf(lists_view(result@)[p][q]) by {
                    if p < old_v.len() {
                        assert(lists_view(result@)[p] == lists_view(old_v)[p]);
                    } else {
                        assert(lists_view(result@)[p][q] == l@[q]@);
                    }
                }
            },
            Err(e) => {
                proof {
                    assert(before == s1.skip(s1.len() - before.len()));
                    assert(lists_of(s1, (i + 1) as nat).0 == Err::<Seq<Seq<GraphTypeView>>, Seq<char>>(e@));
                    lemma_lists_after_error(s1, (i + 1) as nat, count as nat);
                    let kk = (data@.len() - s1.len()) as nat;
                    assert(data@.skip(kk as int) == s1);
                    assert(graph_types_of(data@) == lists_of(data@.skip(kk as int), count as nat).0);
                }
                return Err(e);
            },
        }
        i = i + 1;
    }
    Ok(result)
}

/// What `lz4_flex::decompress_size_prepended` gives for `input`: the decompressed bytes, or
/// the text of its error.
pub uninterp spec fn lz4_decompressed(input: Seq<u8>) -> Result<Seq<u8>, Seq<char>>;

/// Calls `lz4_flex::decompress_size_prepended`. Claims: the result is `lz4_decompressed(input)`,
/// the bytes on success and the error's text on failure; and, as the crate's source shows,
/// that an input shorter than the 4-byte size prefix fails. What the bytes are, the LZ4
/// block format, is left unsaid.
#[verifier::external_body]
fn decompress_size_prepended(input: &[u8]) -> (r: Result<Vec<u8>, String>)
    ensures
        (match r {
            Ok(v) => lz4_decompressed(input@) == Ok::<Seq<u8>, Seq<char>>(v@),
            Err(e) => lz4_decompressed(input@) == Err::<Seq<u8>, Seq<char>>(e@),
        }),
        r is Err <== input@.len() < 4,
{
    match lz4_flex::decompress_size_prepended(input) {
        Ok(v) => Ok(v),
        Err(e) => Err(e.to_string()),
    }
}

/// The table of graph types held LZ4-compressed in `compressed`, or the error's message.
pub open spec fn graph_data_of(compressed: Seq<u8>) -> Result<Seq<Seq<GraphTypeView>>, Seq<char>> {
    match lz4_decompressed(compressed) {
        Err(e) => Err("Failed to decompress: "@ + e),
        Ok(bytes) => match graph_types_of(bytes) {
            Ok(t) => Ok(t),
            Err(e) => Err("Failed to deserialize: "@ + e),
        },
    }
}

/// Decompresses the table of graph types and decodes it.
pub fn get_graph_types_data(compressed: &[u8]) -> (r: Result<Vec<Vec<GraphType>>, String>)
    ensures
        (match r {
            Ok(v) => graph_data_of(compressed@) == Ok::<Seq<Seq<GraphTypeView>>, Seq<char>>(
                lists_view(v@),
            ) && table_wf(lists_view(v@)),
            Err(e) => graph_data_of(compressed@) == Err::<Seq<Seq<GraphTypeView>>, Seq<char>>(e@),
        }),
{
    let decompressed = match decompress_size_prepended(compressed) {
        Ok(v) => v,
        Err(e) => {
            let mut msg = String::from_str("Failed to decompress: ");
            msg.append(e.as_str());
            return Err(msg);
        },
    };
    match deserialize_graph_types(decompressed.as_slice()) {
        Ok(t) => Ok(t),
        Err(e) => {
            let mut msg = String::from_str("Failed to deserialize: ");
            msg.append(e.as_str());
            Err(msg)
        },
    }
}

/// The position in the table of the odd part of an index: index 1 is at 0, 3 at 1, 5 at 2.
pub open spec fn table_position(idx: usize) -> nat {
    odd_part(idx as nat) / 2
}

/// The graph types listed for an index, if the table reaches its position.
pub open spec fn graph_types_at_of(all: Seq<Seq<GraphTypeView>>, idx: usize) -> Option<
    Seq<GraphTypeView>,
> {
    if table_position(idx) < all.len() {
        Some(all[table_position(idx) as int])
    } else {
        None
    }
}

/// A copy of a list of graph types.
pub fn copy_graph_types(v: &Vec<GraphType>) -> (r: Vec<GraphType>)
    ensures
        r@.map_values(|g: GraphType| g@) == v@.map_values(|g: GraphType| g@),
{
    let mut r: Vec<GraphType> = Vec::new();
    let mut i: usize = 0;
    while i < v.len()
        invariant
            i <= v@.len(),
            r@.map_values(|g: GraphType| g@) == v@.take(i as int).map_values(|g: GraphType| g@),
        decreases v@.len() - i,
    {
        let ghost old_r = r@;
        let c = v[i].copy();
        r.push(c);
        assert(r@.map_values(|g: GraphType| g@) =~= old_r.map_values(|g: GraphType| g@).push(c@));
        assert(v@.take(i + 1).map_values(|g: GraphType| g@) =~= v@.take(i as int).map_values(
            |g: GraphType| g@,
        ).push(v@[i as int]@));
        i = i + 1;
    }
    assert(v@.take(i as int) =~= v@);
    r
}

/// The graph types of an index, whose even part is shifted out first; `None` past the table.
pub fn graph_types_at(all: &Vec<Vec<GraphType>>, idx: usize) -> (r: Option<Vec<GraphType>>)
    ensures
        (match r {
            Some(v) => graph_types_at_of(lists_view(all@), idx) == Some(v@.map_values(|g: GraphType| g@)),
            None => graph_types_at_of(lists_view(all@), idx) is None,
        }),
{
    let odd_idx = if idx > 0 {
        odd_part_of(idx)
    } else {
        idx
    };
    let position = odd_idx / 2;
    if position >= all.len() {
        return None;
    }
    Some(copy_graph_types(&all[position]))
}

/// Why the graph types of an index cannot be had.
#[derive(Debug, PartialEq, Eq)]
pub enum GraphTypesError {
    /// The table could not be decompressed or decoded; the message says why.
    Data(String),
    /// The index lies past the table.
    IndexOutOfRange,
}

/// Gets the graph types at an index, shifting even indices right until odd.
pub fn get_graph_types(compressed: &[u8], idx: usize) -> (r: Result<Vec<GraphType>, GraphTypesError>)
    ensures
        (match r {
            Ok(v) => graph_data_of(compressed@) matches Ok(all) && graph_types_at_of(all, idx)
                == Some(v@.map_values(|g: GraphType| g@)),
            Err(GraphTypesError::Data(e)) => graph_data_of(compressed@) == Err::<
                Seq<Seq<GraphTypeView>>,
                Seq<char>,
            >(e@),
            Err(GraphTypesError::IndexOutOfRange) => graph_data_of(compressed@) matches Ok(all)
                && graph_types_at_of(all, idx) is None,
        }),
{
    let all = match get_graph_types_data(compressed) {
        Ok(all) => all,
        Err(e) => return Err(GraphTypesError::Data(e)),
    };
    match graph_types_at(&all, idx) {
        Some(v) => Ok(v),
        None => Err(GraphTypesError::IndexOutOfRange),
    }
}

/// Shifting an index left leaves its graph types as they are.
pub proof fn law_graph_types_at_shift_invariant(all: Seq<Seq<GraphTypeView>>, idx: usize)
    requires
        idx > 0,
        2 * idx <= usize::MAX,
    ensures
        graph_types_at_of(all, (2 * idx) as usize) == graph_types_at_of(all, idx),
{
    crate::bits::lemma_odd_part_double(idx as nat);
}

/// An index shifted left, as far as it keeps its bits, has the position of the index; 0 has
/// the position of 1.
pub proof fn lemma_table_position_shifts(idx: usize, k: nat)
    requires
        idx > 0,
        idx * crate::bits::two_pow(k) <= usize::MAX,
    ensures
        table_position((idx * crate::bits::two_pow(k)) as usize) == table_position(idx),
        table_position(0) == table_position(1),
    decreases k,
{
    assert(odd_part(0) == 0);
    assert(odd_part(1) == 1);
    if k > 0 {
        let t = crate::bits::two_pow((k - 1) as nat);
        crate::bits::lemma_two_pow_pos((k - 1) as nat);
        assert(crate::bits::two_pow(k) == 2 * t);
        assert(idx * (2 * t) == 2 * (idx * t)) by (nonlinear_arith);
        assert(idx * t <= idx * (2 * t)) by (nonlinear_arith)
            requires
                t >= 1,
                idx > 0,
        ;
        assert(idx * t > 0) by (nonlinear_arith)
            requires
                t >= 1,
                idx > 0,
        ;
        lemma_table_position_shifts(idx, (k - 1) as nat);
        crate::bits::lemma_odd_part_double((idx * t) as nat);
    } else {
        assert(crate::bits::two_pow(0) == 1);
        assert(idx * 1 == idx);
    }
}

/// An index shifted left by any number of bits that it keeps, and 0 for 1, has the graph
/// types of the index.
pub proof fn law_graph_types_at_shifts_invariant(all: Seq<Seq<GraphTypeView>>, idx: usize, k: nat)
    requires
        idx > 0,
        idx * crate::bits::two_pow(k) <= usize::MAX,
    ensures
        graph_types_at_of(all, (idx * crate::bits::two_pow(k)) as usize) == graph_types_at_of(all, idx),
        graph_types_at_of(all, 0) == graph_types_at_of(all, 1),
{
    lemma_table_position_shifts(idx, k);
}

} // verus!
