//! The fixed-width binary format of the portable graph.
//!
//! Little-endian fixed-width fields throughout: lengths and integers take
//! eight bytes, characters four. The first byte of a file names the float
//! width: full eight-byte floats, or the compact variant that narrows
//! every float slot to a sixteen-bit pattern — that variant is lossy for
//! float round trips, by design. The encoder's output is specified
//! exactly; the decoder's contract pins what a successful decode returns
//! — exactly the graph whose encoding the input is — while its obligation
//! to succeed on every encoder output is exercised by the test suite
//! rather than stated.

use vstd::prelude::*;
use crate::attrs::Attrs;
use crate::codec::{SerializableGraph, SerializableNode, SerializableEdge, SNodeView, SEdgeView,
    SGraphView};
use crate::value::{Value, ValueView, view_list, view_entries, lemma_view_list_index,
    lemma_view_entries_index};
use crate::GraphError;

verus! {

/// Relies on `char::from_u32`: a `Some` result is the character with
/// exactly the given scalar value.
pub assume_specification [ char::from_u32 ](v: u32) -> (r: Option<char>)
    ensures
        match r {
            Some(c) => c as u32 == v,
            None => true,
        },
;

/// The `w` little-endian bytes of `n`.
pub open spec fn le_bytes(n: nat, w: nat) -> Seq<u8>
    decreases w,
{
    if w == 0 {
        Seq::empty()
    } else {
        seq![(n % 256) as u8] + le_bytes(n / 256, (w - 1) as nat)
    }
}

/// Narrow a double bit pattern to a half-precision bit pattern, rounding
/// toward zero; overflow becomes infinity, values below the half normal
/// range flush to signed zero, and every NaN becomes the canonical quiet
/// NaN.
pub open spec fn spec_narrow16(b: u64) -> u16 {
    let sign = ((b >> 48) & 0x8000) as u16;
    let exp = (b >> 52) & 0x7ff;
    let frac = b & 0xfffffffffffff;
    if exp == 0x7ff {
        if frac != 0 {
            0x7e00u16
        } else {
            sign | 0x7c00u16
        }
    } else if exp > 1038 {
        sign | 0x7c00u16
    } else if exp >= 1009 {
        sign | (((((exp - 1008) as u64) << 10) | (frac >> 42)) as u16)
    } else {
        sign
    }
}

/// Widen a half-precision bit pattern back to a double bit pattern;
/// half subnormals widen to signed zero, and the canonical half NaN maps
/// to the canonical double NaN.
pub open spec fn spec_widen16(h: u16) -> u64 {
    let sign = ((h as u64) & 0x8000) << 48;
    let exp = ((h as u64) >> 10) & 0x1f;
    let frac = (h as u64) & 0x3ff;
    if exp == 0x1f {
        if frac != 0 {
            sign | 0x7ff8000000000000u64
        } else {
            sign | 0x7ff0000000000000u64
        }
    } else if exp == 0 {
        sign
    } else {
        sign | ((((exp + 1008) as u64) << 52) | (frac << 42))
    }
}

/// Narrow a double bit pattern to sixteen bits, as `spec_narrow16` says.
pub fn narrow16(b: u64) -> (h: u16)
    ensures
        h == spec_narrow16(b),
{
    proof {
        assert(((b >> 48) & 0x8000) < 0x10000) by (bit_vector);
        assert((b >> 52) & 0x7ff <= 0x7ff) by (bit_vector);
        assert((b & 0xfffffffffffff) >> 42 < 0x400) by (bit_vector);
    }
    let sign = ((b >> 48u64) & 0x8000) as u16;
    let exp = (b >> 52u64) & 0x7ff;
    let frac = b & 0xfffffffffffff;
    if exp == 0x7ff {
        if frac != 0 {
            0x7e00u16
        } else {
            sign | 0x7c00u16
        }
    } else if exp > 1038 {
        sign | 0x7c00u16
    } else if exp >= 1009 {
        proof {
            let e2 = (b >> 52u64) & 0x7ff;
            assert(e2 <= 1038 && e2 >= 1009 ==> (((e2 - 1008) as u64) << 10) | ((b
                & 0xfffffffffffff) >> 42) < 0x10000) by (bit_vector);
        }
        sign | (((((exp - 1008) as u64) << 10u64) | (frac >> 42u64)) as u16)
    } else {
        sign
    }
}

/// Widen sixteen bits back to a double bit pattern, as `spec_widen16`
/// says.
pub fn widen16(h: u16) -> (b: u64)
    ensures
        b == spec_widen16(h),
{
    proof {
        assert(((h as u64) >> 10) & 0x1f < 0x20) by (bit_vector);
    }
    let sign = ((h as u64) & 0x8000) << 48u64;
    let exp = ((h as u64) >> 10u64) & 0x1f;
    let frac = (h as u64) & 0x3ff;
    if exp == 0x1f {
        if frac != 0 {
            sign | 0x7ff8000000000000u64
        } else {
            sign | 0x7ff0000000000000u64
        }
    } else if exp == 0 {
        sign
    } else {
        proof {
            let e2 = ((h as u64) >> 10) & 0x1f;
            assert(e2 < 0x20 ==> ((e2 + 1008) as u64) << 52 < 0xffffffffffffffff) by (bit_vector);
        }
        sign | ((((exp + 1008) as u64) << 52u64) | (frac << 42u64))
    }
}

/// The encoding of one character: its scalar value in four bytes.
pub open spec fn enc_char(c: char) -> Seq<u8> {
    le_bytes((c as u32) as nat, 4)
}

pub open spec fn enc_chars(s: Seq<char>) -> Seq<u8>
    decreases s.len(),
{
    if s.len() == 0 {
        Seq::empty()
    } else {
        enc_chars(s.drop_last()) + enc_char(s.last())
    }
}

/// The encoding of a string: its length, then its characters.
pub open spec fn enc_str(s: Seq<char>) -> Seq<u8> {
    le_bytes(s.len(), 8) + enc_chars(s)
}

/// The encoding of a signed integer: a sign byte and the magnitude.
pub open spec fn enc_int(n: int) -> Seq<u8> {
    if n >= 0 {
        seq![0u8] + le_bytes(n as nat, 8)
    } else {
        seq![1u8] + le_bytes((-n) as nat, 8)
    }
}

/// The encoding of one value; `h16` narrows float slots to sixteen bits.
pub open spec fn enc_value(v: ValueView, h16: bool) -> Seq<u8>
    decreases v,
{
    match v {
        ValueView::Str(s) => seq![1u8] + enc_str(s),
        ValueView::Int(i) => seq![2u8] + enc_int(i),
        ValueView::Float(b) => if h16 {
            seq![8u8] + le_bytes(spec_narrow16(b) as nat, 2)
        } else {
            seq![3u8] + le_bytes(b as nat, 8)
        },
        ValueView::Bool(b) => seq![
            4u8,
            if b {
                1u8
            } else {
                0u8
            },
        ],
        ValueView::Null => seq![5u8],
        ValueView::List(vs) => seq![6u8] + le_bytes(vs.len(), 8) + enc_list(vs, h16),
        ValueView::Dict(es) => seq![7u8] + le_bytes(es.len(), 8) + enc_dict(es, h16),
    }
}

pub open spec fn enc_list(vs: Seq<ValueView>, h16: bool) -> Seq<u8>
    decreases vs,
{
    if vs.len() == 0 {
        Seq::empty()
    } else {
        enc_list(vs.drop_last(), h16) + enc_value(vs.last(), h16)
    }
}

pub open spec fn enc_dict(es: Seq<(Seq<char>, ValueView)>, h16: bool) -> Seq<u8>
    decreases es,
{
    if es.len() == 0 {
        Seq::empty()
    } else {
        enc_dict(es.drop_last(), h16) + enc_str(es.last().0) + enc_value(es.last().1, h16)
    }
}

/// The encoding of an attribute map: its entry count, then its entries.
pub open spec fn enc_attrs(m: Seq<(Seq<char>, ValueView)>, h16: bool) -> Seq<u8> {
    le_bytes(m.len(), 8) + enc_dict(m, h16)
}

pub open spec fn enc_strs(l: Seq<Seq<char>>) -> Seq<u8>
    decreases l.len(),
{
    if l.len() == 0 {
        Seq::empty()
    } else {
        enc_strs(l.drop_last()) + enc_str(l.last())
    }
}

/// The encoding of a string list: its count, then its strings.
pub open spec fn enc_str_list(l: Seq<Seq<char>>) -> Seq<u8> {
    le_bytes(l.len(), 8) + enc_strs(l)
}

pub open spec fn enc_snode(n: SNodeView, h16: bool) -> Seq<u8> {
    enc_str(n.id) + enc_attrs(n.attr, h16) + enc_attrs(n.meta, h16) + enc_str_list(n.edge_ids)
        + enc_str_list(n.inverse_edge_ids)
}

pub open spec fn enc_snodes(ns: Seq<SNodeView>, h16: bool) -> Seq<u8>
    decreases ns.len(),
{
    if ns.len() == 0 {
        Seq::empty()
    } else {
        enc_snodes(ns.drop_last(), h16) + enc_snode(ns.last(), h16)
    }
}

pub open spec fn enc_sedge(e: SEdgeView, h16: bool) -> Seq<u8> {
    enc_str(e.id) + enc_str(e.from_id) + enc_str(e.to_id) + enc_attrs(e.attr, h16) + enc_attrs(
        e.meta,
        h16,
    )
}

pub open spec fn enc_sedges(es: Seq<SEdgeView>, h16: bool) -> Seq<u8>
    decreases es.len(),
{
    if es.len() == 0 {
        Seq::empty()
    } else {
        enc_sedges(es.drop_last(), h16) + enc_sedge(es.last(), h16)
    }
}

/// The encoding of a whole portable graph, after the format byte.
pub open spec fn enc_sgraph(sg: SGraphView, h16: bool) -> Seq<u8> {
    le_bytes(sg.nodes.len(), 8) + enc_snodes(sg.nodes, h16) + le_bytes(sg.edges.len(), 8)
        + enc_sedges(sg.edges, h16) + enc_attrs(sg.meta, h16) + enc_attrs(sg.metadata, h16)
}

/// A whole file: the format byte, then the graph.
pub open spec fn enc_file(sg: SGraphView, h16: bool) -> Seq<u8> {
    seq![
        if h16 {
            1u8
        } else {
            0u8
        },
    ] + enc_sgraph(sg, h16)
}

fn write_le(out: &mut Vec<u8>, n: u64, width: usize)
    ensures
        final(out)@ == old(out)@ + le_bytes(n as nat, width as nat),
{
    let ghost out0 = out@;
    let mut cur = n;
    let mut k: usize = 0;
    while k < width
        invariant
            k <= width,
            out@ + le_bytes(cur as nat, (width - k) as nat) == out0 + le_bytes(
                n as nat,
                width as nat,
            ),
        decreases width - k,
    {
        let ghost opre = out@;
        let b = (cur % 256) as u8;
        out.push(b);
        proof {
            assert(le_bytes(cur as nat, (width - k) as nat) == seq![(cur as nat % 256) as u8]
                + le_bytes(cur as nat / 256, (width - k - 1) as nat));
            assert(out@ + le_bytes((cur / 256) as nat, (width - (k + 1)) as nat) =~= opre
                + le_bytes(cur as nat, (width - k) as nat));
        }
        cur = cur / 256;
        k += 1;
    }
    proof {
        assert(le_bytes(cur as nat, 0) =~= Seq::<u8>::empty());
        assert(out@ =~= out@ + le_bytes(cur as nat, 0));
    }
}

fn write_string(out: &mut Vec<u8>, s: &String)
    ensures
        final(out)@ == old(out)@ + enc_str(s@),
{
    let ghost out0 = out@;
    let len = s.as_str().unicode_len();
    write_le(out, len as u64, 8);
    let mut i: usize = 0;
    proof {
        assert(enc_chars(s@.take(0)) =~= Seq::<u8>::empty());
        assert(out@ =~= out0 + le_bytes(s@.len(), 8) + enc_chars(s@.take(0)));
    }
    while i < len
        invariant
            len == s@.len(),
            i <= len,
            out@ == out0 + le_bytes(s@.len(), 8) + enc_chars(s@.take(i as int)),
        decreases len - i,
    {
        let ghost opre = out@;
        let c = s.as_str().get_char(i);
        write_le(out, (c as u32) as u64, 4);
        proof {
            assert(s@.take(i + 1).drop_last() =~= s@.take(i as int));
            assert(s@.take(i + 1).last() == s@[i as int]);
            assert(enc_chars(s@.take(i + 1)) == enc_chars(s@.take(i as int)) + enc_char(
                s@[i as int],
            ));
            assert(((c as u32) as u64) as nat == (c as u32) as nat);
            assert(out@ =~= out0 + le_bytes(s@.len(), 8) + enc_chars(s@.take(i + 1)));
        }
        i += 1;
    }
    proof {
        assert(s@.take(len as int) =~= s@);
    }
}

fn write_value(out: &mut Vec<u8>, v: &Value, h16: bool)
    ensures
        final(out)@ == old(out)@ + enc_value(v@, h16),
    decreases v,
{
    let ghost out0 = out@;
    match v {
        Value::Str(s) => {
            out.push(1u8);
            write_string(out, s);
            proof {
                assert(out@ =~= out0 + enc_value(v@, h16));
            }
        },
        Value::Int(i) => {
            out.push(2u8);
            if *i >= 0 {
                out.push(0u8);
                write_le(out, *i as u64, 8);
                proof {
                    assert(out@ =~= out0 + enc_value(v@, h16));
                }
            } else {
                out.push(1u8);
                let mag = ((-(*i + 1)) as u64) + 1;
                write_le(out, mag, 8);
                proof {
                    assert(mag as nat == (-(*i as int)) as nat);
                    assert(out@ =~= out0 + enc_value(v@, h16));
                }
            }
        },
        Value::Float(b) => {
            if h16 {
                out.push(8u8);
                let h = narrow16(*b);
                write_le(out, h as u64, 2);
                proof {
                    assert((h as u64) as nat == spec_narrow16(*b) as nat);
                    assert(out@ =~= out0 + enc_value(v@, h16));
                }
            } else {
                out.push(3u8);
                write_le(out, *b, 8);
                proof {
                    assert(out@ =~= out0 + enc_value(v@, h16));
                }
            }
        },
        Value::Bool(b) => {
            out.push(4u8);
            if *b {
                out.push(1u8);
            } else {
                out.push(0u8);
            }
            proof {
                assert(out@ =~= out0 + enc_value(v@, h16));
            }
        },
        Value::Null => {
            out.push(5u8);
            proof {
                assert(out@ =~= out0 + enc_value(v@, h16));
            }
        },
        Value::List(xs) => {
            out.push(6u8);
            let n = xs.len();
            write_le(out, n as u64, 8);
            let ghost t = view_list(xs@);
            proof {
                lemma_view_list_index(xs@);
                assert(enc_list(t.take(0), h16) =~= Seq::<u8>::empty());
                assert(out@ =~= out0 + seq![6u8] + le_bytes(t.len(), 8) + enc_list(
                    t.take(0),
                    h16,
                ));
            }
            let mut i: usize = 0;
            while i < n
                invariant
                    *v == Value::List(*xs),
                    n == xs@.len(),
                    t == view_list(xs@),
                    t.len() == n,
                    forall|j: int| 0 <= j < n ==> #[trigger] t[j] == xs@[j]@,
                    i <= n,
                    out@ == out0 + seq![6u8] + le_bytes(t.len(), 8) + enc_list(
                        t.take(i as int),
                        h16,
                    ),
                decreases n - i,
            {
                proof {
                    assert(decreases_to!(*v => v->List_0));
                    assert(decreases_to!(*xs => xs@));
                    vstd::seq::axiom_seq_index_decreases(xs@, i as int);
                }
                write_value(out, &xs[i], h16);
                proof {
                    assert(t.take(i + 1).drop_last() =~= t.take(i as int));
                    assert(t.take(i + 1).last() == t[i as int]);
                    assert(enc_list(t.take(i + 1), h16) == enc_list(t.take(i as int), h16)
                        + enc_value(t[i as int], h16));
                    assert(out@ =~= out0 + seq![6u8] + le_bytes(t.len(), 8) + enc_list(
                        t.take(i + 1),
                        h16,
                    ));
                }
                i += 1;
            }
            proof {
                assert(t.take(n as int) =~= t);
                assert(out@ =~= out0 + enc_value(v@, h16));
            }
        },
        Value::Dict(es) => {
            out.push(7u8);
            let n = es.len();
            write_le(out, n as u64, 8);
            let ghost t = view_entries(es@);
            proof {
                lemma_view_entries_index(es@);
                assert(enc_dict(t.take(0), h16) =~= Seq::<u8>::empty());
                assert(out@ =~= out0 + seq![7u8] + le_bytes(t.len(), 8) + enc_dict(
                    t.take(0),
                    h16,
                ));
            }
            let mut i: usize = 0;
            while i < n
                invariant
                    *v == Value::Dict(*es),
                    n == es@.len(),
                    t == view_entries(es@),
                    t.len() == n,
                    forall|j: int| 0 <= j < n ==> #[trigger] t[j] == (es@[j].0@, es@[j].1@),
                    i <= n,
                    out@ == out0 + seq![7u8] + le_bytes(t.len(), 8) + enc_dict(
                        t.take(i as int),
                        h16,
                    ),
                decreases n - i,
            {
                write_string(out, &es[i].0);
                proof {
                    assert(decreases_to!(*v => v->Dict_0));
                    assert(decreases_to!(*es => es@));
                    vstd::seq::axiom_seq_index_decreases(es@, i as int);
                }
                write_value(out, &es[i].1, h16);
                proof {
                    assert(t.take(i + 1).drop_last() =~= t.take(i as int));
                    assert(t.take(i + 1).last() == t[i as int]);
                    assert(enc_dict(t.take(i + 1), h16) == enc_dict(t.take(i as int), h16)
                        + enc_str(t[i as int].0) + enc_value(t[i as int].1, h16));
                    assert(out@ =~= out0 + seq![7u8] + le_bytes(t.len(), 8) + enc_dict(
                        t.take(i + 1),
                        h16,
                    ));
                }
                i += 1;
            }
            proof {
                assert(t.take(n as int) =~= t);
                assert(out@ =~= out0 + enc_value(v@, h16));
            }
        },
    }
}

fn write_attrs(out: &mut Vec<u8>, m: &Attrs, h16: bool)
    ensures
        final(out)@ == old(out)@ + enc_attrs(m@, h16),
{
    let ghost out0 = out@;
    let n = m.len();
    write_le(out, n as u64, 8);
    proof {
        assert(enc_dict(m@.take(0), h16) =~= Seq::<u8>::empty());
        assert(out@ =~= out0 + le_bytes(m@.len(), 8) + enc_dict(m@.take(0), h16));
    }
    let mut i: usize = 0;
    while i < n
        invariant
            n == m@.len(),
            i <= n,
            out@ == out0 + le_bytes(m@.len(), 8) + enc_dict(m@.take(i as int), h16),
        decreases n - i,
    {
        write_string(out, m.key_at(i));
        write_value(out, m.value_at(i), h16);
        proof {
            assert(m@.take(i + 1).drop_last() =~= m@.take(i as int));
            assert(m@.take(i + 1).last() == m@[i as int]);
            assert(enc_dict(m@.take(i + 1), h16) == enc_dict(m@.take(i as int), h16) + enc_str(
                m@[i as int].0,
            ) + enc_value(m@[i as int].1, h16));
            assert(out@ =~= out0 + le_bytes(m@.len(), 8) + enc_dict(m@.take(i + 1), h16));
        }
        i += 1;
    }
    proof {
        assert(m@.take(n as int) =~= m@);
    }
}

fn write_str_list(out: &mut Vec<u8>, l: &Vec<String>)
    ensures
        final(out)@ == old(out)@ + enc_str_list(crate::traversal::strs_view(l@)),
{
    let ghost out0 = out@;
    let ghost t = crate::traversal::strs_view(l@);
    let n = l.len();
    write_le(out, n as u64, 8);
    proof {
        assert(enc_strs(t.take(0)) =~= Seq::<u8>::empty());
        assert(out@ =~= out0 + le_bytes(t.len(), 8) + enc_strs(t.take(0)));
    }
    let mut i: usize = 0;
    while i < n
        invariant
            t == crate::traversal::strs_view(l@),
            n == l@.len(),
            t.len() == n,
            i <= n,
            out@ == out0 + le_bytes(t.len(), 8) + enc_strs(t.take(i as int)),
        decreases n - i,
    {
        write_string(out, &l[i]);
        proof {
            assert(t.take(i + 1).drop_last() =~= t.take(i as int));
            assert(t.take(i + 1).last() == t[i as int]);
            assert(enc_strs(t.take(i + 1)) == enc_strs(t.take(i as int)) + enc_str(t[i as int]));
            assert(out@ =~= out0 + le_bytes(t.len(), 8) + enc_strs(t.take(i + 1)));
        }
        i += 1;
    }
    proof {
        assert(t.take(n as int) =~= t);
    }
}

pub open spec fn pow256(w: nat) -> nat
    decreases w,
{
    if w == 0 {
        1
    } else {
        256 * pow256((w - 1) as nat)
    }
}

proof fn lemma_pow256_le(a: nat, b: nat)
    requires
        a <= b,
    ensures
        pow256(a) <= pow256(b),
    decreases b,
{
    if a < b {
        lemma_pow256_le(a, (b - 1) as nat);
        assert(pow256(b) == 256 * pow256((b - 1) as nat));
        assert(pow256((b - 1) as nat) <= 256 * pow256((b - 1) as nat)) by (nonlinear_arith);
    }
}

proof fn lemma_pow256_8()
    ensures
        pow256(8) == 0x10000000000000000,
        pow256(7) == 0x100000000000000,
        pow256(4) == 0x100000000,
        pow256(2) == 0x10000,
{
    assert(pow256(0) == 1);
    assert(pow256(1) == 256);
    assert(pow256(2) == 0x10000);
    assert(pow256(3) == 0x1000000);
    assert(pow256(4) == 0x100000000);
    assert(pow256(5) == 0x10000000000);
    assert(pow256(6) == 0x1000000000000);
    assert(pow256(7) == 0x100000000000000);
    assert(pow256(8) == 0x10000000000000000);
}

/// Read a little-endian field of `width` bytes.
fn read_le(bytes: &Vec<u8>, pos: usize, width: usize) -> (r: Result<(u64, usize), GraphError>)
    requires
        width <= 8,
    ensures
        match r {
            Ok((n, end)) => {
                &&& end == pos + width
                &&& end <= bytes@.len()
                &&& (n as nat) < pow256(width as nat)
                &&& bytes@.subrange(pos as int, end as int) == le_bytes(n as nat, width as nat)
            },
            Err(e) => e == GraphError::CodecError,
        },
    decreases width,
{
    if width == 0 {
        if pos > bytes.len() {
            return Err(GraphError::CodecError);
        }
        proof {
            assert(le_bytes(0, 0) =~= Seq::<u8>::empty());
            assert(bytes@.subrange(pos as int, pos as int) =~= Seq::<u8>::empty());
        }
        return Ok((0, pos));
    }
    if pos >= bytes.len() {
        return Err(GraphError::CodecError);
    }
    let b0 = bytes[pos];
    let rest = match read_le(bytes, pos + 1, width - 1) {
        Ok((rest, _end)) => rest,
        Err(e) => {
            return Err(e);
        },
    };
    proof {
        lemma_pow256_le((width - 1) as nat, 7);
        lemma_pow256_8();
    }
    let n = (b0 as u64) + 256 * rest;
    proof {
        assert((b0 as nat) + 256 * (rest as nat) < 256 * pow256((width - 1) as nat))
            by (nonlinear_arith)
            requires
                (b0 as nat) < 256,
                (rest as nat) < pow256((width - 1) as nat),
        ;
        assert(pow256(width as nat) == 256 * pow256((width - 1) as nat));
        assert((n as nat) % 256 == b0 as nat && (n as nat) / 256 == rest as nat)
            by (nonlinear_arith)
            requires
                n as nat == (b0 as nat) + 256 * (rest as nat),
                (b0 as nat) < 256,
        ;
        assert(le_bytes(n as nat, width as nat) == seq![b0] + le_bytes(
            rest as nat,
            (width - 1) as nat,
        ));
        assert(bytes@.subrange(pos as int, (pos + width) as int) =~= seq![b0] + bytes@.subrange(
            pos + 1,
            (pos + width) as int,
        ));
    }
    Ok((n, pos + width))
}

/// Read one character: a four-byte scalar value.
fn read_char_at(bytes: &Vec<u8>, pos: usize) -> (r: Result<(char, usize), GraphError>)
    ensures
        match r {
            Ok((c, end)) => {
                &&& end == pos + 4
                &&& end <= bytes@.len()
                &&& bytes@.subrange(pos as int, end as int) == enc_char(c)
            },
            Err(e) => e == GraphError::CodecError,
        },
{
    let (v, end) = match read_le(bytes, pos, 4) {
        Ok(r) => r,
        Err(e) => {
            return Err(e);
        },
    };
    proof {
        lemma_pow256_8();
    }
    match char::from_u32(v as u32) {
        Some(c) => {
            proof {
                assert((v as nat) < 0x100000000);
                assert((v as u32) as nat == v as nat);
                assert((c as u32) as nat == v as nat);
            }
            Ok((c, end))
        },
        None => Err(GraphError::CodecError),
    }
}

/// Read one string: a length, then that many characters.
fn read_string_at(bytes: &Vec<u8>, pos: usize) -> (r: Result<(String, usize), GraphError>)
    ensures
        match r {
            Ok((s, end)) => {
                &&& pos < end <= bytes@.len()
                &&& bytes@.subrange(pos as int, end as int) == enc_str(s@)
            },
            Err(e) => e == GraphError::CodecError,
        },
{
    let (cnt64, p1) = match read_le(bytes, pos, 8) {
        Ok(r) => r,
        Err(e) => {
            return Err(e);
        },
    };
    if cnt64 > bytes.len() as u64 {
        return Err(GraphError::CodecError);
    }
    let cnt = cnt64 as usize;
    let mut s = String::new();
    let mut cur = p1;
    let mut k: usize = 0;
    proof {
        assert(enc_chars(s@) =~= Seq::<u8>::empty());
        assert(bytes@.subrange(p1 as int, cur as int) =~= Seq::<u8>::empty());
    }
    while k < cnt
        invariant
            cnt <= bytes@.len(),
            k <= cnt,
            s@.len() == k,
            pos + 8 == p1,
            p1 <= cur <= bytes@.len(),
            cnt64 == cnt,
            (cnt64 as nat) < pow256(8),
            bytes@.subrange(pos as int, p1 as int) == le_bytes(cnt64 as nat, 8),
            bytes@.subrange(p1 as int, cur as int) == enc_chars(s@),
        decreases cnt - k,
    {
        let (c, nx) = match read_char_at(bytes, cur) {
            Ok(r) => r,
            Err(e) => {
                return Err(e);
            },
        };
        let ghost s0 = s@;
        crate::codec::push_char(&mut s, c);
        proof {
            assert(s@.drop_last() =~= s0);
            assert(enc_chars(s@) == enc_chars(s0) + enc_char(c));
            assert(bytes@.subrange(p1 as int, nx as int) =~= bytes@.subrange(p1 as int, cur as int)
                + bytes@.subrange(cur as int, nx as int));
        }
        cur = nx;
        k += 1;
    }
    proof {
        assert(bytes@.subrange(pos as int, cur as int) =~= bytes@.subrange(pos as int, p1 as int)
            + bytes@.subrange(p1 as int, cur as int));
        assert(s@.len() == cnt64 as nat);
    }
    Ok((s, cur))
}

/// Read one value. The float tag must match the file's float width; a
/// sixteen-bit float must survive widening and narrowing unchanged.
fn read_value_at(bytes: &Vec<u8>, pos: usize, h16: bool) -> (r: Result<(Value, usize), GraphError>)
    ensures
        match r {
            Ok((v, end)) => {
                &&& pos < end <= bytes@.len()
                &&& bytes@.subrange(pos as int, end as int) == enc_value(v@, h16)
            },
            Err(e) => e == GraphError::CodecError,
        },
    decreases bytes@.len() - pos,
{
    if pos >= bytes.len() {
        return Err(GraphError::CodecError);
    }
    let tag = bytes[pos];
    if tag == 1 {
        let (s, end) = match read_string_at(bytes, pos + 1) {
            Ok(r) => r,
            Err(e) => {
                return Err(e);
            },
        };
        let v = Value::Str(s);
        proof {
            assert(bytes@.subrange(pos as int, end as int) =~= seq![1u8] + bytes@.subrange(
                pos + 1,
                end as int,
            ));
        }
        Ok((v, end))
    } else if tag == 2 {
        if pos + 1 >= bytes.len() {
            return Err(GraphError::CodecError);
        }
        let sign = bytes[pos + 1];
        let (mag, end) = match read_le(bytes, pos + 2, 8) {
            Ok(r) => r,
            Err(e) => {
                return Err(e);
            },
        };
        if sign == 0 {
            if mag > 0x7fffffffffffffffu64 {
                return Err(GraphError::CodecError);
            }
            let v = Value::Int(mag as i64);
            proof {
                assert(bytes@.subrange(pos as int, end as int) =~= seq![2u8] + seq![0u8]
                    + bytes@.subrange(pos + 2, end as int));
                assert(enc_value(v@, h16) == seq![2u8] + (seq![0u8] + le_bytes(mag as nat, 8)));
            }
            Ok((v, end))
        } else if sign == 1 {
            if mag == 0 || mag > 0x8000000000000000u64 {
                return Err(GraphError::CodecError);
            }
            let v = if mag == 0x8000000000000000u64 {
                Value::Int(i64::MIN)
            } else {
                Value::Int(-(mag as i64))
            };
            proof {
                assert(bytes@.subrange(pos as int, end as int) =~= seq![2u8] + seq![1u8]
                    + bytes@.subrange(pos + 2, end as int));
                assert(enc_value(v@, h16) == seq![2u8] + (seq![1u8] + le_bytes(mag as nat, 8)));
            }
            Ok((v, end))
        } else {
            Err(GraphError::CodecError)
        }
    } else if tag == 3 {
        if h16 {
            return Err(GraphError::CodecError);
        }
        let (b, end) = match read_le(bytes, pos + 1, 8) {
            Ok(r) => r,
            Err(e) => {
                return Err(e);
            },
        };
        let v = Value::Float(b);
        proof {
            assert(bytes@.subrange(pos as int, end as int) =~= seq![3u8] + bytes@.subrange(
                pos + 1,
                end as int,
            ));
        }
        Ok((v, end))
    } else if tag == 8 {
        if !h16 {
            return Err(GraphError::CodecError);
        }
        let (hv, end) = match read_le(bytes, pos + 1, 2) {
            Ok(r) => r,
            Err(e) => {
                return Err(e);
            },
        };
        proof {
            lemma_pow256_8();
        }
        let h = hv as u16;
        let b = widen16(h);
        if narrow16(b) != h {
            return Err(GraphError::CodecError);
        }
        let v = Value::Float(b);
        proof {
            assert(spec_narrow16(b) == h);
            assert(bytes@.subrange(pos as int, end as int) =~= seq![8u8] + bytes@.subrange(
                pos + 1,
                end as int,
            ));
        }
        Ok((v, end))
    } else if tag == 4 {
        if pos + 1 >= bytes.len() {
            return Err(GraphError::CodecError);
        }
        let b = bytes[pos + 1];
        if b == 0 {
            let v = Value::Bool(false);
            proof {
                assert(bytes@.subrange(pos as int, (pos + 2) as int) =~= seq![4u8, 0u8]);
            }
            Ok((v, pos + 2))
        } else if b == 1 {
            let v = Value::Bool(true);
            proof {
                assert(bytes@.subrange(pos as int, (pos + 2) as int) =~= seq![4u8, 1u8]);
            }
            Ok((v, pos + 2))
        } else {
            Err(GraphError::CodecError)
        }
    } else if tag == 5 {
        proof {
            assert(bytes@.subrange(pos as int, (pos + 1) as int) =~= seq![5u8]);
        }
        Ok((Value::Null, pos + 1))
    } else if tag == 6 {
        let (cnt64, p1) = match read_le(bytes, pos + 1, 8) {
            Ok(r) => r,
            Err(e) => {
                return Err(e);
            },
        };
        if cnt64 > bytes.len() as u64 {
            return Err(GraphError::CodecError);
        }
        let cnt = cnt64 as usize;
        let mut items: Vec<Value> = Vec::new();
        let mut cur = p1;
        let mut k: usize = 0;
        proof {
            lemma_view_list_index(items@);
            assert(view_list(items@) =~= Seq::<ValueView>::empty());
            assert(enc_list(view_list(items@), h16) =~= Seq::<u8>::empty());
            assert(bytes@.subrange(p1 as int, cur as int) =~= Seq::<u8>::empty());
        }
        while k < cnt
            invariant
                k <= cnt,
                items@.len() == k,
                pos + 9 == p1,
                p1 <= cur <= bytes@.len(),
                cnt64 == cnt,
                bytes@.subrange(p1 as int, cur as int) == enc_list(view_list(items@), h16),
            decreases cnt - k,
        {
            proof {
                assert(pos < cur);
            }
            let (v, nx) = match read_value_at(bytes, cur, h16) {
                Ok(r) => r,
                Err(e) => {
                    return Err(e);
                },
            };
            let ghost items0 = items@;
            items.push(v);
            proof {
                let ghost x = items@[items0.len() as int]@;
                assert(view_list(items@) =~= view_list(items0).push(x)) by {
                    assert(items@.drop_last() =~= items0);
                }
                let t1 = view_list(items@);
                assert(t1.drop_last() =~= view_list(items0));
                assert(t1.last() == x);
                assert(enc_list(t1, h16) == enc_list(t1.drop_last(), h16) + enc_value(
                    t1.last(),
                    h16,
                ));
                assert(enc_list(view_list(items@), h16) == enc_list(view_list(items0), h16)
                    + enc_value(items@[items0.len() as int]@, h16));
                assert(bytes@.subrange(p1 as int, nx as int) =~= bytes@.subrange(
                    p1 as int,
                    cur as int,
                ) + bytes@.subrange(cur as int, nx as int));
            }
            cur = nx;
            k += 1;
        }
        let v = Value::List(items);
        proof {
            lemma_view_list_index(items@);
            assert(view_list(items@).len() == cnt64 as nat);
            assert(bytes@.subrange(pos as int, cur as int) =~= seq![6u8] + bytes@.subrange(
                pos + 1,
                p1 as int,
            ) + bytes@.subrange(p1 as int, cur as int));
            assert(enc_value(v@, h16) == seq![6u8] + le_bytes(view_list(items@).len(), 8)
                + enc_list(view_list(items@), h16));
        }
        Ok((v, cur))
    } else if tag == 7 {
        let (cnt64, p1) = match read_le(bytes, pos + 1, 8) {
            Ok(r) => r,
            Err(e) => {
                return Err(e);
            },
        };
        if cnt64 > bytes.len() as u64 {
            return Err(GraphError::CodecError);
        }
        let cnt = cnt64 as usize;
        let mut entries: Vec<(String, Value)> = Vec::new();
        let mut cur = p1;
        let mut k: usize = 0;
        proof {
            lemma_view_entries_index(entries@);
            assert(view_entries(entries@) =~= Seq::<(Seq<char>, ValueView)>::empty());
            assert(enc_dict(view_entries(entries@), h16) =~= Seq::<u8>::empty());
            assert(bytes@.subrange(p1 as int, cur as int) =~= Seq::<u8>::empty());
        }
        while k < cnt
            invariant
                k <= cnt,
                entries@.len() == k,
                pos + 9 == p1,
                p1 <= cur <= bytes@.len(),
                cnt64 == cnt,
                bytes@.subrange(p1 as int, cur as int) == enc_dict(view_entries(entries@), h16),
            decreases cnt - k,
        {
            let (key, pk) = match read_string_at(bytes, cur) {
                Ok(r) => r,
                Err(e) => {
                    return Err(e);
                },
            };
            proof {
                assert(pos < pk);
            }
            let (v, nx) = match read_value_at(bytes, pk, h16) {
                Ok(r) => r,
                Err(e) => {
                    return Err(e);
                },
            };
            let ghost entries0 = entries@;
            let entry = (key, v);
            entries.push(entry);
            proof {
                let ghost x = (entries@[entries0.len() as int].0@, entries@[entries0.len() as int].1@);
                assert(view_entries(entries@) =~= view_entries(entries0).push(x)) by {
                    assert(entries@.drop_last() =~= entries0);
                }
                let t1 = view_entries(entries@);
                assert(t1.drop_last() =~= view_entries(entries0));
                assert(t1.last() == x);
                assert(enc_dict(t1, h16) == enc_dict(t1.drop_last(), h16) + enc_str(t1.last().0)
                    + enc_value(t1.last().1, h16));
                assert(enc_dict(view_entries(entries@), h16) == enc_dict(
                    view_entries(entries0),
                    h16,
                ) + enc_str(entries@[entries0.len() as int].0@) + enc_value(
                    entries@[entries0.len() as int].1@,
                    h16,
                ));
                assert(bytes@.subrange(p1 as int, nx as int) =~= bytes@.subrange(
                    p1 as int,
                    cur as int,
                ) + bytes@.subrange(cur as int, pk as int) + bytes@.subrange(pk as int, nx as int));
            }
            cur = nx;
            k += 1;
        }
        let v = Value::Dict(entries);
        proof {
            lemma_view_entries_index(entries@);
            assert(view_entries(entries@).len() == cnt64 as nat);
            assert(bytes@.subrange(pos as int, cur as int) =~= seq![7u8] + bytes@.subrange(
                pos + 1,
                p1 as int,
            ) + bytes@.subrange(p1 as int, cur as int));
            assert(enc_value(v@, h16) == seq![7u8] + le_bytes(view_entries(entries@).len(), 8)
                + enc_dict(view_entries(entries@), h16));
        }
        Ok((v, cur))
    } else {
        Err(GraphError::CodecError)
    }
}

/// Read an attribute map; a repeated key is rejected.
fn read_attrs_at(bytes: &Vec<u8>, pos: usize, h16: bool) -> (r: Result<(Attrs, usize), GraphError>)
    ensures
        match r {
            Ok((m, end)) => {
                &&& pos < end <= bytes@.len()
                &&& bytes@.subrange(pos as int, end as int) == enc_attrs(m@, h16)
            },
            Err(e) => e == GraphError::CodecError,
        },
{
    let (cnt64, p1) = match read_le(bytes, pos, 8) {
        Ok(r) => r,
        Err(e) => {
            return Err(e);
        },
    };
    if cnt64 > bytes.len() as u64 {
        return Err(GraphError::CodecError);
    }
    let cnt = cnt64 as usize;
    let mut m = Attrs::new();
    let mut cur = p1;
    let mut k: usize = 0;
    proof {
        assert(enc_dict(m@, h16) =~= Seq::<u8>::empty());
        assert(bytes@.subrange(p1 as int, cur as int) =~= Seq::<u8>::empty());
    }
    while k < cnt
        invariant
            k <= cnt,
            m@.len() == k,
            pos + 8 == p1,
            p1 <= cur <= bytes@.len(),
            cnt64 == cnt,
            bytes@.subrange(p1 as int, cur as int) == enc_dict(m@, h16),
        decreases cnt - k,
    {
        let (key, pk) = match read_string_at(bytes, cur) {
            Ok(r) => r,
            Err(e) => {
                return Err(e);
            },
        };
        let (v, nx) = match read_value_at(bytes, pk, h16) {
            Ok(r) => r,
            Err(e) => {
                return Err(e);
            },
        };
        if m.contains_key(&key) {
            return Err(GraphError::CodecError);
        }
        let ghost m0 = m@;
        let ghost kv = key@;
        let ghost vv = v@;
        m.set(key, v);
        proof {
            assert(m@ == m0.push((kv, vv)));
            assert(enc_dict(m@, h16) == enc_dict(m0, h16) + enc_str(kv) + enc_value(vv, h16)) by {
                assert(m@.drop_last() =~= m0);
            }
            assert(bytes@.subrange(p1 as int, nx as int) =~= bytes@.subrange(p1 as int, cur as int)
                + bytes@.subrange(cur as int, pk as int) + bytes@.subrange(pk as int, nx as int));
        }
        cur = nx;
        k += 1;
    }
    proof {
        assert(bytes@.subrange(pos as int, cur as int) =~= bytes@.subrange(pos as int, p1 as int)
            + bytes@.subrange(p1 as int, cur as int));
        assert(m@.len() == cnt64 as nat);
    }
    Ok((m, cur))
}

/// Read a string list.
fn read_str_list_at(bytes: &Vec<u8>, pos: usize) -> (r: Result<(Vec<String>, usize), GraphError>)
    ensures
        match r {
            Ok((l, end)) => {
                &&& pos < end <= bytes@.len()
                &&& bytes@.subrange(pos as int, end as int) == enc_str_list(
                    crate::traversal::strs_view(l@),
                )
            },
            Err(e) => e == GraphError::CodecError,
        },
{
    let (cnt64, p1) = match read_le(bytes, pos, 8) {
        Ok(r) => r,
        Err(e) => {
            return Err(e);
        },
    };
    if cnt64 > bytes.len() as u64 {
        return Err(GraphError::CodecError);
    }
    let cnt = cnt64 as usize;
    let mut l: Vec<String> = Vec::new();
    let mut cur = p1;
    let mut k: usize = 0;
    proof {
        assert(crate::traversal::strs_view(l@) =~= Seq::<Seq<char>>::empty());
        assert(enc_strs(crate::traversal::strs_view(l@)) =~= Seq::<u8>::empty());
        assert(bytes@.subrange(p1 as int, cur as int) =~= Seq::<u8>::empty());
    }
    while k < cnt
        invariant
            k <= cnt,
            l@.len() == k,
            pos + 8 == p1,
            p1 <= cur <= bytes@.len(),
            cnt64 == cnt,
            bytes@.subrange(p1 as int, cur as int) == enc_strs(crate::traversal::strs_view(l@)),
        decreases cnt - k,
    {
        let (s, nx) = match read_string_at(bytes, cur) {
            Ok(r) => r,
            Err(e) => {
                return Err(e);
            },
        };
        let ghost l0 = l@;
        l.push(s);
        proof {
            crate::traversal::lemma_strs_view_push(l0, l@[l0.len() as int]);
            assert(crate::traversal::strs_view(l@) =~= crate::traversal::strs_view(l0).push(
                l@[l0.len() as int]@,
            ));
            assert(enc_strs(crate::traversal::strs_view(l@)) == enc_strs(
                crate::traversal::strs_view(l0),
            ) + enc_str(l@[l0.len() as int]@)) by {
                assert(crate::traversal::strs_view(l@).drop_last() =~= crate::traversal::strs_view(
                    l0,
                ));
            }
            assert(bytes@.subrange(p1 as int, nx as int) =~= bytes@.subrange(p1 as int, cur as int)
                + bytes@.subrange(cur as int, nx as int));
        }
        cur = nx;
        k += 1;
    }
    proof {
        assert(bytes@.subrange(pos as int, cur as int) =~= bytes@.subrange(pos as int, p1 as int)
            + bytes@.subrange(p1 as int, cur as int));
        assert(crate::traversal::strs_view(l@).len() == cnt64 as nat);
    }
    Ok((l, cur))
}

/// Decode a whole file. A successful decode returns exactly the graph
/// whose encoding the input is, under the float width its first byte
/// names; everything else is rejected.
#[verifier::rlimit(100)]
pub fn decode_graph(bytes: &Vec<u8>) -> (r: Result<SerializableGraph, GraphError>)
    ensures
        match r {
            Ok(sg) => bytes@ == enc_file(sg@, false) || bytes@ == enc_file(sg@, true),
            Err(e) => e == GraphError::CodecError,
        },
{
    if bytes.len() == 0 {
        return Err(GraphError::CodecError);
    }
    let flag = bytes[0];
    let h16 = if flag == 0 {
        false
    } else if flag == 1 {
        true
    } else {
        return Err(GraphError::CodecError);
    };
    let (ncnt64, p1) = match read_le(bytes, 1, 8) {
        Ok(r) => r,
        Err(e) => {
            return Err(e);
        },
    };
    if ncnt64 > bytes.len() as u64 {
        return Err(GraphError::CodecError);
    }
    let ncnt = ncnt64 as usize;
    let mut snodes: Vec<SerializableNode> = Vec::new();
    let mut cur = p1;
    let mut k: usize = 0;
    proof {
        assert(crate::codec::view_snodes(snodes@) =~= Seq::<SNodeView>::empty());
        assert(enc_snodes(crate::codec::view_snodes(snodes@), h16) =~= Seq::<u8>::empty());
        assert(bytes@.subrange(p1 as int, cur as int) =~= Seq::<u8>::empty());
    }
    while k < ncnt
        invariant
            k <= ncnt,
            snodes@.len() == k,
            p1 == 9,
            p1 <= cur <= bytes@.len(),
            ncnt64 == ncnt,
            bytes@.subrange(p1 as int, cur as int) == enc_snodes(
                crate::codec::view_snodes(snodes@),
                h16,
            ),
        decreases ncnt - k,
    {
        let (id, pa) = match read_string_at(bytes, cur) {
            Ok(r) => r,
            Err(e) => {
                return Err(e);
            },
        };
        let (attr, pb) = match read_attrs_at(bytes, pa, h16) {
            Ok(r) => r,
            Err(e) => {
                return Err(e);
            },
        };
        let (meta, pc) = match read_attrs_at(bytes, pb, h16) {
            Ok(r) => r,
            Err(e) => {
                return Err(e);
            },
        };
        let (edge_ids, pd) = match read_str_list_at(bytes, pc) {
            Ok(r) => r,
            Err(e) => {
                return Err(e);
            },
        };
        let (inverse_edge_ids, pe) = match read_str_list_at(bytes, pd) {
            Ok(r) => r,
            Err(e) => {
                return Err(e);
            },
        };
        let sn = SerializableNode { id, attr, meta, edge_ids, inverse_edge_ids };
        let ghost sn0 = snodes@;
        snodes.push(sn);
        proof {
            let t = crate::codec::view_snodes(snodes@);
            assert(t =~= crate::codec::view_snodes(sn0).push(snodes@[sn0.len() as int]@));
            assert(enc_snodes(t, h16) == enc_snodes(crate::codec::view_snodes(sn0), h16)
                + enc_snode(snodes@[sn0.len() as int]@, h16)) by {
                assert(t.drop_last() =~= crate::codec::view_snodes(sn0));
            }
            assert(bytes@.subrange(p1 as int, pe as int) =~= bytes@.subrange(p1 as int, cur as int)
                + bytes@.subrange(cur as int, pa as int) + bytes@.subrange(pa as int, pb as int)
                + bytes@.subrange(pb as int, pc as int) + bytes@.subrange(pc as int, pd as int)
                + bytes@.subrange(pd as int, pe as int));
        }
        cur = pe;
        k += 1;
    }
    let ghost nodes_end = cur;
    let (ecnt64, p2) = match read_le(bytes, cur, 8) {
        Ok(r) => r,
        Err(e) => {
            return Err(e);
        },
    };
    if ecnt64 > bytes.len() as u64 {
        return Err(GraphError::CodecError);
    }
    let ecnt = ecnt64 as usize;
    let mut sedges: Vec<SerializableEdge> = Vec::new();
    let mut cur2 = p2;
    let mut q: usize = 0;
    proof {
        assert(crate::codec::view_sedges(sedges@) =~= Seq::<SEdgeView>::empty());
        assert(enc_sedges(crate::codec::view_sedges(sedges@), h16) =~= Seq::<u8>::empty());
        assert(bytes@.subrange(p2 as int, cur2 as int) =~= Seq::<u8>::empty());
    }
    while q < ecnt
        invariant
            q <= ecnt,
            sedges@.len() == q,
            p2 <= cur2 <= bytes@.len(),
            ecnt64 == ecnt,
            bytes@.subrange(p2 as int, cur2 as int) == enc_sedges(
                crate::codec::view_sedges(sedges@),
                h16,
            ),
        decreases ecnt - q,
    {
        let (id, pa) = match read_string_at(bytes, cur2) {
            Ok(r) => r,
            Err(e) => {
                return Err(e);
            },
        };
        let (from_id, pb) = match read_string_at(bytes, pa) {
            Ok(r) => r,
            Err(e) => {
                return Err(e);
            },
        };
        let (to_id, pc) = match read_string_at(bytes, pb) {
            Ok(r) => r,
            Err(e) => {
                return Err(e);
            },
        };
        let (attr, pd) = match read_attrs_at(bytes, pc, h16) {
            Ok(r) => r,
            Err(e) => {
                return Err(e);
            },
        };
        let (meta, pe) = match read_attrs_at(bytes, pd, h16) {
            Ok(r) => r,
            Err(e) => {
                return Err(e);
            },
        };
        let se = SerializableEdge { id, from_id, to_id, attr, meta };
        let ghost se0 = sedges@;
        sedges.push(se);
        proof {
            let t = crate::codec::view_sedges(sedges@);
            assert(t =~= crate::codec::view_sedges(se0).push(sedges@[se0.len() as int]@));
            assert(enc_sedges(t, h16) == enc_sedges(crate::codec::view_sedges(se0), h16)
                + enc_sedge(sedges@[se0.len() as int]@, h16)) by {
                assert(t.drop_last() =~= crate::codec::view_sedges(se0));
            }
            assert(bytes@.subrange(p2 as int, pe as int) =~= bytes@.subrange(p2 as int, cur2 as int)
                + bytes@.subrange(cur2 as int, pa as int) + bytes@.subrange(pa as int, pb as int)
                + bytes@.subrange(pb as int, pc as int) + bytes@.subrange(pc as int, pd as int)
                + bytes@.subrange(pd as int, pe as int));
        }
        cur2 = pe;
        q += 1;
    }
    let (meta, p3) = match read_attrs_at(bytes, cur2, h16) {
        Ok(r) => r,
        Err(e) => {
            return Err(e);
        },
    };
    let (metadata, p4) = match read_attrs_at(bytes, p3, h16) {
        Ok(r) => r,
        Err(e) => {
            return Err(e);
        },
    };
    if p4 != bytes.len() {
        return Err(GraphError::CodecError);
    }
    let sg = SerializableGraph { nodes: snodes, edges: sedges, meta, metadata };
    proof {
        assert(sg@.nodes.len() == ncnt64 as nat);
        assert(sg@.edges.len() == ecnt64 as nat);
        assert(bytes@ =~= seq![bytes@[0]] + bytes@.subrange(1, 9) + bytes@.subrange(
            9,
            nodes_end as int,
        ) + bytes@.subrange(nodes_end as int, p2 as int) + bytes@.subrange(
            p2 as int,
            cur2 as int,
        ) + bytes@.subrange(cur2 as int, p3 as int) + bytes@.subrange(p3 as int, p4 as int));
        assert(bytes@ =~= enc_file(sg@, h16));
    }
    Ok(sg)
}

impl SerializableGraph {
    /// The binary form of this portable graph with full floats.
    pub fn save_to_binary(&self) -> (out: Vec<u8>)
        ensures
            out@ == enc_file(self@, false),
    {
        encode_graph(self, false)
    }

    /// The compact binary form: float slots narrowed to sixteen bits.
    pub fn save_to_binary_f16(&self) -> (out: Vec<u8>)
        ensures
            out@ == enc_file(self@, true),
    {
        encode_graph(self, true)
    }

    /// Decode a binary file into the portable form it encodes.
    pub fn load_from_binary(bytes: &Vec<u8>) -> (r: Result<SerializableGraph, GraphError>)
        ensures
            match r {
                Ok(sg) => bytes@ == enc_file(sg@, false) || bytes@ == enc_file(sg@, true),
                Err(e) => e == GraphError::CodecError,
            },
    {
        decode_graph(bytes)
    }
}

impl crate::graph::Vertex {
    /// The binary form of this graph, stamped with the given timestamp:
    /// exactly the encoding of its portable representation, full floats.
    pub fn save_to_binary(&self, timestamp: String) -> (out: Vec<u8>)
        requires
            self@.nodes.len() <= i64::MAX,
            self@.edges.len() <= i64::MAX,
        ensures
            out@ == enc_file(crate::codec::ir_of(self@, timestamp@), false),
    {
        let sg = SerializableGraph::from_vertex(self, timestamp);
        encode_graph(&sg, false)
    }

    /// The compact binary form: float slots narrowed to sixteen bits. The
    /// narrowing is lossy by design; a reload yields the widened pattern.
    pub fn save_to_binary_f16(&self, timestamp: String) -> (out: Vec<u8>)
        requires
            self@.nodes.len() <= i64::MAX,
            self@.edges.len() <= i64::MAX,
        ensures
            out@ == enc_file(crate::codec::ir_of(self@, timestamp@), true),
    {
        let sg = SerializableGraph::from_vertex(self, timestamp);
        encode_graph(&sg, true)
    }

    /// Rebuild a graph from its binary form. A successful load returns
    /// exactly the graph of a portable form whose encoding the input is;
    /// anything else is rejected.
    pub fn load_from_binary(bytes: &Vec<u8>) -> (r: Result<crate::graph::Vertex, GraphError>)
        ensures
            match r {
                Ok(v) => {
                    &&& v.wf()
                    &&& exists|sg: SGraphView|
                        (#[trigger] crate::codec::ir_valid(sg)) && (bytes@ == enc_file(sg, false)
                            || bytes@ == enc_file(sg, true)) && v@ == crate::codec::graph_of(sg)
                },
                Err(e) => e == GraphError::CodecError || e == GraphError::DuplicateId || e
                    == GraphError::NodeNotFound,
            },
    {
        let sg = match decode_graph(bytes) {
            Ok(sg) => sg,
            Err(e) => {
                return Err(e);
            },
        };
        match sg.to_vertex() {
            Ok(v) => {
                proof {
                    assert(crate::codec::ir_valid(sg@) && (bytes@ == enc_file(sg@, false) || bytes@
                        == enc_file(sg@, true)) && v@ == crate::codec::graph_of(sg@));
                }
                Ok(v)
            },
            Err(e) => Err(e),
        }
    }
}

/// Encode a portable graph as bytes, exactly as `enc_file` says.
#[verifier::rlimit(100)]
pub fn encode_graph(sg: &SerializableGraph, h16: bool) -> (out: Vec<u8>)
    ensures
        out@ == enc_file(sg@, h16),
{
    let mut out: Vec<u8> = Vec::new();
    if h16 {
        out.push(1u8);
    } else {
        out.push(0u8);
    }
    let ghost head = out@;
    let ghost ns = sg@.nodes;
    let n = sg.nodes.len();
    write_le(&mut out, n as u64, 8);
    proof {
        assert(enc_snodes(ns.take(0), h16) =~= Seq::<u8>::empty());
        assert(out@ =~= head + le_bytes(ns.len(), 8) + enc_snodes(ns.take(0), h16));
    }
    let mut i: usize = 0;
    while i < n
        invariant
            ns == sg@.nodes,
            n == sg.nodes@.len(),
            ns.len() == n,
            i <= n,
            out@ == head + le_bytes(ns.len(), 8) + enc_snodes(ns.take(i as int), h16),
        decreases n - i,
    {
        let ghost opre = out@;
        let sn = &sg.nodes[i];
        write_string(&mut out, &sn.id);
        write_attrs(&mut out, &sn.attr, h16);
        write_attrs(&mut out, &sn.meta, h16);
        write_str_list(&mut out, &sn.edge_ids);
        write_str_list(&mut out, &sn.inverse_edge_ids);
        proof {
            assert(ns[i as int] == sg.nodes@[i as int]@);
            assert(ns.take(i + 1).drop_last() =~= ns.take(i as int));
            assert(ns.take(i + 1).last() == ns[i as int]);
            assert(enc_snodes(ns.take(i + 1), h16) == enc_snodes(ns.take(i as int), h16)
                + enc_snode(ns[i as int], h16));
            assert(out@ =~= opre + enc_snode(ns[i as int], h16));
            assert(out@ =~= head + le_bytes(ns.len(), 8) + enc_snodes(ns.take(i + 1), h16));
        }
        i += 1;
    }
    let ghost head2 = out@;
    proof {
        assert(ns.take(n as int) =~= ns);
    }
    let ghost es = sg@.edges;
    let m = sg.edges.len();
    write_le(&mut out, m as u64, 8);
    proof {
        assert(enc_sedges(es.take(0), h16) =~= Seq::<u8>::empty());
        assert(out@ =~= head2 + le_bytes(es.len(), 8) + enc_sedges(es.take(0), h16));
    }
    let mut e: usize = 0;
    while e < m
        invariant
            es == sg@.edges,
            m == sg.edges@.len(),
            es.len() == m,
            e <= m,
            out@ == head2 + le_bytes(es.len(), 8) + enc_sedges(es.take(e as int), h16),
        decreases m - e,
    {
        let ghost opre = out@;
        let se = &sg.edges[e];
        write_string(&mut out, &se.id);
        write_string(&mut out, &se.from_id);
        write_string(&mut out, &se.to_id);
        write_attrs(&mut out, &se.attr, h16);
        write_attrs(&mut out, &se.meta, h16);
        proof {
            assert(es[e as int] == sg.edges@[e as int]@);
            assert(es.take(e + 1).drop_last() =~= es.take(e as int));
            assert(es.take(e + 1).last() == es[e as int]);
            assert(enc_sedges(es.take(e + 1), h16) == enc_sedges(es.take(e as int), h16)
                + enc_sedge(es[e as int], h16));
            assert(out@ =~= opre + enc_sedge(es[e as int], h16));
            assert(out@ =~= head2 + le_bytes(es.len(), 8) + enc_sedges(es.take(e + 1), h16));
        }
        e += 1;
    }
    proof {
        assert(es.take(m as int) =~= es);
    }
    write_attrs(&mut out, &sg.meta, h16);
    write_attrs(&mut out, &sg.metadata, h16);
    proof {
        assert(out@ =~= enc_file(sg@, h16));
    }
    out
}

} // verus!
