//! The JSON text form of the portable graph.
//!
//! Compact, canonical JSON, deliberately not pretty-printed: with no
//! whitespace and one fixed member order, the emitted text is a function
//! of the graph alone, and the parser accepts exactly that canonical
//! form. Objects `nodes` and `edges` are keyed by id, then `meta` and
//! `metadata` follow. Values are tagged one-entry objects; a float slot
//! carries its bit pattern as an unsigned decimal, so float round trips
//! stay exact. Strings escape the quote, the backslash and control
//! characters. The emitter's output is specified exactly; the parser's
//! contract pins what a successful parse returns — exactly the graph
//! whose text the input is — while its obligation to succeed on every
//! emitted document is exercised by the test suite rather than stated.

use vstd::prelude::*;
use crate::attrs::Attrs;
use crate::codec::{SerializableGraph, SerializableNode, SerializableEdge, SNodeView, SEdgeView,
    SGraphView, dec_str, digit_char, usize_dec, push_char, view_snodes, view_sedges};
use crate::value::{Value, ValueView, view_list, view_entries, lemma_view_list_index,
    lemma_view_entries_index};
use crate::GraphError;

verus! {

/// The sixteen lowercase hexadecimal digit characters.
pub open spec fn hex_char(d: nat) -> char {
    if d < 10 {
        digit_char(d)
    } else if d == 10 {
        'a'
    } else if d == 11 {
        'b'
    } else if d == 12 {
        'c'
    } else if d == 13 {
        'd'
    } else if d == 14 {
        'e'
    } else {
        'f'
    }
}

/// The escape of one character: quote and backslash escaped, control
/// characters as a four-digit escape, everything else itself.
pub open spec fn esc_char(c: char) -> Seq<char> {
    if c == '"' {
        seq!['\\', '"']
    } else if c == '\\' {
        seq!['\\', '\\']
    } else if (c as u32) < 0x20 {
        seq!['\\', 'u', '0', '0', hex_char(((c as u32) / 16) as nat), hex_char(
            ((c as u32) % 16) as nat,
        )]
    } else {
        seq![c]
    }
}

pub open spec fn esc(s: Seq<char>) -> Seq<char>
    decreases s.len(),
{
    if s.len() == 0 {
        Seq::empty()
    } else {
        esc(s.drop_last()) + esc_char(s.last())
    }
}

/// A JSON string: quoted and escaped.
pub open spec fn js_string(s: Seq<char>) -> Seq<char> {
    seq!['"'] + esc(s) + seq!['"']
}

/// A JSON signed integer.
pub open spec fn js_int(i: int) -> Seq<char> {
    if i < 0 {
        seq!['-'] + dec_str((-i) as nat)
    } else {
        dec_str(i as nat)
    }
}

/// One tagged value.
pub open spec fn js_value(v: ValueView) -> Seq<char>
    decreases v,
{
    match v {
        ValueView::Str(s) => seq!['{'] + js_string("Str"@) + seq![':'] + js_string(s) + seq!['}'],
        ValueView::Int(i) => seq!['{'] + js_string("Int"@) + seq![':'] + js_int(i) + seq!['}'],
        ValueView::Float(b) => seq!['{'] + js_string("Float"@) + seq![':'] + dec_str(b as nat)
            + seq!['}'],
        ValueView::Bool(b) => if b {
            "true"@
        } else {
            "false"@
        },
        ValueView::Null => "null"@,
        ValueView::List(vs) => seq!['{'] + js_string("List"@) + seq![':'] + seq!['['] + js_items(vs)
            + seq![']'] + seq!['}'],
        ValueView::Dict(es) => seq!['{'] + js_string("Dict"@) + seq![':'] + seq!['{'] + js_members(
            es,
        ) + seq!['}'] + seq!['}'],
    }
}

pub open spec fn js_items(vs: Seq<ValueView>) -> Seq<char>
    decreases vs,
{
    if vs.len() == 0 {
        Seq::empty()
    } else if vs.len() == 1 {
        js_value(vs.last())
    } else {
        js_items(vs.drop_last()) + seq![','] + js_value(vs.last())
    }
}

pub open spec fn js_members(es: Seq<(Seq<char>, ValueView)>) -> Seq<char>
    decreases es,
{
    if es.len() == 0 {
        Seq::empty()
    } else if es.len() == 1 {
        js_string(es.last().0) + seq![':'] + js_value(es.last().1)
    } else {
        js_members(es.drop_last()) + seq![','] + js_string(es.last().0) + seq![':'] + js_value(
            es.last().1,
        )
    }
}

/// An attribute map as a JSON object.
pub open spec fn js_attrs(m: Seq<(Seq<char>, ValueView)>) -> Seq<char> {
    seq!['{'] + js_members(m) + seq!['}']
}

pub open spec fn js_str_items(l: Seq<Seq<char>>) -> Seq<char>
    decreases l.len(),
{
    if l.len() == 0 {
        Seq::empty()
    } else if l.len() == 1 {
        js_string(l.last())
    } else {
        js_str_items(l.drop_last()) + seq![','] + js_string(l.last())
    }
}

/// A string list as a JSON array.
pub open spec fn js_str_arr(l: Seq<Seq<char>>) -> Seq<char> {
    seq!['['] + js_str_items(l) + seq![']']
}

/// One node object.
pub open spec fn js_snode(n: SNodeView) -> Seq<char> {
    seq!['{'] + js_string("id"@) + seq![':'] + js_string(n.id) + seq![','] + js_string("attr"@)
        + seq![':'] + js_attrs(n.attr) + seq![','] + js_string("meta"@) + seq![':'] + js_attrs(
        n.meta,
    ) + seq![','] + js_string("edge_ids"@) + seq![':'] + js_str_arr(n.edge_ids) + seq![',']
        + js_string("inverse_edge_ids"@) + seq![':'] + js_str_arr(n.inverse_edge_ids) + seq!['}']
}

pub open spec fn js_node_members(ns: Seq<SNodeView>) -> Seq<char>
    decreases ns.len(),
{
    if ns.len() == 0 {
        Seq::empty()
    } else if ns.len() == 1 {
        js_string(ns.last().id) + seq![':'] + js_snode(ns.last())
    } else {
        js_node_members(ns.drop_last()) + seq![','] + js_string(ns.last().id) + seq![':']
            + js_snode(ns.last())
    }
}

/// One edge object.
pub open spec fn js_sedge(e: SEdgeView) -> Seq<char> {
    seq!['{'] + js_string("from_id"@) + seq![':'] + js_string(e.from_id) + seq![','] + js_string(
        "to_id"@,
    ) + seq![':'] + js_string(e.to_id) + seq![','] + js_string("attr"@) + seq![':'] + js_attrs(
        e.attr,
    ) + seq![','] + js_string("meta"@) + seq![':'] + js_attrs(e.meta) + seq!['}']
}

pub open spec fn js_edge_members(es: Seq<SEdgeView>) -> Seq<char>
    decreases es.len(),
{
    if es.len() == 0 {
        Seq::empty()
    } else if es.len() == 1 {
        js_string(es.last().id) + seq![':'] + js_sedge(es.last())
    } else {
        js_edge_members(es.drop_last()) + seq![','] + js_string(es.last().id) + seq![':']
            + js_sedge(es.last())
    }
}

/// The nodes section of the document.
pub open spec fn js_sec_nodes(ns: Seq<SNodeView>) -> Seq<char> {
    seq!['{'] + js_string("nodes"@) + seq![':'] + seq!['{'] + js_node_members(ns) + seq!['}']
        + seq![',']
}

/// The edges section of the document.
pub open spec fn js_sec_edges(es: Seq<SEdgeView>) -> Seq<char> {
    js_string("edges"@) + seq![':'] + seq!['{'] + js_edge_members(es) + seq!['}'] + seq![',']
}

/// The graph-metadata sections of the document.
pub open spec fn js_sec_meta(m: Seq<(Seq<char>, ValueView)>) -> Seq<char> {
    js_string("meta"@) + seq![':'] + js_attrs(m) + seq![',']
}

pub open spec fn js_sec_metadata(m: Seq<(Seq<char>, ValueView)>) -> Seq<char> {
    js_string("metadata"@) + seq![':'] + js_attrs(m) + seq!['}']
}

/// The whole graph document.
pub open spec fn js_graph(sg: SGraphView) -> Seq<char> {
    js_sec_nodes(sg.nodes) + js_sec_edges(sg.edges) + js_sec_meta(sg.meta) + js_sec_metadata(
        sg.metadata,
    )
}

fn hex_exec(d: u32) -> (c: char)
    requires
        d < 16,
    ensures
        c == hex_char(d as nat),
{
    if d == 0 {
        '0'
    } else if d == 1 {
        '1'
    } else if d == 2 {
        '2'
    } else if d == 3 {
        '3'
    } else if d == 4 {
        '4'
    } else if d == 5 {
        '5'
    } else if d == 6 {
        '6'
    } else if d == 7 {
        '7'
    } else if d == 8 {
        '8'
    } else if d == 9 {
        '9'
    } else if d == 10 {
        'a'
    } else if d == 11 {
        'b'
    } else if d == 12 {
        'c'
    } else if d == 13 {
        'd'
    } else if d == 14 {
        'e'
    } else {
        'f'
    }
}

/// The decimal rendering of a 64-bit value.
fn u64_dec(n: u64) -> (s: String)
    ensures
        s@ == dec_str(n as nat),
    decreases n,
{
    if n < 10 {
        let mut s = String::new();
        push_char(&mut s, hex_exec(n as u32));
        proof {
            assert(s@ =~= dec_str(n as nat));
        }
        s
    } else {
        let mut s = u64_dec(n / 10);
        push_char(&mut s, hex_exec((n % 10) as u32));
        s
    }
}

/// Append a plain tag as a JSON string.
fn emit_tag(out: &mut String, tag: &str)
    requires
        forall|i: int|
            0 <= i < tag@.len() ==> (#[trigger] tag@[i]) != '"' && tag@[i] != '\\' && (tag@[i]
                as u32) >= 0x20,
    ensures
        final(out)@ == old(out)@ + js_string(tag@),
{
    push_char(out, '"');
    out.append(tag);
    push_char(out, '"');
    proof {
        lemma_esc_plain(tag@);
        assert(out@ =~= old(out)@ + js_string(tag@));
    }
}

/// Append a string as JSON, escaped.
fn emit_string(out: &mut String, s: &String)
    ensures
        final(out)@ == old(out)@ + js_string(s@),
{
    let ghost out0 = out@;
    push_char(out, '"');
    let len = s.as_str().unicode_len();
    let mut i: usize = 0;
    proof {
        assert(esc(s@.take(0)) =~= Seq::<char>::empty());
        assert(out@ =~= out0 + seq!['"'] + esc(s@.take(0)));
    }
    while i < len
        invariant
            len == s@.len(),
            i <= len,
            out@ == out0 + seq!['"'] + esc(s@.take(i as int)),
        decreases len - i,
    {
        let ghost opre = out@;
        let c = s.as_str().get_char(i);
        if c == '"' {
            push_char(out, '\\');
            push_char(out, '"');
            proof {
                assert(out@ =~= opre + esc_char(c));
            }
        } else if c == '\\' {
            push_char(out, '\\');
            push_char(out, '\\');
            proof {
                assert(out@ =~= opre + esc_char(c));
            }
        } else if (c as u32) < 0x20 {
            push_char(out, '\\');
            push_char(out, 'u');
            push_char(out, '0');
            push_char(out, '0');
            push_char(out, hex_exec((c as u32) / 16));
            push_char(out, hex_exec((c as u32) % 16));
            proof {
                assert(out@ =~= opre + esc_char(c));
            }
        } else {
            push_char(out, c);
            proof {
                assert(out@ =~= opre + esc_char(c));
            }
        }
        proof {
            assert(s@.take(i + 1).drop_last() =~= s@.take(i as int));
            assert(s@.take(i + 1).last() == s@[i as int]);
            assert(esc(s@.take(i + 1)) == esc(s@.take(i as int)) + esc_char(s@[i as int]));
            assert(out@ =~= out0 + seq!['"'] + esc(s@.take(i + 1)));
        }
        i += 1;
    }
    push_char(out, '"');
    proof {
        assert(s@.take(len as int) =~= s@);
        assert(out@ =~= out0 + js_string(s@));
    }
}

/// Append a signed integer as JSON.
fn emit_int(out: &mut String, i: i64)
    ensures
        final(out)@ == old(out)@ + js_int(i as int),
{
    let ghost out0 = out@;
    if i >= 0 {
        let d = u64_dec(i as u64);
        out.append(d.as_str());
        proof {
            assert(out@ =~= out0 + js_int(i as int));
        }
    } else {
        push_char(out, '-');
        let mag = ((-(i + 1)) as u64) + 1;
        let d = u64_dec(mag);
        out.append(d.as_str());
        proof {
            assert(mag as nat == (-(i as int)) as nat);
            assert(out@ =~= out0 + js_int(i as int));
        }
    }
}

/// Append one value as JSON.
fn emit_value(out: &mut String, v: &Value)
    ensures
        final(out)@ == old(out)@ + js_value(v@),
    decreases v,
{
    let ghost out0 = out@;
    match v {
        Value::Str(s) => {
            push_char(out, '{');
            proof {
                reveal_strlit("Str");
            }
            emit_tag(out, "Str");
            push_char(out, ':');
            emit_string(out, s);
            push_char(out, '}');
            proof {
                assert(out@ =~= out0 + js_value(v@));
            }
        },
        Value::Int(i) => {
            push_char(out, '{');
            proof {
                reveal_strlit("Int");
            }
            emit_tag(out, "Int");
            push_char(out, ':');
            emit_int(out, *i);
            push_char(out, '}');
            proof {
                assert(out@ =~= out0 + js_value(v@));
            }
        },
        Value::Float(b) => {
            push_char(out, '{');
            proof {
                reveal_strlit("Float");
            }
            emit_tag(out, "Float");
            push_char(out, ':');
            let d = u64_dec(*b);
            out.append(d.as_str());
            push_char(out, '}');
            proof {
                assert(out@ =~= out0 + js_value(v@));
            }
        },
        Value::Bool(b) => {
            if *b {
                out.append("true");
            } else {
                out.append("false");
            }
            proof {
                assert(out@ =~= out0 + js_value(v@));
            }
        },
        Value::Null => {
            out.append("null");
            proof {
                assert(out@ =~= out0 + js_value(v@));
            }
        },
        Value::List(xs) => {
            push_char(out, '{');
            proof {
                reveal_strlit("List");
            }
            emit_tag(out, "List");
            push_char(out, ':');
            push_char(out, '[');
            let ghost t = view_list(xs@);
            let ghost head = out@;
            proof {
                lemma_view_list_index(xs@);
                assert(js_items(t.take(0)) =~= Seq::<char>::empty());
                assert(out@ =~= head + js_items(t.take(0)));
            }
            let n = xs.len();
            let mut i: usize = 0;
            while i < n
                invariant
                    *v == Value::List(*xs),
                    n == xs@.len(),
                    t == view_list(xs@),
                    t.len() == n,
                    forall|j: int| 0 <= j < n ==> #[trigger] t[j] == xs@[j]@,
                    i <= n,
                    out@ == head + js_items(t.take(i as int)),
                decreases n - i,
            {
                let ghost opre = out@;
                if i > 0 {
                    push_char(out, ',');
                }
                proof {
                    assert(decreases_to!(*v => v->List_0));
                    assert(decreases_to!(*xs => xs@));
                    vstd::seq::axiom_seq_index_decreases(xs@, i as int);
                }
                emit_value(out, &xs[i]);
                proof {
                    assert(t.take(i + 1).drop_last() =~= t.take(i as int));
                    assert(t.take(i + 1).last() == t[i as int]);
                    if i == 0 {
                        assert(js_items(t.take(1)) == js_value(t[0]));
                        assert(out@ =~= head + js_items(t.take(i + 1)));
                    } else {
                        assert(js_items(t.take(i + 1)) == js_items(t.take(i as int)) + seq![',']
                            + js_value(t[i as int]));
                        assert(out@ =~= head + js_items(t.take(i + 1)));
                    }
                }
                i += 1;
            }
            push_char(out, ']');
            push_char(out, '}');
            proof {
                assert(t.take(n as int) =~= t);
                assert(out@ =~= out0 + js_value(v@));
            }
        },
        Value::Dict(es) => {
            push_char(out, '{');
            proof {
                reveal_strlit("Dict");
            }
            emit_tag(out, "Dict");
            push_char(out, ':');
            push_char(out, '{');
            let ghost t = view_entries(es@);
            let ghost head = out@;
            proof {
                lemma_view_entries_index(es@);
                assert(js_members(t.take(0)) =~= Seq::<char>::empty());
                assert(out@ =~= head + js_members(t.take(0)));
            }
            let n = es.len();
            let mut i: usize = 0;
            while i < n
                invariant
                    *v == Value::Dict(*es),
                    n == es@.len(),
                    t == view_entries(es@),
                    t.len() == n,
                    forall|j: int| 0 <= j < n ==> #[trigger] t[j] == (es@[j].0@, es@[j].1@),
                    i <= n,
                    out@ == head + js_members(t.take(i as int)),
                decreases n - i,
            {
                let ghost opre = out@;
                if i > 0 {
                    push_char(out, ',');
                }
                emit_string(out, &es[i].0);
                push_char(out, ':');
                proof {
                    assert(decreases_to!(*v => v->Dict_0));
                    assert(decreases_to!(*es => es@));
                    vstd::seq::axiom_seq_index_decreases(es@, i as int);
                }
                emit_value(out, &es[i].1);
                proof {
                    assert(t.take(i + 1).drop_last() =~= t.take(i as int));
                    assert(t.take(i + 1).last() == t[i as int]);
                    if i == 0 {
                        assert(js_members(t.take(1)) == js_string(t[0].0) + seq![':'] + js_value(
                            t[0].1,
                        ));
                        assert(out@ =~= head + js_members(t.take(i + 1)));
                    } else {
                        assert(js_members(t.take(i + 1)) == js_members(t.take(i as int))
                            + seq![','] + js_string(t[i as int].0) + seq![':'] + js_value(
                            t[i as int].1,
                        ));
                        assert(out@ =~= head + js_members(t.take(i + 1)));
                    }
                }
                i += 1;
            }
            push_char(out, '}');
            push_char(out, '}');
            proof {
                assert(t.take(n as int) =~= t);
                assert(out@ =~= out0 + js_value(v@));
            }
        },
    }
}

/// Append an attribute map as a JSON object.
fn emit_attrs(out: &mut String, m: &Attrs)
    ensures
        final(out)@ == old(out)@ + js_attrs(m@),
{
    let ghost out0 = out@;
    push_char(out, '{');
    let ghost head = out@;
    proof {
        assert(js_members(m@.take(0)) =~= Seq::<char>::empty());
        assert(out@ =~= head + js_members(m@.take(0)));
    }
    let n = m.len();
    let mut i: usize = 0;
    while i < n
        invariant
            n == m@.len(),
            i <= n,
            out@ == head + js_members(m@.take(i as int)),
        decreases n - i,
    {
        if i > 0 {
            push_char(out, ',');
        }
        emit_string(out, m.key_at(i));
        push_char(out, ':');
        emit_value(out, m.value_at(i));
        proof {
            assert(m@.take(i + 1).drop_last() =~= m@.take(i as int));
            assert(m@.take(i + 1).last() == m@[i as int]);
            if i == 0 {
                assert(js_members(m@.take(1)) == js_string(m@[0].0) + seq![':'] + js_value(
                    m@[0].1,
                ));
            } else {
                assert(js_members(m@.take(i + 1)) == js_members(m@.take(i as int)) + seq![',']
                    + js_string(m@[i as int].0) + seq![':'] + js_value(m@[i as int].1));
            }
            assert(out@ =~= head + js_members(m@.take(i + 1)));
        }
        i += 1;
    }
    push_char(out, '}');
    proof {
        assert(m@.take(n as int) =~= m@);
        assert(out@ =~= out0 + js_attrs(m@));
    }
}

/// Append a string list as a JSON array.
fn emit_str_arr(out: &mut String, l: &Vec<String>)
    ensures
        final(out)@ == old(out)@ + js_str_arr(crate::traversal::strs_view(l@)),
{
    let ghost out0 = out@;
    let ghost t = crate::traversal::strs_view(l@);
    push_char(out, '[');
    let ghost head = out@;
    proof {
        assert(js_str_items(t.take(0)) =~= Seq::<char>::empty());
        assert(out@ =~= head + js_str_items(t.take(0)));
    }
    let n = l.len();
    let mut i: usize = 0;
    while i < n
        invariant
            t == crate::traversal::strs_view(l@),
            n == l@.len(),
            t.len() == n,
            i <= n,
            out@ == head + js_str_items(t.take(i as int)),
        decreases n - i,
    {
        if i > 0 {
            push_char(out, ',');
        }
        emit_string(out, &l[i]);
        proof {
            assert(t.take(i + 1).drop_last() =~= t.take(i as int));
            assert(t.take(i + 1).last() == t[i as int]);
            if i == 0 {
                assert(js_str_items(t.take(1)) == js_string(t[0]));
            } else {
                assert(js_str_items(t.take(i + 1)) == js_str_items(t.take(i as int)) + seq![',']
                    + js_string(t[i as int]));
            }
            assert(out@ =~= head + js_str_items(t.take(i + 1)));
        }
        i += 1;
    }
    push_char(out, ']');
    proof {
        assert(t.take(n as int) =~= t);
        assert(out@ =~= out0 + js_str_arr(t));
    }
}

#[verifier::rlimit(100)]
fn emit_snode(out: &mut String, n: &SerializableNode)
    ensures
        final(out)@ == old(out)@ + js_snode(n@),
{
    let ghost out0 = out@;
    push_char(out, '{');
    proof {
        reveal_strlit("id");
        reveal_strlit("attr");
        reveal_strlit("meta");
        reveal_strlit("edge_ids");
        reveal_strlit("inverse_edge_ids");
    }
    emit_tag(out, "id");
    push_char(out, ':');
    emit_string(out, &n.id);
    push_char(out, ',');
    emit_tag(out, "attr");
    push_char(out, ':');
    emit_attrs(out, &n.attr);
    push_char(out, ',');
    emit_tag(out, "meta");
    push_char(out, ':');
    emit_attrs(out, &n.meta);
    push_char(out, ',');
    emit_tag(out, "edge_ids");
    push_char(out, ':');
    emit_str_arr(out, &n.edge_ids);
    push_char(out, ',');
    emit_tag(out, "inverse_edge_ids");
    push_char(out, ':');
    emit_str_arr(out, &n.inverse_edge_ids);
    push_char(out, '}');
    proof {
        assert(out@ =~= out0 + js_snode(n@));
    }
}

#[verifier::rlimit(100)]
fn emit_sedge(out: &mut String, e: &SerializableEdge)
    ensures
        final(out)@ == old(out)@ + js_sedge(e@),
{
    let ghost out0 = out@;
    push_char(out, '{');
    proof {
        reveal_strlit("from_id");
        reveal_strlit("to_id");
        reveal_strlit("attr");
        reveal_strlit("meta");
    }
    emit_tag(out, "from_id");
    push_char(out, ':');
    emit_string(out, &e.from_id);
    push_char(out, ',');
    emit_tag(out, "to_id");
    push_char(out, ':');
    emit_string(out, &e.to_id);
    push_char(out, ',');
    emit_tag(out, "attr");
    push_char(out, ':');
    emit_attrs(out, &e.attr);
    push_char(out, ',');
    emit_tag(out, "meta");
    push_char(out, ':');
    emit_attrs(out, &e.meta);
    push_char(out, '}');
    proof {
        assert(out@ =~= out0 + js_sedge(e@));
    }
}

#[verifier::rlimit(100)]
fn emit_node_table(out: &mut String, nodes: &Vec<SerializableNode>)
    ensures
        final(out)@ == old(out)@ + seq!['{'] + js_node_members(view_snodes(nodes@)) + seq!['}'],
{
    let ghost out0 = out@;
    push_char(out, '{');
    let ghost t = view_snodes(nodes@);
    let ghost head = out@;
    proof {
        assert(js_node_members(t.take(0)) =~= Seq::<char>::empty());
        assert(out@ =~= head + js_node_members(t.take(0)));
    }
    let n = nodes.len();
    let mut i: usize = 0;
    while i < n
        invariant
            t == view_snodes(nodes@),
            n == nodes@.len(),
            t.len() == n,
            i <= n,
            out@ == head + js_node_members(t.take(i as int)),
        decreases n - i,
    {
        if i > 0 {
            push_char(out, ',');
        }
        emit_string(out, &nodes[i].id);
        push_char(out, ':');
        emit_snode(out, &nodes[i]);
        proof {
            assert(t[i as int] == nodes@[i as int]@);
            assert(t.take(i + 1).drop_last() =~= t.take(i as int));
            assert(t.take(i + 1).last() == t[i as int]);
            if i == 0 {
                assert(js_node_members(t.take(1)) == js_string(t[0].id) + seq![':'] + js_snode(
                    t[0],
                ));
            } else {
                assert(js_node_members(t.take(i + 1)) == js_node_members(t.take(i as int))
                    + seq![','] + js_string(t[i as int].id) + seq![':'] + js_snode(t[i as int]));
            }
            assert(out@ =~= head + js_node_members(t.take(i + 1)));
        }
        i += 1;
    }
    push_char(out, '}');
    proof {
        assert(t.take(n as int) =~= t);
        assert(out@ =~= out0 + seq!['{'] + js_node_members(t) + seq!['}']);
    }
}

#[verifier::rlimit(100)]
fn emit_edge_table(out: &mut String, edges: &Vec<SerializableEdge>)
    ensures
        final(out)@ == old(out)@ + seq!['{'] + js_edge_members(view_sedges(edges@)) + seq!['}'],
{
    let ghost out0 = out@;
    push_char(out, '{');
    let ghost t = view_sedges(edges@);
    let ghost head = out@;
    proof {
        assert(js_edge_members(t.take(0)) =~= Seq::<char>::empty());
        assert(out@ =~= head + js_edge_members(t.take(0)));
    }
    let n = edges.len();
    let mut i: usize = 0;
    while i < n
        invariant
            t == view_sedges(edges@),
            n == edges@.len(),
            t.len() == n,
            i <= n,
            out@ == head + js_edge_members(t.take(i as int)),
        decreases n - i,
    {
        if i > 0 {
            push_char(out, ',');
        }
        emit_string(out, &edges[i].id);
        push_char(out, ':');
        emit_sedge(out, &edges[i]);
        proof {
            assert(t[i as int] == edges@[i as int]@);
            assert(t.take(i + 1).drop_last() =~= t.take(i as int));
            assert(t.take(i + 1).last() == t[i as int]);
            if i == 0 {
                assert(js_edge_members(t.take(1)) == js_string(t[0].id) + seq![':'] + js_sedge(
                    t[0],
                ));
            } else {
                assert(js_edge_members(t.take(i + 1)) == js_edge_members(t.take(i as int))
                    + seq![','] + js_string(t[i as int].id) + seq![':'] + js_sedge(t[i as int]));
            }
            assert(out@ =~= head + js_edge_members(t.take(i + 1)));
        }
        i += 1;
    }
    push_char(out, '}');
    proof {
        assert(t.take(n as int) =~= t);
        assert(out@ =~= out0 + seq!['{'] + js_edge_members(t) + seq!['}']);
    }
}

impl SerializableGraph {
    /// The JSON text of this portable graph, exactly as `js_graph` says.
    #[verifier::rlimit(100)]
    pub fn save_to_json(&self) -> (out: String)
        ensures
            out@ == js_graph(self@),
    {
        let mut out = String::new();
        push_char(&mut out, '{');
        proof {
            reveal_strlit("nodes");
            reveal_strlit("edges");
            reveal_strlit("meta");
            reveal_strlit("metadata");
        }
        emit_tag(&mut out, "nodes");
        push_char(&mut out, ':');
        emit_node_table(&mut out, &self.nodes);
        push_char(&mut out, ',');
        proof {
            assert(out@ =~= js_sec_nodes(self@.nodes));
        }
        let ghost c1 = out@;
        emit_tag(&mut out, "edges");
        push_char(&mut out, ':');
        emit_edge_table(&mut out, &self.edges);
        push_char(&mut out, ',');
        proof {
            assert(out@ =~= c1 + js_sec_edges(self@.edges));
        }
        let ghost c2 = out@;
        emit_tag(&mut out, "meta");
        push_char(&mut out, ':');
        emit_attrs(&mut out, &self.meta);
        push_char(&mut out, ',');
        proof {
            assert(out@ =~= c2 + js_sec_meta(self@.meta));
        }
        let ghost c3 = out@;
        emit_tag(&mut out, "metadata");
        push_char(&mut out, ':');
        emit_attrs(&mut out, &self.metadata);
        push_char(&mut out, '}');
        proof {
            assert(out@ =~= c3 + js_sec_metadata(self@.metadata));
            assert(out@ =~= js_graph(self@));
        }
        out
    }
}

fn digit_of(c: char) -> (r: Option<u64>)
    ensures
        match r {
            Some(d) => d < 10 && c == digit_char(d as nat),
            None => forall|d: nat| d < 10 ==> c != digit_char(d),
        },
{
    if c == '0' {
        Some(0)
    } else if c == '1' {
        Some(1)
    } else if c == '2' {
        Some(2)
    } else if c == '3' {
        Some(3)
    } else if c == '4' {
        Some(4)
    } else if c == '5' {
        Some(5)
    } else if c == '6' {
        Some(6)
    } else if c == '7' {
        Some(7)
    } else if c == '8' {
        Some(8)
    } else if c == '9' {
        Some(9)
    } else {
        None
    }
}

fn hex_of(c: char) -> (r: Option<u32>)
    ensures
        match r {
            Some(d) => d < 16 && c == hex_char(d as nat),
            None => true,
        },
{
    if c == '0' {
        Some(0)
    } else if c == '1' {
        Some(1)
    } else if c == '2' {
        Some(2)
    } else if c == '3' {
        Some(3)
    } else if c == '4' {
        Some(4)
    } else if c == '5' {
        Some(5)
    } else if c == '6' {
        Some(6)
    } else if c == '7' {
        Some(7)
    } else if c == '8' {
        Some(8)
    } else if c == '9' {
        Some(9)
    } else if c == 'a' {
        Some(10)
    } else if c == 'b' {
        Some(11)
    } else if c == 'c' {
        Some(12)
    } else if c == 'd' {
        Some(13)
    } else if c == 'e' {
        Some(14)
    } else if c == 'f' {
        Some(15)
    } else {
        None
    }
}

/// Expect one literal character.
fn p_char(js: &str, pos: usize, c: char) -> (r: Result<usize, GraphError>)
    ensures
        match r {
            Ok(end) => end == pos + 1 && end <= js@.len() && js@.subrange(pos as int, end as int)
                =~= seq![c],
            Err(e) => e == GraphError::CodecError,
        },
{
    if pos >= js.unicode_len() {
        return Err(GraphError::CodecError);
    }
    if js.get_char(pos) == c {
        proof {
            assert(js@.subrange(pos as int, (pos + 1) as int) =~= seq![c]);
        }
        Ok(pos + 1)
    } else {
        Err(GraphError::CodecError)
    }
}

/// Parse one JSON string.
fn p_string(js: &str, pos: usize) -> (r: Result<(String, usize), GraphError>)
    ensures
        match r {
            Ok((s, end)) => pos < end <= js@.len() && js@.subrange(pos as int, end as int)
                == js_string(s@),
            Err(e) => e == GraphError::CodecError,
        },
{
    let p1 = match p_char(js, pos, '"') {
        Ok(p) => p,
        Err(e) => {
            return Err(e);
        },
    };
    let len = js.unicode_len();
    let mut s = String::new();
    let mut cur = p1;
    let mut closed = false;
    proof {
        assert(esc(s@) =~= Seq::<char>::empty());
        assert(js@.subrange(p1 as int, cur as int) =~= Seq::<char>::empty());
        assert(js@.subrange(pos as int, p1 as int)[0] == js@[pos as int]);
        assert(js@[pos as int] == '"');
    }
    while !closed
        invariant
            len == js@.len(),
            pos + 1 == p1,
            p1 <= cur <= len,
            pos < len && js@[pos as int] == '"',
            closed ==> cur >= p1 + 1,
            js@.subrange(p1 as int, (if closed {
                cur - 1
            } else {
                cur as int
            })) == esc(s@),
            closed ==> js@[cur - 1] == '"',
        decreases len - cur, if closed {
            0int
        } else {
            1int
        },
    {
        if cur >= len {
            return Err(GraphError::CodecError);
        }
        let c = js.get_char(cur);
        if c == '"' {
            cur = cur + 1;
            closed = true;
        } else if c == '\\' {
            if cur + 1 >= len {
                return Err(GraphError::CodecError);
            }
            let c2 = js.get_char(cur + 1);
            let ghost s0 = s@;
            if c2 == '"' {
                push_char(&mut s, '"');
                proof {
                    assert(s@.drop_last() =~= s0);
                    assert(esc(s@) == esc(s0) + esc_char('"'));
                    assert(js@.subrange(p1 as int, (cur + 2) as int) =~= js@.subrange(
                        p1 as int,
                        cur as int,
                    ) + seq!['\\', '"']);
                }
                cur = cur + 2;
            } else if c2 == '\\' {
                push_char(&mut s, '\\');
                proof {
                    assert(s@.drop_last() =~= s0);
                    assert(esc(s@) == esc(s0) + esc_char('\\'));
                    assert(js@.subrange(p1 as int, (cur + 2) as int) =~= js@.subrange(
                        p1 as int,
                        cur as int,
                    ) + seq!['\\', '\\']);
                }
                cur = cur + 2;
            } else if c2 == 'u' {
                if len - cur < 6 {
                    return Err(GraphError::CodecError);
                }
                if js.get_char(cur + 2) != '0' || js.get_char(cur + 3) != '0' {
                    return Err(GraphError::CodecError);
                }
                let d1 = match hex_of(js.get_char(cur + 4)) {
                    Some(d) => d,
                    None => {
                        return Err(GraphError::CodecError);
                    },
                };
                let d2 = match hex_of(js.get_char(cur + 5)) {
                    Some(d) => d,
                    None => {
                        return Err(GraphError::CodecError);
                    },
                };
                let code = d1 * 16 + d2;
                if code >= 0x20 {
                    return Err(GraphError::CodecError);
                }
                let cc = match char::from_u32(code) {
                    Some(cc) => cc,
                    None => {
                        return Err(GraphError::CodecError);
                    },
                };
                push_char(&mut s, cc);
                proof {
                    assert(s@.drop_last() =~= s0);
                    assert(esc(s@) == esc(s0) + esc_char(cc));
                    assert((cc as u32) / 16 == d1 && (cc as u32) % 16 == d2) by (nonlinear_arith)
                        requires
                            cc as u32 == d1 * 16 + d2,
                            d2 < 16,
                    ;
                    assert(esc_char(cc) =~= seq!['\\', 'u', '0', '0', hex_char(d1 as nat), hex_char(
                        d2 as nat,
                    )]);
                    assert(js@.subrange(p1 as int, (cur + 6) as int) =~= js@.subrange(
                        p1 as int,
                        cur as int,
                    ) + seq![js@[cur as int], js@[cur + 1], js@[cur + 2], js@[cur + 3], js@[cur + 4], js@[cur
                        + 5]]);
                }
                cur = cur + 6;
            } else {
                return Err(GraphError::CodecError);
            }
        } else {
            if (c as u32) < 0x20 {
                return Err(GraphError::CodecError);
            }
            let ghost s0 = s@;
            push_char(&mut s, c);
            proof {
                assert(s@.drop_last() =~= s0);
                assert(esc_char(c) =~= seq![c]);
                assert(esc(s@) == esc(s0) + esc_char(c));
                assert(js@.subrange(p1 as int, (cur + 1) as int) =~= js@.subrange(
                    p1 as int,
                    cur as int,
                ) + seq![c]);
            }
            cur = cur + 1;
        }
    }
    proof {
        assert(js@.subrange(pos as int, cur as int) =~= seq!['"'] + js@.subrange(
            p1 as int,
            (cur - 1) as int,
        ) + seq![js@[cur - 1]]);
        assert(js@.subrange(pos as int, cur as int) =~= js_string(s@));
    }
    Ok((s, cur))
}

/// Parse an unsigned decimal without leading zeros.
fn p_u64(js: &str, pos: usize) -> (r: Result<(u64, usize), GraphError>)
    ensures
        match r {
            Ok((n, end)) => pos < end <= js@.len() && js@.subrange(pos as int, end as int)
                == dec_str(n as nat),
            Err(e) => e == GraphError::CodecError,
        },
{
    let len = js.unicode_len();
    if pos >= len {
        return Err(GraphError::CodecError);
    }
    let d0 = match digit_of(js.get_char(pos)) {
        Some(d) => d,
        None => {
            return Err(GraphError::CodecError);
        },
    };
    proof {
        assert(js@.subrange(pos as int, (pos + 1) as int) =~= seq![js@[pos as int]]);
        assert(dec_str(d0 as nat) =~= seq![digit_char(d0 as nat)]);
    }
    if d0 == 0 {
        return Ok((0, pos + 1));
    }
    let mut n: u64 = d0;
    let mut cur = pos + 1;
    while cur < len
        invariant
            len == js@.len(),
            pos < cur <= len,
            1 <= n,
            js@.subrange(pos as int, cur as int) == dec_str(n as nat),
        decreases len - cur,
    {
        let d = match digit_of(js.get_char(cur)) {
            Some(d) => d,
            None => {
                return Ok((n, cur));
            },
        };
        if n > (0xffffffffffffffffu64 - d) / 10 {
            return Err(GraphError::CodecError);
        }
        let n2 = n * 10 + d;
        proof {
            assert((n2 as nat) / 10 == n as nat && (n2 as nat) % 10 == d as nat)
                by (nonlinear_arith)
                requires
                    n2 as nat == (n as nat) * 10 + (d as nat),
                    (d as nat) < 10,
            ;
            assert(n2 as nat >= 10);
            assert(dec_str(n2 as nat) == dec_str(n as nat).push(digit_char(d as nat)));
            assert(js@.subrange(pos as int, (cur + 1) as int) =~= js@.subrange(
                pos as int,
                cur as int,
            ).push(js@[cur as int]));
        }
        n = n2;
        cur = cur + 1;
    }
    Ok((n, cur))
}

/// Parse a signed decimal.
fn p_i64(js: &str, pos: usize) -> (r: Result<(i64, usize), GraphError>)
    ensures
        match r {
            Ok((i, end)) => pos < end <= js@.len() && js@.subrange(pos as int, end as int)
                == js_int(i as int),
            Err(e) => e == GraphError::CodecError,
        },
{
    let len = js.unicode_len();
    if pos >= len {
        return Err(GraphError::CodecError);
    }
    if js.get_char(pos) == '-' {
        let (mag, end) = match p_u64(js, pos + 1) {
            Ok(r) => r,
            Err(e) => {
                return Err(e);
            },
        };
        if mag == 0 || mag > 0x8000000000000000u64 {
            return Err(GraphError::CodecError);
        }
        let i = if mag == 0x8000000000000000u64 {
            i64::MIN
        } else {
            -(mag as i64)
        };
        proof {
            assert((-(i as int)) as nat == mag as nat);
            assert(js@.subrange(pos as int, end as int) =~= seq!['-'] + js@.subrange(
                pos + 1,
                end as int,
            ));
        }
        Ok((i, end))
    } else {
        let (mag, end) = match p_u64(js, pos) {
            Ok(r) => r,
            Err(e) => {
                return Err(e);
            },
        };
        if mag > 0x7fffffffffffffffu64 {
            return Err(GraphError::CodecError);
        }
        Ok((mag as i64, end))
    }
}

/// Parse a JSON string and require it to be the given plain key, then a
/// colon.
fn p_key(js: &str, pos: usize, key: &str) -> (r: Result<usize, GraphError>)
    requires
        forall|i: int|
            0 <= i < key@.len() ==> (#[trigger] key@[i]) != '"' && key@[i] != '\\' && (key@[i]
                as u32) >= 0x20,
    ensures
        match r {
            Ok(end) => pos < end <= js@.len() && js@.subrange(pos as int, end as int) == js_string(
                key@,
            ) + seq![':'],
            Err(e) => e == GraphError::CodecError,
        },
{
    let (s, p1) = match p_string(js, pos) {
        Ok(r) => r,
        Err(e) => {
            return Err(e);
        },
    };
    if !s.eq(&key.to_owned()) {
        return Err(GraphError::CodecError);
    }
    let p2 = match p_char(js, p1, ':') {
        Ok(p) => p,
        Err(e) => {
            return Err(e);
        },
    };
    proof {
        assert(js@.subrange(pos as int, p2 as int) =~= js@.subrange(pos as int, p1 as int)
            + js@.subrange(p1 as int, p2 as int));
    }
    Ok(p2)
}

/// Expect a fixed literal.
fn p_lit(js: &str, pos: usize, pat: &str) -> (r: Result<usize, GraphError>)
    ensures
        match r {
            Ok(end) => end == pos + pat@.len() && end <= js@.len() && js@.subrange(
                pos as int,
                end as int,
            ) == pat@,
            Err(e) => e == GraphError::CodecError,
        },
{
    let n = pat.unicode_len();
    let len = js.unicode_len();
    if n > len || pos > len - n {
        return Err(GraphError::CodecError);
    }
    let mut i: usize = 0;
    while i < n
        invariant
            n == pat@.len(),
            len == js@.len(),
            pos + n <= len,
            i <= n,
            forall|j: int| 0 <= j < i ==> js@[pos + j] == pat@[j],
        decreases n - i,
    {
        if js.get_char(pos + i) != pat.get_char(i) {
            return Err(GraphError::CodecError);
        }
        i += 1;
    }
    proof {
        assert(js@.subrange(pos as int, (pos + n) as int) =~= pat@);
    }
    Ok(pos + n)
}

/// Parse the items of a list up to and including the closing bracket.
#[verifier::rlimit(100)]
#[verifier::spinoff_prover]
fn p_list_items(js: &str, pos: usize) -> (r: Result<(Vec<Value>, usize), GraphError>)
    requires
        pos <= js@.len(),
    ensures
        match r {
            Ok((items, end)) => pos < end <= js@.len() && js@.subrange(pos as int, end as int)
                == js_items(view_list(items@)) + seq![']'],
            Err(e) => e == GraphError::CodecError,
        },
    decreases js@.len() - pos, 1int,
{
    let len = js.unicode_len();
    let mut items: Vec<Value> = Vec::new();
    let mut cur = pos;
    let mut done = false;
    proof {
        lemma_view_list_index(items@);
        assert(js_items(view_list(items@)) =~= Seq::<char>::empty());
        assert(js@.subrange(pos as int, cur as int) =~= Seq::<char>::empty());
    }
    if cur < len && js.get_char(cur) == ']' {
        cur = cur + 1;
        done = true;
        proof {
            assert(js@.subrange(pos as int, (cur - 1) as int) =~= js_items(view_list(items@)));
        }
    }
    while !done
        invariant
            len == js@.len(),
            pos <= cur <= len,
            done ==> cur >= pos + 1 && js@[cur - 1] == ']',
            js@.subrange(pos as int, (if done {
                cur - 1
            } else {
                cur as int
            })) == js_items(view_list(items@)),
        decreases len - cur, if done {
            0int
        } else {
            1int
        },
    {
        let ghost items0 = items@;
        if items.len() > 0 {
            let pc = match p_char(js, cur, ',') {
                Ok(p) => p,
                Err(e) => {
                    return Err(e);
                },
            };
            let (v, nx) = match p_value(js, pc) {
                Ok(r) => r,
                Err(e) => {
                    return Err(e);
                },
            };
            items.push(v);
            proof {
                let t1 = view_list(items@);
                assert(t1 =~= view_list(items0).push(items@[items0.len() as int]@)) by {
                    assert(items@.drop_last() =~= items0);
                }
                assert(t1.drop_last() =~= view_list(items0));
                lemma_view_list_index(items0);
                assert(t1.len() >= 2);
                assert(js_items(t1) == js_items(view_list(items0)) + seq![','] + js_value(
                    t1.last(),
                ));
                assert(js@.subrange(pos as int, nx as int) =~= js@.subrange(pos as int, cur as int)
                    + seq![','] + js@.subrange(pc as int, nx as int));
            }
            cur = nx;
        } else {
            let (v, nx) = match p_value(js, cur) {
                Ok(r) => r,
                Err(e) => {
                    return Err(e);
                },
            };
            items.push(v);
            proof {
                let t1 = view_list(items@);
                assert(t1 =~= view_list(items0).push(items@[0int]@)) by {
                    assert(items@.drop_last() =~= items0);
                }
                lemma_view_list_index(items0);
                assert(t1.len() == 1);
                assert(js_items(t1) == js_value(t1.last()));
                assert(js@.subrange(pos as int, nx as int) =~= js@.subrange(cur as int, nx as int));
            }
            cur = nx;
        }
        if cur < len && js.get_char(cur) == ']' {
            cur = cur + 1;
            done = true;
        }
    }
    proof {
        assert(js@.subrange(pos as int, cur as int) =~= js@.subrange(pos as int, (cur - 1) as int)
            + seq![js@[cur - 1]]);
    }
    Ok((items, cur))
}

/// Parse the members of a tagged dictionary up to and including the
/// closing brace.
#[verifier::rlimit(100)]
#[verifier::spinoff_prover]
fn p_dict_members(js: &str, pos: usize) -> (r: Result<(Vec<(String, Value)>, usize), GraphError>)
    requires
        pos <= js@.len(),
    ensures
        match r {
            Ok((entries, end)) => pos < end <= js@.len() && js@.subrange(pos as int, end as int)
                == js_members(view_entries(entries@)) + seq!['}'],
            Err(e) => e == GraphError::CodecError,
        },
    decreases js@.len() - pos, 1int,
{
    let len = js.unicode_len();
    let mut entries: Vec<(String, Value)> = Vec::new();
    let mut cur = pos;
    let mut done = false;
    proof {
        lemma_view_entries_index(entries@);
        assert(js_members(view_entries(entries@)) =~= Seq::<char>::empty());
        assert(js@.subrange(pos as int, cur as int) =~= Seq::<char>::empty());
    }
    if cur < len && js.get_char(cur) == '}' {
        cur = cur + 1;
        done = true;
        proof {
            assert(js@.subrange(pos as int, (cur - 1) as int) =~= js_members(
                view_entries(entries@),
            ));
        }
    }
    while !done
        invariant
            len == js@.len(),
            pos <= cur <= len,
            done ==> cur >= pos + 1 && js@[cur - 1] == '}',
            js@.subrange(pos as int, (if done {
                cur - 1
            } else {
                cur as int
            })) == js_members(view_entries(entries@)),
        decreases len - cur, if done {
            0int
        } else {
            1int
        },
    {
        let ghost entries0 = entries@;
        let mut pk = cur;
        if entries.len() > 0 {
            pk = match p_char(js, cur, ',') {
                Ok(p) => p,
                Err(e) => {
                    return Err(e);
                },
            };
        }
        let (key, pv) = match p_string(js, pk) {
            Ok(r) => r,
            Err(e) => {
                return Err(e);
            },
        };
        let pw = match p_char(js, pv, ':') {
            Ok(p) => p,
            Err(e) => {
                return Err(e);
            },
        };
        let (v, nx) = match p_value(js, pw) {
            Ok(r) => r,
            Err(e) => {
                return Err(e);
            },
        };
        let entry = (key, v);
        entries.push(entry);
        proof {
            let t1 = view_entries(entries@);
            assert(t1 =~= view_entries(entries0).push(
                (entries@[entries0.len() as int].0@, entries@[entries0.len() as int].1@),
            )) by {
                assert(entries@.drop_last() =~= entries0);
            }
            assert(t1.drop_last() =~= view_entries(entries0));
            if entries0.len() == 0 {
                lemma_view_entries_index(entries0);
                assert(t1.len() == 1);
                assert(js_members(t1) == js_string(t1.last().0) + seq![':'] + js_value(
                    t1.last().1,
                ));
                assert(js@.subrange(pos as int, nx as int) =~= js@.subrange(pk as int, pv as int)
                    + seq![':'] + js@.subrange(pw as int, nx as int));
            } else {
                lemma_view_entries_index(entries0);
                assert(t1.len() >= 2);
                assert(js_members(t1) == js_members(view_entries(entries0)) + seq![',']
                    + js_string(t1.last().0) + seq![':'] + js_value(t1.last().1));
                assert(js@.subrange(pos as int, nx as int) =~= js@.subrange(pos as int, cur as int)
                    + seq![','] + js@.subrange(pk as int, pv as int) + seq![':'] + js@.subrange(
                    pw as int,
                    nx as int,
                ));
            }
        }
        cur = nx;
        if cur < len && js.get_char(cur) == '}' {
            cur = cur + 1;
            done = true;
        }
    }
    proof {
        assert(js@.subrange(pos as int, cur as int) =~= js@.subrange(pos as int, (cur - 1) as int)
            + seq![js@[cur - 1]]);
    }
    Ok((entries, cur))
}

/// Parse one tagged value.
#[verifier::rlimit(100)]
#[verifier::spinoff_prover]
fn p_value(js: &str, pos: usize) -> (r: Result<(Value, usize), GraphError>)
    ensures
        match r {
            Ok((v, end)) => pos < end <= js@.len() && js@.subrange(pos as int, end as int)
                == js_value(v@),
            Err(e) => e == GraphError::CodecError,
        },
    decreases js@.len() - pos, 0int,
{
    let len = js.unicode_len();
    if pos >= len {
        return Err(GraphError::CodecError);
    }
    let c = js.get_char(pos);
    if c == 't' {
        let end = match p_lit(js, pos, "true") {
            Ok(end) => end,
            Err(e) => {
                return Err(e);
            },
        };
        proof {
            reveal_strlit("true");
        }
        Ok((Value::Bool(true), end))
    } else if c == 'f' {
        let end = match p_lit(js, pos, "false") {
            Ok(end) => end,
            Err(e) => {
                return Err(e);
            },
        };
        proof {
            reveal_strlit("false");
        }
        Ok((Value::Bool(false), end))
    } else if c == 'n' {
        let end = match p_lit(js, pos, "null") {
            Ok(end) => end,
            Err(e) => {
                return Err(e);
            },
        };
        proof {
            reveal_strlit("null");
        }
        Ok((Value::Null, end))
    } else if c == '{' {
        let (tag, p1) = match p_string(js, pos + 1) {
            Ok(r) => r,
            Err(e) => {
                return Err(e);
            },
        };
        let p2 = match p_char(js, p1, ':') {
            Ok(p) => p,
            Err(e) => {
                return Err(e);
            },
        };
        proof {
            assert(js@.subrange(pos as int, p2 as int) =~= seq!['{'] + js@.subrange(
                pos + 1,
                p1 as int,
            ) + seq![':']);
        }
        if tag.eq(&String::from_str("Str")) {
            let (s, p3) = match p_string(js, p2) {
                Ok(r) => r,
                Err(e) => {
                    return Err(e);
                },
            };
            let end = match p_char(js, p3, '}') {
                Ok(p) => p,
                Err(e) => {
                    return Err(e);
                },
            };
            let v = Value::Str(s);
            proof {
                assert(js@.subrange(pos as int, end as int) =~= js@.subrange(pos as int, p2 as int)
                    + js@.subrange(p2 as int, p3 as int) + seq!['}']);
                assert(js@.subrange(pos as int, end as int) =~= js_value(v@));
            }
            Ok((v, end))
        } else if tag.eq(&String::from_str("Int")) {
            let (i, p3) = match p_i64(js, p2) {
                Ok(r) => r,
                Err(e) => {
                    return Err(e);
                },
            };
            let end = match p_char(js, p3, '}') {
                Ok(p) => p,
                Err(e) => {
                    return Err(e);
                },
            };
            let v = Value::Int(i);
            proof {
                assert(js@.subrange(pos as int, end as int) =~= js@.subrange(pos as int, p2 as int)
                    + js@.subrange(p2 as int, p3 as int) + seq!['}']);
                assert(js@.subrange(pos as int, end as int) =~= js_value(v@));
            }
            Ok((v, end))
        } else if tag.eq(&String::from_str("Float")) {
            let (b, p3) = match p_u64(js, p2) {
                Ok(r) => r,
                Err(e) => {
                    return Err(e);
                },
            };
            let end = match p_char(js, p3, '}') {
                Ok(p) => p,
                Err(e) => {
                    return Err(e);
                },
            };
            let v = Value::Float(b);
            proof {
                assert(js@.subrange(pos as int, end as int) =~= js@.subrange(pos as int, p2 as int)
                    + js@.subrange(p2 as int, p3 as int) + seq!['}']);
                assert(js@.subrange(pos as int, end as int) =~= js_value(v@));
            }
            Ok((v, end))
        } else if tag.eq(&String::from_str("List")) {
            let p3 = match p_char(js, p2, '[') {
                Ok(p) => p,
                Err(e) => {
                    return Err(e);
                },
            };
            let (items, p4) = match p_list_items(js, p3) {
                Ok(r) => r,
                Err(e) => {
                    return Err(e);
                },
            };
            let end = match p_char(js, p4, '}') {
                Ok(p) => p,
                Err(e) => {
                    return Err(e);
                },
            };
            let v = Value::List(items);
            proof {
                assert(js@.subrange(pos as int, end as int) =~= js@.subrange(pos as int, p2 as int)
                    + seq!['['] + js@.subrange(p3 as int, p4 as int) + seq!['}']);
                assert(js@.subrange(pos as int, end as int) =~= js_value(v@));
            }
            Ok((v, end))
        } else if tag.eq(&String::from_str("Dict")) {
            let p3 = match p_char(js, p2, '{') {
                Ok(p) => p,
                Err(e) => {
                    return Err(e);
                },
            };
            let (entries, p4) = match p_dict_members(js, p3) {
                Ok(r) => r,
                Err(e) => {
                    return Err(e);
                },
            };
            let end = match p_char(js, p4, '}') {
                Ok(p) => p,
                Err(e) => {
                    return Err(e);
                },
            };
            let v = Value::Dict(entries);
            proof {
                assert(js@.subrange(pos as int, end as int) =~= js@.subrange(pos as int, p2 as int)
                    + seq!['{'] + js@.subrange(p3 as int, p4 as int) + seq!['}']);
                assert(js@.subrange(pos as int, end as int) =~= js_value(v@));
            }
            Ok((v, end))
        } else {
            Err(GraphError::CodecError)
        }
    } else {
        Err(GraphError::CodecError)
    }
}

/// Parse an attribute map object; a repeated key is rejected.
#[verifier::rlimit(100)]
fn p_attrs(js: &str, pos: usize) -> (r: Result<(Attrs, usize), GraphError>)
    ensures
        match r {
            Ok((m, end)) => pos < end <= js@.len() && js@.subrange(pos as int, end as int)
                == js_attrs(m@),
            Err(e) => e == GraphError::CodecError,
        },
{
    let len = js.unicode_len();
    let p1 = match p_char(js, pos, '{') {
        Ok(p) => p,
        Err(e) => {
            return Err(e);
        },
    };
    let mut m = Attrs::new();
    let mut cur = p1;
    let mut done = false;
    proof {
        assert(js_members(m@) =~= Seq::<char>::empty());
        assert(js@.subrange(p1 as int, cur as int) =~= Seq::<char>::empty());
    }
    if cur < len && js.get_char(cur) == '}' {
        cur = cur + 1;
        done = true;
        proof {
            assert(js@.subrange(p1 as int, (cur - 1) as int) =~= js_members(m@));
        }
    }
    while !done
        invariant
            len == js@.len(),
            pos < p1 <= cur <= len,
            done ==> cur >= p1 + 1 && js@[cur - 1] == '}',
            js@.subrange(p1 as int, (if done {
                cur - 1
            } else {
                cur as int
            })) == js_members(m@),
        decreases len - cur, if done {
            0int
        } else {
            1int
        },
    {
        let ghost m0 = m@;
        let mut pk = cur;
        let first = m.len() == 0;
        if !first {
            pk = match p_char(js, cur, ',') {
                Ok(p) => p,
                Err(e) => {
                    return Err(e);
                },
            };
        }
        let (key, pv) = match p_string(js, pk) {
            Ok(r) => r,
            Err(e) => {
                return Err(e);
            },
        };
        let pw = match p_char(js, pv, ':') {
            Ok(p) => p,
            Err(e) => {
                return Err(e);
            },
        };
        let (v, nx) = match p_value(js, pw) {
            Ok(r) => r,
            Err(e) => {
                return Err(e);
            },
        };
        if m.contains_key(&key) {
            return Err(GraphError::CodecError);
        }
        let ghost kv = key@;
        let ghost vv = v@;
        m.set(key, v);
        proof {
            assert(m@ == m0.push((kv, vv)));
            assert(m@.drop_last() =~= m0);
            if m0.len() == 0 {
                assert(js_members(m@) == js_string(kv) + seq![':'] + js_value(vv));
                assert(js@.subrange(p1 as int, nx as int) =~= js@.subrange(pk as int, pv as int)
                    + seq![':'] + js@.subrange(pw as int, nx as int));
            } else {
                assert(js_members(m@) == js_members(m0) + seq![','] + js_string(kv) + seq![':']
                    + js_value(vv));
                assert(js@.subrange(p1 as int, nx as int) =~= js@.subrange(p1 as int, cur as int)
                    + seq![','] + js@.subrange(pk as int, pv as int) + seq![':'] + js@.subrange(
                    pw as int,
                    nx as int,
                ));
            }
        }
        cur = nx;
        if cur < len && js.get_char(cur) == '}' {
            cur = cur + 1;
            done = true;
        }
    }
    proof {
        assert(js@.subrange(pos as int, cur as int) =~= seq!['{'] + js@.subrange(
            p1 as int,
            (cur - 1) as int,
        ) + seq![js@[cur - 1]]);
        assert(js@.subrange(pos as int, cur as int) =~= js_attrs(m@));
    }
    Ok((m, cur))
}

/// Parse a string array.
fn p_str_arr(js: &str, pos: usize) -> (r: Result<(Vec<String>, usize), GraphError>)
    ensures
        match r {
            Ok((l, end)) => pos < end <= js@.len() && js@.subrange(pos as int, end as int)
                == js_str_arr(crate::traversal::strs_view(l@)),
            Err(e) => e == GraphError::CodecError,
        },
{
    let len = js.unicode_len();
    let p1 = match p_char(js, pos, '[') {
        Ok(p) => p,
        Err(e) => {
            return Err(e);
        },
    };
    let mut l: Vec<String> = Vec::new();
    let mut cur = p1;
    let mut done = false;
    proof {
        assert(crate::traversal::strs_view(l@) =~= Seq::<Seq<char>>::empty());
        assert(js_str_items(crate::traversal::strs_view(l@)) =~= Seq::<char>::empty());
        assert(js@.subrange(p1 as int, cur as int) =~= Seq::<char>::empty());
    }
    if cur < len && js.get_char(cur) == ']' {
        cur = cur + 1;
        done = true;
        proof {
            assert(js@.subrange(p1 as int, (cur - 1) as int) =~= js_str_items(
                crate::traversal::strs_view(l@),
            ));
        }
    }
    while !done
        invariant
            len == js@.len(),
            pos < p1 <= cur <= len,
            done ==> cur >= p1 + 1 && js@[cur - 1] == ']',
            js@.subrange(p1 as int, (if done {
                cur - 1
            } else {
                cur as int
            })) == js_str_items(crate::traversal::strs_view(l@)),
        decreases len - cur, if done {
            0int
        } else {
            1int
        },
    {
        let ghost l0 = l@;
        let mut pk = cur;
        let first = l.len() == 0;
        if !first {
            pk = match p_char(js, cur, ',') {
                Ok(p) => p,
                Err(e) => {
                    return Err(e);
                },
            };
        }
        let (s, nx) = match p_string(js, pk) {
            Ok(r) => r,
            Err(e) => {
                return Err(e);
            },
        };
        l.push(s);
        proof {
            crate::traversal::lemma_strs_view_push(l0, l@[l0.len() as int]);
            let t1 = crate::traversal::strs_view(l@);
            assert(t1 =~= crate::traversal::strs_view(l0).push(l@[l0.len() as int]@));
            assert(t1.drop_last() =~= crate::traversal::strs_view(l0));
            if l0.len() == 0 {
                assert(t1.len() == 1);
                assert(js_str_items(t1) == js_string(t1.last()));
                assert(js@.subrange(p1 as int, nx as int) =~= js@.subrange(pk as int, nx as int));
            } else {
                assert(t1.len() >= 2);
                assert(js_str_items(t1) == js_str_items(crate::traversal::strs_view(l0))
                    + seq![','] + js_string(t1.last()));
                assert(js@.subrange(p1 as int, nx as int) =~= js@.subrange(p1 as int, cur as int)
                    + seq![','] + js@.subrange(pk as int, nx as int));
            }
        }
        cur = nx;
        if cur < len && js.get_char(cur) == ']' {
            cur = cur + 1;
            done = true;
        }
    }
    proof {
        assert(js@.subrange(pos as int, cur as int) =~= seq!['['] + js@.subrange(
            p1 as int,
            (cur - 1) as int,
        ) + seq![js@[cur - 1]]);
        assert(js@.subrange(pos as int, cur as int) =~= js_str_arr(
            crate::traversal::strs_view(l@),
        ));
    }
    Ok((l, cur))
}

/// Parse one node object.
#[verifier::rlimit(100)]
fn p_snode(js: &str, pos: usize) -> (r: Result<(SerializableNode, usize), GraphError>)
    ensures
        match r {
            Ok((sn, end)) => pos < end <= js@.len() && js@.subrange(pos as int, end as int)
                == js_snode(sn@),
            Err(e) => e == GraphError::CodecError,
        },
{
    proof {
        reveal_strlit("id");
        reveal_strlit("attr");
        reveal_strlit("meta");
        reveal_strlit("edge_ids");
        reveal_strlit("inverse_edge_ids");
    }
    let p0 = match p_char(js, pos, '{') {
        Ok(p) => p,
        Err(e) => {
            return Err(e);
        },
    };
    let p1 = match p_key(js, p0, "id") {
        Ok(p) => p,
        Err(e) => {
            return Err(e);
        },
    };
    let (id, p2) = match p_string(js, p1) {
        Ok(r) => r,
        Err(e) => {
            return Err(e);
        },
    };
    let p3 = match p_char(js, p2, ',') {
        Ok(p) => p,
        Err(e) => {
            return Err(e);
        },
    };
    let p4 = match p_key(js, p3, "attr") {
        Ok(p) => p,
        Err(e) => {
            return Err(e);
        },
    };
    let (attr, p5) = match p_attrs(js, p4) {
        Ok(r) => r,
        Err(e) => {
            return Err(e);
        },
    };
    let p6 = match p_char(js, p5, ',') {
        Ok(p) => p,
        Err(e) => {
            return Err(e);
        },
    };
    let p7 = match p_key(js, p6, "meta") {
        Ok(p) => p,
        Err(e) => {
            return Err(e);
        },
    };
    let (meta, p8) = match p_attrs(js, p7) {
        Ok(r) => r,
        Err(e) => {
            return Err(e);
        },
    };
    let p9 = match p_char(js, p8, ',') {
        Ok(p) => p,
        Err(e) => {
            return Err(e);
        },
    };
    let p10 = match p_key(js, p9, "edge_ids") {
        Ok(p) => p,
        Err(e) => {
            return Err(e);
        },
    };
    let (edge_ids, p11) = match p_str_arr(js, p10) {
        Ok(r) => r,
        Err(e) => {
            return Err(e);
        },
    };
    let p12 = match p_char(js, p11, ',') {
        Ok(p) => p,
        Err(e) => {
            return Err(e);
        },
    };
    let p13 = match p_key(js, p12, "inverse_edge_ids") {
        Ok(p) => p,
        Err(e) => {
            return Err(e);
        },
    };
    let (inverse_edge_ids, p14) = match p_str_arr(js, p13) {
        Ok(r) => r,
        Err(e) => {
            return Err(e);
        },
    };
    let end = match p_char(js, p14, '}') {
        Ok(p) => p,
        Err(e) => {
            return Err(e);
        },
    };
    let sn = SerializableNode { id, attr, meta, edge_ids, inverse_edge_ids };
    proof {
        assert(js@.subrange(pos as int, end as int) =~= seq!['{'] + js@.subrange(
            p0 as int,
            p1 as int,
        ) + js@.subrange(p1 as int, p2 as int) + seq![','] + js@.subrange(p3 as int, p4 as int)
            + js@.subrange(p4 as int, p5 as int) + seq![','] + js@.subrange(p6 as int, p7 as int)
            + js@.subrange(p7 as int, p8 as int) + seq![','] + js@.subrange(p9 as int, p10 as int)
            + js@.subrange(p10 as int, p11 as int) + seq![','] + js@.subrange(
            p12 as int,
            p13 as int,
        ) + js@.subrange(p13 as int, p14 as int) + seq!['}']);
        assert(js@.subrange(pos as int, end as int) =~= js_snode(sn@));
    }
    Ok((sn, end))
}

/// Parse one edge object; the edge id is the enclosing member key.
#[verifier::rlimit(100)]
fn p_sedge(js: &str, pos: usize) -> (r: Result<((String, String, Attrs, Attrs), usize), GraphError>)
    ensures
        match r {
            Ok(((from_id, to_id, attr, meta), end)) => pos < end <= js@.len() && js@.subrange(
                pos as int,
                end as int,
            ) == seq!['{'] + js_string("from_id"@) + seq![':'] + js_string(from_id@) + seq![',']
                + js_string("to_id"@) + seq![':'] + js_string(to_id@) + seq![','] + js_string(
                "attr"@,
            ) + seq![':'] + js_attrs(attr@) + seq![','] + js_string("meta"@) + seq![':'] + js_attrs(
                meta@,
            ) + seq!['}'],
            Err(e) => e == GraphError::CodecError,
        },
{
    proof {
        reveal_strlit("from_id");
        reveal_strlit("to_id");
        reveal_strlit("attr");
        reveal_strlit("meta");
    }
    let p0 = match p_char(js, pos, '{') {
        Ok(p) => p,
        Err(e) => {
            return Err(e);
        },
    };
    let p1 = match p_key(js, p0, "from_id") {
        Ok(p) => p,
        Err(e) => {
            return Err(e);
        },
    };
    let (from_id, p2) = match p_string(js, p1) {
        Ok(r) => r,
        Err(e) => {
            return Err(e);
        },
    };
    let p3 = match p_char(js, p2, ',') {
        Ok(p) => p,
        Err(e) => {
            return Err(e);
        },
    };
    let p4 = match p_key(js, p3, "to_id") {
        Ok(p) => p,
        Err(e) => {
            return Err(e);
        },
    };
    let (to_id, p5) = match p_string(js, p4) {
        Ok(r) => r,
        Err(e) => {
            return Err(e);
        },
    };
    let p6 = match p_char(js, p5, ',') {
        Ok(p) => p,
        Err(e) => {
            return Err(e);
        },
    };
    let p7 = match p_key(js, p6, "attr") {
        Ok(p) => p,
        Err(e) => {
            return Err(e);
        },
    };
    let (attr, p8) = match p_attrs(js, p7) {
        Ok(r) => r,
        Err(e) => {
            return Err(e);
        },
    };
    let p9 = match p_char(js, p8, ',') {
        Ok(p) => p,
        Err(e) => {
            return Err(e);
        },
    };
    let p10 = match p_key(js, p9, "meta") {
        Ok(p) => p,
        Err(e) => {
            return Err(e);
        },
    };
    let (meta, p11) = match p_attrs(js, p10) {
        Ok(r) => r,
        Err(e) => {
            return Err(e);
        },
    };
    let end = match p_char(js, p11, '}') {
        Ok(p) => p,
        Err(e) => {
            return Err(e);
        },
    };
    proof {
        assert(js@.subrange(pos as int, end as int) =~= seq!['{'] + js@.subrange(
            p0 as int,
            p1 as int,
        ) + js@.subrange(p1 as int, p2 as int) + seq![','] + js@.subrange(p3 as int, p4 as int)
            + js@.subrange(p4 as int, p5 as int) + seq![','] + js@.subrange(p6 as int, p7 as int)
            + js@.subrange(p7 as int, p8 as int) + seq![','] + js@.subrange(p9 as int, p10 as int)
            + js@.subrange(p10 as int, p11 as int) + seq!['}']);
    }
    Ok(((from_id, to_id, attr, meta), end))
}

/// Parse the node table: an object keyed by node id, each value a node
/// object whose inner id must repeat the key.
#[verifier::rlimit(100)]
fn p_node_table(js: &str, pos: usize) -> (r: Result<(Vec<SerializableNode>, usize), GraphError>)
    ensures
        match r {
            Ok((ns, end)) => pos < end <= js@.len() && js@.subrange(pos as int, end as int)
                == seq!['{'] + js_node_members(view_snodes(ns@)) + seq!['}'],
            Err(e) => e == GraphError::CodecError,
        },
{
    let len = js.unicode_len();
    let p1 = match p_char(js, pos, '{') {
        Ok(p) => p,
        Err(e) => {
            return Err(e);
        },
    };
    let mut ns: Vec<SerializableNode> = Vec::new();
    let mut cur = p1;
    let mut done = false;
    proof {
        assert(view_snodes(ns@) =~= Seq::<SNodeView>::empty());
        assert(js_node_members(view_snodes(ns@)) =~= Seq::<char>::empty());
        assert(js@.subrange(p1 as int, cur as int) =~= Seq::<char>::empty());
    }
    if cur < len && js.get_char(cur) == '}' {
        cur = cur + 1;
        done = true;
        proof {
            assert(js@.subrange(p1 as int, (cur - 1) as int) =~= js_node_members(
                view_snodes(ns@),
            ));
        }
    }
    while !done
        invariant
            len == js@.len(),
            pos < p1 <= cur <= len,
            done ==> cur >= p1 + 1 && js@[cur - 1] == '}',
            js@.subrange(p1 as int, (if done {
                cur - 1
            } else {
                cur as int
            })) == js_node_members(view_snodes(ns@)),
        decreases len - cur, if done {
            0int
        } else {
            1int
        },
    {
        let ghost ns0 = ns@;
        let mut pk = cur;
        let first = ns.len() == 0;
        if !first {
            pk = match p_char(js, cur, ',') {
                Ok(p) => p,
                Err(e) => {
                    return Err(e);
                },
            };
        }
        let (key, pv) = match p_string(js, pk) {
            Ok(r) => r,
            Err(e) => {
                return Err(e);
            },
        };
        let pw = match p_char(js, pv, ':') {
            Ok(p) => p,
            Err(e) => {
                return Err(e);
            },
        };
        let (sn, nx) = match p_snode(js, pw) {
            Ok(r) => r,
            Err(e) => {
                return Err(e);
            },
        };
        if !key.eq(&sn.id) {
            return Err(GraphError::CodecError);
        }
        ns.push(sn);
        proof {
            let t1 = view_snodes(ns@);
            assert(t1 =~= view_snodes(ns0).push(ns@[ns0.len() as int]@));
            assert(t1.drop_last() =~= view_snodes(ns0));
            if ns0.len() == 0 {
                assert(t1.len() == 1);
                assert(js_node_members(t1) == js_string(t1.last().id) + seq![':'] + js_snode(
                    t1.last(),
                ));
                assert(js@.subrange(p1 as int, nx as int) =~= js@.subrange(pk as int, pv as int)
                    + seq![':'] + js@.subrange(pw as int, nx as int));
            } else {
                assert(t1.len() >= 2);
                assert(js_node_members(t1) == js_node_members(view_snodes(ns0)) + seq![',']
                    + js_string(t1.last().id) + seq![':'] + js_snode(t1.last()));
                assert(js@.subrange(p1 as int, nx as int) =~= js@.subrange(p1 as int, cur as int)
                    + seq![','] + js@.subrange(pk as int, pv as int) + seq![':'] + js@.subrange(
                    pw as int,
                    nx as int,
                ));
            }
        }
        cur = nx;
        if cur < len && js.get_char(cur) == '}' {
            cur = cur + 1;
            done = true;
        }
    }
    proof {
        assert(js@.subrange(pos as int, cur as int) =~= seq!['{'] + js@.subrange(
            p1 as int,
            (cur - 1) as int,
        ) + seq![js@[cur - 1]]);
    }
    Ok((ns, cur))
}

/// Parse the edge table: an object keyed by edge id.
#[verifier::rlimit(100)]
fn p_edge_table(js: &str, pos: usize) -> (r: Result<(Vec<SerializableEdge>, usize), GraphError>)
    ensures
        match r {
            Ok((es, end)) => pos < end <= js@.len() && js@.subrange(pos as int, end as int)
                == seq!['{'] + js_edge_members(view_sedges(es@)) + seq!['}'],
            Err(e) => e == GraphError::CodecError,
        },
{
    let len = js.unicode_len();
    let p1 = match p_char(js, pos, '{') {
        Ok(p) => p,
        Err(e) => {
            return Err(e);
        },
    };
    let mut es: Vec<SerializableEdge> = Vec::new();
    let mut cur = p1;
    let mut done = false;
    proof {
        assert(view_sedges(es@) =~= Seq::<SEdgeView>::empty());
        assert(js_edge_members(view_sedges(es@)) =~= Seq::<char>::empty());
        assert(js@.subrange(p1 as int, cur as int) =~= Seq::<char>::empty());
    }
    if cur < len && js.get_char(cur) == '}' {
        cur = cur + 1;
        done = true;
        proof {
            assert(js@.subrange(p1 as int, (cur - 1) as int) =~= js_edge_members(
                view_sedges(es@),
            ));
        }
    }
    while !done
        invariant
            len == js@.len(),
            pos < p1 <= cur <= len,
            done ==> cur >= p1 + 1 && js@[cur - 1] == '}',
            js@.subrange(p1 as int, (if done {
                cur - 1
            } else {
                cur as int
            })) == js_edge_members(view_sedges(es@)),
        decreases len - cur, if done {
            0int
        } else {
            1int
        },
    {
        let ghost es0 = es@;
        let mut pk = cur;
        let first = es.len() == 0;
        if !first {
            pk = match p_char(js, cur, ',') {
                Ok(p) => p,
                Err(e) => {
                    return Err(e);
                },
            };
        }
        let (key, pv) = match p_string(js, pk) {
            Ok(r) => r,
            Err(e) => {
                return Err(e);
            },
        };
        let pw = match p_char(js, pv, ':') {
            Ok(p) => p,
            Err(e) => {
                return Err(e);
            },
        };
        let (parts, nx) = match p_sedge(js, pw) {
            Ok(r) => r,
            Err(e) => {
                return Err(e);
            },
        };
        let se = SerializableEdge {
            id: key,
            from_id: parts.0,
            to_id: parts.1,
            attr: parts.2,
            meta: parts.3,
        };
        es.push(se);
        proof {
            let t1 = view_sedges(es@);
            assert(t1 =~= view_sedges(es0).push(es@[es0.len() as int]@));
            assert(t1.drop_last() =~= view_sedges(es0));
            assert(js@.subrange(pw as int, nx as int) == js_sedge(t1.last()));
            if es0.len() == 0 {
                assert(t1.len() == 1);
                assert(js_edge_members(t1) == js_string(t1.last().id) + seq![':'] + js_sedge(
                    t1.last(),
                ));
                assert(js@.subrange(p1 as int, nx as int) =~= js@.subrange(pk as int, pv as int)
                    + seq![':'] + js@.subrange(pw as int, nx as int));
            } else {
                assert(t1.len() >= 2);
                assert(js_edge_members(t1) == js_edge_members(view_sedges(es0)) + seq![',']
                    + js_string(t1.last().id) + seq![':'] + js_sedge(t1.last()));
                assert(js@.subrange(p1 as int, nx as int) =~= js@.subrange(p1 as int, cur as int)
                    + seq![','] + js@.subrange(pk as int, pv as int) + seq![':'] + js@.subrange(
                    pw as int,
                    nx as int,
                ));
            }
        }
        cur = nx;
        if cur < len && js.get_char(cur) == '}' {
            cur = cur + 1;
            done = true;
        }
    }
    proof {
        assert(js@.subrange(pos as int, cur as int) =~= seq!['{'] + js@.subrange(
            p1 as int,
            (cur - 1) as int,
        ) + seq![js@[cur - 1]]);
    }
    Ok((es, cur))
}

impl SerializableGraph {
    /// Parse a whole JSON document. A successful parse returns exactly
    /// the portable graph whose text the input is; everything else is
    /// rejected.
    #[verifier::rlimit(100)]
    #[verifier::spinoff_prover]
    pub fn load_from_json(js: &str) -> (r: Result<SerializableGraph, GraphError>)
        ensures
            match r {
                Ok(sg) => js@ == js_graph(sg@),
                Err(e) => e == GraphError::CodecError,
            },
    {
        proof {
            reveal_strlit("nodes");
            reveal_strlit("edges");
            reveal_strlit("meta");
            reveal_strlit("metadata");
        }
        let len = js.unicode_len();
        let p0 = match p_char(js, 0, '{') {
            Ok(p) => p,
            Err(e) => {
                return Err(e);
            },
        };
        let p1 = match p_key(js, p0, "nodes") {
            Ok(p) => p,
            Err(e) => {
                return Err(e);
            },
        };
        let (nodes, p2) = match p_node_table(js, p1) {
            Ok(r) => r,
            Err(e) => {
                return Err(e);
            },
        };
        let p3 = match p_char(js, p2, ',') {
            Ok(p) => p,
            Err(e) => {
                return Err(e);
            },
        };
        let p4 = match p_key(js, p3, "edges") {
            Ok(p) => p,
            Err(e) => {
                return Err(e);
            },
        };
        let (edges, p5) = match p_edge_table(js, p4) {
            Ok(r) => r,
            Err(e) => {
                return Err(e);
            },
        };
        let p6 = match p_char(js, p5, ',') {
            Ok(p) => p,
            Err(e) => {
                return Err(e);
            },
        };
        let p7 = match p_key(js, p6, "meta") {
            Ok(p) => p,
            Err(e) => {
                return Err(e);
            },
        };
        let (meta, p8) = match p_attrs(js, p7) {
            Ok(r) => r,
            Err(e) => {
                return Err(e);
            },
        };
        let p9 = match p_char(js, p8, ',') {
            Ok(p) => p,
            Err(e) => {
                return Err(e);
            },
        };
        let p10 = match p_key(js, p9, "metadata") {
            Ok(p) => p,
            Err(e) => {
                return Err(e);
            },
        };
        let (metadata, p11) = match p_attrs(js, p10) {
            Ok(r) => r,
            Err(e) => {
                return Err(e);
            },
        };
        let p12 = match p_char(js, p11, '}') {
            Ok(p) => p,
            Err(e) => {
                return Err(e);
            },
        };
        if p12 != len {
            return Err(GraphError::CodecError);
        }
        let sg = SerializableGraph { nodes, edges, meta, metadata };
        proof {
            lemma_assemble_doc(
                js@,
                sg@,
                p0 as int,
                p1 as int,
                p2 as int,
                p3 as int,
                p4 as int,
                p5 as int,
                p6 as int,
                p7 as int,
                p8 as int,
                p9 as int,
                p10 as int,
                p11 as int,
                p12 as int,
            );
        }
        Ok(sg)
    }
}

/// Three adjacent known pieces concatenate over their whole range.
proof fn lemma_cat3(
    js: Seq<char>,
    a: int,
    b: int,
    c: int,
    d: int,
    s1: Seq<char>,
    s2: Seq<char>,
    s3: Seq<char>,
)
    requires
        0 <= a <= b <= c <= d <= js.len(),
        js.subrange(a, b) == s1,
        js.subrange(b, c) == s2,
        js.subrange(c, d) == s3,
    ensures
        js.subrange(a, d) == s1 + s2 + s3,
{
    assert(js.subrange(a, d) =~= js.subrange(a, b) + js.subrange(b, c) + js.subrange(c, d));
}

/// Four adjacent known pieces concatenate over their whole range.
proof fn lemma_cat4(
    js: Seq<char>,
    a: int,
    b: int,
    c: int,
    d: int,
    e: int,
    s1: Seq<char>,
    s2: Seq<char>,
    s3: Seq<char>,
    s4: Seq<char>,
)
    requires
        0 <= a <= b <= c <= d <= e <= js.len(),
        js.subrange(a, b) == s1,
        js.subrange(b, c) == s2,
        js.subrange(c, d) == s3,
        js.subrange(d, e) == s4,
    ensures
        js.subrange(a, e) == s1 + s2 + s3 + s4,
{
    assert(js.subrange(a, e) =~= js.subrange(a, b) + js.subrange(b, c) + js.subrange(c, d)
        + js.subrange(d, e));
}

/// Stitch the parsed sections of a document back into the whole text.
#[verifier::rlimit(100)]
#[verifier::spinoff_prover]
proof fn lemma_assemble_doc(
    js: Seq<char>,
    sg: SGraphView,
    p0: int,
    p1: int,
    p2: int,
    p3: int,
    p4: int,
    p5: int,
    p6: int,
    p7: int,
    p8: int,
    p9: int,
    p10: int,
    p11: int,
    p12: int,
)
    requires
        0 <= p0 <= p1 <= p2 <= p3 <= p4 <= p5 <= p6 <= p7 <= p8 <= p9 <= p10 <= p11 <= p12,
        js.len() == p12,
        js.subrange(0, p0) == seq!['{'],
        js.subrange(p0, p1) == js_string("nodes"@) + seq![':'],
        js.subrange(p1, p2) == seq!['{'] + js_node_members(sg.nodes) + seq!['}'],
        js.subrange(p2, p3) == seq![','],
        js.subrange(p3, p4) == js_string("edges"@) + seq![':'],
        js.subrange(p4, p5) == seq!['{'] + js_edge_members(sg.edges) + seq!['}'],
        js.subrange(p5, p6) == seq![','],
        js.subrange(p6, p7) == js_string("meta"@) + seq![':'],
        js.subrange(p7, p8) == js_attrs(sg.meta),
        js.subrange(p8, p9) == seq![','],
        js.subrange(p9, p10) == js_string("metadata"@) + seq![':'],
        js.subrange(p10, p11) == js_attrs(sg.metadata),
        js.subrange(p11, p12) == seq!['}'],
    ensures
        js == js_graph(sg),
{
    lemma_cat4(
        js,
        0,
        p0,
        p1,
        p2,
        p3,
        seq!['{'],
        js_string("nodes"@) + seq![':'],
        seq!['{'] + js_node_members(sg.nodes) + seq!['}'],
        seq![','],
    );
    assert(seq!['{'] + (js_string("nodes"@) + seq![':']) + (seq!['{'] + js_node_members(sg.nodes)
        + seq!['}']) + seq![','] =~= js_sec_nodes(sg.nodes));
    lemma_cat3(
        js,
        p3,
        p4,
        p5,
        p6,
        js_string("edges"@) + seq![':'],
        seq!['{'] + js_edge_members(sg.edges) + seq!['}'],
        seq![','],
    );
    assert((js_string("edges"@) + seq![':']) + (seq!['{'] + js_edge_members(sg.edges) + seq!['}'])
        + seq![','] =~= js_sec_edges(sg.edges));
    lemma_cat3(js, p6, p7, p8, p9, js_string("meta"@) + seq![':'], js_attrs(sg.meta), seq![',']);
    assert((js_string("meta"@) + seq![':']) + js_attrs(sg.meta) + seq![','] =~= js_sec_meta(
        sg.meta,
    ));
    lemma_cat3(
        js,
        p9,
        p10,
        p11,
        p12,
        js_string("metadata"@) + seq![':'],
        js_attrs(sg.metadata),
        seq!['}'],
    );
    assert((js_string("metadata"@) + seq![':']) + js_attrs(sg.metadata) + seq!['}']
        =~= js_sec_metadata(sg.metadata));
    lemma_cat4(
        js,
        0,
        p3,
        p6,
        p9,
        p12,
        js_sec_nodes(sg.nodes),
        js_sec_edges(sg.edges),
        js_sec_meta(sg.meta),
        js_sec_metadata(sg.metadata),
    );
    assert(js =~= js.subrange(0, p12));
}

impl crate::graph::Vertex {
    /// The JSON text of this graph, stamped with the given timestamp.
    pub fn save_to_json(&self, timestamp: String) -> (out: String)
        requires
            self@.nodes.len() <= i64::MAX,
            self@.edges.len() <= i64::MAX,
        ensures
            out@ == js_graph(crate::codec::ir_of(self@, timestamp@)),
    {
        let sg = SerializableGraph::from_vertex(self, timestamp);
        sg.save_to_json()
    }

    /// Rebuild a graph from JSON text. A successful load returns exactly
    /// the graph of a portable form whose text the input is.
    pub fn load_from_json(js: &str) -> (r: Result<crate::graph::Vertex, GraphError>)
        ensures
            match r {
                Ok(v) => {
                    &&& v.wf()
                    &&& exists|sg: SGraphView|
                        (#[trigger] crate::codec::ir_valid(sg)) && js@ == js_graph(sg) && v@
                            == crate::codec::graph_of(sg)
                },
                Err(e) => e == GraphError::CodecError || e == GraphError::DuplicateId || e
                    == GraphError::NodeNotFound,
            },
    {
        let sg = match SerializableGraph::load_from_json(js) {
            Ok(sg) => sg,
            Err(e) => {
                return Err(e);
            },
        };
        match sg.to_vertex() {
            Ok(v) => {
                proof {
                    assert(crate::codec::ir_valid(sg@) && js@ == js_graph(sg@) && v@
                        == crate::codec::graph_of(sg@));
                }
                Ok(v)
            },
            Err(e) => Err(e),
        }
    }
}

/// A string of ordinary characters escapes to itself.
pub proof fn lemma_esc_plain(s: Seq<char>)
    requires
        forall|i: int|
            0 <= i < s.len() ==> (#[trigger] s[i]) != '"' && s[i] != '\\' && (s[i] as u32) >= 0x20,
    ensures
        esc(s) == s,
    decreases s.len(),
{
    if s.len() > 0 {
        lemma_esc_plain(s.drop_last());
        assert(s[s.len() - 1] == s.last());
        assert(esc_char(s.last()) == seq![s.last()]);
        assert(esc(s) =~= s);
    }
}

} // verus!
