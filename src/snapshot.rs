use crate::bikey::index_wf;
use crate::carriage::{registry_wf, Carriage, Registry};
use crate::store::{opt_view, Skid};
use crate::bikey::{holds_secondary, BiKeyedIndex};
use crate::order::compare_names;
use crate::store::{Crate, Kiste};
use std::collections::BTreeSet;
use vstd::bytes::*;
use vstd::slice::{slice_subrange, slice_to_vec};
use vstd::prelude::*;
use vstd::utf8::*;

verus! {

/// What a snapshot keeps of an edge: target name, target id, requirement.
pub type EdgeModel = (Seq<char>, u32, Option<Seq<char>>);

/// A field of a crate's row under its column's name.
pub type FieldModel = (Seq<char>, Seq<char>);

/// What a snapshot keeps of a crate: name, id, and the fields of its row
/// and its edges in order.
pub type NodeModel = (Seq<char>, u32, (Seq<FieldModel>, Seq<EdgeModel>));

pub open spec fn edges_model(d: Seq<(Seq<char>, u32, Skid)>) -> Seq<EdgeModel> {
    d.map_values(|e: (Seq<char>, u32, Skid)| (e.0, e.1, opt_view(e.2.version)))
}

/// The registry as a snapshot keeps it.
pub open spec fn registry_model(s: Registry) -> Seq<NodeModel> {
    s.map_values(|e: (Seq<char>, u32, crate::store::Crate)|
        (e.0, e.1, (crate::store::metadata_view(e.2.krate.metadata@), edges_model(e.2.dependencies@))))
}

/// Crates, and the edges of each, in strictly increasing name order with
/// no id twice.
pub open spec fn model_wf(m: Seq<NodeModel>) -> bool {
    &&& index_wf(m)
    &&& forall|i: int| 0 <= i < m.len() ==> index_wf(#[trigger] m[i].2.1)
}

pub open spec fn text_fits(t: Seq<char>) -> bool {
    encode_utf8(t).len() <= u64::MAX
}

pub open spec fn version_fits(v: Option<Seq<char>>) -> bool {
    match v {
        Some(t) => text_fits(t),
        None => true,
    }
}

/// Every length a snapshot writes fits its 8 bytes.
pub open spec fn model_fits(m: Seq<NodeModel>) -> bool {
    &&& m.len() <= u64::MAX
    &&& forall|i: int| 0 <= i < m.len() ==> {
        &&& text_fits((#[trigger] m[i]).0)
        &&& fields_fit(m[i].2.0)
        &&& m[i].2.1.len() <= u64::MAX
        &&& forall|k: int| 0 <= k < m[i].2.1.len() ==> text_fits((#[trigger] m[i].2.1[k]).0) && version_fits(m[i].2.1[k].2)
    }
}

pub open spec fn fields_fit(fs: Seq<FieldModel>) -> bool {
    &&& fs.len() <= u64::MAX
    &&& forall|k: int| 0 <= k < fs.len() ==> text_fits((#[trigger] fs[k]).0) && text_fits(fs[k].1)
}

pub open spec fn magic() -> Seq<u8> {
    seq![0x46u8, 0x4fu8, 0x52u8, 0x4bu8]
}

/// A text: its UTF-8 length in 8 bytes, then its UTF-8 bytes.
pub open spec fn text_bytes(t: Seq<char>) -> Seq<u8> {
    spec_u64_to_le_bytes(encode_utf8(t).len() as u64) + encode_utf8(t)
}

pub open spec fn version_bytes(v: Option<Seq<char>>) -> Seq<u8> {
    match v {
        Some(t) => seq![1u8] + text_bytes(t),
        None => seq![0u8],
    }
}

pub open spec fn edge_bytes(e: EdgeModel) -> Seq<u8> {
    spec_u32_to_le_bytes(e.1) + text_bytes(e.0) + version_bytes(e.2)
}

pub open spec fn edges_bytes(es: Seq<EdgeModel>) -> Seq<u8>
    decreases es.len(),
{
    if es.len() == 0 {
        Seq::empty()
    } else {
        edges_bytes(es.drop_last()) + edge_bytes(es.last())
    }
}

pub open spec fn field_bytes(f: FieldModel) -> Seq<u8> {
    text_bytes(f.0) + text_bytes(f.1)
}

pub open spec fn field_list_bytes(fs: Seq<FieldModel>) -> Seq<u8>
    decreases fs.len(),
{
    if fs.len() == 0 {
        Seq::empty()
    } else {
        field_list_bytes(fs.drop_last()) + field_bytes(fs.last())
    }
}

/// The fields of a crate's row: their number, then each name and value.
pub open spec fn fields_bytes(fs: Seq<FieldModel>) -> Seq<u8> {
    spec_u64_to_le_bytes(fs.len() as u64) + field_list_bytes(fs)
}

pub open spec fn node_bytes(n: NodeModel) -> Seq<u8> {
    spec_u32_to_le_bytes(n.1) + text_bytes(n.0) + fields_bytes(n.2.0) + spec_u64_to_le_bytes(n.2.1.len() as u64)
        + edges_bytes(n.2.1)
}

pub open spec fn nodes_bytes(ns: Seq<NodeModel>) -> Seq<u8>
    decreases ns.len(),
{
    if ns.len() == 0 {
        Seq::empty()
    } else {
        nodes_bytes(ns.drop_last()) + node_bytes(ns.last())
    }
}

/// The snapshot of a registry: a magic word, the number of crates, then
/// each crate with its edges.
pub open spec fn snapshot_bytes(m: Seq<NodeModel>) -> Seq<u8> {
    magic() + spec_u64_to_le_bytes(m.len() as u64) + nodes_bytes(m)
}

pub open spec fn parse_u32(b: Seq<u8>) -> Option<(u32, Seq<u8>)> {
    if b.len() >= 4 {
        Some((spec_u32_from_le_bytes(b.take(4)), b.skip(4)))
    } else {
        None
    }
}

pub open spec fn parse_u64(b: Seq<u8>) -> Option<(u64, Seq<u8>)> {
    if b.len() >= 8 {
        Some((spec_u64_from_le_bytes(b.take(8)), b.skip(8)))
    } else {
        None
    }
}

pub open spec fn parse_text(b: Seq<u8>) -> Option<(Seq<char>, Seq<u8>)> {
    match parse_u64(b) {
        Some((n, r)) => if n <= r.len() && valid_utf8(r.take(n as int)) {
            Some((decode_utf8(r.take(n as int)), r.skip(n as int)))
        } else {
            None
        },
        None => None,
    }
}

pub open spec fn parse_version(b: Seq<u8>) -> Option<(Option<Seq<char>>, Seq<u8>)> {
    if b.len() >= 1 && b[0] == 0 {
        Some((None, b.skip(1)))
    } else if b.len() >= 1 && b[0] == 1 {
        match parse_text(b.skip(1)) {
            Some((t, r)) => Some((Some(t), r)),
            None => None,
        }
    } else {
        None
    }
}

pub open spec fn parse_edge(b: Seq<u8>) -> Option<(EdgeModel, Seq<u8>)> {
    match parse_u32(b) {
        Some((id, r1)) => match parse_text(r1) {
            Some((name, r2)) => match parse_version(r2) {
                Some((v, r3)) => Some(((name, id, v), r3)),
                None => None,
            },
            None => None,
        },
        None => None,
    }
}

/// The first `k` edges written at the start of `b`, and what follows them.
pub open spec fn parse_edges(b: Seq<u8>, k: nat) -> Option<(Seq<EdgeModel>, Seq<u8>)>
    decreases k,
{
    if k == 0 {
        Some((Seq::empty(), b))
    } else {
        match parse_edges(b, (k - 1) as nat) {
            Some((es, r)) => match parse_edge(r) {
                Some((e, r2)) => Some((es.push(e), r2)),
                None => None,
            },
            None => None,
        }
    }
}

pub open spec fn parse_field(b: Seq<u8>) -> Option<(FieldModel, Seq<u8>)> {
    match parse_text(b) {
        Some((k, r1)) => match parse_text(r1) {
            Some((v, r2)) => Some(((k, v), r2)),
            None => None,
        },
        None => None,
    }
}

pub open spec fn parse_field_list(b: Seq<u8>, n: nat) -> Option<(Seq<FieldModel>, Seq<u8>)>
    decreases n,
{
    if n == 0 {
        Some((Seq::empty(), b))
    } else {
        match parse_field_list(b, (n - 1) as nat) {
            Some((fs, r)) => match parse_field(r) {
                Some((f, r2)) => Some((fs.push(f), r2)),
                None => None,
            },
            None => None,
        }
    }
}

pub open spec fn parse_fields(b: Seq<u8>) -> Option<(Seq<FieldModel>, Seq<u8>)> {
    match parse_u64(b) {
        Some((n, r)) => parse_field_list(r, n as nat),
        None => None,
    }
}

pub open spec fn parse_node(b: Seq<u8>) -> Option<(NodeModel, Seq<u8>)> {
    match parse_u32(b) {
        Some((id, r1)) => match parse_text(r1) {
            Some((name, r2)) => match parse_fields(r2) {
                Some((fs, r3)) => match parse_u64(r3) {
                    Some((k, r4)) => match parse_edges(r4, k as nat) {
                        Some((es, r5)) => Some(((name, id, (fs, es)), r5)),
                        None => None,
                    },
                    None => None,
                },
                None => None,
            },
            None => None,
        },
        None => None,
    }
}

pub open spec fn parse_nodes(b: Seq<u8>, n: nat) -> Option<(Seq<NodeModel>, Seq<u8>)>
    decreases n,
{
    if n == 0 {
        Some((Seq::empty(), b))
    } else {
        match parse_nodes(b, (n - 1) as nat) {
            Some((ns, r)) => match parse_node(r) {
                Some((x, r2)) => Some((ns.push(x), r2)),
                None => None,
            },
            None => None,
        }
    }
}

/// The registry a snapshot holds: `None` where the bytes are not exactly
/// the snapshot of a well-formed registry.
pub open spec fn parse_snapshot(b: Seq<u8>) -> Option<Seq<NodeModel>> {
    if b.len() >= 4 && b.take(4) == magic() {
        match parse_u64(b.skip(4)) {
            Some((n, r)) => match parse_nodes(r, n as nat) {
                Some((ns, rest)) => if rest.len() == 0 && model_wf(ns) {
                    Some(ns)
                } else {
                    None
                },
                None => None,
            },
            None => None,
        }
    } else {
        None
    }
}

proof fn lemma_parse_u32(x: u32, r: Seq<u8>)
    ensures
        parse_u32(spec_u32_to_le_bytes(x) + r) == Some((x, r)),
{
    lemma_auto_spec_u32_to_from_le_bytes();
    let e = spec_u32_to_le_bytes(x);
    assert((e + r).take(4) =~= e);
    assert((e + r).skip(4) =~= r);
}

proof fn lemma_parse_u64(x: u64, r: Seq<u8>)
    ensures
        parse_u64(spec_u64_to_le_bytes(x) + r) == Some((x, r)),
{
    lemma_auto_spec_u64_to_from_le_bytes();
    let e = spec_u64_to_le_bytes(x);
    assert(e.len() == 8);
    assert((e + r).take(8) =~= e);
    assert((e + r).skip(8) =~= r);
}

proof fn lemma_parse_text(t: Seq<char>, r: Seq<u8>)
    requires
        text_fits(t),
    ensures
        parse_text(text_bytes(t) + r) == Some((t, r)),
{
    let u = encode_utf8(t);
    lemma_parse_u64(u.len() as u64, u + r);
    assert(text_bytes(t) + r =~= spec_u64_to_le_bytes(u.len() as u64) + (u + r));
    assert((u + r).take(u.len() as int) =~= u);
    assert((u + r).skip(u.len() as int) =~= r);
    encode_utf8_valid_utf8(t);
    encode_utf8_decode_utf8(t);
}

proof fn lemma_parse_version(v: Option<Seq<char>>, r: Seq<u8>)
    requires
        version_fits(v),
    ensures
        parse_version(version_bytes(v) + r) == Some((v, r)),
{
    match v {
        Some(t) => {
            lemma_parse_text(t, r);
            assert((version_bytes(v) + r).skip(1) =~= text_bytes(t) + r);
        }
        None => {
            assert((version_bytes(v) + r).skip(1) =~= r);
        }
    }
}

proof fn lemma_parse_edge(e: EdgeModel, r: Seq<u8>)
    requires
        text_fits(e.0),
        version_fits(e.2),
    ensures
        parse_edge(edge_bytes(e) + r) == Some((e, r)),
{
    lemma_parse_version(e.2, r);
    lemma_parse_text(e.0, version_bytes(e.2) + r);
    lemma_parse_u32(e.1, text_bytes(e.0) + (version_bytes(e.2) + r));
    assert(edge_bytes(e) + r =~= spec_u32_to_le_bytes(e.1) + (text_bytes(e.0) + (version_bytes(e.2) + r)));
    assert(text_bytes(e.0) + (version_bytes(e.2) + r) =~= text_bytes(e.0) + version_bytes(e.2) + r);
}

proof fn lemma_parse_edges(es: Seq<EdgeModel>, r: Seq<u8>)
    requires
        forall|q: int| 0 <= q < es.len() ==> text_fits((#[trigger] es[q]).0) && version_fits(es[q].2),
    ensures
        parse_edges(edges_bytes(es) + r, es.len()) == Some((es, r)),
    decreases es.len(),
{
    if es.len() > 0 {
        let last = es.last();
        lemma_parse_edges(es.drop_last(), edge_bytes(last) + r);
        lemma_parse_edge(last, r);
        assert(edges_bytes(es) + r =~= edges_bytes(es.drop_last()) + (edge_bytes(last) + r));
        assert(es.drop_last().push(last) =~= es);
    } else {
        assert(edges_bytes(es) + r =~= r);
        assert(es =~= Seq::<EdgeModel>::empty());
    }
}

proof fn lemma_parse_field_list(fs: Seq<FieldModel>, r: Seq<u8>)
    requires
        fields_fit(fs),
    ensures
        parse_field_list(field_list_bytes(fs) + r, fs.len()) == Some((fs, r)),
    decreases fs.len(),
{
    if fs.len() > 0 {
        let last = fs.last();
        assert(fields_fit(fs.drop_last())) by {
            assert forall|k: int| 0 <= k < fs.drop_last().len() implies fs.drop_last()[k] == fs[k] by {}
        }
        lemma_parse_field_list(fs.drop_last(), field_bytes(last) + r);
        assert(fs[fs.len() - 1] == last);
        lemma_parse_text(last.1, r);
        lemma_parse_text(last.0, text_bytes(last.1) + r);
        assert(field_bytes(last) + r =~= text_bytes(last.0) + (text_bytes(last.1) + r));
        assert(field_list_bytes(fs) + r =~= field_list_bytes(fs.drop_last()) + (field_bytes(last) + r));
        assert(fs.drop_last().push(last) =~= fs);
    } else {
        assert(field_list_bytes(fs) + r =~= r);
        assert(fs =~= Seq::<FieldModel>::empty());
    }
}

proof fn lemma_parse_fields(fs: Seq<FieldModel>, r: Seq<u8>)
    requires
        fields_fit(fs),
    ensures
        parse_fields(fields_bytes(fs) + r) == Some((fs, r)),
{
    lemma_parse_field_list(fs, r);
    lemma_parse_u64(fs.len() as u64, field_list_bytes(fs) + r);
    assert(fields_bytes(fs) + r =~= spec_u64_to_le_bytes(fs.len() as u64) + (field_list_bytes(fs) + r));
}

proof fn lemma_parse_node(x: NodeModel, r: Seq<u8>)
    requires
        text_fits(x.0),
        fields_fit(x.2.0),
        x.2.1.len() <= u64::MAX,
        forall|q: int| 0 <= q < x.2.1.len() ==> text_fits((#[trigger] x.2.1[q]).0) && version_fits(x.2.1[q].2),
    ensures
        parse_node(node_bytes(x) + r) == Some((x, r)),
{
    let es = x.2.1;
    let tail = spec_u64_to_le_bytes(es.len() as u64) + (edges_bytes(es) + r);
    lemma_parse_edges(es, r);
    lemma_parse_u64(es.len() as u64, edges_bytes(es) + r);
    lemma_parse_fields(x.2.0, tail);
    lemma_parse_text(x.0, fields_bytes(x.2.0) + tail);
    lemma_parse_u32(x.1, text_bytes(x.0) + (fields_bytes(x.2.0) + tail));
    assert(node_bytes(x) + r =~= spec_u32_to_le_bytes(x.1) + (text_bytes(x.0) + (fields_bytes(x.2.0) + tail)));
}

proof fn lemma_parse_nodes(ns: Seq<NodeModel>, r: Seq<u8>)
    requires
        model_fits(ns),
    ensures
        parse_nodes(nodes_bytes(ns) + r, ns.len()) == Some((ns, r)),
    decreases ns.len(),
{
    if ns.len() > 0 {
        let last = ns.last();
        assert(model_fits(ns.drop_last())) by {
            assert forall|i: int| 0 <= i < ns.drop_last().len() implies ns.drop_last()[i] == ns[i] by {}
        }
        lemma_parse_nodes(ns.drop_last(), node_bytes(last) + r);
        assert(ns[ns.len() - 1] == last);
        lemma_parse_node(last, r);
        assert(nodes_bytes(ns) + r =~= nodes_bytes(ns.drop_last()) + (node_bytes(last) + r));
        assert(ns.drop_last().push(last) =~= ns);
    } else {
        assert(nodes_bytes(ns) + r =~= r);
        assert(ns =~= Seq::<NodeModel>::empty());
    }
}

/// Reading back the snapshot of a well-formed registry gives that registry.
pub proof fn lemma_snapshot_round_trip(m: Seq<NodeModel>)
    requires
        model_wf(m),
        model_fits(m),
    ensures
        parse_snapshot(snapshot_bytes(m)) == Some(m),
{
    let b = snapshot_bytes(m);
    lemma_parse_nodes(m, Seq::empty());
    assert(nodes_bytes(m) + Seq::<u8>::empty() =~= nodes_bytes(m));
    lemma_parse_u64(m.len() as u64, nodes_bytes(m));
    assert(b.take(4) =~= magic());
    assert(b.skip(4) =~= spec_u64_to_le_bytes(m.len() as u64) + nodes_bytes(m));
}

/// The snapshot of a well-formed registry is a well-formed model of it.
pub proof fn lemma_registry_model_wf(s: Registry)
    requires
        registry_wf(s),
    ensures
        model_wf(registry_model(s)),
{
    let m = registry_model(s);
    assert forall|a: int, b: int| 0 <= a < b < m.len() implies #[trigger] crate::order::name_before(m[a].0, m[b].0) by {
        assert(crate::order::name_before(s[a].0, s[b].0));
    }
    assert forall|i: int| 0 <= i < m.len() implies index_wf(#[trigger] m[i].2.1) by {
        let d = s[i].2.dependencies@;
        assert(s[i].2.wf());
        assert forall|a: int, b: int| 0 <= a < b < m[i].2.1.len() implies #[trigger] crate::order::name_before(m[i].2.1[a].0, m[i].2.1[b].0) by {
            assert(crate::order::name_before(d[a].0, d[b].0));
        }
    }
}

/// Relies on `String::from_utf8`: it succeeds exactly on valid UTF-8, and
/// the string holds the characters the bytes encode.
#[verifier::external_body]
fn string_from_utf8(b: Vec<u8>) -> (r: Option<String>)
    ensures
        match r {
            Some(t) => valid_utf8(b@) && t@ == decode_utf8(b@),
            None => !valid_utf8(b@),
        },
{
    String::from_utf8(b).ok()
}

fn read_u32(b: &[u8], pos: usize) -> (r: Option<(u32, usize)>)
    requires
        pos <= b@.len(),
    ensures
        match r {
            Some((x, p)) => p <= b@.len() && parse_u32(b@.skip(pos as int)) == Some((x, b@.skip(p as int))),
            None => parse_u32(b@.skip(pos as int)) is None,
        },
{
    if b.len() - pos >= 4 {
        let x = u32_from_le_bytes(slice_subrange(b, pos, pos + 4));
        assert(b@.skip(pos as int).take(4) =~= b@.subrange(pos as int, pos + 4));
        assert(b@.skip(pos as int).skip(4) =~= b@.skip(pos + 4));
        Some((x, pos + 4))
    } else {
        None
    }
}

fn read_u64(b: &[u8], pos: usize) -> (r: Option<(u64, usize)>)
    requires
        pos <= b@.len(),
    ensures
        match r {
            Some((x, p)) => p <= b@.len() && parse_u64(b@.skip(pos as int)) == Some((x, b@.skip(p as int))),
            None => parse_u64(b@.skip(pos as int)) is None,
        },
{
    if b.len() - pos >= 8 {
        let x = u64_from_le_bytes(slice_subrange(b, pos, pos + 8));
        assert(b@.skip(pos as int).take(8) =~= b@.subrange(pos as int, pos + 8));
        assert(b@.skip(pos as int).skip(8) =~= b@.skip(pos + 8));
        Some((x, pos + 8))
    } else {
        None
    }
}

fn read_text(b: &[u8], pos: usize) -> (r: Option<(String, usize)>)
    requires
        pos <= b@.len(),
    ensures
        match r {
            Some((t, p)) => p <= b@.len() && parse_text(b@.skip(pos as int)) == Some((t@, b@.skip(p as int))),
            None => parse_text(b@.skip(pos as int)) is None,
        },
{
    match read_u64(b, pos) {
        None => None,
        Some((n, at1)) => {
            if n <= (b.len() - at1) as u64 {
                let e = at1 + n as usize;
                let bytes = slice_to_vec(slice_subrange(b, at1, e));
                assert(b@.skip(at1 as int).take(n as int) =~= bytes@);
                assert(b@.skip(at1 as int).skip(n as int) =~= b@.skip(e as int));
                match string_from_utf8(bytes) {
                    Some(t) => Some((t, e)),
                    None => None,
                }
            } else {
                None
            }
        }
    }
}

fn read_version(b: &[u8], pos: usize) -> (r: Option<(Option<String>, usize)>)
    requires
        pos <= b@.len(),
    ensures
        match r {
            Some((v, p)) => p <= b@.len() && parse_version(b@.skip(pos as int)) == Some((opt_view(v), b@.skip(p as int))),
            None => parse_version(b@.skip(pos as int)) is None,
        },
{
    if pos >= b.len() {
        return None;
    }
    assert(b@.skip(pos as int)[0] == b@[pos as int]);
    assert(b@.skip(pos as int).skip(1) =~= b@.skip(pos + 1));
    if b[pos] == 0 {
        Some((None, pos + 1))
    } else if b[pos] == 1 {
        match read_text(b, pos + 1) {
            Some((t, p)) => Some((Some(t), p)),
            None => None,
        }
    } else {
        None
    }
}

/// An edge or a crate as read, before its place is checked.
pub type RawEdge = (String, u32, Option<String>);

pub type RawNode = (String, u32, Vec<(String, String)>, Vec<RawEdge>);

pub open spec fn raw_edges_model(v: Seq<RawEdge>) -> Seq<EdgeModel> {
    v.map_values(|e: RawEdge| (e.0@, e.1, opt_view(e.2)))
}

pub open spec fn raw_nodes_model(v: Seq<RawNode>) -> Seq<NodeModel> {
    v.map_values(|x: RawNode| (x.0@, x.1, (crate::store::metadata_view(x.2@), raw_edges_model(x.3@))))
}

proof fn lemma_parse_edges_fails(b: Seq<u8>, j: nat, k: nat)
    requires
        j <= k,
        parse_edges(b, j) is None,
    ensures
        parse_edges(b, k) is None,
    decreases k,
{
    if k > j {
        lemma_parse_edges_fails(b, j, (k - 1) as nat);
    }
}

proof fn lemma_parse_nodes_fails(b: Seq<u8>, j: nat, k: nat)
    requires
        j <= k,
        parse_nodes(b, j) is None,
    ensures
        parse_nodes(b, k) is None,
    decreases k,
{
    if k > j {
        lemma_parse_nodes_fails(b, j, (k - 1) as nat);
    }
}

fn read_edges(b: &[u8], pos: usize, k: u64) -> (r: Option<(Vec<RawEdge>, usize)>)
    requires
        pos <= b@.len(),
    ensures
        match r {
            Some((v, p)) => p <= b@.len() && parse_edges(b@.skip(pos as int), k as nat) == Some((raw_edges_model(v@), b@.skip(p as int))),
            None => parse_edges(b@.skip(pos as int), k as nat) is None,
        },
{
    let ghost b0 = b@.skip(pos as int);
    let mut out: Vec<RawEdge> = Vec::new();
    let mut p = pos;
    let mut q: u64 = 0;
    assert(raw_edges_model(out@) =~= Seq::<EdgeModel>::empty());
    while q < k
        invariant
            p <= b@.len(),
            q <= k,
            b0 == b@.skip(pos as int),
            parse_edges(b0, q as nat) == Some((raw_edges_model(out@), b@.skip(p as int))),
        decreases k - q,
    {
        let ghost prev = out@;
        let step = match read_u32(b, p) {
            None => None,
            Some((id, at1)) => match read_text(b, at1) {
                None => None,
                Some((name, at2)) => match read_version(b, at2) {
                    None => None,
                    Some((v, at3)) => Some(((name, id, v), at3)),
                },
            },
        };
        match step {
            None => {
                proof {
                    lemma_parse_edges_fails(b0, (q + 1) as nat, k as nat);
                }
                return None;
            }
            Some((e, at3)) => {
                out.push(e);
                p = at3;
                assert(raw_edges_model(out@) =~= raw_edges_model(prev).push((e.0@, e.1, opt_view(e.2))));
            }
        }
        q = q + 1;
    }
    Some((out, p))
}

proof fn lemma_parse_field_list_fails(b: Seq<u8>, j: nat, k: nat)
    requires
        j <= k,
        parse_field_list(b, j) is None,
    ensures
        parse_field_list(b, k) is None,
    decreases k,
{
    if k > j {
        lemma_parse_field_list_fails(b, j, (k - 1) as nat);
    }
}

fn read_fields(b: &[u8], pos: usize) -> (r: Option<(Vec<(String, String)>, usize)>)
    requires
        pos <= b@.len(),
    ensures
        match r {
            Some((v, p)) => p <= b@.len() && parse_fields(b@.skip(pos as int)) == Some((crate::store::metadata_view(v@), b@.skip(p as int))),
            None => parse_fields(b@.skip(pos as int)) is None,
        },
{
    let (n, start) = match read_u64(b, pos) {
        Some(x) => x,
        None => {
            return None;
        }
    };
    let ghost b0 = b@.skip(start as int);
    let mut out: Vec<(String, String)> = Vec::new();
    let mut p = start;
    let mut q: u64 = 0;
    assert(crate::store::metadata_view(out@) =~= Seq::<FieldModel>::empty());
    while q < n
        invariant
            p <= b@.len(),
            start <= b@.len(),
            q <= n,
            b0 == b@.skip(start as int),
            parse_u64(b@.skip(pos as int)) == Some((n, b0)),
            parse_field_list(b0, q as nat) == Some((crate::store::metadata_view(out@), b@.skip(p as int))),
        decreases n - q,
    {
        let ghost prev = out@;
        let step = match read_text(b, p) {
            None => None,
            Some((k, at1)) => match read_text(b, at1) {
                None => None,
                Some((v, at2)) => Some(((k, v), at2)),
            },
        };
        match step {
            None => {
                proof {
                    lemma_parse_field_list_fails(b0, (q + 1) as nat, n as nat);
                }
                return None;
            }
            Some((f, at2)) => {
                let ghost fm = (f.0@, f.1@);
                out.push(f);
                p = at2;
                assert(crate::store::metadata_view(out@) =~= crate::store::metadata_view(prev).push(fm));
            }
        }
        q = q + 1;
    }
    Some((out, p))
}

fn read_nodes(b: &[u8], pos: usize, n: u64) -> (r: Option<(Vec<RawNode>, usize)>)
    requires
        pos <= b@.len(),
    ensures
        match r {
            Some((v, p)) => p <= b@.len() && parse_nodes(b@.skip(pos as int), n as nat) == Some((raw_nodes_model(v@), b@.skip(p as int))),
            None => parse_nodes(b@.skip(pos as int), n as nat) is None,
        },
{
    let ghost b0 = b@.skip(pos as int);
    let mut out: Vec<RawNode> = Vec::new();
    let mut p = pos;
    let mut q: u64 = 0;
    assert(raw_nodes_model(out@) =~= Seq::<NodeModel>::empty());
    while q < n
        invariant
            p <= b@.len(),
            q <= n,
            b0 == b@.skip(pos as int),
            parse_nodes(b0, q as nat) == Some((raw_nodes_model(out@), b@.skip(p as int))),
        decreases n - q,
    {
        let ghost prev = out@;
        let step = match read_u32(b, p) {
            None => None,
            Some((id, at1)) => match read_text(b, at1) {
                None => None,
                Some((name, at2)) => match read_fields(b, at2) {
                    None => None,
                    Some((fs, at3)) => match read_u64(b, at3) {
                        None => None,
                        Some((k, at4)) => match read_edges(b, at4, k) {
                            None => None,
                            Some((es, at5)) => Some(((name, id, fs, es), at5)),
                        },
                    },
                },
            },
        };
        match step {
            None => {
                proof {
                    lemma_parse_nodes_fails(b0, (q + 1) as nat, n as nat);
                }
                return None;
            }
            Some((x, at5)) => {
                let ghost xm = (x.0@, x.1, (crate::store::metadata_view(x.2@), raw_edges_model(x.3@)));
                out.push(x);
                p = at5;
                assert(raw_nodes_model(out@) =~= raw_nodes_model(prev).push(xm));
            }
        }
        q = q + 1;
    }
    Some((out, p))
}

/// The edges of one crate, checked and indexed.
fn build_edges(raw: &Vec<RawEdge>) -> (r: Option<BiKeyedIndex<Skid>>)
    ensures
        match r {
            Some(d) => index_wf(raw_edges_model(raw@)) && edges_model(d@) == raw_edges_model(raw@) && d.wf()
                && forall|i: int| 0 <= i < d@.len() ==> (#[trigger] d@[i]).2.dependency == d@[i].1,
            None => !index_wf(raw_edges_model(raw@)),
        },
{
    let ghost m = raw_edges_model(raw@);
    let mut d: BiKeyedIndex<Skid> = BiKeyedIndex::new();
    let mut seen: BTreeSet<u32> = BTreeSet::new();
    assert(edges_model(d@) =~= m.take(0));
    let mut q: usize = 0;
    while q < raw.len()
        invariant
            q <= raw@.len(),
            m == raw_edges_model(raw@),
            d.wf(),
            d@.len() == q,
            edges_model(d@) == m.take(q as int),
            forall|i: int| 0 <= i < d@.len() ==> (#[trigger] d@[i]).2.dependency == d@[i].1,
            forall|x: u32| seen@.contains(x) <==> holds_secondary(d@, x),
        decreases raw@.len() - q,
    {
        let id = raw[q].1;
        let name = raw[q].0.clone();
        let version = match &raw[q].2 {
            Some(v) => Some(v.clone()),
            None => None,
        };
        let ghost e = m[q as int];
        assert(e == (name@, id, opt_view(version)));
        let fresh = !seen.contains(&id);
        let ordered = match d.last_primary() {
            Some(last) => compare_names(last, name.as_str()) < 0,
            None => true,
        };
        if !fresh || !ordered {
            proof {
                assert(m[q as int] == e);
                if !fresh {
                    let i = choose|i: int| 0 <= i < d@.len() && d@[i].1 == id;
                    assert(edges_model(d@)[i] == m[i]);
                    assert(m[i].1 == id);
                    assert(m[i].1 == m[q as int].1 && i != q);
                } else {
                    assert(edges_model(d@)[q - 1] == m[q - 1]);
                    assert(m[q - 1].0 == d@.last().0);
                    crate::order::lemma_name_before_strict(m[q - 1].0, name@);
                    assert(!crate::order::name_before(m[q - 1].0, m[q as int].0));
                }
                assert(!index_wf(m));
            }
            return None;
        }
        proof {
            if holds_secondary(d@, id) {
                assert(seen@.contains(id));
            }
        }
        let ghost before = d@;
        seen.insert(id);
        d.push_last(name, id, Skid { dependency: id, version });
        assert(edges_model(d@) =~= m.take(q + 1));
        assert forall|x: u32| seen@.contains(x) <==> holds_secondary(d@, x) by {
            if holds_secondary(before, x) {
                let i = choose|i: int| 0 <= i < before.len() && before[i].1 == x;
                assert(d@[i] == before[i]);
            }
            if holds_secondary(d@, x) && x != id {
                let i = choose|i: int| 0 <= i < d@.len() && d@[i].1 == x;
                assert(i < before.len());
                assert(d@[i] == before[i]);
            }
            assert(d@[before.len() as int].1 == id);
        }
        q = q + 1;
    }
    assert(m.take(raw@.len() as int) =~= m);
    Some(d)
}

/// The registry of checked crates, each with its checked edges.
fn build_registry(raw: &Vec<RawNode>) -> (r: Option<Carriage>)
    ensures
        match r {
            Some(c) => model_wf(raw_nodes_model(raw@)) && registry_model(c.map@) == raw_nodes_model(raw@) && c.wf(),
            None => !model_wf(raw_nodes_model(raw@)),
        },
{
    let ghost m = raw_nodes_model(raw@);
    let mut c = Carriage::new();
    let mut seen: BTreeSet<u32> = BTreeSet::new();
    assert(registry_model(c.map@) =~= m.take(0));
    let mut q: usize = 0;
    while q < raw.len()
        invariant
            q <= raw@.len(),
            m == raw_nodes_model(raw@),
            c.wf(),
            c.map@.len() == q,
            registry_model(c.map@) == m.take(q as int),
            forall|i: int| 0 <= i < q ==> index_wf(#[trigger] m[i].2.1),
            forall|x: u32| seen@.contains(x) <==> holds_secondary(c.map@, x),
        decreases raw@.len() - q,
    {
        let id = raw[q].1;
        let name = raw[q].0.clone();
        let ghost e = m[q as int];
        let metadata = crate::store::clone_metadata(&raw[q].2);
        let edges = match build_edges(&raw[q].3) {
            Some(d) => d,
            None => {
                assert(m[q as int].2.1 == raw_edges_model(raw@[q as int].3@));
                assert(!index_wf(m[q as int].2.1));
                return None;
            }
        };
        assert(e == (name@, id, (crate::store::metadata_view(metadata@), edges_model(edges@))));
        let fresh = !seen.contains(&id);
        let ordered = match c.map.last_primary() {
            Some(last) => compare_names(last, name.as_str()) < 0,
            None => true,
        };
        if !fresh || !ordered {
            proof {
                assert(m[q as int] == e);
                if !fresh {
                    let i = choose|i: int| 0 <= i < c.map@.len() && c.map@[i].1 == id;
                    assert(registry_model(c.map@)[i] == m[i]);
                    assert(m[i].1 == m[q as int].1 && i != q);
                } else {
                    assert(registry_model(c.map@)[q - 1] == m[q - 1]);
                    assert(m[q - 1].0 == c.map@.last().0);
                    crate::order::lemma_name_before_strict(m[q - 1].0, name@);
                    assert(!crate::order::name_before(m[q - 1].0, m[q as int].0));
                }
                assert(!index_wf(m));
            }
            return None;
        }
        let ghost before = c.map@;
        seen.insert(id);
        let node = Crate { krate: Kiste { id, name: name.clone(), metadata }, dependencies: edges };
        c.map.push_last(name, id, node);
        assert(registry_model(c.map@) =~= m.take(q + 1));
        assert forall|x: u32| seen@.contains(x) <==> holds_secondary(c.map@, x) by {
            if holds_secondary(before, x) {
                let i = choose|i: int| 0 <= i < before.len() && before[i].1 == x;
                assert(c.map@[i] == before[i]);
            }
            if holds_secondary(c.map@, x) && x != id {
                let i = choose|i: int| 0 <= i < c.map@.len() && c.map@[i].1 == x;
                assert(c.map@[i] == before[i]);
            }
            assert(c.map@[before.len() as int].1 == id);
        }
        assert(registry_wf(c.map@)) by {
            assert forall|i: int| 0 <= i < c.map@.len() implies {
                &&& (#[trigger] c.map@[i]).2.wf()
                &&& c.map@[i].2.krate.id == c.map@[i].1
                &&& c.map@[i].2.krate.name@ == c.map@[i].0
            } by {
                if i < before.len() {
                    assert(c.map@[i] == before[i]);
                }
            }
        }
        q = q + 1;
    }
    assert(m.take(raw@.len() as int) =~= m);
    Some(c)
}

/// Why a snapshot could not be read back.
#[derive(Clone, Copy, Debug, PartialEq, Eq, Structural)]
pub enum SnapshotError {
    /// The bytes are not the snapshot of a well-formed registry.
    CacheCorrupt,
}

impl Carriage {
    /// The registry a snapshot holds; an error where the bytes are not
    /// exactly the snapshot of a well-formed registry.
    pub fn load(b: &[u8]) -> (r: Result<Carriage, SnapshotError>)
        ensures
            match parse_snapshot(b@) {
                Some(m) => r matches Ok(c) && c.wf() && registry_model(c.map@) == m,
                None => r == Err::<Carriage, SnapshotError>(SnapshotError::CacheCorrupt),
            },
    {
        if b.len() < 4 || b[0] != 0x46u8 || b[1] != 0x4fu8 || b[2] != 0x52u8 || b[3] != 0x4bu8 {
            proof {
                if b@.len() >= 4 {
                    assert(b@.take(4)[0] == b@[0] && b@.take(4)[1] == b@[1] && b@.take(4)[2] == b@[2] && b@.take(4)[3] == b@[3]);
                }
            }
            return Err(SnapshotError::CacheCorrupt);
        }
        assert(b@.take(4) =~= magic());
        let (n, at1) = match read_u64(b, 4) {
            Some(x) => x,
            None => {
                return Err(SnapshotError::CacheCorrupt);
            }
        };
        let (raw, at2) = match read_nodes(b, at1, n) {
            Some(x) => x,
            None => {
                return Err(SnapshotError::CacheCorrupt);
            }
        };
        if at2 != b.len() {
            return Err(SnapshotError::CacheCorrupt);
        }
        assert(b@.skip(at2 as int).len() == 0);
        match build_registry(&raw) {
            Some(c) => Ok(c),
            None => Err(SnapshotError::CacheCorrupt),
        }
    }
}

/// Reading back the snapshot `store` writes of a well-formed registry gives
/// the same crates in the same order, each with the same edges.
pub proof fn lemma_store_load(s: Registry)
    requires
        registry_wf(s),
        model_fits(registry_model(s)),
    ensures
        parse_snapshot(snapshot_bytes(registry_model(s))) == Some(registry_model(s)),
{
    lemma_registry_model_wf(s);
    lemma_snapshot_round_trip(registry_model(s));
}

fn push_bytes(out: &mut Vec<u8>, b: &[u8])
    ensures
        final(out)@ == old(out)@ + b@,
{
    let mut i: usize = 0;
    while i < b.len()
        invariant
            i <= b@.len(),
            out@ == old(out)@ + b@.subrange(0, i as int),
        decreases b@.len() - i,
    {
        assert(b@.subrange(0, i + 1) =~= b@.subrange(0, i as int).push(b@[i as int]));
        out.push(b[i]);
        i = i + 1;
    }
    assert(b@.subrange(0, b@.len() as int) =~= b@);
}

fn push_text(out: &mut Vec<u8>, t: &str)
    ensures
        final(out)@ == old(out)@ + text_bytes(t@),
        text_fits(t@),
{
    let b = t.as_bytes();
    let n = b.len() as u64;
    let len = u64_to_le_bytes(n);
    push_bytes(out, len.as_slice());
    push_bytes(out, b);
    assert(final(out)@ =~= old(out)@ + text_bytes(t@)) by {
        assert(text_bytes(t@) == len@ + b@);
    }
}

fn push_fields(out: &mut Vec<u8>, fs: &Vec<(String, String)>)
    ensures
        final(out)@ == old(out)@ + fields_bytes(crate::store::metadata_view(fs@)),
        fields_fit(crate::store::metadata_view(fs@)),
{
    let ghost fm = crate::store::metadata_view(fs@);
    let count = u64_to_le_bytes(fs.len() as u64);
    push_bytes(out, count.as_slice());
    let ghost head = out@;
    let mut k: usize = 0;
    while k < fs.len()
        invariant
            k <= fs@.len(),
            fm == crate::store::metadata_view(fs@),
            out@ == head + field_list_bytes(fm.take(k as int)),
            forall|q: int| 0 <= q < k ==> text_fits((#[trigger] fm[q]).0) && text_fits(fm[q].1),
        decreases fs@.len() - k,
    {
        let ghost before = out@;
        push_text(out, fs[k].0.as_str());
        push_text(out, fs[k].1.as_str());
        assert(fm.take(k + 1).drop_last() =~= fm.take(k as int));
        assert(out@ =~= before + field_bytes(fm[k as int]));
        k = k + 1;
    }
    assert(fm.take(fm.len() as int) =~= fm);
    assert(out@ =~= old(out)@ + fields_bytes(fm));
}

impl Carriage {
    /// The snapshot of the registry.
    pub fn store(&self) -> (r: Vec<u8>)
        ensures
            r@ == snapshot_bytes(registry_model(self.map@)),
            model_fits(registry_model(self.map@)),
    {
        let ghost m = registry_model(self.map@);
        let mut out: Vec<u8> = Vec::new();
        push_bytes(&mut out, &[0x46u8, 0x4fu8, 0x52u8, 0x4bu8]);
        let count = u64_to_le_bytes(self.map.len() as u64);
        push_bytes(&mut out, count.as_slice());
        let ghost head = out@;
        assert(head =~= magic() + spec_u64_to_le_bytes(m.len() as u64));
        let mut i: usize = 0;
        while i < self.map.len()
            invariant
                i <= self.map@.len(),
                m == registry_model(self.map@),
                out@ == head + nodes_bytes(m.take(i as int)),
                forall|a: int| 0 <= a < i ==> {
                    &&& text_fits((#[trigger] m[a]).0)
                    &&& fields_fit(m[a].2.0)
                    &&& m[a].2.1.len() <= u64::MAX
                    &&& forall|k: int| 0 <= k < m[a].2.1.len() ==> text_fits((#[trigger] m[a].2.1[k]).0) && version_fits(m[a].2.1[k].2)
                },
            decreases self.map@.len() - i,
        {
            let slot = self.map.slot_at(i);
            let ghost before = out@;
            let ghost node = m[i as int];
            let ghost es = node.2.1;
            let id = u32_to_le_bytes(slot.secondary);
            push_bytes(&mut out, id.as_slice());
            push_text(&mut out, slot.primary.as_str());
            push_fields(&mut out, &slot.value.krate.metadata);
            let deps = &slot.value.dependencies;
            let k_count = u64_to_le_bytes(deps.len() as u64);
            push_bytes(&mut out, k_count.as_slice());
            let ghost mid = out@;
            assert(es == edges_model(deps@));
            assert(mid == before + spec_u32_to_le_bytes(node.1) + text_bytes(node.0) + fields_bytes(node.2.0)
                + spec_u64_to_le_bytes(es.len() as u64));
            let mut k: usize = 0;
            while k < deps.len()
                invariant
                    k <= deps@.len(),
                    es == edges_model(deps@),
                    out@ == mid + edges_bytes(es.take(k as int)),
                    forall|q: int| 0 <= q < k ==> text_fits((#[trigger] es[q]).0) && version_fits(es[q].2),
                decreases deps@.len() - k,
            {
                let edge = deps.slot_at(k);
                let ghost before_edge = out@;
                let tid = u32_to_le_bytes(edge.secondary);
                push_bytes(&mut out, tid.as_slice());
                push_text(&mut out, edge.primary.as_str());
                match &edge.value.version {
                    Some(v) => {
                        out.push(1u8);
                        push_text(&mut out, v.as_str());
                    }
                    None => {
                        out.push(0u8);
                    }
                }
                assert(es.take(k + 1).drop_last() =~= es.take(k as int));
                assert(out@ =~= before_edge + edge_bytes(es[k as int]));
                k = k + 1;
            }
            assert(es.take(es.len() as int) =~= es);
            assert(m.take(i + 1).drop_last() =~= m.take(i as int));
            assert(out@ =~= before + node_bytes(node));
            i = i + 1;
        }
        assert(m.take(m.len() as int) =~= m);
        assert(out@ =~= snapshot_bytes(m));
        out
    }
}

} // verus!
