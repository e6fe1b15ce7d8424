//! Binary FBX 7.4 export. A document is a tree of named nodes, each with a
//! list of typed properties and a list of child nodes. Every node record
//! starts with the offset just past its end, its property count and the byte
//! length of its property list, so a writer only knows a node's header once
//! the node is complete: the builder leaves room for it and fills it in when
//! the node is closed.

use crate::bytes::{lemma_le_roundtrip, le_bytes, le_bytes64, push_all, push_u32_le, push_u64_le, push_zeros, zeros};
use crate::geom::{Color8, IVec3};
use crate::gltf::{build_mesh as build_glb_mesh, cells_interior, exposed_faces, face_normal, face_vertex, mesh_of};
use crate::grid::VoxelGrid;
use crate::reader::le_u32;
use crate::vox::lists_cells;
use vstd::prelude::*;

verus! {

// ---------------------------------------------------------------------------
// The document model
// ---------------------------------------------------------------------------

/// Bytes before the node records: the 23-byte magic text and the version.
pub const FBX_HEADER_LEN: usize = 27;

/// A property value. Doubles are given by their IEEE-754 bit patterns.
pub enum FbxProp {
    I32(i32),
    I64(i64),
    F64(u64),
    Bool(bool),
    Str(Seq<u8>),
    Raw(Seq<u8>),
    ArrI32(Seq<i32>),
    ArrF64(Seq<u64>),
}

/// A complete node.
#[verifier::ext_equal]
pub struct FbxNode {
    pub name: Seq<u8>,
    pub props: Seq<FbxProp>,
    pub children: Seq<FbxNode>,
}

/// The little-endian bytes of each value in turn.
pub open spec fn i32_run(a: Seq<i32>) -> Seq<u8>
    decreases a.len(),
{
    if a.len() == 0 {
        Seq::empty()
    } else {
        i32_run(a.drop_last()) + le_bytes(a.last() as u32)
    }
}

/// The little-endian bytes of each value in turn.
pub open spec fn u64_run(a: Seq<u64>) -> Seq<u8>
    decreases a.len(),
{
    if a.len() == 0 {
        Seq::empty()
    } else {
        u64_run(a.drop_last()) + le_bytes64(a.last())
    }
}

/// A property record: its type code, then its value. Arrays are stored
/// uncompressed (encoding 0), after their element count and byte length.
pub open spec fn prop_bytes(p: FbxProp) -> Seq<u8> {
    match p {
        FbxProp::I32(v) => seq![0x49u8] + le_bytes(v as u32),
        FbxProp::I64(v) => seq![0x4Cu8] + le_bytes64(v as u64),
        FbxProp::F64(b) => seq![0x44u8] + le_bytes64(b),
        FbxProp::Bool(b) => seq![0x43u8, if b { 1u8 } else { 0u8 }],
        FbxProp::Str(s) => seq![0x53u8] + le_bytes(s.len() as u32) + s,
        FbxProp::Raw(s) => seq![0x52u8] + le_bytes(s.len() as u32) + s,
        FbxProp::ArrI32(a) => seq![0x69u8] + le_bytes(a.len() as u32) + le_bytes(0) + le_bytes(
            (a.len() * 4) as u32,
        ) + i32_run(a),
        FbxProp::ArrF64(a) => seq![0x64u8] + le_bytes(a.len() as u32) + le_bytes(0) + le_bytes(
            (a.len() * 8) as u32,
        ) + u64_run(a),
    }
}

/// The property list: each record in turn.
pub open spec fn props_bytes(ps: Seq<FbxProp>) -> Seq<u8>
    decreases ps.len(),
{
    if ps.len() == 0 {
        Seq::empty()
    } else {
        props_bytes(ps.drop_last()) + prop_bytes(ps.last())
    }
}

/// Byte length of a node record.
pub open spec fn node_len(n: FbxNode) -> nat
    decreases n,
{
    13 + n.name.len() + props_bytes(n.props).len() + kids_len(n.children) + if n.children.len() > 0 {
        13nat
    } else {
        0nat
    }
}

/// Byte length of a run of node records.
pub open spec fn kids_len(ns: Seq<FbxNode>) -> nat
    decreases ns,
{
    if ns.len() == 0 {
        0
    } else {
        kids_len(ns.subrange(0, ns.len() - 1)) + node_len(ns[ns.len() - 1])
    }
}

/// The record of node `n` placed at offset `start` of the body, which the
/// file puts after its `FBX_HEADER_LEN` header bytes: the file offset past
/// the record's end, the property count, the property list's length, the name with its
/// length byte, the properties, the children, and a 13-byte null record
/// closing the children when there are any.
pub open spec fn node_bytes(n: FbxNode, start: int) -> Seq<u8>
    decreases n,
{
    let pl = props_bytes(n.props).len();
    le_bytes((FBX_HEADER_LEN + start + node_len(n)) as u32) + le_bytes(n.props.len() as u32) + le_bytes(pl as u32) + seq![
        n.name.len() as u8,
    ] + n.name + props_bytes(n.props) + kids_bytes(n.children, start + 13 + n.name.len() + pl) + if n.children.len()
        > 0 {
        zeros(13)
    } else {
        Seq::empty()
    }
}

/// The records of `ns`, one after another, the first at offset `start`.
pub open spec fn kids_bytes(ns: Seq<FbxNode>, start: int) -> Seq<u8>
    decreases ns,
{
    if ns.len() == 0 {
        Seq::empty()
    } else {
        let init = ns.subrange(0, ns.len() - 1);
        kids_bytes(init, start) + node_bytes(ns[ns.len() - 1], start + kids_len(init))
    }
}

/// A node record is `node_len` bytes long.
pub proof fn lemma_node_len(n: FbxNode, start: int)
    ensures
        node_bytes(n, start).len() == node_len(n),
    decreases n,
{
    let pl = props_bytes(n.props).len();
    lemma_kids_len(n.children, start + 13 + n.name.len() + pl);
}

/// A run of node records is `kids_len` bytes long.
pub proof fn lemma_kids_len(ns: Seq<FbxNode>, start: int)
    ensures
        kids_bytes(ns, start).len() == kids_len(ns),
    decreases ns,
{
    if ns.len() > 0 {
        let init = ns.subrange(0, ns.len() - 1);
        lemma_kids_len(init, start);
        lemma_node_len(ns[ns.len() - 1], start + kids_len(init));
    }
}

/// A node still being written: where it starts, its name, the properties and
/// the complete children so far.
pub struct FbxOpen {
    pub start: nat,
    pub name: Seq<u8>,
    pub props: Seq<FbxProp>,
    pub children: Seq<FbxNode>,
}

/// What an open node has written so far: room for the header, the name, the
/// properties and the complete children.
pub open spec fn open_head(p: FbxOpen) -> Seq<u8> {
    let pl = props_bytes(p.props).len();
    zeros(12) + seq![p.name.len() as u8] + p.name + props_bytes(p.props) + kids_bytes(
        p.children,
        (p.start + 13 + p.name.len() + pl) as int,
    )
}

/// What the open nodes have written, outermost first.
pub open spec fn open_bytes(os: Seq<FbxOpen>) -> Seq<u8>
    decreases os.len(),
{
    if os.len() == 0 {
        Seq::empty()
    } else {
        open_bytes(os.drop_last()) + open_head(os.last())
    }
}

/// Each open node starts where the ones around it have written up to, the
/// outermost at `base`.
pub open spec fn chained(os: Seq<FbxOpen>, base: nat) -> bool
    decreases os.len(),
{
    if os.len() == 0 {
        true
    } else {
        chained(os.drop_last(), base) && os.last().start == base + open_bytes(os.drop_last()).len()
    }
}

/// A document being written: the complete top-level nodes and the nodes
/// still open, outermost first.
pub struct FbxDoc {
    pub roots: Seq<FbxNode>,
    pub open: Seq<FbxOpen>,
}

/// Everything written so far.
pub open spec fn doc_bytes(d: FbxDoc) -> Seq<u8> {
    kids_bytes(d.roots, 0) + open_bytes(d.open)
}

/// The document after adding the complete node `n` to the innermost open
/// node, or at the top level when none is open.
pub open spec fn add_node(d: FbxDoc, n: FbxNode) -> FbxDoc {
    if d.open.len() == 0 {
        FbxDoc { roots: d.roots.push(n), open: d.open }
    } else {
        let top = d.open.last();
        FbxDoc {
            roots: d.roots,
            open: d.open.drop_last().push(FbxOpen { children: top.children.push(n), ..top }),
        }
    }
}

/// The document after adding the complete nodes `ns`, in order.
pub open spec fn add_nodes(d: FbxDoc, ns: Seq<FbxNode>) -> FbxDoc
    decreases ns.len(),
{
    if ns.len() == 0 {
        d
    } else {
        add_node(add_nodes(d, ns.drop_last()), ns.last())
    }
}

/// The document after adding property `p` to the innermost open node.
pub open spec fn add_prop(d: FbxDoc, p: FbxProp) -> FbxDoc {
    let top = d.open.last();
    FbxDoc { roots: d.roots, open: d.open.drop_last().push(FbxOpen { props: top.props.push(p), ..top }) }
}

/// The innermost open node, closed.
pub open spec fn closed_top(d: FbxDoc) -> FbxNode {
    let top = d.open.last();
    FbxNode { name: top.name, props: top.props, children: top.children }
}

/// The document after closing the innermost open node.
pub open spec fn close_top(d: FbxDoc) -> FbxDoc {
    add_node(FbxDoc { roots: d.roots, open: d.open.drop_last() }, closed_top(d))
}

/// The bytes of a string.
#[verifier::opaque]
pub open spec fn str_bytes(s: Seq<char>) -> Seq<u8> {
    vstd::utf8::encode_utf8(s)
}

/// A node with the given name, properties and children.
pub open spec fn node(name: Seq<char>, props: Seq<FbxProp>, children: Seq<FbxNode>) -> FbxNode {
    FbxNode { name: str_bytes(name), props, children }
}

/// A node with one property and no children.
pub open spec fn leaf(name: Seq<char>, p: FbxProp) -> FbxNode {
    node(name, seq![p], Seq::empty())
}

/// A string property.
pub open spec fn str_prop(s: Seq<char>) -> FbxProp {
    FbxProp::Str(str_bytes(s))
}

// ---------------------------------------------------------------------------
// The builder
// ---------------------------------------------------------------------------

#[derive(Clone, Copy)]
struct NodeFrame {
    start: usize,
    props_start: usize,
    props_end: Option<usize>,
    num_props: u32,
    child_count: u32,
}

/// Writes an FBX node tree, filling in each node's header when it closes.
pub struct FbxBuilder {
    buf: Vec<u8>,
    stack: Vec<NodeFrame>,
    doc: Ghost<FbxDoc>,
}

/// Frame `f` records open node `i` of `os`: a node with an open child has
/// counted it already, and the property list ends where the first child
/// began.
#[verifier::opaque]
spec fn frame_of(f: NodeFrame, os: Seq<FbxOpen>, i: int) -> bool {
    let o = os[i];
    let kids = o.children.len() + if i + 1 < os.len() {
        1int
    } else {
        0int
    };
    &&& f.start == o.start
    &&& f.props_start == o.start + 13 + o.name.len()
    &&& f.num_props == o.props.len()
    &&& f.child_count == kids
    &&& f.props_end == if kids > 0 {
        Some((f.props_start + props_bytes(o.props).len()) as usize)
    } else {
        None::<usize>
    }
}

impl View for FbxBuilder {
    type V = FbxDoc;

    closed spec fn view(&self) -> FbxDoc {
        self.doc@
    }
}

impl FbxBuilder {
    /// The bytes written so far.
    pub closed spec fn bytes(&self) -> Seq<u8> {
        self.buf@
    }

    /// The bytes written are those of the document, and the bookkeeping of
    /// each open node agrees with it.
    pub closed spec fn wf(&self) -> bool {
        &&& self.buf@ == doc_bytes(self.doc@)
        &&& chained(self.doc@.open, kids_len(self.doc@.roots))
        &&& self.stack@.len() == self.doc@.open.len()
        &&& forall|i: int| 0 <= i < self.stack@.len() ==> frame_of(#[trigger] self.stack@[i], self.doc@.open, i)
    }

    /// The bytes written so far.
    pub fn written(&self) -> (r: &[u8])
        ensures
            r@ == self.bytes(),
    {
        self.buf.as_slice()
    }

    /// The written bytes are the document's.
    pub proof fn lemma_bytes(&self)
        requires
            self.wf(),
        ensures
            self.bytes() == doc_bytes(self@),
    {
    }

    /// An empty document.
    pub fn new() -> (r: Self)
        ensures
            r.wf(),
            r@ == (FbxDoc { roots: Seq::empty(), open: Seq::empty() }),
            r.bytes() == Seq::<u8>::empty(),
    {
        let r = FbxBuilder {
            buf: Vec::new(),
            stack: Vec::new(),
            doc: Ghost(FbxDoc { roots: Seq::empty(), open: Seq::empty() }),
        };
        proof {
            assert(r.buf@ =~= doc_bytes(r.doc@));
        }
        r
    }
}


/// Where the innermost open node has written up to.
proof fn lemma_top_end(d: FbxDoc)
    requires
        chained(d.open, kids_len(d.roots)),
        d.open.len() > 0,
    ensures
        doc_bytes(d).len() == d.open.last().start + 13 + d.open.last().name.len() + props_bytes(
            d.open.last().props,
        ).len() + kids_len(d.open.last().children),
        doc_bytes(d) == kids_bytes(d.roots, 0) + open_bytes(d.open.drop_last()) + open_head(d.open.last()),
        d.open.last().start == kids_bytes(d.roots, 0).len() + open_bytes(d.open.drop_last()).len(),
{
    let top = d.open.last();
    lemma_kids_len(d.roots, 0);
    lemma_kids_len(top.children, (top.start + 13 + top.name.len() + props_bytes(top.props).len()) as int);
}

/// Closing the only open node adds its record after the top-level ones.
#[verifier::spinoff_prover]
proof fn lemma_close_outer(d: FbxDoc)
    requires
        chained(d.open, kids_len(d.roots)),
        d.open.len() == 1,
    ensures
        close_top(d).open.len() == 0,
        doc_bytes(close_top(d)) == kids_bytes(d.roots, 0) + open_bytes(d.open.drop_last()) + node_bytes(
            closed_top(d),
            d.open.last().start as int,
        ),
{
    let top = d.open.last();
    let n = closed_top(d);
    let c = close_top(d);
    lemma_top_end(d);
    lemma_kids_len(d.roots, 0);
    let r2 = d.roots.push(n);
    assert(r2.subrange(0, r2.len() - 1) =~= d.roots);
    assert(c.roots == r2);
    assert(d.open.drop_last() =~= Seq::<FbxOpen>::empty());
    assert(kids_bytes(r2, 0) == kids_bytes(d.roots, 0) + node_bytes(n, kids_len(d.roots) as int));
    assert(doc_bytes(c) =~= kids_bytes(d.roots, 0) + open_bytes(d.open.drop_last()) + node_bytes(n, top.start as int));
}

/// Adding a record to a run of records appends it.
proof fn lemma_kids_push(ns: Seq<FbxNode>, n: FbxNode, cs: int)
    ensures
        kids_bytes(ns.push(n), cs) == kids_bytes(ns, cs) + node_bytes(n, cs + kids_len(ns)),
        kids_len(ns.push(n)) == kids_len(ns) + node_len(n),
{
    let ns2 = ns.push(n);
    assert(ns2.subrange(0, ns2.len() - 1) =~= ns);
    assert(ns2[ns2.len() - 1] == n);
}

/// Adding a complete child to an open node appends its record.
proof fn lemma_head_push(par: FbxOpen, n: FbxNode)
    ensures
        open_head(FbxOpen { children: par.children.push(n), ..par }) == open_head(par) + node_bytes(
            n,
            (par.start + 13 + par.name.len() + props_bytes(par.props).len() + kids_len(par.children)) as int,
        ),
{
    let cs = (par.start + 13 + par.name.len() + props_bytes(par.props).len()) as int;
    lemma_kids_push(par.children, n, cs);
    let par2 = FbxOpen { children: par.children.push(n), ..par };
    assert(open_head(par2) =~= open_head(par) + node_bytes(n, cs + kids_len(par.children)));
}

/// Opening one more node appends its head.
proof fn lemma_open_push(os: Seq<FbxOpen>, p: FbxOpen, base: nat)
    ensures
        open_bytes(os.push(p)) == open_bytes(os) + open_head(p),
        chained(os.push(p), base) == (chained(os, base) && p.start == base + open_bytes(os).len()),
{
    assert(os.push(p).drop_last() =~= os);
}

/// Closing an inner open node adds its record after its parent's children.
#[verifier::spinoff_prover]
proof fn lemma_close_inner(d: FbxDoc)
    requires
        chained(d.open, kids_len(d.roots)),
        d.open.len() >= 2,
    ensures
        close_top(d).open == d.open.drop_last().drop_last().push(
            FbxOpen { children: d.open[d.open.len() - 2].children.push(closed_top(d)), ..d.open[d.open.len() - 2] },
        ),
        chained(close_top(d).open, kids_len(close_top(d).roots)),
        doc_bytes(close_top(d)) == kids_bytes(d.roots, 0) + open_bytes(d.open.drop_last()) + node_bytes(
            closed_top(d),
            d.open.last().start as int,
        ),
{
    let top = d.open.last();
    let rest = d.open.drop_last();
    let rr = rest.drop_last();
    let n = closed_top(d);
    let c = close_top(d);
    let base = kids_len(d.roots);
    let par = rest.last();
    assert(par == d.open[d.open.len() - 2]);
    let par2 = FbxOpen { children: par.children.push(n), ..par };
    assert(rest =~= rr.push(par));
    assert(d.open =~= rest.push(top));
    lemma_open_push(rest, top, base);
    lemma_open_push(rr, par, base);
    lemma_open_push(rr, par2, base);
    lemma_head_push(par, n);
    lemma_kids_len(par.children, (par.start + 13 + par.name.len() + props_bytes(par.props).len()) as int);
    assert(open_head(par).len() == 13 + par.name.len() + props_bytes(par.props).len() + kids_len(par.children));
    assert(c.open == rr.push(par2));
    assert(c.roots == d.roots);
    assert(doc_bytes(c) =~= kids_bytes(d.roots, 0) + open_bytes(rest) + node_bytes(n, top.start as int));
}

/// Writes `v` little-endian over the four bytes at `at`.
fn patch_u32(buf: &mut Vec<u8>, at: usize, v: u32)
    requires
        at + 4 <= old(buf)@.len(),
    ensures
        final(buf)@ == old(buf)@.subrange(0, at as int) + le_bytes(v) + old(buf)@.subrange(
            at + 4,
            old(buf)@.len() as int,
        ),
{
    let len = buf.len();
    buf.set(at, (v % 0x100) as u8);
    buf.set(at + 1, ((v / 0x100) % 0x100) as u8);
    buf.set(at + 2, ((v / 0x1_0000) % 0x100) as u8);
    buf.set(at + 3, (v / 0x100_0000) as u8);
    proof {
        assert(final(buf)@ =~= old(buf)@.subrange(0, at as int) + le_bytes(v) + old(buf)@.subrange(
            at + 4,
            old(buf)@.len() as int,
        ));
    }
}

/// Writes the three header words of a node record over the twelve bytes
/// at `at`.
fn patch_header(buf: &mut Vec<u8>, at: usize, end_off: u32, num_props: u32, prop_list_len: u32)
    requires
        at + 12 <= old(buf)@.len(),
    ensures
        final(buf)@ == old(buf)@.subrange(0, at as int) + le_bytes(end_off) + le_bytes(num_props) + le_bytes(
            prop_list_len,
        ) + old(buf)@.subrange(at + 12, old(buf)@.len() as int),
{
    let ghost b = buf@;
    let len = buf.len();
    patch_u32(buf, at, end_off);
    patch_u32(buf, at + 4, num_props);
    patch_u32(buf, at + 8, prop_list_len);
    proof {
        assert(buf@ =~= b.subrange(0, at as int) + le_bytes(end_off) + le_bytes(num_props) + le_bytes(
            prop_list_len,
        ) + b.subrange(at + 12, b.len() as int));
    }
}

/// The trailer a closing node adds: a null record when it has children.
pub open spec fn trailer(n: FbxNode) -> Seq<u8> {
    if n.children.len() > 0 {
        zeros(13)
    } else {
        Seq::empty()
    }
}

/// After the trailer, the bytes from the innermost open node's start are
/// its header room followed by the rest of its record.
#[verifier::spinoff_prover]
proof fn lemma_end_bytes(d: FbxDoc, b1: Seq<u8>)
    requires
        chained(d.open, kids_len(d.roots)),
        d.open.len() > 0,
        b1 == doc_bytes(d) + trailer(closed_top(d)),
    ensures
        ({
            let top = d.open.last();
            let nd = closed_top(d);
            let start = top.start as int;
            &&& start + 12 <= b1.len()
            &&& b1.len() == start + node_len(nd)
            &&& b1.subrange(0, start) == kids_bytes(d.roots, 0) + open_bytes(d.open.drop_last())
            &&& node_bytes(nd, start) == le_bytes((FBX_HEADER_LEN + b1.len()) as u32) + le_bytes(nd.props.len() as u32) + le_bytes(
                props_bytes(nd.props).len() as u32,
            ) + b1.subrange(start + 12, b1.len() as int)
        }),
{
    let top = d.open.last();
    let nd = closed_top(d);
    let start = top.start as int;
    lemma_top_end(d);
    let p = kids_bytes(d.roots, 0) + open_bytes(d.open.drop_last());
    let r = seq![top.name.len() as u8] + top.name + props_bytes(top.props) + kids_bytes(
        top.children,
        (top.start + 13 + top.name.len() + props_bytes(top.props).len()) as int,
    );
    assert(open_head(top) =~= zeros(12) + r);
    assert(b1 =~= p + zeros(12) + r + trailer(nd));
    assert(b1.subrange(0, start) =~= p);
    assert(b1.subrange(start + 12, b1.len() as int) =~= r + trailer(nd));
}

/// Closing the innermost node leaves the bookkeeping of the others right.
proof fn lemma_end_frames(st: Seq<NodeFrame>, d: FbxDoc)
    requires
        chained(d.open, kids_len(d.roots)),
        d.open.len() > 0,
        st.len() == d.open.len(),
        forall|i: int| 0 <= i < st.len() ==> frame_of(#[trigger] st[i], d.open, i),
    ensures
        forall|i: int| 0 <= i < st.len() - 1 ==> frame_of(#[trigger] st.drop_last()[i], close_top(d).open, i),
{
    reveal(frame_of);
    if d.open.len() >= 2 {
        lemma_close_inner(d);
        let c = close_top(d);
        assert forall|i: int| 0 <= i < st.len() - 1 implies frame_of(#[trigger] st.drop_last()[i], c.open, i) by {
            assert(st.drop_last()[i] == st[i]);
            assert(frame_of(st[i], d.open, i));
            if i < st.len() - 2 {
                assert(c.open[i] == d.open[i]);
            }
        }
    }
}

/// Filling in the header after the trailer gives the bytes of the document
/// with the innermost node closed.
#[verifier::spinoff_prover]
proof fn lemma_end_result(d: FbxDoc, b1: Seq<u8>)
    requires
        chained(d.open, kids_len(d.roots)),
        d.open.len() > 0,
        b1 == if d.open.last().children.len() > 0 {
            doc_bytes(d) + zeros(13)
        } else {
            doc_bytes(d)
        },
    ensures
        ({
            let nd = closed_top(d);
            let start = d.open.last().start as int;
            &&& start + 12 <= b1.len()
            &&& b1.subrange(0, start) + le_bytes((FBX_HEADER_LEN + b1.len()) as u32) + le_bytes(nd.props.len() as u32) + le_bytes(
                props_bytes(nd.props).len() as u32,
            ) + b1.subrange(start + 12, b1.len() as int) == doc_bytes(close_top(d))
        }),
{
    assert(b1 =~= doc_bytes(d) + trailer(closed_top(d)));
    lemma_end_bytes(d, b1);
    if d.open.len() >= 2 {
        lemma_close_inner(d);
    } else {
        lemma_close_outer(d);
    }
}

/// What the innermost open node's bookkeeping says, given that `len`
/// bytes are written.
proof fn lemma_top_frame(f: NodeFrame, d: FbxDoc, len: nat)
    requires
        chained(d.open, kids_len(d.roots)),
        d.open.len() > 0,
        frame_of(f, d.open, d.open.len() - 1),
        len == doc_bytes(d).len(),
    ensures
        ({
            let top = d.open.last();
            let pl = props_bytes(top.props).len();
            &&& f.start == top.start
            &&& f.props_start == top.start + 13 + top.name.len()
            &&& f.num_props == top.props.len()
            &&& f.child_count == top.children.len()
            &&& len == f.props_start + pl + kids_len(top.children)
            &&& top.start + 12 <= len
            &&& f.child_count == 0 ==> top.children.len() == 0 && kids_len(top.children) == 0
                && f.props_end is None
            &&& f.child_count > 0 ==> f.props_end == Some((f.props_start + pl) as usize) && f.props_start + pl
                <= len
        }),
{
    let top = d.open.last();
    reveal(frame_of);
    lemma_top_end(d);
    lemma_kids_len(top.children, (top.start + 13 + top.name.len() + props_bytes(top.props).len()) as int);
}

/// Adding a property to the innermost open node, which has no children
/// yet, appends its record.
proof fn lemma_add_prop(d: FbxDoc, p: FbxProp)
    requires
        chained(d.open, kids_len(d.roots)),
        d.open.len() > 0,
        d.open.last().children.len() == 0,
    ensures
        doc_bytes(add_prop(d, p)) == doc_bytes(d) + prop_bytes(p),
        chained(add_prop(d, p).open, kids_len(add_prop(d, p).roots)),
        add_prop(d, p).roots == d.roots,
        add_prop(d, p).open.len() == d.open.len(),
        forall|i: int| 0 <= i < d.open.len() - 1 ==> #[trigger] add_prop(d, p).open[i] == d.open[i],
{
    let top = d.open.last();
    let rest = d.open.drop_last();
    let top2 = FbxOpen { props: top.props.push(p), ..top };
    let d2 = add_prop(d, p);
    let base = kids_len(d.roots);
    assert(d.open =~= rest.push(top));
    assert(d2.open == rest.push(top2));
    lemma_open_push(rest, top, base);
    lemma_open_push(rest, top2, base);
    assert(top2.props.drop_last() =~= top.props);
    assert(props_bytes(top2.props) == props_bytes(top.props) + prop_bytes(p));
    assert(kids_bytes(top.children, 0) =~= Seq::<u8>::empty());
    assert(open_head(top2) =~= open_head(top) + prop_bytes(p));
    assert(doc_bytes(d2) =~= doc_bytes(d) + prop_bytes(p));
    assert forall|i: int| 0 <= i < d.open.len() - 1 implies #[trigger] d2.open[i] == d.open[i] by {
        assert(d2.open[i] == rest[i]);
    }
}

/// After adding a property, the bookkeeping still agrees.
proof fn lemma_prop_frames(st: Seq<NodeFrame>, d: FbxDoc, p: FbxProp, f2: NodeFrame)
    requires
        chained(d.open, kids_len(d.roots)),
        d.open.len() > 0,
        d.open.last().children.len() == 0,
        st.len() == d.open.len(),
        forall|i: int| 0 <= i < st.len() ==> frame_of(#[trigger] st[i], d.open, i),
        f2 == (NodeFrame { num_props: (st.last().num_props + 1) as u32, ..st.last() }),
        st.last().num_props + 1 <= u32::MAX,
    ensures
        forall|i: int|
            0 <= i < st.len() ==> frame_of(#[trigger] st.update(st.len() - 1, f2)[i], add_prop(d, p).open, i),
{
    reveal(frame_of);
    lemma_add_prop(d, p);
    let st2 = st.update(st.len() - 1, f2);
    let d2 = add_prop(d, p);
    assert forall|i: int| 0 <= i < st.len() implies frame_of(#[trigger] st2[i], d2.open, i) by {
        assert(frame_of(st[i], d.open, i));
        if i < st.len() - 1 {
            assert(st2[i] == st[i]);
            assert(d2.open[i] == d.open[i]);
        }
    }
}

/// Appends a property record to the innermost open node.
fn append_prop(b: &mut FbxBuilder, rec: &[u8], Ghost(p): Ghost<FbxProp>)
    requires
        old(b).wf(),
        old(b)@.open.len() > 0,
        old(b)@.open.last().children.len() == 0,
        old(b)@.open.last().props.len() < u32::MAX,
        rec@ == prop_bytes(p),
    ensures
        final(b).wf(),
        final(b)@ == add_prop(old(b)@, p),
{
    let ghost d = b.doc@;
    let ghost old_stack = b.stack@;
    let n = b.stack.len();
    let mut frame = b.stack[n - 1];
    proof {
        lemma_top_frame(frame, d, b.buf@.len());
    }
    frame.num_props = frame.num_props + 1;
    b.stack.set(n - 1, frame);
    push_all(&mut b.buf, rec);
    let ghost d2 = add_prop(d, p);
    b.doc = Ghost(d2);
    proof {
        lemma_add_prop(d, p);
        lemma_prop_frames(old_stack, d, p, frame);
    }
}

impl FbxBuilder {
    /// Opens a node named `name` inside the innermost open node, or at the
    /// top level.
    pub fn begin(&mut self, name: &str)
        requires
            old(self).wf(),
            old(self)@.open.len() > 0 ==> old(self)@.open.last().children.len() + 1 < u32::MAX,
        ensures
            final(self).wf(),
            final(self)@ == (FbxDoc {
                roots: old(self)@.roots,
                open: old(self)@.open.push(
                    FbxOpen {
                        start: old(self).bytes().len(),
                        name: str_bytes(name@),
                        props: Seq::empty(),
                        children: Seq::empty(),
                    },
                ),
            }),
    {
        let ghost d = self.doc@;
        let ghost old_stack = self.stack@;
        let start = self.buf.len();
        let n = self.stack.len();
        proof {
            reveal(frame_of);
            if n > 0 {
                lemma_top_end(d);
                assert(frame_of(old_stack[n - 1], d.open, n - 1));
            }
        }
        if n > 0 {
            let mut parent = self.stack[n - 1];
            parent.child_count = parent.child_count + 1;
            if parent.props_end.is_none() {
                parent.props_end = Some(start);
            }
            self.stack.set(n - 1, parent);
        }
        push_zeros(&mut self.buf, 12);
        let nb = name.as_bytes();
        self.buf.push(nb.len() as u8);
        push_all(&mut self.buf, nb);
        let props_start = self.buf.len();
        self.stack.push(
            NodeFrame { start, props_start, props_end: None, num_props: 0, child_count: 0 },
        );
        let ghost np = FbxOpen { start: start as nat, name: nb@, props: Seq::empty(), children: Seq::empty() };
        proof {
            reveal(str_bytes);
        }
        let ghost d2 = FbxDoc { roots: d.roots, open: d.open.push(np) };
        self.doc = Ghost(d2);
        proof {
            reveal(frame_of);
            lemma_kids_len(d.roots, 0);
            assert(d2.open.drop_last() =~= d.open);
            assert(open_head(np) =~= zeros(12) + seq![nb@.len() as u8] + nb@);
            assert(self.buf@ =~= doc_bytes(d2));
            assert forall|i: int| 0 <= i < self.stack@.len() implies frame_of(
                #[trigger] self.stack@[i],
                d2.open,
                i,
            ) by {
                if i < n as int - 1 {
                    assert(frame_of(old_stack[i], d.open, i));
                    assert(self.stack@[i] == old_stack[i]);
                } else if i == n as int - 1 {
                    assert(frame_of(old_stack[i], d.open, i));
                }
            }
        }
    }

    /// Closes the innermost open node: adds the null record after its
    /// children, if it has any, and fills in its header.
    #[verifier::spinoff_prover]
    pub fn end(&mut self)
        requires
            old(self).wf(),
            old(self)@.open.len() > 0,
        ensures
            final(self).wf(),
            final(self)@ == close_top(old(self)@),
    {
        let ghost d = self.doc@;
        let ghost old_stack = self.stack@;
        let n = self.stack.len();
        let frame = self.stack[n - 1];
        let blen = self.buf.len();
        let ghost top = d.open.last();
        let ghost pl = props_bytes(top.props).len();
        proof {
            lemma_top_frame(frame, d, self.buf@.len());
        }
        let props_end = match frame.props_end {
            Some(e) => e,
            None => blen,
        };
        assert(props_end - frame.props_start == pl);
        let prop_list_len = (props_end - frame.props_start) as u32;
        let num_props = frame.num_props;
        let start = frame.start;
        let has_children = frame.child_count > 0;
        self.stack.pop();
        let ghost nd = closed_top(d);
        if has_children {
            push_zeros(&mut self.buf, 13);
        }
        assert(has_children == (top.children.len() > 0));
        assert(self.buf@ == if top.children.len() > 0 {
            doc_bytes(d) + zeros(13)
        } else {
            doc_bytes(d)
        });
        proof {
            lemma_end_result(d, self.buf@);
        }
        let end_off = ((self.buf.len() as u128) + 27) as u32;
        assert(start == top.start);
        assert(num_props == top.props.len() as u32);
        assert(prop_list_len == pl as u32);
        patch_header(&mut self.buf, start, end_off, num_props, prop_list_len);
        let ghost d2 = close_top(d);
        self.doc = Ghost(d2);
        proof {
            if d.open.len() >= 2 {
                lemma_close_inner(d);
            }
            lemma_end_frames(old_stack, d);
            assert(self.stack@ == old_stack.drop_last());
        }
    }
}


/// The innermost open node can take another property: it has no children
/// yet and its property count has room.
pub open spec fn can_add_prop(d: FbxDoc) -> bool {
    &&& d.open.len() > 0
    &&& d.open.last().children.len() == 0
    &&& d.open.last().props.len() < u32::MAX
}

/// The innermost open node, if any, can take another child.
pub open spec fn can_add_child(d: FbxDoc) -> bool {
    d.open.len() > 0 ==> d.open.last().children.len() + 1 < u32::MAX
}

/// The little-endian bytes of each value.
fn i32_run_bytes(out: &mut Vec<u8>, arr: &[i32])
    ensures
        final(out)@ == old(out)@ + i32_run(arr@),
{
    let ghost start = out@;
    let mut i: usize = 0;
    while i < arr.len()
        invariant
            i <= arr@.len(),
            out@ == start + i32_run(arr@.take(i as int)),
        decreases arr.len() - i,
    {
        push_u32_le(out, arr[i] as u32);
        proof {
            assert(arr@.take(i + 1).drop_last() =~= arr@.take(i as int));
            assert(out@ =~= start + i32_run(arr@.take(i + 1)));
        }
        i = i + 1;
    }
    proof {
        assert(arr@.take(arr@.len() as int) =~= arr@);
    }
}

/// The little-endian bytes of each value.
fn u64_run_bytes(out: &mut Vec<u8>, arr: &[u64])
    ensures
        final(out)@ == old(out)@ + u64_run(arr@),
{
    let ghost start = out@;
    let mut i: usize = 0;
    while i < arr.len()
        invariant
            i <= arr@.len(),
            out@ == start + u64_run(arr@.take(i as int)),
        decreases arr.len() - i,
    {
        push_u64_le(out, arr[i]);
        proof {
            assert(arr@.take(i + 1).drop_last() =~= arr@.take(i as int));
            assert(out@ =~= start + u64_run(arr@.take(i + 1)));
        }
        i = i + 1;
    }
    proof {
        assert(arr@.take(arr@.len() as int) =~= arr@);
    }
}

/// Writes a node named `name` holding the one property `p`, whose record is
/// `rec`.
fn put_leaf(b: &mut FbxBuilder, name: &str, rec: &[u8], Ghost(p): Ghost<FbxProp>)
    requires
        old(b).wf(),
        can_add_child(old(b)@),
        rec@ == prop_bytes(p),
    ensures
        final(b).wf(),
        final(b)@ == add_node(old(b)@, leaf(name@, p)),
{
    let ghost d = b@;
    b.begin(name);
    append_prop(b, rec, Ghost(p));
    let ghost d2 = b@;
    b.end();
    proof {
        assert(d2.open.drop_last() =~= d.open);
        assert(closed_top(d2) =~= leaf(name@, p));
    }
}

impl FbxBuilder {
    /// Adds a 32-bit integer property.
    pub fn prop_i32(&mut self, v: i32)
        requires
            old(self).wf(),
            can_add_prop(old(self)@),
        ensures
            final(self).wf(),
            final(self)@ == add_prop(old(self)@, FbxProp::I32(v)),
    {
        let mut rec: Vec<u8> = Vec::new();
        rec.push(0x49u8);
        push_u32_le(&mut rec, v as u32);
        proof {
            assert(rec@ =~= prop_bytes(FbxProp::I32(v)));
        }
        append_prop(self, rec.as_slice(), Ghost(FbxProp::I32(v)));
    }

    /// Adds a 64-bit integer property.
    pub fn prop_i64(&mut self, v: i64)
        requires
            old(self).wf(),
            can_add_prop(old(self)@),
        ensures
            final(self).wf(),
            final(self)@ == add_prop(old(self)@, FbxProp::I64(v)),
    {
        let mut rec: Vec<u8> = Vec::new();
        rec.push(0x4Cu8);
        push_u64_le(&mut rec, v as u64);
        proof {
            assert(rec@ =~= prop_bytes(FbxProp::I64(v)));
        }
        append_prop(self, rec.as_slice(), Ghost(FbxProp::I64(v)));
    }

    /// Adds a double property, given by its IEEE-754 bit pattern.
    pub fn prop_f64(&mut self, bits: u64)
        requires
            old(self).wf(),
            can_add_prop(old(self)@),
        ensures
            final(self).wf(),
            final(self)@ == add_prop(old(self)@, FbxProp::F64(bits)),
    {
        let mut rec: Vec<u8> = Vec::new();
        rec.push(0x44u8);
        push_u64_le(&mut rec, bits);
        proof {
            assert(rec@ =~= prop_bytes(FbxProp::F64(bits)));
        }
        append_prop(self, rec.as_slice(), Ghost(FbxProp::F64(bits)));
    }

    /// Adds a boolean property.
    pub fn prop_bool(&mut self, v: bool)
        requires
            old(self).wf(),
            can_add_prop(old(self)@),
        ensures
            final(self).wf(),
            final(self)@ == add_prop(old(self)@, FbxProp::Bool(v)),
    {
        let mut rec: Vec<u8> = Vec::new();
        rec.push(0x43u8);
        rec.push(if v { 1u8 } else { 0u8 });
        proof {
            assert(rec@ =~= prop_bytes(FbxProp::Bool(v)));
        }
        append_prop(self, rec.as_slice(), Ghost(FbxProp::Bool(v)));
    }

    /// Adds a string property.
    pub fn prop_str(&mut self, s: &str)
        requires
            old(self).wf(),
            can_add_prop(old(self)@),
        ensures
            final(self).wf(),
            final(self)@ == add_prop(old(self)@, str_prop(s@)),
    {
        let sb = s.as_bytes();
        let mut rec: Vec<u8> = Vec::new();
        rec.push(0x53u8);
        push_u32_le(&mut rec, sb.len() as u32);
        push_all(&mut rec, sb);
        proof {
            reveal(str_bytes);
            assert(rec@ =~= prop_bytes(str_prop(s@)));
        }
        append_prop(self, rec.as_slice(), Ghost(str_prop(s@)));
    }

    /// Adds a raw byte property.
    pub fn prop_raw(&mut self, bytes: &[u8])
        requires
            old(self).wf(),
            can_add_prop(old(self)@),
        ensures
            final(self).wf(),
            final(self)@ == add_prop(old(self)@, FbxProp::Raw(bytes@)),
    {
        let mut rec: Vec<u8> = Vec::new();
        rec.push(0x52u8);
        push_u32_le(&mut rec, bytes.len() as u32);
        push_all(&mut rec, bytes);
        proof {
            assert(rec@ =~= prop_bytes(FbxProp::Raw(bytes@)));
        }
        append_prop(self, rec.as_slice(), Ghost(FbxProp::Raw(bytes@)));
    }

    /// Adds an array of 32-bit integers, stored uncompressed.
    pub fn prop_arr_i32(&mut self, arr: &[i32])
        requires
            old(self).wf(),
            can_add_prop(old(self)@),
            arr@.len() * 4 <= usize::MAX,
        ensures
            final(self).wf(),
            final(self)@ == add_prop(old(self)@, FbxProp::ArrI32(arr@)),
    {
        let mut rec: Vec<u8> = Vec::new();
        rec.push(0x69u8);
        push_u32_le(&mut rec, arr.len() as u32);
        push_u32_le(&mut rec, 0);
        push_u32_le(&mut rec, (arr.len() * 4) as u32);
        i32_run_bytes(&mut rec, arr);
        proof {
            assert(rec@ =~= prop_bytes(FbxProp::ArrI32(arr@)));
        }
        append_prop(self, rec.as_slice(), Ghost(FbxProp::ArrI32(arr@)));
    }

    /// Adds an array of doubles, each given by its IEEE-754 bit pattern,
    /// stored uncompressed.
    pub fn prop_arr_f64(&mut self, bits: &[u64])
        requires
            old(self).wf(),
            can_add_prop(old(self)@),
            bits@.len() * 8 <= usize::MAX,
        ensures
            final(self).wf(),
            final(self)@ == add_prop(old(self)@, FbxProp::ArrF64(bits@)),
    {
        let mut rec: Vec<u8> = Vec::new();
        rec.push(0x64u8);
        push_u32_le(&mut rec, bits.len() as u32);
        push_u32_le(&mut rec, 0);
        push_u32_le(&mut rec, (bits.len() * 8) as u32);
        u64_run_bytes(&mut rec, bits);
        proof {
            assert(rec@ =~= prop_bytes(FbxProp::ArrF64(bits@)));
        }
        append_prop(self, rec.as_slice(), Ghost(FbxProp::ArrF64(bits@)));
    }

    /// Adds a node holding one 32-bit integer.
    pub fn leaf_i32(&mut self, name: &str, v: i32)
        requires
            old(self).wf(),
            can_add_child(old(self)@),
        ensures
            final(self).wf(),
            final(self)@ == add_node(old(self)@, leaf(name@, FbxProp::I32(v))),
    {
        let mut rec: Vec<u8> = Vec::new();
        rec.push(0x49u8);
        push_u32_le(&mut rec, v as u32);
        proof {
            assert(rec@ =~= prop_bytes(FbxProp::I32(v)));
        }
        put_leaf(self, name, rec.as_slice(), Ghost(FbxProp::I32(v)));
    }

    /// Adds a node holding one boolean.
    pub fn leaf_bool(&mut self, name: &str, v: bool)
        requires
            old(self).wf(),
            can_add_child(old(self)@),
        ensures
            final(self).wf(),
            final(self)@ == add_node(old(self)@, leaf(name@, FbxProp::Bool(v))),
    {
        let mut rec: Vec<u8> = Vec::new();
        rec.push(0x43u8);
        rec.push(if v { 1u8 } else { 0u8 });
        proof {
            assert(rec@ =~= prop_bytes(FbxProp::Bool(v)));
        }
        put_leaf(self, name, rec.as_slice(), Ghost(FbxProp::Bool(v)));
    }

    /// Adds a node holding one string.
    pub fn leaf_str(&mut self, name: &str, v: &str)
        requires
            old(self).wf(),
            can_add_child(old(self)@),
        ensures
            final(self).wf(),
            final(self)@ == add_node(old(self)@, leaf(name@, str_prop(v@))),
    {
        let sb = v.as_bytes();
        let mut rec: Vec<u8> = Vec::new();
        rec.push(0x53u8);
        push_u32_le(&mut rec, sb.len() as u32);
        push_all(&mut rec, sb);
        proof {
            reveal(str_bytes);
            assert(rec@ =~= prop_bytes(str_prop(v@)));
        }
        put_leaf(self, name, rec.as_slice(), Ghost(str_prop(v@)));
    }
}

// ---------------------------------------------------------------------------
// The document
// ---------------------------------------------------------------------------

/// A node holding one 32-bit integer.
pub open spec fn i32_leaf(name: Seq<char>, v: i32) -> FbxNode {
    leaf(name, FbxProp::I32(v))
}

/// A node holding one string.
pub open spec fn str_leaf(name: Seq<char>, v: Seq<char>) -> FbxNode {
    leaf(name, str_prop(v))
}

/// A node with neither properties nor children.
pub open spec fn empty_node(name: Seq<char>) -> FbxNode {
    node(name, Seq::empty(), Seq::empty())
}

/// The fixed creation time stamp.
pub open spec fn creation_time_stamp() -> FbxNode {
    node(
        "CreationTimeStamp"@,
        Seq::empty(),
        seq![
            i32_leaf("Version"@, 1000),
            i32_leaf("Year"@, 2026),
            i32_leaf("Month"@, 1),
            i32_leaf("Day"@, 1),
            i32_leaf("Hour"@, 0),
            i32_leaf("Minute"@, 0),
            i32_leaf("Second"@, 0),
            i32_leaf("Millisecond"@, 0),
        ],
    )
}

/// Writes the fixed creation time stamp.
fn write_creation_time_stamp(b: &mut FbxBuilder)
    requires
        old(b).wf(),
        can_add_child(old(b)@),
    ensures
        final(b).wf(),
        final(b)@ == add_node(old(b)@, creation_time_stamp()),
{
    let ghost d = b@;
    b.begin("CreationTimeStamp");
    b.leaf_i32("Version", 1000);
    b.leaf_i32("Year", 2026);
    b.leaf_i32("Month", 1);
    b.leaf_i32("Day", 1);
    b.leaf_i32("Hour", 0);
    b.leaf_i32("Minute", 0);
    b.leaf_i32("Second", 0);
    b.leaf_i32("Millisecond", 0);
    let ghost d2 = b@;
    b.end();
    proof {
        assert(d2.open.drop_last() =~= d.open);
        assert(closed_top(d2).children =~= creation_time_stamp().children);
        assert(closed_top(d2).props =~= creation_time_stamp().props);
    }
}

/// Room in the innermost open node, if any, for `k` more children.
pub open spec fn room(d: FbxDoc, k: nat) -> bool {
    d.open.len() > 0 ==> d.open.last().children.len() + k < u32::MAX
}

/// The document metadata, all empty.
pub open spec fn meta_data() -> FbxNode {
    node(
        "MetaData"@,
        Seq::empty(),
        seq![
            i32_leaf("Version"@, 100),
            str_leaf("Title"@, ""@),
            str_leaf("Subject"@, ""@),
            str_leaf("Author"@, ""@),
            str_leaf("Keywords"@, ""@),
            str_leaf("Revision"@, ""@),
            str_leaf("Comment"@, ""@),
        ],
    )
}

fn write_meta_data(b: &mut FbxBuilder)
    requires
        old(b).wf(),
        can_add_child(old(b)@),
    ensures
        final(b).wf(),
        final(b)@ == add_node(old(b)@, meta_data()),
{
    let ghost d = b@;
    b.begin("MetaData");
    b.leaf_i32("Version", 100);
    b.leaf_str("Title", "");
    b.leaf_str("Subject", "");
    b.leaf_str("Author", "");
    b.leaf_str("Keywords", "");
    b.leaf_str("Revision", "");
    b.leaf_str("Comment", "");
    let ghost d2 = b@;
    b.end();
    proof {
        assert(d2.open.drop_last() =~= d.open);
        assert(closed_top(d2).children =~= meta_data().children);
        assert(closed_top(d2).props =~= meta_data().props);
    }
}

/// The document with `p` opened inside `d`'s innermost open node.
pub open spec fn under(d: FbxDoc, p: FbxOpen) -> FbxDoc {
    FbxDoc { roots: d.roots, open: d.open.push(p) }
}

/// Adding a node inside `p`.
proof fn lemma_under_node(d: FbxDoc, p: FbxOpen, n: FbxNode) -> (p2: FbxOpen)
    ensures
        p2 == (FbxOpen { children: p.children.push(n), ..p }),
        add_node(under(d, p), n) == under(d, p2),
{
    let p2 = FbxOpen { children: p.children.push(n), ..p };
    assert(under(d, p).open.drop_last() =~= d.open);
    assert(add_node(under(d, p), n).open =~= under(d, p2).open);
    p2
}

/// Adding a property to `p`.
proof fn lemma_under_prop(d: FbxDoc, p: FbxOpen, x: FbxProp) -> (p2: FbxOpen)
    ensures
        p2 == (FbxOpen { props: p.props.push(x), ..p }),
        add_prop(under(d, p), x) == under(d, p2),
{
    let p2 = FbxOpen { props: p.props.push(x), ..p };
    assert(under(d, p).open.drop_last() =~= d.open);
    assert(add_prop(under(d, p), x).open =~= under(d, p2).open);
    p2
}

/// Closing `p`.
proof fn lemma_under_close(d: FbxDoc, p: FbxOpen)
    ensures
        close_top(under(d, p)) == add_node(d, FbxNode { name: p.name, props: p.props, children: p.children }),
{
    assert(under(d, p).open.drop_last() =~= d.open);
}

/// A freshly opened node named `name` starting at `start`.
pub open spec fn fresh(start: nat, name: Seq<char>) -> FbxOpen {
    FbxOpen { start, name: str_bytes(name), props: Seq::empty(), children: Seq::empty() }
}

/// Adding a node uses up one place of room.
proof fn lemma_room(d: FbxDoc, n: FbxNode, k: nat)
    requires
        room(d, k + 1),
    ensures
        can_add_child(d),
        room(add_node(d, n), k),
        add_node(d, n).open.len() == d.open.len(),
{
}

/// The scene description.
pub open spec fn scene_info() -> FbxNode {
    node(
        "SceneInfo"@,
        seq![str_prop("SceneInfo::GlobalInfo"@), str_prop("UserData"@)],
        seq![str_leaf("Type"@, "UserData"@), i32_leaf("Version"@, 100), meta_data(), empty_node("Properties70"@)],
    )
}

fn write_scene_info(b: &mut FbxBuilder)
    requires
        old(b).wf(),
        can_add_child(old(b)@),
    ensures
        final(b).wf(),
        final(b)@ == add_node(old(b)@, scene_info()),
{
    let ghost d = b@;
    let ghost mut p = fresh(b.bytes().len(), "SceneInfo"@);
    b.begin("SceneInfo");
    b.prop_str("SceneInfo::GlobalInfo");
    proof {
        p = lemma_under_prop(d, p, str_prop("SceneInfo::GlobalInfo"@));
    }
    b.prop_str("UserData");
    proof {
        p = lemma_under_prop(d, p, str_prop("UserData"@));
    }
    b.leaf_str("Type", "UserData");
    proof {
        p = lemma_under_node(d, p, str_leaf("Type"@, "UserData"@));
    }
    b.leaf_i32("Version", 100);
    proof {
        p = lemma_under_node(d, p, i32_leaf("Version"@, 100));
    }
    write_meta_data(b);
    proof {
        p = lemma_under_node(d, p, meta_data());
    }
    let ghost s1 = b.bytes().len();
    b.begin("Properties70");
    proof {
        lemma_under_close(under(d, p), fresh(s1, "Properties70"@));
        assert(fresh(s1, "Properties70"@).props =~= empty_node("Properties70"@).props);
    }
    b.end();
    proof {
        p = lemma_under_node(d, p, empty_node("Properties70"@));
        lemma_under_close(d, p);
        assert(p.children =~= scene_info().children);
        assert(p.props =~= scene_info().props);
    }
    b.end();
}

/// The header extension node.
pub open spec fn header_extension() -> FbxNode {
    node(
        "FBXHeaderExtension"@,
        Seq::empty(),
        seq![
            i32_leaf("FBXHeaderVersion"@, 1003),
            i32_leaf("FBXVersion"@, 7400),
            creation_time_stamp(),
            str_leaf("Creator"@, "Roxel"@),
            scene_info(),
        ],
    )
}

/// The file identifier: sixteen zero bytes.
pub open spec fn file_id() -> FbxNode {
    node("FileId"@, seq![FbxProp::Raw(zeros(16))], Seq::empty())
}

/// The header extension, the file identifier, the creation time and the
/// creator.
pub open spec fn header_nodes() -> Seq<FbxNode> {
    seq![
        header_extension(),
        file_id(),
        str_leaf("CreationTime"@, "2026-01-01 00:00:00:000"@),
        str_leaf("Creator"@, "Roxel"@),
    ]
}

/// Writes the header extension, the file identifier, the creation time and
/// the creator.
pub fn write_header_ext(b: &mut FbxBuilder)
    requires
        old(b).wf(),
        room(old(b)@, 4),
    ensures
        final(b).wf(),
        final(b)@ == add_nodes(old(b)@, header_nodes()),
{
    let ghost d = b@;
    proof {
        lemma_room(d, header_extension(), 3);
    }
    let ghost mut p = fresh(b.bytes().len(), "FBXHeaderExtension"@);
    b.begin("FBXHeaderExtension");
    b.leaf_i32("FBXHeaderVersion", 1003);
    proof {
        p = lemma_under_node(d, p, i32_leaf("FBXHeaderVersion"@, 1003));
    }
    b.leaf_i32("FBXVersion", 7400);
    proof {
        p = lemma_under_node(d, p, i32_leaf("FBXVersion"@, 7400));
    }
    write_creation_time_stamp(b);
    proof {
        p = lemma_under_node(d, p, creation_time_stamp());
    }
    b.leaf_str("Creator", "Roxel");
    proof {
        p = lemma_under_node(d, p, str_leaf("Creator"@, "Roxel"@));
    }
    write_scene_info(b);
    proof {
        p = lemma_under_node(d, p, scene_info());
        lemma_under_close(d, p);
        assert(p.children =~= header_extension().children);
        assert(p.props =~= header_extension().props);
    }
    b.end();
    let ghost d1 = b@;
    proof {
        lemma_room(d1, file_id(), 2);
    }
    let ghost mut q = fresh(b.bytes().len(), "FileId"@);
    b.begin("FileId");
    let mut zero16: Vec<u8> = Vec::new();
    push_zeros(&mut zero16, 16);
    b.prop_raw(zero16.as_slice());
    proof {
        q = lemma_under_prop(d1, q, FbxProp::Raw(zeros(16)));
        lemma_under_close(d1, q);
        assert(q.props =~= file_id().props);
        assert(q.children =~= file_id().children);
    }
    b.end();
    let ghost d2 = b@;
    proof {
        lemma_room(d2, str_leaf("CreationTime"@, "2026-01-01 00:00:00:000"@), 1);
    }
    b.leaf_str("CreationTime", "2026-01-01 00:00:00:000");
    let ghost d3 = b@;
    proof {
        lemma_room(d3, str_leaf("Creator"@, "Roxel"@), 0);
    }
    b.leaf_str("Creator", "Roxel");
    proof {
        lemma_add_nodes4(d, header_nodes());
    }
}

/// Adding four nodes is adding each in turn.
proof fn lemma_add_nodes4(d: FbxDoc, ns: Seq<FbxNode>)
    requires
        ns.len() == 4,
    ensures
        add_nodes(d, ns) == add_node(add_node(add_node(add_node(d, ns[0]), ns[1]), ns[2]), ns[3]),
{
    reveal_with_fuel(add_nodes, 5);
    assert(ns.drop_last().drop_last().drop_last().drop_last() =~= Seq::<FbxNode>::empty());
    assert(ns.drop_last().drop_last().drop_last().last() == ns[0]);
    assert(ns.drop_last().drop_last().last() == ns[1]);
    assert(ns.drop_last().last() == ns[2]);
}

/// The bit pattern of the double `1.0`.
pub const ONE_F64_BITS: u64 = 0x3FF0_0000_0000_0000;

/// A `P` entry of a `Properties70` list holding an integer.
pub open spec fn p70_int_node(name: Seq<char>, v: i32) -> FbxNode {
    node(
        "P"@,
        seq![str_prop(name), str_prop("int"@), str_prop("Integer"@), str_prop(""@), FbxProp::I32(v)],
        Seq::empty(),
    )
}

/// A `P` entry of a `Properties70` list holding a double, given by its bit
/// pattern.
pub open spec fn p70_double_node(name: Seq<char>, bits: u64) -> FbxNode {
    node(
        "P"@,
        seq![str_prop(name), str_prop("double"@), str_prop("Number"@), str_prop(""@), FbxProp::F64(bits)],
        Seq::empty(),
    )
}

/// Writes an integer entry of a `Properties70` list.
pub fn p70_int(b: &mut FbxBuilder, name: &str, v: i32)
    requires
        old(b).wf(),
        can_add_child(old(b)@),
    ensures
        final(b).wf(),
        final(b)@ == add_node(old(b)@, p70_int_node(name@, v)),
{
    let ghost d = b@;
    let ghost mut p = fresh(b.bytes().len(), "P"@);
    b.begin("P");
    b.prop_str(name);
    proof {
        p = lemma_under_prop(d, p, str_prop(name@));
    }
    b.prop_str("int");
    proof {
        p = lemma_under_prop(d, p, str_prop("int"@));
    }
    b.prop_str("Integer");
    proof {
        p = lemma_under_prop(d, p, str_prop("Integer"@));
    }
    b.prop_str("");
    proof {
        p = lemma_under_prop(d, p, str_prop(""@));
    }
    b.prop_i32(v);
    proof {
        p = lemma_under_prop(d, p, FbxProp::I32(v));
        lemma_under_close(d, p);
        assert(p.props =~= p70_int_node(name@, v).props);
        assert(p.children =~= p70_int_node(name@, v).children);
    }
    b.end();
}

/// Writes a double entry of a `Properties70` list, the value given by its
/// bit pattern.
pub fn p70_double(b: &mut FbxBuilder, name: &str, bits: u64)
    requires
        old(b).wf(),
        can_add_child(old(b)@),
    ensures
        final(b).wf(),
        final(b)@ == add_node(old(b)@, p70_double_node(name@, bits)),
{
    let ghost d = b@;
    let ghost mut p = fresh(b.bytes().len(), "P"@);
    b.begin("P");
    b.prop_str(name);
    proof {
        p = lemma_under_prop(d, p, str_prop(name@));
    }
    b.prop_str("double");
    proof {
        p = lemma_under_prop(d, p, str_prop("double"@));
    }
    b.prop_str("Number");
    proof {
        p = lemma_under_prop(d, p, str_prop("Number"@));
    }
    b.prop_str("");
    proof {
        p = lemma_under_prop(d, p, str_prop(""@));
    }
    b.prop_f64(bits);
    proof {
        p = lemma_under_prop(d, p, FbxProp::F64(bits));
        lemma_under_close(d, p);
        assert(p.props =~= p70_double_node(name@, bits).props);
        assert(p.children =~= p70_double_node(name@, bits).children);
    }
    b.end();
}

/// The axis and unit settings: Y up, Z front, X across, unit scale one.
pub open spec fn settings_props() -> FbxNode {
    node(
        "Properties70"@,
        Seq::empty(),
        seq![
            p70_int_node("UpAxis"@, 1),
            p70_int_node("UpAxisSign"@, 1),
            p70_int_node("FrontAxis"@, 2),
            p70_int_node("FrontAxisSign"@, 1),
            p70_int_node("CoordAxis"@, 0),
            p70_int_node("CoordAxisSign"@, 1),
            p70_int_node("OriginalUpAxis"@, 1),
            p70_int_node("OriginalUpAxisSign"@, 1),
            p70_double_node("UnitScaleFactor"@, ONE_F64_BITS),
            p70_double_node("OriginalUnitScaleFactor"@, ONE_F64_BITS),
        ],
    )
}

/// The global settings node.
pub open spec fn global_settings() -> FbxNode {
    node("GlobalSettings"@, Seq::empty(), seq![i32_leaf("Version"@, 1000), settings_props()])
}

fn write_settings_props(b: &mut FbxBuilder)
    requires
        old(b).wf(),
        can_add_child(old(b)@),
    ensures
        final(b).wf(),
        final(b)@ == add_node(old(b)@, settings_props()),
{
    let ghost d = b@;
    let ghost mut p = fresh(b.bytes().len(), "Properties70"@);
    b.begin("Properties70");
    p70_int(b, "UpAxis", 1);
    proof {
        p = lemma_under_node(d, p, p70_int_node("UpAxis"@, 1));
    }
    p70_int(b, "UpAxisSign", 1);
    proof {
        p = lemma_under_node(d, p, p70_int_node("UpAxisSign"@, 1));
    }
    p70_int(b, "FrontAxis", 2);
    proof {
        p = lemma_under_node(d, p, p70_int_node("FrontAxis"@, 2));
    }
    p70_int(b, "FrontAxisSign", 1);
    proof {
        p = lemma_under_node(d, p, p70_int_node("FrontAxisSign"@, 1));
    }
    p70_int(b, "CoordAxis", 0);
    proof {
        p = lemma_under_node(d, p, p70_int_node("CoordAxis"@, 0));
    }
    p70_int(b, "CoordAxisSign", 1);
    proof {
        p = lemma_under_node(d, p, p70_int_node("CoordAxisSign"@, 1));
    }
    p70_int(b, "OriginalUpAxis", 1);
    proof {
        p = lemma_under_node(d, p, p70_int_node("OriginalUpAxis"@, 1));
    }
    p70_int(b, "OriginalUpAxisSign", 1);
    proof {
        p = lemma_under_node(d, p, p70_int_node("OriginalUpAxisSign"@, 1));
    }
    p70_double(b, "UnitScaleFactor", ONE_F64_BITS);
    proof {
        p = lemma_under_node(d, p, p70_double_node("UnitScaleFactor"@, ONE_F64_BITS));
    }
    p70_double(b, "OriginalUnitScaleFactor", ONE_F64_BITS);
    proof {
        p = lemma_under_node(d, p, p70_double_node("OriginalUnitScaleFactor"@, ONE_F64_BITS));
        lemma_under_close(d, p);
        assert(p.props =~= settings_props().props);
        assert(p.children =~= settings_props().children);
    }
    b.end();
}

/// Writes the global settings node.
pub fn write_global_settings(b: &mut FbxBuilder)
    requires
        old(b).wf(),
        can_add_child(old(b)@),
    ensures
        final(b).wf(),
        final(b)@ == add_node(old(b)@, global_settings()),
{
    let ghost d = b@;
    let ghost mut p = fresh(b.bytes().len(), "GlobalSettings"@);
    b.begin("GlobalSettings");
    b.leaf_i32("Version", 1000);
    proof {
        p = lemma_under_node(d, p, i32_leaf("Version"@, 1000));
    }
    write_settings_props(b);
    proof {
        p = lemma_under_node(d, p, settings_props());
        lemma_under_close(d, p);
        assert(p.props =~= global_settings().props);
        assert(p.children =~= global_settings().children);
    }
    b.end();
}

/// Identifier of the document object.
pub const DOC_ID: i64 = 300_000;
/// Identifier of the geometry object.
pub const GEO_ID: i64 = 100_000;
/// Identifier of the model object.
pub const MODEL_ID: i64 = 200_000;

/// The documents node: one scene document with an empty property list and
/// the root node `0`.
pub open spec fn documents() -> FbxNode {
    node(
        "Documents"@,
        Seq::empty(),
        seq![
            i32_leaf("Count"@, 1),
            node(
                "Document"@,
                seq![FbxProp::I64(DOC_ID), str_prop("Scene"@), str_prop("Scene"@)],
                seq![empty_node("Properties70"@), node("RootNode"@, seq![FbxProp::I64(0)], Seq::empty())],
            ),
        ],
    )
}

/// Writes a node with neither properties nor children.
fn write_empty(b: &mut FbxBuilder, name: &str)
    requires
        old(b).wf(),
        can_add_child(old(b)@),
    ensures
        final(b).wf(),
        final(b)@ == add_node(old(b)@, empty_node(name@)),
{
    let ghost d = b@;
    let ghost p = fresh(b.bytes().len(), name@);
    b.begin(name);
    proof {
        lemma_under_close(d, p);
        assert(p.props =~= empty_node(name@).props);
        assert(p.children =~= empty_node(name@).children);
    }
    b.end();
}

fn write_document(b: &mut FbxBuilder)
    requires
        old(b).wf(),
        can_add_child(old(b)@),
    ensures
        final(b).wf(),
        final(b)@ == add_node(old(b)@, documents().children[1]),
{
    let ghost d = b@;
    let ghost mut p = fresh(b.bytes().len(), "Document"@);
    b.begin("Document");
    b.prop_i64(DOC_ID);
    proof {
        p = lemma_under_prop(d, p, FbxProp::I64(DOC_ID));
    }
    b.prop_str("Scene");
    proof {
        p = lemma_under_prop(d, p, str_prop("Scene"@));
    }
    b.prop_str("Scene");
    proof {
        p = lemma_under_prop(d, p, str_prop("Scene"@));
    }
    write_empty(b, "Properties70");
    proof {
        p = lemma_under_node(d, p, empty_node("Properties70"@));
    }
    let ghost d1 = under(d, p);
    let ghost mut q = fresh(b.bytes().len(), "RootNode"@);
    b.begin("RootNode");
    b.prop_i64(0);
    proof {
        q = lemma_under_prop(d1, q, FbxProp::I64(0));
        lemma_under_close(d1, q);
        assert(q.props =~= seq![FbxProp::I64(0)]);
        assert(q.children =~= Seq::<FbxNode>::empty());
    }
    b.end();
    proof {
        p = lemma_under_node(d, p, node("RootNode"@, seq![FbxProp::I64(0)], Seq::empty()));
        lemma_under_close(d, p);
        assert(p.props =~= documents().children[1].props);
        assert(p.children =~= documents().children[1].children);
    }
    b.end();
}

/// Writes the documents node.
pub fn write_documents(b: &mut FbxBuilder)
    requires
        old(b).wf(),
        can_add_child(old(b)@),
    ensures
        final(b).wf(),
        final(b)@ == add_node(old(b)@, documents()),
{
    let ghost d = b@;
    let ghost mut p = fresh(b.bytes().len(), "Documents"@);
    b.begin("Documents");
    b.leaf_i32("Count", 1);
    proof {
        p = lemma_under_node(d, p, i32_leaf("Count"@, 1));
    }
    write_document(b);
    proof {
        p = lemma_under_node(d, p, documents().children[1]);
        lemma_under_close(d, p);
        assert(p.props =~= documents().props);
        assert(p.children =~= documents().children);
    }
    b.end();
}

/// Writes the empty references node.
pub fn write_references(b: &mut FbxBuilder)
    requires
        old(b).wf(),
        can_add_child(old(b)@),
    ensures
        final(b).wf(),
        final(b)@ == add_node(old(b)@, empty_node("References"@)),
{
    write_empty(b, "References");
}

/// An object type definition: the type name, its count of one, and, where
/// given, an empty property template.
pub open spec fn object_type(ty: Seq<char>, template: Option<Seq<char>>) -> FbxNode {
    node(
        "ObjectType"@,
        seq![str_prop(ty)],
        match template {
            None => seq![i32_leaf("Count"@, 1)],
            Some(t) => seq![
                i32_leaf("Count"@, 1),
                node("PropertyTemplate"@, seq![str_prop(t)], seq![empty_node("Properties70"@)]),
            ],
        },
    )
}

/// The definitions node: global settings, one geometry and one model.
pub open spec fn definitions() -> FbxNode {
    node(
        "Definitions"@,
        Seq::empty(),
        seq![
            i32_leaf("Version"@, 100),
            i32_leaf("Count"@, 3),
            object_type("GlobalSettings"@, None),
            object_type("Geometry"@, Some("FbxMesh"@)),
            object_type("Model"@, Some("FbxNode"@)),
        ],
    )
}

fn write_object_type(b: &mut FbxBuilder, ty: &str, template: Option<&str>)
    requires
        old(b).wf(),
        can_add_child(old(b)@),
    ensures
        final(b).wf(),
        final(b)@ == add_node(
            old(b)@,
            object_type(
                ty@,
                match template {
                    None => None,
                    Some(t) => Some(t@),
                },
            ),
        ),
{
    let ghost d = b@;
    let ghost mut p = fresh(b.bytes().len(), "ObjectType"@);
    b.begin("ObjectType");
    b.prop_str(ty);
    proof {
        p = lemma_under_prop(d, p, str_prop(ty@));
    }
    b.leaf_i32("Count", 1);
    proof {
        p = lemma_under_node(d, p, i32_leaf("Count"@, 1));
    }
    match template {
        None => {},
        Some(t) => {
            let ghost d1 = under(d, p);
            let ghost mut q = fresh(b.bytes().len(), "PropertyTemplate"@);
            b.begin("PropertyTemplate");
            b.prop_str(t);
            proof {
                q = lemma_under_prop(d1, q, str_prop(t@));
            }
            write_empty(b, "Properties70");
            proof {
                q = lemma_under_node(d1, q, empty_node("Properties70"@));
                lemma_under_close(d1, q);
            }
            b.end();
            proof {
                let tn = node("PropertyTemplate"@, seq![str_prop(t@)], seq![empty_node("Properties70"@)]);
                assert(q.props =~= tn.props);
                assert(q.children =~= tn.children);
                p = lemma_under_node(d, p, tn);
            }
        },
    }
    proof {
        lemma_under_close(d, p);
        let want = object_type(
            ty@,
            match template {
                None => None,
                Some(t) => Some(t@),
            },
        );
        assert(p.props =~= want.props);
        assert(p.children =~= want.children);
    }
    b.end();
}

/// Writes the definitions node.
pub fn write_definitions(b: &mut FbxBuilder)
    requires
        old(b).wf(),
        can_add_child(old(b)@),
    ensures
        final(b).wf(),
        final(b)@ == add_node(old(b)@, definitions()),
{
    let ghost d = b@;
    let ghost mut p = fresh(b.bytes().len(), "Definitions"@);
    b.begin("Definitions");
    b.leaf_i32("Version", 100);
    proof {
        p = lemma_under_node(d, p, i32_leaf("Version"@, 100));
    }
    b.leaf_i32("Count", 3);
    proof {
        p = lemma_under_node(d, p, i32_leaf("Count"@, 3));
    }
    write_object_type(b, "GlobalSettings", None);
    proof {
        p = lemma_under_node(d, p, object_type("GlobalSettings"@, None));
    }
    write_object_type(b, "Geometry", Some("FbxMesh"));
    proof {
        p = lemma_under_node(d, p, object_type("Geometry"@, Some("FbxMesh"@)));
    }
    write_object_type(b, "Model", Some("FbxNode"));
    proof {
        p = lemma_under_node(d, p, object_type("Model"@, Some("FbxNode"@)));
        lemma_under_close(d, p);
        assert(p.props =~= definitions().props);
        assert(p.children =~= definitions().children);
    }
    b.end();
}

/// An object-to-object connection from `child` to `parent`.
pub open spec fn connection(child: i64, parent: i64) -> FbxNode {
    node("C"@, seq![str_prop("OO"@), FbxProp::I64(child), FbxProp::I64(parent)], Seq::empty())
}

/// The connections: the model to the scene root, the geometry to the model.
pub open spec fn connections() -> FbxNode {
    node("Connections"@, Seq::empty(), seq![connection(MODEL_ID, 0), connection(GEO_ID, MODEL_ID)])
}

fn write_connection(b: &mut FbxBuilder, child: i64, parent: i64)
    requires
        old(b).wf(),
        can_add_child(old(b)@),
    ensures
        final(b).wf(),
        final(b)@ == add_node(old(b)@, connection(child, parent)),
{
    let ghost d = b@;
    let ghost mut p = fresh(b.bytes().len(), "C"@);
    b.begin("C");
    b.prop_str("OO");
    proof {
        p = lemma_under_prop(d, p, str_prop("OO"@));
    }
    b.prop_i64(child);
    proof {
        p = lemma_under_prop(d, p, FbxProp::I64(child));
    }
    b.prop_i64(parent);
    proof {
        p = lemma_under_prop(d, p, FbxProp::I64(parent));
        lemma_under_close(d, p);
        assert(p.props =~= connection(child, parent).props);
        assert(p.children =~= connection(child, parent).children);
    }
    b.end();
}

/// Writes the connections node.
pub fn write_connections(b: &mut FbxBuilder)
    requires
        old(b).wf(),
        can_add_child(old(b)@),
    ensures
        final(b).wf(),
        final(b)@ == add_node(old(b)@, connections()),
{
    let ghost d = b@;
    let ghost mut p = fresh(b.bytes().len(), "Connections"@);
    b.begin("Connections");
    write_connection(b, MODEL_ID, 0);
    proof {
        p = lemma_under_node(d, p, connection(MODEL_ID, 0));
    }
    write_connection(b, GEO_ID, MODEL_ID);
    proof {
        p = lemma_under_node(d, p, connection(GEO_ID, MODEL_ID));
        lemma_under_close(d, p);
        assert(p.props =~= connections().props);
        assert(p.children =~= connections().children);
    }
    b.end();
}

/// The takes node: no current take.
pub open spec fn takes() -> FbxNode {
    node("Takes"@, Seq::empty(), seq![str_leaf("Current"@, ""@)])
}

/// Writes the takes node.
pub fn write_takes(b: &mut FbxBuilder)
    requires
        old(b).wf(),
        can_add_child(old(b)@),
    ensures
        final(b).wf(),
        final(b)@ == add_node(old(b)@, takes()),
{
    let ghost d = b@;
    let ghost mut p = fresh(b.bytes().len(), "Takes"@);
    b.begin("Takes");
    b.leaf_str("Current", "");
    proof {
        p = lemma_under_node(d, p, str_leaf("Current"@, ""@));
        lemma_under_close(d, p);
        assert(p.props =~= takes().props);
        assert(p.children =~= takes().children);
    }
    b.end();
}

/// A per-vertex layer of doubles: its version, name, mapping and the values.
pub open spec fn layer_element(kind: Seq<char>, name: Seq<char>, arr_name: Seq<char>, a: Seq<u64>) -> FbxNode {
    node(
        kind,
        seq![FbxProp::I32(0)],
        seq![
            i32_leaf("Version"@, 101),
            str_leaf("Name"@, name),
            str_leaf("MappingInformationType"@, "ByPolygonVertex"@),
            str_leaf("ReferenceInformationType"@, "Direct"@),
            node(arr_name, seq![FbxProp::ArrF64(a)], Seq::empty()),
        ],
    )
}

/// A reference from the layer to the layer element of type `t`.
pub open spec fn layer_ref(t: Seq<char>) -> FbxNode {
    node("LayerElement"@, Seq::empty(), seq![str_leaf("Type"@, t), i32_leaf("TypedIndex"@, 0)])
}

/// Layer 0, using the normals and the colors.
pub open spec fn layer() -> FbxNode {
    node(
        "Layer"@,
        seq![FbxProp::I32(0)],
        seq![i32_leaf("Version"@, 100), layer_ref("LayerElementNormal"@), layer_ref("LayerElementColor"@)],
    )
}

/// The mesh geometry: vertex positions, polygon indices, normals and
/// colors, the doubles given by their bit patterns.
pub open spec fn geometry(verts: Seq<u64>, polys: Seq<i32>, normals: Seq<u64>, colors: Seq<u64>) -> FbxNode {
    node(
        "Geometry"@,
        seq![FbxProp::I64(GEO_ID), str_prop("Geometry::voxels"@), str_prop("Mesh"@)],
        seq![
            node("Vertices"@, seq![FbxProp::ArrF64(verts)], Seq::empty()),
            node("PolygonVertexIndex"@, seq![FbxProp::ArrI32(polys)], Seq::empty()),
            i32_leaf("GeometryVersion"@, 124),
            layer_element("LayerElementNormal"@, ""@, "Normals"@, normals),
            layer_element("LayerElementColor"@, "colorSet"@, "Colors"@, colors),
            layer(),
        ],
    )
}

/// The model using the geometry.
pub open spec fn model() -> FbxNode {
    node(
        "Model"@,
        seq![FbxProp::I64(MODEL_ID), str_prop("Model::voxels"@), str_prop("Mesh"@)],
        seq![
            i32_leaf("Version"@, 232),
            empty_node("Properties70"@),
            leaf("Shading"@, FbxProp::Bool(true)),
            str_leaf("Culling"@, "CullingOff"@),
        ],
    )
}

/// The objects node: the geometry and the model.
pub open spec fn objects(verts: Seq<u64>, polys: Seq<i32>, normals: Seq<u64>, colors: Seq<u64>) -> FbxNode {
    node("Objects"@, Seq::empty(), seq![geometry(verts, polys, normals, colors), model()])
}

fn write_f64_array(b: &mut FbxBuilder, name: &str, a: &[u64])
    requires
        old(b).wf(),
        can_add_child(old(b)@),
        a@.len() * 8 <= usize::MAX,
    ensures
        final(b).wf(),
        final(b)@ == add_node(old(b)@, node(name@, seq![FbxProp::ArrF64(a@)], Seq::empty())),
{
    let ghost d = b@;
    let ghost mut p = fresh(b.bytes().len(), name@);
    b.begin(name);
    b.prop_arr_f64(a);
    proof {
        p = lemma_under_prop(d, p, FbxProp::ArrF64(a@));
        lemma_under_close(d, p);
        assert(p.props =~= seq![FbxProp::ArrF64(a@)]);
        assert(p.children =~= Seq::<FbxNode>::empty());
    }
    b.end();
}

fn write_i32_array(b: &mut FbxBuilder, name: &str, a: &[i32])
    requires
        old(b).wf(),
        can_add_child(old(b)@),
        a@.len() * 4 <= usize::MAX,
    ensures
        final(b).wf(),
        final(b)@ == add_node(old(b)@, node(name@, seq![FbxProp::ArrI32(a@)], Seq::empty())),
{
    let ghost d = b@;
    let ghost mut p = fresh(b.bytes().len(), name@);
    b.begin(name);
    b.prop_arr_i32(a);
    proof {
        p = lemma_under_prop(d, p, FbxProp::ArrI32(a@));
        lemma_under_close(d, p);
        assert(p.props =~= seq![FbxProp::ArrI32(a@)]);
        assert(p.children =~= Seq::<FbxNode>::empty());
    }
    b.end();
}

fn write_layer_element(b: &mut FbxBuilder, kind: &str, name: &str, arr_name: &str, a: &[u64])
    requires
        old(b).wf(),
        can_add_child(old(b)@),
        a@.len() * 8 <= usize::MAX,
    ensures
        final(b).wf(),
        final(b)@ == add_node(old(b)@, layer_element(kind@, name@, arr_name@, a@)),
{
    let ghost d = b@;
    let ghost mut p = fresh(b.bytes().len(), kind@);
    b.begin(kind);
    b.prop_i32(0);
    proof {
        p = lemma_under_prop(d, p, FbxProp::I32(0));
    }
    b.leaf_i32("Version", 101);
    proof {
        p = lemma_under_node(d, p, i32_leaf("Version"@, 101));
    }
    b.leaf_str("Name", name);
    proof {
        p = lemma_under_node(d, p, str_leaf("Name"@, name@));
    }
    b.leaf_str("MappingInformationType", "ByPolygonVertex");
    proof {
        p = lemma_under_node(d, p, str_leaf("MappingInformationType"@, "ByPolygonVertex"@));
    }
    b.leaf_str("ReferenceInformationType", "Direct");
    proof {
        p = lemma_under_node(d, p, str_leaf("ReferenceInformationType"@, "Direct"@));
    }
    write_f64_array(b, arr_name, a);
    proof {
        p = lemma_under_node(d, p, node(arr_name@, seq![FbxProp::ArrF64(a@)], Seq::empty()));
        lemma_under_close(d, p);
        assert(p.props =~= layer_element(kind@, name@, arr_name@, a@).props);
        assert(p.children =~= layer_element(kind@, name@, arr_name@, a@).children);
    }
    b.end();
}

fn write_layer_ref(b: &mut FbxBuilder, t: &str)
    requires
        old(b).wf(),
        can_add_child(old(b)@),
    ensures
        final(b).wf(),
        final(b)@ == add_node(old(b)@, layer_ref(t@)),
{
    let ghost d = b@;
    let ghost mut p = fresh(b.bytes().len(), "LayerElement"@);
    b.begin("LayerElement");
    b.leaf_str("Type", t);
    proof {
        p = lemma_under_node(d, p, str_leaf("Type"@, t@));
    }
    b.leaf_i32("TypedIndex", 0);
    proof {
        p = lemma_under_node(d, p, i32_leaf("TypedIndex"@, 0));
        lemma_under_close(d, p);
        assert(p.props =~= layer_ref(t@).props);
        assert(p.children =~= layer_ref(t@).children);
    }
    b.end();
}

fn write_layer(b: &mut FbxBuilder)
    requires
        old(b).wf(),
        can_add_child(old(b)@),
    ensures
        final(b).wf(),
        final(b)@ == add_node(old(b)@, layer()),
{
    let ghost d = b@;
    let ghost mut p = fresh(b.bytes().len(), "Layer"@);
    b.begin("Layer");
    b.prop_i32(0);
    proof {
        p = lemma_under_prop(d, p, FbxProp::I32(0));
    }
    b.leaf_i32("Version", 100);
    proof {
        p = lemma_under_node(d, p, i32_leaf("Version"@, 100));
    }
    write_layer_ref(b, "LayerElementNormal");
    proof {
        p = lemma_under_node(d, p, layer_ref("LayerElementNormal"@));
    }
    write_layer_ref(b, "LayerElementColor");
    proof {
        p = lemma_under_node(d, p, layer_ref("LayerElementColor"@));
        lemma_under_close(d, p);
        assert(p.props =~= layer().props);
        assert(p.children =~= layer().children);
    }
    b.end();
}

fn write_geometry(b: &mut FbxBuilder, verts: &[u64], polys: &[i32], normals: &[u64], colors: &[u64])
    requires
        old(b).wf(),
        can_add_child(old(b)@),
        verts@.len() * 8 <= usize::MAX,
        polys@.len() * 4 <= usize::MAX,
        normals@.len() * 8 <= usize::MAX,
        colors@.len() * 8 <= usize::MAX,
    ensures
        final(b).wf(),
        final(b)@ == add_node(old(b)@, geometry(verts@, polys@, normals@, colors@)),
{
    let ghost d = b@;
    let ghost mut p = fresh(b.bytes().len(), "Geometry"@);
    b.begin("Geometry");
    b.prop_i64(GEO_ID);
    proof {
        p = lemma_under_prop(d, p, FbxProp::I64(GEO_ID));
    }
    b.prop_str("Geometry::voxels");
    proof {
        p = lemma_under_prop(d, p, str_prop("Geometry::voxels"@));
    }
    b.prop_str("Mesh");
    proof {
        p = lemma_under_prop(d, p, str_prop("Mesh"@));
    }
    write_f64_array(b, "Vertices", verts);
    proof {
        p = lemma_under_node(d, p, node("Vertices"@, seq![FbxProp::ArrF64(verts@)], Seq::empty()));
    }
    write_i32_array(b, "PolygonVertexIndex", polys);
    proof {
        p = lemma_under_node(d, p, node("PolygonVertexIndex"@, seq![FbxProp::ArrI32(polys@)], Seq::empty()));
    }
    b.leaf_i32("GeometryVersion", 124);
    proof {
        p = lemma_under_node(d, p, i32_leaf("GeometryVersion"@, 124));
    }
    write_layer_element(b, "LayerElementNormal", "", "Normals", normals);
    proof {
        p = lemma_under_node(d, p, layer_element("LayerElementNormal"@, ""@, "Normals"@, normals@));
    }
    write_layer_element(b, "LayerElementColor", "colorSet", "Colors", colors);
    proof {
        p = lemma_under_node(d, p, layer_element("LayerElementColor"@, "colorSet"@, "Colors"@, colors@));
    }
    write_layer(b);
    proof {
        p = lemma_under_node(d, p, layer());
        lemma_under_close(d, p);
        assert(p.props =~= geometry(verts@, polys@, normals@, colors@).props);
        assert(p.children =~= geometry(verts@, polys@, normals@, colors@).children);
    }
    b.end();
}

fn write_model(b: &mut FbxBuilder)
    requires
        old(b).wf(),
        can_add_child(old(b)@),
    ensures
        final(b).wf(),
        final(b)@ == add_node(old(b)@, model()),
{
    let ghost d = b@;
    let ghost mut p = fresh(b.bytes().len(), "Model"@);
    b.begin("Model");
    b.prop_i64(MODEL_ID);
    proof {
        p = lemma_under_prop(d, p, FbxProp::I64(MODEL_ID));
    }
    b.prop_str("Model::voxels");
    proof {
        p = lemma_under_prop(d, p, str_prop("Model::voxels"@));
    }
    b.prop_str("Mesh");
    proof {
        p = lemma_under_prop(d, p, str_prop("Mesh"@));
    }
    b.leaf_i32("Version", 232);
    proof {
        p = lemma_under_node(d, p, i32_leaf("Version"@, 232));
    }
    write_empty(b, "Properties70");
    proof {
        p = lemma_under_node(d, p, empty_node("Properties70"@));
    }
    b.leaf_bool("Shading", true);
    proof {
        p = lemma_under_node(d, p, leaf("Shading"@, FbxProp::Bool(true)));
    }
    b.leaf_str("Culling", "CullingOff");
    proof {
        p = lemma_under_node(d, p, str_leaf("Culling"@, "CullingOff"@));
        lemma_under_close(d, p);
        assert(p.props =~= model().props);
        assert(p.children =~= model().children);
    }
    b.end();
}

/// Writes the objects node: the geometry, whose doubles are given by their
/// bit patterns, and the model.
pub fn write_objects(b: &mut FbxBuilder, verts: &[u64], polys: &[i32], normals: &[u64], colors: &[u64])
    requires
        old(b).wf(),
        can_add_child(old(b)@),
        verts@.len() * 8 <= usize::MAX,
        polys@.len() * 4 <= usize::MAX,
        normals@.len() * 8 <= usize::MAX,
        colors@.len() * 8 <= usize::MAX,
    ensures
        final(b).wf(),
        final(b)@ == add_node(old(b)@, objects(verts@, polys@, normals@, colors@)),
{
    let ghost d = b@;
    let ghost mut p = fresh(b.bytes().len(), "Objects"@);
    b.begin("Objects");
    write_geometry(b, verts, polys, normals, colors);
    proof {
        p = lemma_under_node(d, p, geometry(verts@, polys@, normals@, colors@));
    }
    write_model(b);
    proof {
        p = lemma_under_node(d, p, model());
        lemma_under_close(d, p);
        assert(p.props =~= objects(verts@, polys@, normals@, colors@).props);
        assert(p.children =~= objects(verts@, polys@, normals@, colors@).children);
    }
    b.end();
}

// ---------------------------------------------------------------------------
// The file
// ---------------------------------------------------------------------------

/// The fixed closing bytes of a binary FBX file.
pub open spec fn foot_magic() -> Seq<u8> {
    seq![
        0xfau8,
        0xbcu8,
        0xabu8,
        0x09u8,
        0xd0u8,
        0xc8u8,
        0xd4u8,
        0x66u8,
        0xb1u8,
        0x76u8,
        0xfbu8,
        0x83u8,
        0x1cu8,
        0xf7u8,
        0x26u8,
        0x7eu8,
    ]
}

/// Padding after the footer identifier: up to the next multiple of sixteen
/// of the file position (counting the header bytes before the body),
/// and a full sixteen more when that would be under four.
pub open spec fn footer_pad(len: nat) -> nat {
    let pos = FBX_HEADER_LEN + len + 16;
    let pad = (16 - pos % 16) % 16;
    if pad < 4 {
        (pad + 16) as nat
    } else {
        pad as nat
    }
}

/// The footer after a body of `len` bytes: a zero identifier, the padding,
/// four zero bytes, the version, 120 zero bytes and the closing magic.
pub open spec fn footer(len: nat) -> Seq<u8> {
    zeros(16) + zeros(footer_pad(len)) + zeros(4) + le_bytes(7400) + zeros(120) + foot_magic()
}

/// Appends the footer.
pub fn write_footer(buf: &mut Vec<u8>)
    ensures
        final(buf)@ == old(buf)@ + footer(old(buf)@.len()),
{
    let ghost start = buf@;
    let len0 = buf.len();
    push_zeros(buf, 16);
    let r = (len0 % 16 + 11) % 16;
    let pad0 = (16 - r) % 16;
    let pad = if pad0 < 4 {
        pad0 + 16
    } else {
        pad0
    };
    proof {
        assert((27 + len0 + 16) % 16 == r);
        assert(pad == footer_pad(len0 as nat));
    }
    push_zeros(buf, pad);
    push_zeros(buf, 4);
    push_u32_le(buf, 7400);
    push_zeros(buf, 120);
    let ghost before_magic = buf@;
    buf.push(0xfau8);
    buf.push(0xbcu8);
    buf.push(0xabu8);
    buf.push(0x09u8);
    buf.push(0xd0u8);
    buf.push(0xc8u8);
    buf.push(0xd4u8);
    buf.push(0x66u8);
    buf.push(0xb1u8);
    buf.push(0x76u8);
    buf.push(0xfbu8);
    buf.push(0x83u8);
    buf.push(0x1cu8);
    buf.push(0xf7u8);
    buf.push(0x26u8);
    buf.push(0x7eu8);
    proof {
        assert(buf@ =~= before_magic + foot_magic());
        assert(buf@ =~= start + footer(len0 as nat));
    }
}

/// The top-level nodes of the exported file.
pub open spec fn fbx_scene(verts: Seq<u64>, polys: Seq<i32>, normals: Seq<u64>, colors: Seq<u64>) -> Seq<FbxNode> {
    header_nodes() + seq![
        global_settings(),
        documents(),
        empty_node("References"@),
        definitions(),
        objects(verts, polys, normals, colors),
        connections(),
        takes(),
    ]
}

/// A binary FBX 7.4 file holding the top-level nodes `roots`: the magic
/// text, the version, the node records, a null record and the footer.
pub open spec fn fbx_file(roots: Seq<FbxNode>) -> Seq<u8> {
    let body = kids_bytes(roots, 0) + zeros(13);
    str_bytes("Kaydara FBX Binary  "@) + seq![0u8, 0x1au8, 0u8] + le_bytes(7400) + body + footer(body.len())
}

/// Adding nodes at the top level appends them to the top-level list.
proof fn lemma_add_nodes_top(d: FbxDoc, ns: Seq<FbxNode>)
    requires
        d.open.len() == 0,
    ensures
        add_nodes(d, ns) == (FbxDoc { roots: d.roots + ns, open: d.open }),
    decreases ns.len(),
{
    if ns.len() > 0 {
        lemma_add_nodes_top(d, ns.drop_last());
        assert(d.roots + ns =~= (d.roots + ns.drop_last()).push(ns.last()));
    } else {
        assert(d.roots + ns =~= d.roots);
    }
}

/// The binary FBX file of a mesh whose vertex positions, normals and colors
/// are given by the bit patterns of their doubles.
#[verifier::spinoff_prover]
#[verifier::rlimit(40)]
pub fn export(verts: &[u64], polys: &[i32], normals: &[u64], colors: &[u64]) -> (r: Vec<u8>)
    requires
        verts@.len() * 8 <= usize::MAX,
        polys@.len() * 4 <= usize::MAX,
        normals@.len() * 8 <= usize::MAX,
        colors@.len() * 8 <= usize::MAX,
    ensures
        r@ == fbx_file(fbx_scene(verts@, polys@, normals@, colors@)),
{
    let mut b = FbxBuilder::new();
    let ghost d0 = b@;
    write_header_ext(&mut b);
    proof {
        lemma_add_nodes_top(d0, header_nodes());
    }
    write_global_settings(&mut b);
    write_documents(&mut b);
    write_references(&mut b);
    write_definitions(&mut b);
    write_objects(&mut b, verts, polys, normals, colors);
    write_connections(&mut b);
    write_takes(&mut b);
    let ghost roots = fbx_scene(verts@, polys@, normals@, colors@);
    proof {
        assert(b@.roots =~= roots);
        assert(b@.open.len() == 0);
        assert(open_bytes(b@.open) =~= Seq::<u8>::empty());
        assert(b.buf@ =~= kids_bytes(roots, 0));
    }
    let mut body = b.buf;
    push_zeros(&mut body, 13);
    let ghost body_view = body@;
    write_footer(&mut body);
    let mut out: Vec<u8> = Vec::new();
    let magic = "Kaydara FBX Binary  ";
    proof {
        reveal(str_bytes);
    }
    push_all(&mut out, magic.as_bytes());
    out.push(0u8);
    out.push(0x1au8);
    out.push(0u8);
    push_u32_le(&mut out, 7400);
    push_all(&mut out, body.as_slice());
    proof {
        assert(out@ =~= fbx_file(roots));
    }
    out
}

// ---------------------------------------------------------------------------
// The mesh
// ---------------------------------------------------------------------------

/// The mesh of a grid in the layout FBX wants, before the conversion of its
/// coordinates and colors to doubles: one quad of four vertices per exposed
/// face.
pub struct FbxMesh {
    /// x, y, z of each vertex.
    pub verts: Vec<i32>,
    /// The vertex indices of each quad, the last one of each stored as
    /// `-(index) - 1`.
    pub polys: Vec<i32>,
    /// x, y, z of each vertex's normal.
    pub normals: Vec<i32>,
    /// r, g, b, a of each vertex's color.
    pub colors: Vec<u8>,
}

/// Entry `i` of the polygon index list: the vertex index `i`, negated and
/// less one where it closes a quad.
pub open spec fn poly_index(i: int) -> i32 {
    if i % 4 == 3 {
        (-i - 1) as i32
    } else {
        i as i32
    }
}

/// `m` holds one quad per face of `fs`, in order, with the corners, normals
/// and colors that the glTF mesh of the same faces has.
pub open spec fn fbx_mesh_of(fs: Seq<(IVec3, int, Color8)>, m: FbxMesh) -> bool {
    &&& m.verts@ == Seq::new(12 * fs.len(), |i: int| face_vertex(fs, i / 3).spec_comp((i % 3) as usize))
    &&& m.polys@ == Seq::new(4 * fs.len(), |i: int| poly_index(i))
    &&& m.normals@ == Seq::new(12 * fs.len(), |i: int| face_normal(fs[i / 12].1).spec_comp((i % 3) as usize))
    &&& m.colors@ == Seq::new(16 * fs.len(), |i: int| fs[i / 16].2[i % 4])
}

/// The coordinates of each point in turn.
fn flatten3(ps: &Vec<IVec3>) -> (r: Vec<i32>)
    requires
        3 * ps@.len() <= usize::MAX,
    ensures
        r@ == Seq::new(3 * ps@.len(), |i: int| ps@[i / 3].spec_comp((i % 3) as usize)),
{
    let mut r: Vec<i32> = Vec::new();
    let mut j: usize = 0;
    while j < ps.len()
        invariant
            j <= ps@.len(),
            3 * ps@.len() <= usize::MAX,
            r@ == Seq::new(3 * j as nat, |i: int| ps@[i / 3].spec_comp((i % 3) as usize)),
        decreases ps.len() - j,
    {
        let p = ps[j];
        r.push(p.x);
        r.push(p.y);
        r.push(p.z);
        proof {
            let n = 3 * j as int;
            assert((n / 3 == j as int && n % 3 == 0) && ((n + 1) / 3 == j as int && (n + 1) % 3 == 1) && ((n
                + 2) / 3 == j as int && (n + 2) % 3 == 2)) by (nonlinear_arith)
                requires
                    n == 3 * j as int,
            ;
            assert(r@ =~= Seq::new(3 * (j + 1) as nat, |i: int| ps@[i / 3].spec_comp((i % 3) as usize)));
        }
        j = j + 1;
    }
    r
}

/// The channels of each color in turn.
fn flatten_colors(cs: &Vec<Color8>) -> (r: Vec<u8>)
    requires
        4 * cs@.len() <= usize::MAX,
    ensures
        r@ == Seq::new(4 * cs@.len(), |i: int| cs@[i / 4][i % 4]),
{
    let mut r: Vec<u8> = Vec::new();
    let mut j: usize = 0;
    while j < cs.len()
        invariant
            j <= cs@.len(),
            4 * cs@.len() <= usize::MAX,
            r@ == Seq::new(4 * j as nat, |i: int| cs@[i / 4][i % 4]),
        decreases cs.len() - j,
    {
        let c = cs[j];
        r.push(c[0]);
        r.push(c[1]);
        r.push(c[2]);
        r.push(c[3]);
        proof {
            let n = 4 * j as int;
            assert((n / 4 == j as int && n % 4 == 0) && ((n + 1) / 4 == j as int && (n + 1) % 4 == 1) && ((n
                + 2) / 4 == j as int && (n + 2) % 4 == 2) && ((n + 3) / 4 == j as int && (n + 3) % 4 == 3))
                by (nonlinear_arith)
                requires
                    n == 4 * j as int,
            ;
            assert(r@ =~= Seq::new(4 * (j + 1) as nat, |i: int| cs@[i / 4][i % 4]));
        }
        j = j + 1;
    }
    r
}

/// One quad per exposed face of every cell, in face order within each cell
/// (+x, -x, +y, -y, +z, -z), with the corners of the glTF export; each
/// vertex carries its face's normal and its cell's color.
pub fn build_mesh(grid: &VoxelGrid) -> (m: FbxMesh)
    requires
        grid.wf(),
        cells_interior(grid@),
        24 * grid@.dom().len() <= i32::MAX,
        96 * grid@.dom().len() <= usize::MAX,
    ensures
        exists|cs: Seq<(IVec3, Color8)>| #[trigger] lists_cells(cs, grid@) && fbx_mesh_of(exposed_faces(grid@, cs), m),
{
    let g = build_glb_mesh(grid);
    let ghost cs = choose|cs: Seq<(IVec3, Color8)>|
        #[trigger] lists_cells(cs, grid@) && mesh_of(exposed_faces(grid@, cs), g) && exposed_faces(grid@, cs).len()
            <= 6 * grid@.dom().len();
    let ghost fs = exposed_faces(grid@, cs);
    proof {
        assert(lists_cells(cs, grid@) && mesh_of(fs, g) && fs.len() <= 6 * grid@.dom().len());
        assert(g.positions@.len() == 4 * fs.len());
        assert(g.normals@.len() == 4 * fs.len());
        assert(g.colors@.len() == 4 * fs.len());
    }
    let verts = flatten3(&g.positions);
    let normals = flatten3(&g.normals);
    let colors = flatten_colors(&g.colors);
    let nv = g.positions.len();
    let mut polys: Vec<i32> = Vec::new();
    let mut i: usize = 0;
    while i < nv
        invariant
            i <= nv,
            nv == 4 * fs.len(),
            nv <= i32::MAX,
            polys@ == Seq::new(i as nat, |k: int| poly_index(k)),
        decreases nv - i,
    {
        if i % 4 == 3 {
            polys.push(-(i as i32) - 1);
        } else {
            polys.push(i as i32);
        }
        proof {
            assert(polys@ =~= Seq::new((i + 1) as nat, |k: int| poly_index(k)));
        }
        i = i + 1;
    }
    let m = FbxMesh { verts, polys, normals, colors };
    proof {
        assert(m.verts@ =~= Seq::new(12 * fs.len(), |i: int| face_vertex(fs, i / 3).spec_comp((i % 3) as usize)));
        assert forall|k: int| 0 <= k < 12 * fs.len() implies #[trigger] m.normals@[k] == face_normal(fs[k / 12].1).spec_comp(
            (k % 3) as usize,
        ) by {
            assert(k / 12 == (k / 3) / 4) by (nonlinear_arith)
                requires
                    0 <= k,
            ;
        }
        assert(m.normals@ =~= Seq::new(12 * fs.len(), |i: int| face_normal(fs[i / 12].1).spec_comp((i % 3) as usize)));
        assert forall|k: int| 0 <= k < 16 * fs.len() implies #[trigger] m.colors@[k] == fs[k / 16].2[k % 4] by {
            assert(k / 16 == (k / 4) / 4) by (nonlinear_arith)
                requires
                    0 <= k,
            ;
        }
        assert(m.colors@ =~= Seq::new(16 * fs.len(), |i: int| fs[i / 16].2[i % 4]));
    }
    m
}

// ---------------------------------------------------------------------------
// Laws
// ---------------------------------------------------------------------------

/// A node record begins with the file offset just past its own end (its
/// body offset plus the file header), followed by its property count; the
/// offset is exact whenever it fits in 32 bits.
pub proof fn law_record_knows_its_end(n: FbxNode, start: int)
    requires
        0 <= start,
        FBX_HEADER_LEN + start + node_len(n) <= u32::MAX,
    ensures
        le_u32(node_bytes(n, start).subrange(0, 4)) == FBX_HEADER_LEN + start + node_bytes(n, start).len(),
        n.props.len() <= u32::MAX ==> le_u32(node_bytes(n, start).subrange(4, 8)) == n.props.len(),
{
    lemma_node_len(n, start);
    let e = (FBX_HEADER_LEN + start + node_len(n)) as u32;
    lemma_le_roundtrip(e);
    lemma_le_roundtrip(n.props.len() as u32);
    assert(node_bytes(n, start).subrange(0, 4) =~= le_bytes(e));
    assert(node_bytes(n, start).subrange(4, 8) =~= le_bytes(n.props.len() as u32));
}

/// The footer padding brings the file position to a multiple of sixteen and
/// is never shorter than four bytes.
pub proof fn law_footer_aligned(len: nat)
    ensures
        (FBX_HEADER_LEN + len + 16 + footer_pad(len)) % 16 == 0,
        4 <= footer_pad(len) < 20,
{
}

/// Every file the exporter writes ends with the closing magic.
pub proof fn law_file_ends_with_magic(roots: Seq<FbxNode>)
    ensures
        ({
            let f = fbx_file(roots);
            f.len() >= 16 && f.subrange(f.len() - 16, f.len() as int) == foot_magic()
        }),
{
    let body = kids_bytes(roots, 0) + zeros(13);
    let f = fbx_file(roots);
    let head = str_bytes("Kaydara FBX Binary  "@) + seq![0u8, 0x1au8, 0u8] + le_bytes(7400) + body + zeros(16)
        + zeros(footer_pad(body.len())) + zeros(4) + le_bytes(7400) + zeros(120);
    assert(f =~= head + foot_magic());
    assert(f.subrange(f.len() - 16, f.len() as int) =~= foot_magic());
}

/// Each quad's index run ends with the one negative entry: exactly every
/// fourth entry is negative.
pub proof fn law_quads_closed(fs: Seq<(IVec3, int, Color8)>, m: FbxMesh)
    requires
        fbx_mesh_of(fs, m),
        4 * fs.len() <= i32::MAX,
    ensures
        m.polys@.len() % 4 == 0,
        forall|i: int| 0 <= i < m.polys@.len() ==> (#[trigger] m.polys@[i] < 0 <==> i % 4 == 3),
{
    assert forall|i: int| 0 <= i < m.polys@.len() implies (#[trigger] m.polys@[i] < 0 <==> i % 4 == 3) by {
        assert(m.polys@[i] == poly_index(i));
    }
}
} // verus!
