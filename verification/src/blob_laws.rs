//! A device tree can be read back from its blob: every node, property and value
//! stands where a reader of the format looks for it.

use vstd::prelude::*;
use crate::bytes::{be_bytes, be_value};
use crate::dtb::{blob, FdtNode, FdtView};

verus! {

/// `n` rounded up to a multiple of four.
pub open spec fn rounded(n: int) -> int {
    (n + 3) / 4 * 4
}

/// The big-endian word at `p`.
pub open spec fn word_at(s: Seq<u8>, p: int) -> int {
    be_value(s.subrange(p, p + 4)) as int
}

/// Bytes that a property takes in the structure block: three words, and its value
/// rounded up.
pub open spec fn prop_size(prop: (Seq<u8>, Seq<u8>)) -> int {
    12 + rounded(prop.1.len() as int)
}

/// Bytes that the first `n` properties take.
pub open spec fn props_size(props: Seq<(Seq<u8>, Seq<u8>)>, n: int) -> int
    decreases n,
{
    if n <= 0 {
        0
    } else {
        props_size(props, n - 1) + prop_size(props[n - 1])
    }
}

/// Bytes of a node before its properties: a word, and its name with a zero
/// behind it rounded up.
pub open spec fn head_size(node: FdtNode) -> int {
    4 + rounded(node.name.len() as int + 1)
}

/// Bytes that a node takes: its name, its properties, its children and a word at
/// the end.
pub open spec fn node_size(node: FdtNode) -> int
    decreases node, node.children.len() + 2,
{
    head_size(node) + props_size(node.props, node.props.len() as int) + children_size(
        node,
        node.children.len(),
    ) + 4
}

/// Bytes that the first `n` children of a node take.
pub open spec fn children_size(node: FdtNode, n: nat) -> int
    decreases node, n + 1,
{
    if n == 0 || n > node.children.len() {
        0
    } else {
        children_size(node, (n - 1) as nat) + node_size(node.children[n - 1])
    }
}

/// Whether a property stands at `p`: the word 3, the length of its value, where
/// its name stands among the strings with a zero behind it, and its value.
#[verifier::opaque]
pub open spec fn holds_prop(s: Seq<u8>, t: Seq<u8>, p: int, prop: (Seq<u8>, Seq<u8>)) -> bool {
    let off = word_at(s, p + 8);
    &&& 0 <= p && p + prop_size(prop) <= s.len()
    &&& word_at(s, p) == 3
    &&& word_at(s, p + 4) == prop.1.len()
    &&& off + prop.0.len() < t.len()
    &&& t.subrange(off, off + prop.0.len()) == prop.0
    &&& t[off + prop.0.len()] == 0
    &&& s.subrange(p + 12, p + 12 + prop.1.len()) == prop.1
}

/// Whether the first `n` properties stand one behind the other from `p` on.
pub open spec fn holds_props(
    s: Seq<u8>,
    t: Seq<u8>,
    p: int,
    props: Seq<(Seq<u8>, Seq<u8>)>,
    n: int,
) -> bool {
    forall|k: int|
        0 <= k < n ==> holds_prop(s, t, p + props_size(props, k), #[trigger] props[k])
}

/// Whether a node stands at `p`: the word 1, its name with a zero behind it, its
/// properties, its children, and the word 2.
pub open spec fn holds_node(s: Seq<u8>, t: Seq<u8>, p: int, node: FdtNode) -> bool
    decreases node, node.children.len() + 2,
{
    let len = node.name.len() as int;
    let props = p + head_size(node);
    let children = props + props_size(node.props, node.props.len() as int);
    &&& 0 <= p && p + node_size(node) <= s.len()
    &&& word_at(s, p) == 1
    &&& s.subrange(p + 4, p + 4 + len) == node.name
    &&& s[p + 4 + len] == 0
    &&& holds_props(s, t, props, node.props, node.props.len() as int)
    &&& holds_children(s, t, children, node, node.children.len())
    &&& word_at(s, p + node_size(node) - 4) == 2
}

/// Whether the first `n` children of a node stand one behind the other from `p`
/// on.
pub open spec fn holds_children(s: Seq<u8>, t: Seq<u8>, p: int, node: FdtNode, n: nat) -> bool
    decreases node, n + 1,
{
    if n == 0 || n > node.children.len() {
        true
    } else {
        &&& holds_children(s, t, p, node, (n - 1) as nat)
        &&& holds_node(s, t, p + children_size(node, (n - 1) as nat), node.children[n - 1])
    }
}

/// Whether `a` stands at the start of `b`.
#[verifier::opaque]
spec fn starts(b: Seq<u8>, a: Seq<u8>) -> bool {
    a.len() <= b.len() && b.subrange(0, a.len() as int) == a
}

/// Whether nothing of `v` was changed by what was added.
spec fn grown(v: FdtView, now: FdtView) -> bool {
    &&& starts(now.structure, v.structure)
    &&& starts(now.strings, v.strings)
}

proof fn lemma_grown_itself(v: FdtView)
    ensures
        grown(v, v),
{
    reveal(starts);
    assert(v.structure.subrange(0, v.structure.len() as int) =~= v.structure);
    assert(v.strings.subrange(0, v.strings.len() as int) =~= v.strings);
}

proof fn lemma_grown_on(a: FdtView, b: FdtView, c: FdtView)
    requires
        grown(a, b),
        grown(b, c),
    ensures
        grown(a, c),
{
    reveal(starts);
    assert(c.structure.subrange(0, a.structure.len() as int) =~= b.structure.subrange(
        0,
        a.structure.len() as int,
    ));
    assert(c.strings.subrange(0, a.strings.len() as int) =~= b.strings.subrange(
        0,
        a.strings.len() as int,
    ));
}

proof fn lemma_part(a: Seq<u8>, b: Seq<u8>, p: int, q: int)
    requires
        starts(b, a),
        0 <= p <= q <= a.len(),
    ensures
        b.subrange(p, q) == a.subrange(p, q),
{
    reveal(starts);
    assert(b.subrange(p, q) =~= b.subrange(0, a.len() as int).subrange(p, q));
}

proof fn lemma_prop_stays(
    s: Seq<u8>,
    t: Seq<u8>,
    s2: Seq<u8>,
    t2: Seq<u8>,
    p: int,
    prop: (Seq<u8>, Seq<u8>),
)
    requires
        starts(s2, s),
        starts(t2, t),
        holds_prop(s, t, p, prop),
    ensures
        holds_prop(s2, t2, p, prop),
{
    reveal(holds_prop);
    reveal(starts);
    let off = word_at(s, p + 8);
    lemma_part(s, s2, p, p + 4);
    lemma_part(s, s2, p + 4, p + 8);
    lemma_part(s, s2, p + 8, p + 12);
    lemma_part(s, s2, p + 12, p + 12 + prop.1.len());
    lemma_part(t, t2, off, off + prop.0.len());
    assert(t2.subrange(0, t.len() as int)[off + prop.0.len()] == t[off + prop.0.len()]);
}

proof fn lemma_sizes(node: FdtNode, n: nat)
    requires
        n <= node.children.len(),
    ensures
        0 <= children_size(node, n) <= children_size(node, node.children.len()),
    decreases node.children.len() - n,
{
    if n < node.children.len() {
        lemma_sizes(node, (n + 1) as nat);
        lemma_node_size(node.children[n as int]);
        lemma_children_size(node, n);
    } else {
        lemma_children_size(node, n);
    }
}

proof fn lemma_children_size(node: FdtNode, n: nat)
    ensures
        0 <= children_size(node, n),
    decreases node, n + 1,
{
    if n != 0 && n <= node.children.len() {
        lemma_children_size(node, (n - 1) as nat);
        lemma_node_size(node.children[n - 1]);
    }
}

proof fn lemma_node_size(node: FdtNode)
    ensures
        node_size(node) >= head_size(node) + props_size(node.props, node.props.len() as int) + 4,
        node_size(node) >= 8,
    decreases node, node.children.len() + 2,
{
    lemma_children_size(node, node.children.len());
    lemma_props_size(node.props, 0, node.props.len() as int);
}

proof fn lemma_props_size(props: Seq<(Seq<u8>, Seq<u8>)>, m: int, n: int)
    requires
        0 <= m <= n,
    ensures
        0 <= props_size(props, m) <= props_size(props, n),
    decreases n,
{
    if n > 0 {
        if m < n {
            lemma_props_size(props, m, n - 1);
        } else {
            lemma_props_size(props, m - 1, n - 1);
        }
    }
}

proof fn lemma_node_stays(
    s: Seq<u8>,
    t: Seq<u8>,
    s2: Seq<u8>,
    t2: Seq<u8>,
    p: int,
    node: FdtNode,
)
    requires
        starts(s2, s),
        starts(t2, t),
        holds_node(s, t, p, node),
    ensures
        holds_node(s2, t2, p, node),
    decreases node, node.children.len() + 2,
{
    reveal(starts);
    let len = node.name.len() as int;
    let props = p + head_size(node);
    let children = props + props_size(node.props, node.props.len() as int);
    lemma_node_size(node);
    lemma_props_size(node.props, 0, node.props.len() as int);
    lemma_part(s, s2, p, p + 4);
    lemma_part(s, s2, p + 4, p + 4 + len);
    assert(s2.subrange(0, s.len() as int)[p + 4 + len] == s[p + 4 + len]);
    lemma_part(s, s2, p + node_size(node) - 4, p + node_size(node));
    assert forall|k: int| 0 <= k < node.props.len() implies holds_prop(
        s2,
        t2,
        props + props_size(node.props, k),
        #[trigger] node.props[k],
    ) by {
        lemma_prop_stays(s, t, s2, t2, props + props_size(node.props, k), node.props[k]);
    }
    lemma_children_stay(s, t, s2, t2, children, node, node.children.len());
}

proof fn lemma_children_stay(
    s: Seq<u8>,
    t: Seq<u8>,
    s2: Seq<u8>,
    t2: Seq<u8>,
    p: int,
    node: FdtNode,
    n: nat,
)
    requires
        starts(s2, s),
        starts(t2, t),
        holds_children(s, t, p, node, n),
    ensures
        holds_children(s2, t2, p, node, n),
    decreases node, n + 1,
{
    if n != 0 && n <= node.children.len() {
        lemma_children_stay(s, t, s2, t2, p, node, (n - 1) as nat);
        lemma_node_stays(
            s,
            t,
            s2,
            t2,
            p + children_size(node, (n - 1) as nat),
            node.children[n - 1],
        );
    }
}

/// A view whose blocks are whole words and whose names stand among its strings.
#[verifier::opaque]
spec fn sound(v: FdtView) -> bool {
    &&& v.structure.len() % 4 == 0
    &&& v.names_resolve()
    &&& v.strings.len() <= u32::MAX
}

proof fn lemma_word(v: nat)
    requires
        v <= u32::MAX,
    ensures
        be_bytes(v, 4).len() == 4,
        be_value(be_bytes(v, 4)) == v,
{
    crate::bytes::lemma_byte_spans();
    crate::bytes::lemma_be_bytes_len(v, 4);
    crate::bytes::lemma_be_round_trip(v, 4);
}

proof fn lemma_begun(v: FdtView, name: Seq<u8>)
    requires
        sound(v),
    ensures
        ({
            let now = v.begun(name);
            let p = v.structure.len() as int;
            &&& sound(now)
            &&& grown(v, now)
            &&& now.structure.len() == p + 4 + rounded(name.len() as int + 1)
            &&& word_at(now.structure, p) == 1
            &&& now.structure.subrange(p + 4, p + 4 + name.len()) == name
            &&& now.structure[p + 4 + name.len()] == 0
        }),
{
    reveal(sound);
    reveal(starts);
    reveal(FdtView::begun);
    lemma_word(1);
    let now = v.begun(name);
    let p = v.structure.len() as int;
    assert(now.structure.subrange(0, p) =~= v.structure);
    assert(now.strings.subrange(0, v.strings.len() as int) =~= v.strings);
    assert(now.structure.subrange(p, p + 4) =~= be_bytes(1, 4));
    assert(now.structure.subrange(p + 4, p + 4 + name.len()) =~= name);
}

proof fn lemma_ended(v: FdtView)
    requires
        sound(v),
    ensures
        ({
            let now = v.ended();
            let p = v.structure.len() as int;
            &&& sound(now)
            &&& grown(v, now)
            &&& now.structure.len() == p + 4
            &&& word_at(now.structure, p) == 2
        }),
{
    reveal(sound);
    reveal(starts);
    reveal(FdtView::ended);
    lemma_word(2);
    let now = v.ended();
    let p = v.structure.len() as int;
    assert(now.structure.subrange(0, p) =~= v.structure);
    assert(now.strings.subrange(0, v.strings.len() as int) =~= v.strings);
    assert(now.structure.subrange(p, p + 4) =~= be_bytes(2, 4));
}

proof fn lemma_propped_blocks(v: FdtView, name: Seq<u8>, data: Seq<u8>)
    requires
        v.structure.len() % 4 == 0,
        data.len() <= u32::MAX,
    ensures
        ({
            let now = v.propped(name, data);
            let p = v.structure.len() as int;
            &&& starts(now.structure, v.structure)
            &&& starts(now.strings, v.strings)
            &&& now.structure.len() == p + 12 + rounded(data.len() as int)
            &&& word_at(now.structure, p) == 3
            &&& word_at(now.structure, p + 4) == data.len()
            &&& word_at(now.structure, p + 8) == v.name_offset(name)
            &&& now.structure.subrange(p + 12, p + 12 + data.len()) == data
        }),
{
    let now = v.propped(name, data);
    let p = v.structure.len() as int;
    let off = v.name_offset(name);
    reveal(FdtView::propped);
    reveal(starts);
    lemma_word(3);
    lemma_word(data.len());
    lemma_word(off as nat);
    assert(now.structure.subrange(0, p) =~= v.structure);
    assert(now.strings.subrange(0, v.strings.len() as int) =~= v.strings);
    assert(now.structure.subrange(p, p + 4) =~= be_bytes(3, 4));
    assert(now.structure.subrange(p + 4, p + 8) =~= be_bytes(data.len(), 4));
    assert(now.structure.subrange(p + 8, p + 12) =~= be_bytes(off as nat, 4));
    assert(now.structure.subrange(p + 12, p + 12 + data.len()) =~= data);
}

proof fn lemma_name_stands(v: FdtView, name: Seq<u8>)
    requires
        v.names_resolve(),
        v.names.contains_key(name),
    ensures
        ({
            let off = v.names[name] as int;
            &&& off + name.len() < v.strings.len()
            &&& v.strings.subrange(off, off + name.len()) == name
            &&& v.strings[off + name.len()] == 0
        }),
{
    let off = v.names[name] as int;
    let there = v.strings.subrange(off, off + name.len() + 1);
    assert(there == name.push(0));
    assert forall|i: int| 0 <= i < name.len() implies v.strings[off + i] == name[i] by {
        assert(there[i] == name.push(0)[i]);
    }
    assert(v.strings.subrange(off, off + name.len()) =~= name);
    assert(there[name.len() as int] == name.push(0)[name.len() as int]);
}

proof fn lemma_propped(v: FdtView, prop: (Seq<u8>, Seq<u8>))
    requires
        sound(v),
        prop.1.len() <= u32::MAX,
        v.propped(prop.0, prop.1).strings.len() <= u32::MAX,
    ensures
        ({
            let now = v.propped(prop.0, prop.1);
            let p = v.structure.len() as int;
            &&& sound(now)
            &&& grown(v, now)
            &&& now.structure.len() == p + prop_size(prop)
            &&& holds_prop(now.structure, now.strings, p, prop)
        }),
{
    reveal(sound);
    reveal(holds_prop);
    crate::dtb::law_names_resolve(v, prop.0, prop.1);
    lemma_propped_blocks(v, prop.0, prop.1);
    lemma_name_stands(v.propped(prop.0, prop.1), prop.0);
}

proof fn lemma_strings_grow(v: FdtView, name: Seq<u8>, data: Seq<u8>)
    ensures
        v.strings.len() <= v.propped(name, data).strings.len(),
{
    reveal(FdtView::propped);
}

proof fn lemma_all_strings_grow(v: FdtView, props: Seq<(Seq<u8>, Seq<u8>)>, m: int, n: int)
    requires
        0 <= m <= n,
    ensures
        v.propped_all(props, m).strings.len() <= v.propped_all(props, n).strings.len(),
    decreases n - m,
{
    if m < n {
        lemma_all_strings_grow(v, props, m, n - 1);
        lemma_strings_grow(v.propped_all(props, n - 1), props[n - 1].0, props[n - 1].1);
    }
}

#[verifier::spinoff_prover]
proof fn lemma_propped_all(v: FdtView, props: Seq<(Seq<u8>, Seq<u8>)>, n: int)
    requires
        0 <= n <= props.len(),
        sound(v),
        forall|k: int| 0 <= k < props.len() ==> (#[trigger] props[k]).1.len() <= u32::MAX,
        v.propped_all(props, n).strings.len() <= u32::MAX,
    ensures
        ({
            let now = v.propped_all(props, n);
            let p = v.structure.len() as int;
            &&& sound(now)
            &&& grown(v, now)
            &&& now.structure.len() == p + props_size(props, n)
            &&& holds_props(now.structure, now.strings, p, props, n)
        }),
    decreases n,
{
    if n == 0 {
        lemma_grown_itself(v);
    } else {
        let before = v.propped_all(props, n - 1);
        let now = v.propped_all(props, n);
        let p = v.structure.len() as int;
        lemma_all_strings_grow(v, props, n - 1, n);
        lemma_propped_all(v, props, n - 1);
        assert(props[n - 1].1.len() <= u32::MAX);
        lemma_propped(before, props[n - 1]);
        lemma_grown_on(v, before, now);
        assert forall|k: int| 0 <= k < n implies holds_prop(
            now.structure,
            now.strings,
            p + props_size(props, k),
            #[trigger] props[k],
        ) by {
            if k < n - 1 {
                lemma_prop_stays(
                    before.structure,
                    before.strings,
                    now.structure,
                    now.strings,
                    p + props_size(props, k),
                    props[k],
                );
            }
        }
    }
}

/// Every value in a tree can be measured in a word.
pub open spec fn measurable(node: FdtNode) -> bool
    decreases node, node.children.len() + 2,
{
    &&& forall|k: int| 0 <= k < node.props.len() ==> (#[trigger] node.props[k]).1.len() <= u32::MAX
    &&& children_measurable(node, node.children.len())
}

/// Every value in the first `n` children of a node can be measured in a word.
pub open spec fn children_measurable(node: FdtNode, n: nat) -> bool
    decreases node, n + 1,
{
    if n == 0 || n > node.children.len() {
        true
    } else {
        children_measurable(node, (n - 1) as nat) && measurable(node.children[n - 1])
    }
}

proof fn lemma_node_strings(v: FdtView, node: FdtNode)
    ensures
        v.strings.len() <= v.with_node(node).strings.len(),
    decreases node, node.children.len() + 2,
{
    let begun = v.begun(node.name);
    let propped = begun.propped_all(node.props, node.props.len() as int);
    let full = propped.with_children(node, node.children.len());
    assert(begun.strings == v.strings) by {
        reveal(FdtView::begun);
    }
    assert(full.ended().strings == full.strings) by {
        reveal(FdtView::ended);
    }
    lemma_all_strings_grow(begun, node.props, 0, node.props.len() as int);
    lemma_children_strings(propped, node, node.children.len());
}

proof fn lemma_children_strings(v: FdtView, node: FdtNode, n: nat)
    ensures
        v.strings.len() <= v.with_children(node, n).strings.len(),
    decreases node, n + 1,
{
    if n != 0 && n <= node.children.len() {
        lemma_children_strings(v, node, (n - 1) as nat);
        lemma_node_strings(v.with_children(node, (n - 1) as nat), node.children[n - 1]);
    }
}

#[verifier::spinoff_prover]
#[verifier::rlimit(40)]
proof fn lemma_with_node(v: FdtView, node: FdtNode)
    requires
        sound(v),
        measurable(node),
        v.with_node(node).strings.len() <= u32::MAX,
    ensures
        ({
            let now = v.with_node(node);
            let p = v.structure.len() as int;
            &&& sound(now)
            &&& grown(v, now)
            &&& now.structure.len() == p + node_size(node)
            &&& holds_node(now.structure, now.strings, p, node)
        }),
    decreases node, node.children.len() + 2,
{
    let n = node.props.len() as int;
    let p = v.structure.len() as int;
    let begun = v.begun(node.name);
    let propped = begun.propped_all(node.props, n);
    let full = propped.with_children(node, node.children.len());
    let now = v.with_node(node);
    assert(now == full.ended());
    assert(full.ended().strings == full.strings) by {
        reveal(FdtView::ended);
    }
    lemma_children_strings(propped, node, node.children.len());
    lemma_begun(v, node.name);
    lemma_propped_all(begun, node.props, n);
    lemma_with_children(propped, node, node.children.len());
    lemma_ended(full);
    lemma_grown_on(v, begun, propped);
    lemma_grown_on(v, propped, full);
    lemma_grown_on(v, full, now);
    lemma_grown_on(begun, propped, full);
    lemma_grown_on(begun, full, now);
    lemma_grown_on(propped, full, now);
    lemma_part(begun.structure, now.structure, p, p + 4);
    lemma_part(begun.structure, now.structure, p + 4, p + 4 + node.name.len());
    assert(now.structure[p + 4 + node.name.len()] == begun.structure[p + 4 + node.name.len()]) by {
        reveal(starts);
        assert(now.structure.subrange(0, begun.structure.len() as int)[p + 4 + node.name.len()]
            == begun.structure[p + 4 + node.name.len()]);
    }
    let props = p + head_size(node);
    assert forall|k: int| 0 <= k < n implies holds_prop(
        now.structure,
        now.strings,
        props + props_size(node.props, k),
        #[trigger] node.props[k],
    ) by {
        lemma_prop_stays(
            propped.structure,
            propped.strings,
            now.structure,
            now.strings,
            props + props_size(node.props, k),
            node.props[k],
        );
    }
    lemma_children_stay(
        full.structure,
        full.strings,
        now.structure,
        now.strings,
        props + props_size(node.props, n),
        node,
        node.children.len(),
    );
    assert(now.structure.len() == p + node_size(node));
    assert(word_at(now.structure, full.structure.len() as int) == 2);
}

proof fn lemma_with_children(v: FdtView, node: FdtNode, n: nat)
    requires
        sound(v),
        n <= node.children.len(),
        children_measurable(node, n),
        v.with_children(node, n).strings.len() <= u32::MAX,
    ensures
        ({
            let now = v.with_children(node, n);
            let p = v.structure.len() as int;
            &&& sound(now)
            &&& grown(v, now)
            &&& now.structure.len() == p + children_size(node, n)
            &&& holds_children(now.structure, now.strings, p, node, n)
        }),
    decreases node, n + 1,
{
    if n == 0 {
        lemma_grown_itself(v);
    } else {
        let before = v.with_children(node, (n - 1) as nat);
        let now = v.with_children(node, n);
        lemma_node_strings(before, node.children[n - 1]);
        lemma_with_children(v, node, (n - 1) as nat);
        lemma_with_node(before, node.children[n - 1]);
        lemma_grown_on(v, before, now);
        lemma_children_stay(
            before.structure,
            before.strings,
            now.structure,
            now.strings,
            v.structure.len() as int,
            node,
            (n - 1) as nat,
        );
    }
}

/// A blob is a device tree that a reader can read back: it starts with the magic
/// number, its header says how long it is and where its structure and its strings
/// stand, and the structure is the tree, node by node and property by property,
/// with the word 9 behind it.
pub proof fn law_tree_reads_back(root: FdtNode)
    requires
        measurable(root),
        blob(root).len() <= u32::MAX,
    ensures
        ({
            let b = blob(root);
            let s = b.subrange(word_at(b, 8), word_at(b, 12));
            let t = b.subrange(word_at(b, 12), b.len() as int);
            &&& word_at(b, 0) == 0xd00d_feed
            &&& word_at(b, 4) == b.len()
            &&& holds_node(s, t, 0, root)
            &&& s.len() == node_size(root) + 4
            &&& word_at(s, node_size(root)) == 9
        }),
{
    let v = FdtView::empty().with_node(root);
    let b = blob(root);
    crate::dtb::law_header_describes_blob(v);
    lemma_word(9);
    let s = b.subrange(word_at(b, 8), word_at(b, 12));
    assert(s == v.structure + be_bytes(9, 4));
    assert(v.strings.len() <= u32::MAX) by {
        reveal(FdtView::finished);
    }
    assert(sound(FdtView::empty())) by {
        reveal(sound);
    }
    lemma_with_node(FdtView::empty(), root);
    reveal(starts);
    assert(s.subrange(0, v.structure.len() as int) =~= v.structure);
    assert(v.strings.subrange(0, v.strings.len() as int) =~= v.strings);
    lemma_node_stays(v.structure, v.strings, s, v.strings, 0, root);
    assert(s.subrange(node_size(root), node_size(root) + 4) =~= be_bytes(9, 4));
}

} // verus!
