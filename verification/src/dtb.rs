//! Minimal flattened-device-tree (DTB) builder — just enough to describe
//! the RISC-V `virt` machine to Linux. FDT v17.

use vstd::prelude::*;
use vstd::string::StringSliceAdditionalSpecFns;
use crate::bytes::{be_bytes, push_all, push_be, push_zeros};

verus! {

/// A device tree under construction.
pub struct Fdt {
    structure: Vec<u8>,
    strings: Vec<u8>,
    /// (name, offset into strings) cache for property names
    names: Vec<(Vec<u8>, u32)>,
}

pub const FDT_BEGIN_NODE: u32 = 1;

pub const FDT_END_NODE: u32 = 2;

pub const FDT_PROP: u32 = 3;

pub const FDT_END: u32 = 9;

/// The blocks of a flattened tree: its structure, its strings, and where in the
/// strings each property name stands.
#[verifier::ext_equal]
pub struct FdtView {
    pub structure: Seq<u8>,
    pub strings: Seq<u8>,
    pub names: Map<Seq<u8>, u32>,
}

/// `s` followed by zeros up to a multiple of four bytes.
pub open spec fn padded(s: Seq<u8>) -> Seq<u8> {
    s + Seq::new(((4 - s.len() % 4) % 4) as nat, |i: int| 0u8)
}

/// A node of a device tree: its name, its properties and its children, each in
/// order.
pub struct FdtNode {
    pub name: Seq<u8>,
    pub props: Seq<(Seq<u8>, Seq<u8>)>,
    pub children: Seq<FdtNode>,
}

impl FdtView {
    /// The blocks with nothing in them.
    pub open spec fn empty() -> FdtView {
        FdtView { structure: Seq::empty(), strings: Seq::empty(), names: Map::empty() }
    }

    /// The blocks after a node opens.
    #[verifier::opaque]
    pub open spec fn begun(self, name: Seq<u8>) -> FdtView {
        FdtView {
            structure: padded(self.structure + be_bytes(FDT_BEGIN_NODE as nat, 4) + name.push(0)),
            ..self
        }
    }

    /// The blocks after a node closes.
    #[verifier::opaque]
    pub open spec fn ended(self) -> FdtView {
        FdtView { structure: self.structure + be_bytes(FDT_END_NODE as nat, 4), ..self }
    }

    /// The offset of a property name in the strings block. A name that is not
    /// there yet will stand at the end.
    pub open spec fn name_offset(self, name: Seq<u8>) -> u32 {
        if self.names.contains_key(name) {
            self.names[name]
        } else {
            (self.strings.len() % 0x1_0000_0000) as u32
        }
    }

    /// The blocks with `name` among the strings.
    pub open spec fn named(self, name: Seq<u8>) -> FdtView {
        if self.names.contains_key(name) {
            self
        } else {
            FdtView {
                strings: self.strings + name.push(0),
                names: self.names.insert(name, self.name_offset(name)),
                ..self
            }
        }
    }

    /// The blocks after a property.
    #[verifier::opaque]
    pub open spec fn propped(self, name: Seq<u8>, data: Seq<u8>) -> FdtView {
        FdtView {
            structure: padded(
                self.structure + be_bytes(FDT_PROP as nat, 4) + be_bytes(data.len(), 4) + be_bytes(
                    self.name_offset(name) as nat,
                    4,
                ) + data,
            ),
            ..self.named(name)
        }
    }

    /// The blocks after the first `n` of `props`.
    pub open spec fn propped_all(self, props: Seq<(Seq<u8>, Seq<u8>)>, n: int) -> FdtView
        decreases n,
    {
        if n <= 0 {
            self
        } else {
            self.propped_all(props, n - 1).propped(props[n - 1].0, props[n - 1].1)
        }
    }

    /// The blocks after `node`.
    pub open spec fn with_node(self, node: FdtNode) -> FdtView
        decreases node, node.children.len() + 2,
    {
        self.begun(node.name).propped_all(node.props, node.props.len() as int).with_children(
            node,
            node.children.len(),
        ).ended()
    }

    /// The blocks after the first `n` children of `node`.
    pub open spec fn with_children(self, node: FdtNode, n: nat) -> FdtView
        decreases node, n + 1,
    {
        if n == 0 || n > node.children.len() {
            self
        } else {
            self.with_children(node, (n - 1) as nat).with_node(node.children[n - 1])
        }
    }

    /// The finished blob: a header of ten words, an empty reserve map, the
    /// structure block and the strings block.
    #[verifier::opaque]
    pub open spec fn finished(self) -> Seq<u8> {
        let structure = self.structure + be_bytes(FDT_END as nat, 4);
        let off_strings = 56 + structure.len();
        be_bytes(0xd00d_feed, 4) + be_bytes(off_strings + self.strings.len(), 4) + be_bytes(56, 4)
            + be_bytes(off_strings, 4) + be_bytes(40, 4) + be_bytes(17, 4) + be_bytes(16, 4)
            + be_bytes(0, 4) + be_bytes(self.strings.len(), 4) + be_bytes(structure.len(), 4)
            + Seq::new(16, |i: int| 0u8) + structure + self.strings
    }

    /// Every name stands in the strings block where its offset says, with a
    /// zero behind it.
    pub open spec fn names_resolve(self) -> bool {
        forall|name: Seq<u8>| #[trigger]
            self.names.contains_key(name) ==> {
                let off = self.names[name] as int;
                &&& off + name.len() < self.strings.len()
                &&& self.strings.subrange(off, off + name.len() + 1) == name.push(0)
            }
    }
}

/// The device tree that `node` is the root of, as a blob.
pub open spec fn blob(node: FdtNode) -> Seq<u8> {
    FdtView::empty().with_node(node).finished()
}

/// The bytes of a string property: the string with a zero behind it.
pub open spec fn str_data(s: &str) -> Seq<u8> {
    s.spec_bytes().push(0)
}

/// The bytes of a string-list property.
pub open spec fn strs_data(ss: Seq<&str>, n: int) -> Seq<u8>
    decreases n,
{
    if n <= 0 {
        Seq::empty()
    } else {
        strs_data(ss, n - 1) + str_data(ss[n - 1])
    }
}

/// The bytes of a property of 32-bit cells.
pub open spec fn cells_data(cells: Seq<u32>, n: int) -> Seq<u8>
    decreases n,
{
    if n <= 0 {
        Seq::empty()
    } else {
        cells_data(cells, n - 1) + be_bytes(cells[n - 1] as nat, 4)
    }
}

/// The bytes of a property of two 64-bit values.
pub open spec fn pair_data(a: u64, b: u64) -> Seq<u8> {
    be_bytes(a as nat, 8) + be_bytes(b as nat, 8)
}

/// Every operation leaves the structure block a multiple of four bytes long.
pub proof fn law_structure_is_aligned(view: FdtView, name: Seq<u8>, data: Seq<u8>)
    requires
        view.structure.len() % 4 == 0,
    ensures
        view.begun(name).structure.len() % 4 == 0,
        view.ended().structure.len() % 4 == 0,
        view.propped(name, data).structure.len() % 4 == 0,
{
    reveal(FdtView::begun);
    reveal(FdtView::ended);
    reveal(FdtView::propped);
    crate::bytes::lemma_be_bytes_len(FDT_END_NODE as nat, 4);
}

/// A property's name can be read back from the strings block at the offset that
/// the property carries, and earlier names stay where they were.
pub proof fn law_names_resolve(view: FdtView, name: Seq<u8>, data: Seq<u8>)
    requires
        view.names_resolve(),
        view.strings.len() <= u32::MAX,
    ensures
        view.propped(name, data).names_resolve(),
        view.propped(name, data).names.contains_key(name),
        view.propped(name, data).names[name] == view.name_offset(name),
{
    reveal(FdtView::propped);
    let after = view.propped(name, data);
    assert forall|other: Seq<u8>| #[trigger] after.names.contains_key(other) implies ({
        let off = after.names[other] as int;
        &&& off + other.len() < after.strings.len()
        &&& after.strings.subrange(off, off + other.len() + 1) == other.push(0)
    }) by {
        let off = after.names[other] as int;
        if view.names.contains_key(other) {
            assert(after.strings.subrange(off, off + other.len() + 1) =~= view.strings.subrange(
                off,
                off + other.len() + 1,
            ));
        } else {
            assert(after.strings.subrange(off, off + other.len() + 1) =~= other.push(0));
        }
    }
}

/// The header of a blob says where its blocks are: the total size, the
/// structure block and the strings block are the ones that follow.
pub proof fn law_header_describes_blob(view: FdtView)
    requires
        view.finished().len() <= u32::MAX,
    ensures
        ({
            let out = view.finished();
            let structure = crate::bytes::be_value(out.subrange(8, 12)) as int;
            let strings = crate::bytes::be_value(out.subrange(12, 16)) as int;
            &&& crate::bytes::be_value(out.subrange(0, 4)) == 0xd00d_feed
            &&& crate::bytes::be_value(out.subrange(4, 8)) == out.len()
            &&& out.subrange(structure, strings) == view.structure + be_bytes(FDT_END as nat, 4)
            &&& out.subrange(strings, out.len() as int) == view.strings
        }),
{
    reveal(FdtView::finished);
    let structure = view.structure + be_bytes(FDT_END as nat, 4);
    let off_strings = (56 + structure.len()) as nat;
    let total = off_strings + view.strings.len();
    assert forall|v: nat| #[trigger] be_bytes(v, 4).len() == 4 by {
        crate::bytes::lemma_be_bytes_len(v, 4);
    }
    crate::bytes::lemma_byte_spans();
    let out = view.finished();
    assert(out.len() == total);
    assert(out.subrange(0, 4) =~= be_bytes(0xd00d_feed, 4));
    assert(out.subrange(4, 8) =~= be_bytes(total, 4));
    assert(out.subrange(8, 12) =~= be_bytes(56, 4));
    assert(out.subrange(12, 16) =~= be_bytes(off_strings, 4));
    crate::bytes::lemma_be_round_trip(0xd00d_feed, 4);
    crate::bytes::lemma_be_round_trip(total, 4);
    crate::bytes::lemma_be_round_trip(56, 4);
    crate::bytes::lemma_be_round_trip(off_strings, 4);
    assert(out.subrange(56, off_strings as int) =~= structure);
    assert(out.subrange(off_strings as int, out.len() as int) =~= view.strings);
}

/// Where each of `names` stands, by name.
spec fn name_map(names: Seq<(Vec<u8>, u32)>) -> Map<Seq<u8>, u32>
    decreases names.len(),
{
    if names.len() == 0 {
        Map::empty()
    } else {
        name_map(names.drop_last()).insert(names.last().0@, names.last().1)
    }
}

proof fn lemma_name_map(names: Seq<(Vec<u8>, u32)>, name: Seq<u8>)
    ensures
        name_map(names).contains_key(name) <==> exists|k: int|
            0 <= k < names.len() && #[trigger] names[k].0@ == name,
    decreases names.len(),
{
    if names.len() > 0 {
        let rest = names.drop_last();
        lemma_name_map(rest, name);
        if name_map(rest).contains_key(name) {
            let k = choose|k: int| 0 <= k < rest.len() && #[trigger] rest[k].0@ == name;
            assert(names[k].0@ == name);
        }
        if exists|k: int| 0 <= k < names.len() && #[trigger] names[k].0@ == name {
            let k = choose|k: int| 0 <= k < names.len() && #[trigger] names[k].0@ == name;
            if k < rest.len() {
                assert(rest[k].0@ == name);
            }
        }
    }
}

proof fn lemma_name_found(names: Seq<(Vec<u8>, u32)>, k: int)
    requires
        0 <= k < names.len(),
        forall|i: int, j: int|
            0 <= i < j < names.len() ==> #[trigger] names[i].0@ != #[trigger] names[j].0@,
    ensures
        name_map(names).contains_key(names[k].0@),
        name_map(names)[names[k].0@] == names[k].1,
    decreases names.len(),
{
    let rest = names.drop_last();
    if k < rest.len() {
        assert(rest[k] == names[k]);
        assert forall|i: int, j: int| 0 <= i < j < rest.len() implies #[trigger] rest[i].0@
            != #[trigger] rest[j].0@ by {
            assert(names[i].0@ != names[j].0@);
        }
        lemma_name_found(rest, k);
        assert(names[k].0@ != names[names.len() - 1].0@);
    }
}

/// Header words hold sizes modulo their width.
proof fn lemma_header_words(structure: nat, strings: nat)
    ensures
        ({
            let a = structure % 0x1_0000_0000;
            let b = strings % 0x1_0000_0000;
            &&& be_bytes(a, 4) == be_bytes(structure, 4)
            &&& be_bytes(b, 4) == be_bytes(strings, 4)
            &&& be_bytes(56 + a, 4) == be_bytes(56 + structure, 4)
            &&& be_bytes(56 + a + b, 4) == be_bytes(56 + structure + strings, 4)
        }),
{
    let a = structure % 0x1_0000_0000;
    let b = strings % 0x1_0000_0000;
    lemma_words_congruent(a, structure);
    lemma_words_congruent(b, strings);
    lemma_words_congruent(56 + a, 56 + structure);
    lemma_words_congruent(56 + a + b, 56 + structure + strings);
}

proof fn lemma_words_congruent(v: nat, w: nat)
    requires
        v % 0x1_0000_0000 == w % 0x1_0000_0000,
    ensures
        be_bytes(v, 4) == be_bytes(w, 4),
{
    crate::bytes::lemma_be_bytes_low(v);
    crate::bytes::lemma_be_bytes_low(w);
}

impl View for Fdt {
    type V = FdtView;

    closed spec fn view(&self) -> FdtView {
        FdtView {
            structure: self.structure@,
            strings: self.strings@,
            names: name_map(self.names@),
        }
    }
}

impl Default for Fdt {
    fn default() -> (f: Self)
        ensures
            f.wf(),
            f@ == FdtView::empty(),
    {
        Self::new()
    }
}

fn same_bytes(a: &[u8], b: &[u8]) -> (same: bool)
    ensures
        same == (a@ == b@),
{
    if a.len() != b.len() {
        return false;
    }
    let mut i: usize = 0;
    while i < a.len()
        invariant
            i <= a@.len(),
            a@.len() == b@.len(),
            forall|k: int| 0 <= k < i ==> a@[k] == b@[k],
        decreases a@.len() - i,
    {
        if a[i] != b[i] {
            return false;
        }
        i = i + 1;
    }
    assert(a@ =~= b@);
    true
}

impl Fdt {
    /// Every property name is listed once.
    pub closed spec fn wf(&self) -> bool {
        forall|i: int, j: int|
            0 <= i < j < self.names@.len() ==> #[trigger] self.names@[i].0@
                != #[trigger] self.names@[j].0@
    }

    /// A tree with nothing in it.
    pub fn new() -> (f: Fdt)
        ensures
            f.wf(),
            f@ == FdtView::empty(),
    {
        Fdt { structure: Vec::new(), strings: Vec::new(), names: Vec::new() }
    }

    fn pad(&mut self)
        requires
            old(self).wf(),
        ensures
            final(self).wf(),
            final(self)@ == (FdtView { structure: padded(old(self)@.structure), ..old(self)@ }),
    {
        let over: usize = self.structure.len() % 4;
        push_zeros(&mut self.structure, (4 - over) % 4);
    }

    /// Make sure that `name` is among the strings, and say where.
    fn name_offset(&mut self, name: &[u8]) -> (off: u32)
        requires
            old(self).wf(),
        ensures
            final(self).wf(),
            off == old(self)@.name_offset(name@),
            final(self)@ == old(self)@.named(name@),
    {
        let mut i: usize = 0;
        while i < self.names.len()
            invariant
                i <= self.names@.len(),
                self.wf(),
                *self == *old(self),
                forall|k: int| 0 <= k < i ==> #[trigger] self.names@[k].0@ != name@,
            decreases self.names@.len() - i,
        {
            let found = same_bytes(self.names[i].0.as_slice(), name);
            if found {
                proof {
                    lemma_name_found(self.names@, i as int);
                }
                return self.names[i].1;
            }
            i = i + 1;
        }
        proof {
            lemma_name_map(self.names@, name@);
        }
        let off: u32 = (self.strings.len() as u64 % 0x1_0000_0000) as u32;
        push_all(&mut self.strings, name);
        self.strings.push(0);
        let copy: Vec<u8> = vstd::slice::slice_to_vec(name);
        self.names.push((copy, off));
        assert(self.names@.drop_last() =~= old(self).names@);
        assert(self.strings@ =~= old(self).strings@ + name@.push(0));
        off
    }

    /// Open a node.
    pub fn begin_node(&mut self, name: &str)
        requires
            old(self).wf(),
        ensures
            final(self).wf(),
            final(self)@ == old(self)@.begun(name.spec_bytes()),
    {
        self.begin_node_bytes(name.as_bytes());
    }

    /// Open a node whose name is spelled by bytes.
    pub fn begin_node_bytes(&mut self, name: &[u8])
        requires
            old(self).wf(),
        ensures
            final(self).wf(),
            final(self)@ == old(self)@.begun(name@),
    {
        proof {
            reveal(FdtView::begun);
        }
        push_be(&mut self.structure, FDT_BEGIN_NODE as u64, 4);
        push_all(&mut self.structure, name);
        self.structure.push(0);
        assert(self.structure@ =~= old(self).structure@ + be_bytes(FDT_BEGIN_NODE as nat, 4)
            + name@.push(0));
        self.pad();
    }

    /// Close the innermost open node.
    pub fn end_node(&mut self)
        requires
            old(self).wf(),
        ensures
            final(self).wf(),
            final(self)@ == old(self)@.ended(),
    {
        proof {
            reveal(FdtView::ended);
        }
        push_be(&mut self.structure, FDT_END_NODE as u64, 4);
    }

    /// Add a property to the innermost open node.
    pub fn prop(&mut self, name: &str, data: &[u8])
        requires
            old(self).wf(),
        ensures
            final(self).wf(),
            final(self)@ == old(self)@.propped(name.spec_bytes(), data@),
    {
        proof {
            reveal(FdtView::propped);
        }
        let off: u32 = self.name_offset(name.as_bytes());
        push_be(&mut self.structure, FDT_PROP as u64, 4);
        push_be(&mut self.structure, data.len() as u64, 4);
        push_be(&mut self.structure, off as u64, 4);
        push_all(&mut self.structure, data);
        self.pad();
    }

    /// Add a property of one 32-bit cell.
    pub fn prop_u32(&mut self, name: &str, v: u32)
        requires
            old(self).wf(),
        ensures
            final(self).wf(),
            final(self)@ == old(self)@.propped(name.spec_bytes(), be_bytes(v as nat, 4)),
    {
        let mut data: Vec<u8> = Vec::new();
        push_be(&mut data, v as u64, 4);
        assert(data@ =~= be_bytes(v as nat, 4));
        self.prop(name, data.as_slice());
    }

    /// Add a property of 32-bit cells.
    pub fn prop_u32s(&mut self, name: &str, vs: &[u32])
        requires
            old(self).wf(),
        ensures
            final(self).wf(),
            final(self)@ == old(self)@.propped(
                name.spec_bytes(),
                cells_data(vs@, vs@.len() as int),
            ),
    {
        let mut data: Vec<u8> = Vec::new();
        let mut i: usize = 0;
        while i < vs.len()
            invariant
                i <= vs@.len(),
                data@ == cells_data(vs@, i as int),
            decreases vs@.len() - i,
        {
            push_be(&mut data, vs[i] as u64, 4);
            i = i + 1;
        }
        self.prop(name, data.as_slice());
    }

    /// Add a property of two 64-bit values.
    pub fn prop_u64_pair(&mut self, name: &str, a: u64, b: u64)
        requires
            old(self).wf(),
        ensures
            final(self).wf(),
            final(self)@ == old(self)@.propped(name.spec_bytes(), pair_data(a, b)),
    {
        let mut data: Vec<u8> = Vec::new();
        push_be(&mut data, a, 8);
        push_be(&mut data, b, 8);
        assert(data@ =~= pair_data(a, b));
        self.prop(name, data.as_slice());
    }

    /// Add a string property.
    pub fn prop_str(&mut self, name: &str, s: &str)
        requires
            old(self).wf(),
        ensures
            final(self).wf(),
            final(self)@ == old(self)@.propped(name.spec_bytes(), str_data(s)),
    {
        let mut data: Vec<u8> = Vec::new();
        push_all(&mut data, s.as_bytes());
        data.push(0);
        assert(data@ =~= str_data(s));
        self.prop(name, data.as_slice());
    }

    /// Add a string-list property.
    pub fn prop_strs(&mut self, name: &str, ss: &[&str])
        requires
            old(self).wf(),
        ensures
            final(self).wf(),
            final(self)@ == old(self)@.propped(
                name.spec_bytes(),
                strs_data(ss@, ss@.len() as int),
            ),
    {
        let mut data: Vec<u8> = Vec::new();
        let mut i: usize = 0;
        while i < ss.len()
            invariant
                i <= ss@.len(),
                data@ == strs_data(ss@, i as int),
            decreases ss@.len() - i,
        {
            let ghost before = data@;
            push_all(&mut data, ss[i].as_bytes());
            data.push(0);
            i = i + 1;
            assert(data@ =~= before + str_data(ss@[i - 1]));
        }
        self.prop(name, data.as_slice());
    }

    /// The finished blob.
    pub fn finish(self) -> (out: Vec<u8>)
        requires
            self.wf(),
        ensures
            out@ == self@.finished(),
    {
        proof {
            reveal(FdtView::finished);
        }
        let mut structure: Vec<u8> = self.structure;
        push_be(&mut structure, FDT_END as u64, 4);
        // Sizes count modulo the width of a header word.
        let structure_len: u64 = structure.len() as u64 % 0x1_0000_0000;
        let strings_len: u64 = self.strings.len() as u64 % 0x1_0000_0000;
        let off_struct: u64 = 56;
        let off_strings: u64 = off_struct + structure_len;
        let total: u64 = off_strings + strings_len;
        let mut out: Vec<u8> = Vec::new();
        proof {
            lemma_header_words(structure@.len(), self.strings@.len());
        }
        push_be(&mut out, 0xd00d_feed, 4);
        assert(out@ =~= be_bytes(0xd00d_feed, 4));
        push_be(&mut out, total, 4);
        push_be(&mut out, off_struct, 4);
        push_be(&mut out, off_strings, 4);
        push_be(&mut out, 40, 4);  // off_mem_rsvmap
        push_be(&mut out, 17, 4);  // version
        push_be(&mut out, 16, 4);  // last_comp_version
        push_be(&mut out, 0, 4);  // boot_cpuid
        push_be(&mut out, strings_len, 4);
        push_be(&mut out, structure_len, 4);
        push_zeros(&mut out, 16);  // empty reserve map
        push_all(&mut out, structure.as_slice());
        push_all(&mut out, self.strings.as_slice());
        out
    }
}

} // verus!
