//! An in-memory filesystem tree, one of the backends of the 9P server.
//!
//! It is portable (it is the only backend that compiles for wasm, where there
//! is no host filesystem) and deterministic. It can be populated
//! programmatically or from a tar archive, which is how a browser guest gets a
//! root filesystem.

use vstd::prelude::*;
use vstd::utf8::encode_utf8;
use crate::bytes::{push_zeros, spliced, write_at};
use crate::text::{
    chars_of, is_text, lossy_text, piece, pieces_from, same, split_at_char, string_of, text_of,
    texts,
};

verus! {

pub const S_IFMT: u32 = 0o170000;

pub const S_IFDIR: u32 = 0o040000;

pub const S_IFREG: u32 = 0o100000;

pub const S_IFLNK: u32 = 0o120000;

pub const ENOENT: i32 = 2;

pub const EEXIST: i32 = 17;

pub const ENOTDIR: i32 = 20;

pub const EISDIR: i32 = 21;

pub const EINVAL: i32 = 22;

pub const ENOTEMPTY: i32 = 39;

pub const O_TRUNC: u32 = 0o1000;

// ---- directories ---------------------------------------------------------

/// The entries of a directory: names and nodes, in the order of the names.
pub type Entries = Seq<(Seq<char>, int)>;

/// Whether name `a` comes before name `b`.
pub open spec fn before(a: Seq<char>, b: Seq<char>) -> bool
    decreases a.len(),
{
    if b.len() == 0 {
        false
    } else if a.len() == 0 {
        true
    } else if a[0] != b[0] {
        a[0] < b[0]
    } else {
        before(a.drop_first(), b.drop_first())
    }
}

/// The node of a name.
pub open spec fn entry(e: Entries, name: Seq<char>) -> Option<int>
    decreases e.len(),
{
    if e.len() == 0 {
        None
    } else if e[0].0 == name {
        Some(e[0].1)
    } else {
        entry(e.drop_first(), name)
    }
}

/// The entries with `name` leading to `node`.
pub open spec fn with_entry(e: Entries, name: Seq<char>, node: int) -> Entries
    decreases e.len(),
{
    if e.len() == 0 {
        seq![(name, node)]
    } else if before(e[0].0, name) {
        seq![e[0]] + with_entry(e.drop_first(), name, node)
    } else if e[0].0 == name {
        seq![(name, node)] + e.drop_first()
    } else {
        seq![(name, node)] + e
    }
}

/// The entries without `name`.
pub open spec fn without_entry(e: Entries, name: Seq<char>) -> Entries
    decreases e.len(),
{
    if e.len() == 0 {
        e
    } else if e[0].0 == name {
        e.drop_first()
    } else {
        seq![e[0]] + without_entry(e.drop_first(), name)
    }
}

/// Each name comes before the next.
pub open spec fn in_order(e: Entries) -> bool {
    forall|i: int, j: int|
        0 <= i < j < e.len() ==> before(#[trigger] e[i].0, #[trigger] e[j].0)
}

proof fn lemma_before(a: Seq<char>, b: Seq<char>)
    ensures
        before(a, b) ==> a != b && !before(b, a),
        !before(a, b) && !before(b, a) ==> a == b,
    decreases a.len(),
{
    if a.len() > 0 && b.len() > 0 && a[0] == b[0] {
        lemma_before(a.drop_first(), b.drop_first());
        if a.drop_first() == b.drop_first() {
            assert(a =~= seq![a[0]] + a.drop_first());
            assert(b =~= seq![b[0]] + b.drop_first());
        }
        if a == b {
            assert(a.drop_first() == b.drop_first());
        }
    } else if a.len() == 0 && b.len() == 0 {
        assert(a =~= b);
    }
}

proof fn lemma_before_transitive(a: Seq<char>, b: Seq<char>, c: Seq<char>)
    requires
        before(a, b),
        before(b, c),
    ensures
        before(a, c),
    decreases a.len(),
{
    if a.len() > 0 && b.len() > 0 && c.len() > 0 && a[0] == b[0] && b[0] == c[0] {
        lemma_before_transitive(a.drop_first(), b.drop_first(), c.drop_first());
    }
}

proof fn lemma_in_order_rest(e: Entries)
    requires
        in_order(e),
        e.len() > 0,
    ensures
        in_order(e.drop_first()),
        forall|i: int|
            0 <= i < e.drop_first().len() ==> before(e[0].0, #[trigger] e.drop_first()[i].0),
{
    let r = e.drop_first();
    assert forall|i: int, j: int| 0 <= i < j < r.len() implies before(
        #[trigger] r[i].0,
        #[trigger] r[j].0,
    ) by {
        assert(before(e[i + 1].0, e[j + 1].0));
    }
    assert forall|i: int| 0 <= i < r.len() implies before(e[0].0, #[trigger] r[i].0) by {
        assert(before(e[0].0, e[i + 1].0));
    }
}

proof fn lemma_in_order_join(head: (Seq<char>, int), rest: Entries)
    requires
        in_order(rest),
        forall|i: int| 0 <= i < rest.len() ==> before(head.0, #[trigger] rest[i].0),
    ensures
        in_order(seq![head] + rest),
{
    let e = seq![head] + rest;
    assert forall|i: int, j: int| 0 <= i < j < e.len() implies before(
        #[trigger] e[i].0,
        #[trigger] e[j].0,
    ) by {
        assert(e[j] == rest[j - 1]);
        if i > 0 {
            assert(e[i] == rest[i - 1]);
        }
    }
}

/// Every name of `e` that `with_entry` or `without_entry` keeps was there, or
/// is the one that was entered.
proof fn lemma_entries_kept(e: Entries, name: Seq<char>, node: int, low: Seq<char>)
    requires
        forall|i: int| 0 <= i < e.len() ==> before(low, #[trigger] e[i].0),
    ensures
        before(low, name) ==> forall|i: int|
            0 <= i < with_entry(e, name, node).len() ==> before(
                low,
                #[trigger] with_entry(e, name, node)[i].0,
            ),
        forall|i: int|
            0 <= i < without_entry(e, name).len() ==> before(
                low,
                #[trigger] without_entry(e, name)[i].0,
            ),
    decreases e.len(),
{
    if e.len() > 0 {
        let r = e.drop_first();
        assert forall|i: int| 0 <= i < r.len() implies before(low, #[trigger] r[i].0) by {
            assert(before(low, e[i + 1].0));
        }
        lemma_entries_kept(r, name, node, low);
        let w = with_entry(e, name, node);
        let o = without_entry(e, name);
        assert(before(low, e[0].0));
        if before(low, name) {
            assert forall|i: int| 0 <= i < w.len() implies before(low, #[trigger] w[i].0) by {
                if before(e[0].0, name) {
                    if i > 0 {
                        assert(w[i] == with_entry(r, name, node)[i - 1]);
                    }
                } else if e[0].0 == name {
                    if i > 0 {
                        assert(w[i] == r[i - 1]);
                    }
                } else if i > 0 {
                    assert(w[i] == e[i - 1]);
                }
            }
        }
        assert forall|i: int| 0 <= i < o.len() implies before(low, #[trigger] o[i].0) by {
            if e[0].0 == name {
                assert(o[i] == r[i]);
            } else if i > 0 {
                assert(o[i] == without_entry(r, name)[i - 1]);
            }
        }
    }
}

/// A directory stays in order, whatever is entered and removed.
pub proof fn law_directory_stays_in_order(e: Entries, name: Seq<char>, node: int)
    requires
        in_order(e),
    ensures
        in_order(with_entry(e, name, node)),
        in_order(without_entry(e, name)),
    decreases e.len(),
{
    if e.len() > 0 {
        lemma_in_order_rest(e);
        let r = e.drop_first();
        law_directory_stays_in_order(r, name, node);
        lemma_before(e[0].0, name);
        if before(e[0].0, name) {
            lemma_entries_kept(r, name, node, e[0].0);
            lemma_in_order_join(e[0], with_entry(r, name, node));
        } else if e[0].0 == name {
            lemma_in_order_join((name, node), r);
        } else {
            assert forall|i: int| 0 <= i < e.len() implies before(name, #[trigger] e[i].0) by {
                if i > 0 {
                    assert(before(e[0].0, e[i].0));
                    lemma_before_transitive(name, e[0].0, e[i].0);
                }
            }
            lemma_in_order_join((name, node), e);
        }
        if e[0].0 != name {
            lemma_entries_kept(r, name, node, e[0].0);
            lemma_in_order_join(e[0], without_entry(r, name));
        }
    }
}

proof fn lemma_not_entered(e: Entries, name: Seq<char>)
    requires
        forall|i: int| 0 <= i < e.len() ==> before(name, #[trigger] e[i].0),
    ensures
        entry(e, name) is None,
    decreases e.len(),
{
    if e.len() > 0 {
        lemma_before(name, e[0].0);
        assert forall|i: int| 0 <= i < e.drop_first().len() implies before(
            name,
            #[trigger] e.drop_first()[i].0,
        ) by {
            assert(before(name, e[i + 1].0));
        }
        lemma_not_entered(e.drop_first(), name);
    }
}

/// A name that was entered leads to its node, a name that was removed leads
/// nowhere, and every other name leads where it did.
pub proof fn law_directory_reads_back(e: Entries, name: Seq<char>, node: int, other: Seq<char>)
    requires
        in_order(e),
    ensures
        entry(with_entry(e, name, node), other) == if other == name {
            Some(node)
        } else {
            entry(e, other)
        },
        entry(without_entry(e, name), other) == if other == name {
            None
        } else {
            entry(e, other)
        },
    decreases e.len(),
{
    if e.len() == 0 {
        let w = with_entry(e, name, node);
        assert(w.drop_first() =~= e);
    } else {
        lemma_in_order_rest(e);
        let r = e.drop_first();
        law_directory_reads_back(r, name, node, other);
        lemma_before(e[0].0, name);
        let w = with_entry(e, name, node);
        let o = without_entry(e, name);
        if before(e[0].0, name) {
            assert(w.drop_first() =~= with_entry(r, name, node));
        } else if e[0].0 == name {
            assert(w.drop_first() =~= r);
        } else {
            assert(w.drop_first() =~= e);
        }
        if e[0].0 == name {
            lemma_not_entered(r, name);
        } else {
            assert(o.drop_first() =~= without_entry(r, name));
        }
    }
}

/// The directory of a [`MemFs`]: entries in the order of their names.
struct Directory {
    entries: Vec<(Vec<char>, usize)>,
}

spec fn entries_view(v: Seq<(Vec<char>, usize)>) -> Entries {
    v.map_values(|e: (Vec<char>, usize)| (e.0@, e.1 as int))
}

impl View for Directory {
    type V = Entries;

    closed spec fn view(&self) -> Entries {
        entries_view(self.entries@)
    }
}

fn comes_before(a: &[char], b: &[char]) -> (r: bool)
    ensures
        r == before(a@, b@),
{
    let mut i: usize = 0;
    assert(a@.subrange(0, a@.len() as int) =~= a@);
    assert(b@.subrange(0, b@.len() as int) =~= b@);
    loop
        invariant
            i <= a@.len(),
            i <= b@.len(),
            before(a@, b@) == before(
                a@.subrange(i as int, a@.len() as int),
                b@.subrange(i as int, b@.len() as int),
            ),
        decreases a@.len() - i,
    {
        if i == b.len() {
            return false;
        }
        if i == a.len() {
            return true;
        }
        if a[i] != b[i] {
            return a[i] < b[i];
        }
        proof {
            let x = a@.subrange(i as int, a@.len() as int);
            let y = b@.subrange(i as int, b@.len() as int);
            assert(x.drop_first() =~= a@.subrange(i + 1, a@.len() as int));
            assert(y.drop_first() =~= b@.subrange(i + 1, b@.len() as int));
        }
        i = i + 1;
    }
}

proof fn lemma_entry_skip(e: Entries, name: Seq<char>, i: int)
    requires
        0 <= i <= e.len(),
        forall|k: int| 0 <= k < i ==> (#[trigger] e[k]).0 != name,
    ensures
        entry(e, name) == entry(e.subrange(i, e.len() as int), name),
        without_entry(e, name) == e.subrange(0, i) + without_entry(
            e.subrange(i, e.len() as int),
            name,
        ),
    decreases i,
{
    if i == 0 {
        assert(e.subrange(0, e.len() as int) =~= e);
        assert(e.subrange(0, 0) + without_entry(e, name) =~= without_entry(e, name));
    } else {
        let r = e.drop_first();
        assert(e[0].0 != name);
        assert forall|k: int| 0 <= k < i - 1 implies (#[trigger] r[k]).0 != name by {
            assert(e[k + 1].0 != name);
        }
        lemma_entry_skip(r, name, i - 1);
        assert(r.subrange(i - 1, r.len() as int) =~= e.subrange(i, e.len() as int));
        let tail = without_entry(e.subrange(i, e.len() as int), name);
        assert(seq![e[0]] + (r.subrange(0, i - 1) + tail) =~= e.subrange(0, i) + tail);
    }
}

proof fn lemma_with_entry_skip(e: Entries, name: Seq<char>, node: int, i: int)
    requires
        0 <= i <= e.len(),
        forall|k: int| 0 <= k < i ==> before((#[trigger] e[k]).0, name),
    ensures
        with_entry(e, name, node) == e.subrange(0, i) + with_entry(
            e.subrange(i, e.len() as int),
            name,
            node,
        ),
    decreases i,
{
    if i == 0 {
        assert(e.subrange(0, e.len() as int) =~= e);
        assert(e.subrange(0, 0) + with_entry(e, name, node) =~= with_entry(e, name, node));
    } else {
        let r = e.drop_first();
        assert(before(e[0].0, name));
        assert forall|k: int| 0 <= k < i - 1 implies before((#[trigger] r[k]).0, name) by {
            assert(before(e[k + 1].0, name));
        }
        lemma_with_entry_skip(r, name, node, i - 1);
        assert(r.subrange(i - 1, r.len() as int) =~= e.subrange(i, e.len() as int));
        let tail = with_entry(e.subrange(i, e.len() as int), name, node);
        assert(seq![e[0]] + (r.subrange(0, i - 1) + tail) =~= e.subrange(0, i) + tail);
    }
}

impl Directory {
    fn new() -> (d: Directory)
        ensures
            d@ == Seq::<(Seq<char>, int)>::empty(),
    {
        let d = Directory { entries: Vec::new() };
        assert(d@ =~= Seq::empty());
        d
    }

    fn find(&self, name: &[char]) -> (at: Option<usize>)
        ensures
            match at {
                Some(i) => i < self@.len() && self@[i as int].0 == name@ && forall|k: int|
                    0 <= k < i ==> (#[trigger] self@[k]).0 != name@,
                None => forall|k: int| 0 <= k < self@.len() ==> (#[trigger] self@[k]).0 != name@,
            },
    {
        let mut i: usize = 0;
        while i < self.entries.len()
            invariant
                i <= self.entries@.len(),
                forall|k: int| 0 <= k < i ==> (#[trigger] self@[k]).0 != name@,
            decreases self.entries@.len() - i,
        {
            assert(self@[i as int] == (self.entries@[i as int].0@, self.entries@[i as int].1 as int));
            if same(self.entries[i].0.as_slice(), name) {
                return Some(i);
            }
            i = i + 1;
        }
        None
    }

    fn get(&self, name: &[char]) -> (node: Option<usize>)
        ensures
            match (node, entry(self@, name@)) {
                (Some(a), Some(b)) => a == b,
                (None, None) => true,
                _ => false,
            },
    {
        match self.find(name) {
            Some(i) => {
                proof {
                    lemma_entry_skip(self@, name@, i as int);
                    let rest = self@.subrange(i as int, self@.len() as int);
                    assert(rest[0] == self@[i as int]);
                }
                Some(self.entries[i].1)
            },
            None => {
                proof {
                    lemma_entry_skip(self@, name@, self@.len() as int);
                }
                None
            },
        }
    }

    fn put(&mut self, name: &[char], node: usize)
        ensures
            final(self)@ == with_entry(old(self)@, name@, node as int),
    {
        let mut i: usize = 0;
        while i < self.entries.len() && comes_before(self.entries[i].0.as_slice(), name)
            invariant
                i <= self.entries@.len(),
                *self == *old(self),
                forall|k: int| 0 <= k < i ==> before((#[trigger] self@[k]).0, name@),
            decreases self.entries@.len() - i,
        {
            assert(self@[i as int] == (self.entries@[i as int].0@, self.entries@[i as int].1 as int));
            i = i + 1;
        }
        let ghost e = self@;
        let ghost rest = e.subrange(i as int, e.len() as int);
        proof {
            lemma_with_entry_skip(e, name@, node as int, i as int);
        }
        let copy: Vec<char> = vstd::slice::slice_to_vec(name);
        if i < self.entries.len() {
            assert(e[i as int] == (self.entries@[i as int].0@, self.entries@[i as int].1 as int));
            assert(rest[0] == e[i as int]);
            if same(self.entries[i].0.as_slice(), name) {
                self.entries.set(i, (copy, node));
                proof {
                    lemma_before(e[i as int].0, name@);
                    assert(self@ =~= e.subrange(0, i as int) + (seq![(name@, node as int)]
                        + rest.drop_first()));
                }
                return ;
            }
        }
        self.entries.insert(i, (copy, node));
        proof {
            if rest.len() == 0 {
                assert(self@ =~= e.subrange(0, i as int) + seq![(name@, node as int)]);
            } else {
                assert(self@ =~= e.subrange(0, i as int) + (seq![(name@, node as int)] + rest));
            }
        }
    }

    fn remove(&mut self, name: &[char])
        ensures
            final(self)@ == without_entry(old(self)@, name@),
    {
        let ghost e = self@;
        match self.find(name) {
            Some(i) => {
                self.entries.remove(i);
                proof {
                    lemma_entry_skip(e, name@, i as int);
                    let rest = e.subrange(i as int, e.len() as int);
                    assert(rest[0] == e[i as int]);
                    assert(self@ =~= e.subrange(0, i as int) + rest.drop_first());
                }
            },
            None => {
                proof {
                    lemma_entry_skip(e, name@, e.len() as int);
                    assert(e.subrange(0, e.len() as int) + Seq::<(Seq<char>, int)>::empty() =~= e);
                }
            },
        }
    }
}

// ---- paths ---------------------------------------------------------------

/// Whether a part of a path names anything.
pub open spec fn is_component(part: Seq<char>) -> bool {
    part.len() > 0 && part != "."@
}

/// The components among the first `n` parts.
pub open spec fn components_of(parts: Seq<Seq<char>>, n: int) -> Seq<Seq<char>>
    decreases n,
{
    if n <= 0 {
        Seq::empty()
    } else if is_component(parts[n - 1]) {
        components_of(parts, n - 1).push(parts[n - 1])
    } else {
        components_of(parts, n - 1)
    }
}

/// Non-empty path components, accepting both `/a/b` and `a/b`.
pub open spec fn components(path: Seq<char>) -> Seq<Seq<char>> {
    components_of(pieces_from(path, '/', 0), pieces_from(path, '/', 0).len() as int)
}

fn split_path(path: &[char]) -> (r: Vec<Vec<char>>)
    ensures
        texts(r@) == components(path@),
{
    let parts: Vec<Vec<char>> = split_at_char(path, '/');
    let ghost views = texts(parts@);
    let mut r: Vec<Vec<char>> = Vec::new();
    let mut i: usize = 0;
    assert(texts(r@) =~= Seq::empty());
    while i < parts.len()
        invariant
            i <= parts@.len(),
            views == texts(parts@),
            texts(r@) == components_of(views, i as int),
        decreases parts@.len() - i,
    {
        assert(views[i as int] == parts@[i as int]@);
        if parts[i].len() > 0 && !is_text(parts[i].as_slice(), ".") {
            let ghost so_far = texts(r@);
            let part: Vec<char> = piece(parts[i].as_slice(), 0, parts[i].len());
            assert(part@ =~= views[i as int]);
            r.push(part);
            assert(texts(r@) =~= so_far.push(part@));
        }
        i = i + 1;
    }
    r
}

// ---- the tree ------------------------------------------------------------

enum Body {
    /// name -> node index
    Dir(Directory),
    File(Vec<u8>),
    Link(Vec<char>),
    /// Device or fifo: metadata only.
    Special(u64),
    /// Removed. Nodes are tombstoned rather than compacted so that inode
    /// numbers (which the client caches in qids) are never reused.
    Freed,
}

/// What a node holds.
pub enum BodyView {
    Dir(Entries),
    File(Seq<u8>),
    Link(Seq<char>),
    Special(u64),
    Freed,
}

struct Node {
    body: Body,
    mode: u32,
    uid: u32,
    gid: u32,
    atime: (u64, u64),
    mtime: (u64, u64),
    ctime: (u64, u64),
}

/// A node of the tree.
#[verifier::ext_equal]
pub struct NodeView {
    pub body: BodyView,
    pub mode: u32,
    pub uid: u32,
    pub gid: u32,
    pub atime: (u64, u64),
    pub mtime: (u64, u64),
    pub ctime: (u64, u64),
}

/// An in-memory filesystem tree.
pub struct MemFs {
    /// Node 0 is the root; a node's inode number is its index + 1.
    nodes: Vec<Node>,
    /// Reported by statfs as the total size, so a guest sees a finite volume.
    capacity: u64,
}

/// The state of a [`MemFs`].
#[verifier::ext_equal]
pub struct FsView {
    pub nodes: Seq<NodeView>,
    pub capacity: u64,
}

impl View for Body {
    type V = BodyView;

    closed spec fn view(&self) -> BodyView {
        match *self {
            Body::Dir(d) => BodyView::Dir(d@),
            Body::File(d) => BodyView::File(d@),
            Body::Link(t) => BodyView::Link(t@),
            Body::Special(rdev) => BodyView::Special(rdev),
            Body::Freed => BodyView::Freed,
        }
    }
}

impl View for Node {
    type V = NodeView;

    closed spec fn view(&self) -> NodeView {
        NodeView {
            body: self.body@,
            mode: self.mode,
            uid: self.uid,
            gid: self.gid,
            atime: self.atime,
            mtime: self.mtime,
            ctime: self.ctime,
        }
    }
}

spec fn node_views(nodes: Seq<Node>) -> Seq<NodeView> {
    nodes.map_values(|n: Node| n@)
}

impl View for MemFs {
    type V = FsView;

    closed spec fn view(&self) -> FsView {
        FsView { nodes: node_views(self.nodes@), capacity: self.capacity }
    }
}

/// Attributes of a node, as the guest sees them.
#[derive(Debug, Clone, Copy, PartialEq, Eq)]
pub struct Attr {
    /// Inode number, never reused.
    pub ino: u64,
    pub mode: u32,
    pub uid: u32,
    pub gid: u32,
    pub nlink: u64,
    pub rdev: u64,
    pub size: u64,
    pub blksize: u64,
    pub blocks: u64,
    pub atime: (u64, u64),
    pub mtime: (u64, u64),
    pub ctime: (u64, u64),
}

/// The volume, as the guest sees it.
#[derive(Debug, Clone, Copy, PartialEq, Eq, Structural)]
pub struct StatFs {
    pub bsize: u32,
    pub blocks: u64,
    pub bfree: u64,
    pub bavail: u64,
    pub files: u64,
    pub ffree: u64,
}

/// One entry of a directory listing.
#[derive(Debug, Clone, PartialEq, Eq)]
pub struct DirEntry {
    pub name: String,
    pub ino: u64,
    pub mode: u32,
}

/// A node with nothing but a body and a mode.
pub open spec fn fresh_node(body: BodyView, mode: u32) -> NodeView {
    NodeView { body, mode, uid: 0, gid: 0, atime: (0, 0), mtime: (0, 0), ctime: (0, 0) }
}

/// `kind` with the permission bits of `mode`.
pub open spec fn moded(kind: u32, mode: u32) -> u32 {
    (kind + mode % 0o10000) as u32
}

/// The file type in a mode.
pub open spec fn file_type(mode: u32) -> u32 {
    (mode / 0o10000 % 16 * 0o10000) as u32
}

impl FsView {
    /// There is a root, every directory is in order, and its entries lead to
    /// nodes.
    pub open spec fn wf(self) -> bool {
        &&& self.nodes.len() > 0
        &&& forall|i: int|
            0 <= i < self.nodes.len() ==> body_wf(
                (#[trigger] self.nodes[i]).body,
                self.nodes.len() as int,
            )
    }

    /// The node that `name` leads to from `dir`.
    pub open spec fn child(self, dir: int, name: Seq<char>) -> Option<int> {
        match self.nodes[dir].body {
            BodyView::Dir(e) => entry(e, name),
            _ => None,
        }
    }

    /// The tree with one more node.
    pub open spec fn with_node(self, node: NodeView) -> FsView {
        FsView { nodes: self.nodes.push(node), ..self }
    }

    /// The tree with the body of a node replaced.
    pub open spec fn with_body(self, i: int, body: BodyView) -> FsView {
        FsView { nodes: self.nodes.update(i, NodeView { body, ..self.nodes[i] }), ..self }
    }

    /// The tree with `name` in `dir` leading to `node`. A node that is no
    /// directory takes no entry.
    pub open spec fn linked(self, dir: int, name: Seq<char>, node: int) -> FsView {
        match self.nodes[dir].body {
            BodyView::Dir(e) => self.with_body(dir, BodyView::Dir(with_entry(e, name, node))),
            _ => self,
        }
    }

    /// The tree with `name` gone from `dir`.
    pub open spec fn unlinked(self, dir: int, name: Seq<char>) -> FsView {
        match self.nodes[dir].body {
            BodyView::Dir(e) => self.with_body(dir, BodyView::Dir(without_entry(e, name))),
            _ => self,
        }
    }

    /// The tree in which the first `n` components lead from the root to a node,
    /// directories being made where names are missing; and that node.
    pub open spec fn reached(self, comps: Seq<Seq<char>>, n: int) -> (FsView, int)
        decreases n,
    {
        if n <= 0 {
            (self, 0)
        } else {
            let (fs, dir) = self.reached(comps, n - 1);
            match fs.child(dir, comps[n - 1]) {
                Some(node) => (fs, node),
                None => {
                    let made = fs.nodes.len() as int;
                    let with = fs.with_node(
                        fresh_node(BodyView::Dir(Seq::empty()), moded(S_IFDIR, 0o755)),
                    );
                    (with.linked(dir, comps[n - 1], made), made)
                },
            }
        }
    }

    /// A tree with an empty root directory.
    pub open spec fn fresh() -> FsView {
        FsView {
            nodes: seq![fresh_node(BodyView::Dir(Seq::empty()), moded(S_IFDIR, 0o755))],
            capacity: 0x400_0000,
        }
    }

    /// The tree with a fresh node at a path, its parents being made as needed.
    /// What the path led to before is replaced.
    pub open spec fn with_path(self, path: Seq<char>, node: NodeView) -> FsView {
        let comps = components(path);
        let (fs, dir) = self.reached(comps, comps.len() - 1);
        fs.with_node(node).linked(dir, comps.last(), fs.nodes.len() as int)
    }

    /// The node that the first `n` components lead to, or the error on the way.
    pub open spec fn walk(self, comps: Seq<Seq<char>>, n: int) -> Result<int, i32>
        decreases n,
    {
        if n <= 0 {
            Ok(0)
        } else {
            match self.walk(comps, n - 1) {
                Err(e) => Err(e),
                Ok(i) => match self.nodes[i].body {
                    BodyView::Dir(e) => match entry(e, comps[n - 1]) {
                        Some(j) => Ok(j),
                        None => Err(ENOENT),
                    },
                    _ => Err(ENOTDIR),
                },
            }
        }
    }

    /// The node at a path, or the error on the way.
    pub open spec fn at(self, path: Seq<char>) -> Result<int, i32> {
        self.walk(components(path), components(path).len() as int)
    }

    /// The node above the last component of a path, or the error on the way.
    pub open spec fn above(self, path: Seq<char>) -> Result<int, i32> {
        if components(path).len() == 0 {
            Err(EINVAL)
        } else {
            self.walk(components(path), components(path).len() - 1)
        }
    }

    /// The size of a node.
    pub open spec fn size_of(self, i: int) -> nat {
        match self.nodes[i].body {
            BodyView::File(d) => d.len(),
            BodyView::Link(t) => encode_utf8(t).len(),
            BodyView::Dir(e) => e.len() * 32,
            _ => 0,
        }
    }

    /// The attributes of a node.
    pub open spec fn attr(self, i: int) -> Attr {
        let n = self.nodes[i];
        let size = (self.size_of(i) % 0x1_0000_0000_0000_0000) as u64;
        Attr {
            ino: (i + 1) as u64,
            mode: n.mode,
            uid: n.uid,
            gid: n.gid,
            nlink: if file_type(n.mode) == S_IFDIR {
                2
            } else {
                1
            },
            rdev: match n.body {
                BodyView::Special(rdev) => rdev,
                _ => 0,
            },
            size,
            blksize: 4096,
            blocks: ((size + 511) / 512) as u64,
            atime: n.atime,
            mtime: n.mtime,
            ctime: n.ctime,
        }
    }

    /// The tree with a fresh node at a path that leads nowhere yet and whose
    /// parent is a directory, or the error.
    pub open spec fn created(self, path: Seq<char>, node: NodeView) -> Result<FsView, i32> {
        let name = components(path).last();
        match self.above(path) {
            Err(e) => Err(e),
            Ok(dir) => if self.child(dir, name) is Some {
                Err(EEXIST)
            } else if !(self.nodes[dir].body is Dir) {
                Err(ENOTDIR)
            } else {
                Ok(self.with_node(node).linked(dir, name, self.nodes.len() as int))
            },
        }
    }

    /// The tree without the node at a path, or the error. The node is freed,
    /// not reused.
    pub open spec fn removed(self, path: Seq<char>) -> Result<FsView, i32> {
        let name = components(path).last();
        match self.above(path) {
            Err(e) => Err(e),
            Ok(dir) => match self.child(dir, name) {
                None => Err(ENOENT),
                Some(i) => match self.nodes[i].body {
                    BodyView::Dir(e) if e.len() > 0 => Err(ENOTEMPTY),
                    _ => Ok(self.unlinked(dir, name).with_body(i, BodyView::Freed)),
                },
            },
        }
    }

    /// The tree with a node moved to another path, or the error. What was at
    /// the other path is no longer reached from it.
    pub open spec fn renamed(self, from: Seq<char>, to: Seq<char>) -> Result<FsView, i32> {
        match self.above(from) {
            Err(e) => Err(e),
            Ok(from_dir) => match self.child(from_dir, components(from).last()) {
                None => Err(ENOENT),
                Some(i) => match self.above(to) {
                    Err(e) => Err(e),
                    Ok(to_dir) => Ok(
                        self.unlinked(from_dir, components(from).last()).linked(
                            to_dir,
                            components(to).last(),
                            i,
                        ),
                    ),
                },
            },
        }
    }

    /// The tree with another name for a node, or the error.
    pub open spec fn hardlinked(self, existing: Seq<char>, new: Seq<char>) -> Result<FsView, i32> {
        match self.at(existing) {
            Err(e) => Err(e),
            Ok(i) => match self.above(new) {
                Err(e) => Err(e),
                Ok(dir) => if self.child(dir, components(new).last()) is Some {
                    Err(EEXIST)
                } else {
                    Ok(self.linked(dir, components(new).last(), i))
                },
            },
        }
    }

    /// Bytes that the files among the first `n` nodes hold.
    pub open spec fn used(self, n: int) -> nat
        decreases n,
    {
        if n <= 0 {
            0
        } else {
            self.used(n - 1) + match self.nodes[n - 1].body {
                BodyView::File(d) => d.len(),
                _ => 0,
            }
        }
    }
}

/// `data` resized to `n` bytes, with zeros where there were none.
pub open spec fn resized(data: Seq<u8>, n: nat) -> Seq<u8> {
    Seq::new(
        n,
        |i: int|
            if i < data.len() {
                data[i]
            } else {
                0
            },
    )
}

/// `data` after `bytes` are written at `offset`, growing as needed.
pub open spec fn overwritten(data: Seq<u8>, offset: int, bytes: Seq<u8>) -> Seq<u8> {
    let end = offset + bytes.len();
    spliced(
        if end > data.len() {
            resized(data, end as nat)
        } else {
            data
        },
        offset,
        bytes,
    )
}

/// The entries of a directory are in order and lead to one of `n` nodes.
pub open spec fn body_wf(body: BodyView, n: int) -> bool {
    body matches BodyView::Dir(e) ==> in_order(e) && forall|k: int|
        0 <= k < e.len() ==> 0 <= (#[trigger] e[k]).1 < n
}

proof fn lemma_entry_bound(e: Entries, name: Seq<char>, n: int)
    requires
        forall|k: int| 0 <= k < e.len() ==> 0 <= (#[trigger] e[k]).1 < n,
    ensures
        entry(e, name) matches Some(i) ==> 0 <= i < n,
    decreases e.len(),
{
    if e.len() > 0 && e[0].0 != name {
        let r = e.drop_first();
        assert forall|k: int| 0 <= k < r.len() implies 0 <= (#[trigger] r[k]).1 < n by {
            assert(0 <= e[k + 1].1 < n);
        }
        lemma_entry_bound(r, name, n);
    }
}

proof fn lemma_entries_bound(e: Entries, name: Seq<char>, node: int, n: int)
    requires
        forall|k: int| 0 <= k < e.len() ==> 0 <= (#[trigger] e[k]).1 < n,
    ensures
        0 <= node < n ==> forall|k: int|
            0 <= k < with_entry(e, name, node).len() ==> 0 <= (#[trigger] with_entry(
                e,
                name,
                node,
            )[k]).1 < n,
        forall|k: int|
            0 <= k < without_entry(e, name).len() ==> 0 <= (#[trigger] without_entry(
                e,
                name,
            )[k]).1 < n,
    decreases e.len(),
{
    if e.len() > 0 {
        let r = e.drop_first();
        assert forall|k: int| 0 <= k < r.len() implies 0 <= (#[trigger] r[k]).1 < n by {
            assert(0 <= e[k + 1].1 < n);
        }
        assert(0 <= e[0].1 < n);
        lemma_entries_bound(r, name, node, n);
        let w = with_entry(e, name, node);
        let o = without_entry(e, name);
        if 0 <= node < n {
            assert forall|k: int| 0 <= k < w.len() implies 0 <= (#[trigger] w[k]).1 < n by {
                if before(e[0].0, name) {
                    if k > 0 {
                        assert(w[k] == with_entry(r, name, node)[k - 1]);
                    }
                } else if e[0].0 == name {
                    if k > 0 {
                        assert(w[k] == r[k - 1]);
                    }
                } else if k > 0 {
                    assert(w[k] == e[k - 1]);
                }
            }
        }
        assert forall|k: int| 0 <= k < o.len() implies 0 <= (#[trigger] o[k]).1 < n by {
            if e[0].0 == name {
                assert(o[k] == r[k]);
            } else if k > 0 {
                assert(o[k] == without_entry(r, name)[k - 1]);
            }
        }
    }
}

proof fn lemma_linked_wf(fs: FsView, dir: int, name: Seq<char>, node: int)
    requires
        fs.wf(),
        0 <= dir < fs.nodes.len(),
        0 <= node < fs.nodes.len(),
    ensures
        fs.linked(dir, name, node).wf(),
        fs.unlinked(dir, name).wf(),
        fs.linked(dir, name, node).nodes.len() == fs.nodes.len(),
        fs.unlinked(dir, name).nodes.len() == fs.nodes.len(),
{
    if let BodyView::Dir(e) = fs.nodes[dir].body {
        assert(body_wf(fs.nodes[dir].body, fs.nodes.len() as int));
        law_directory_stays_in_order(e, name, node);
        lemma_entries_bound(e, name, node, fs.nodes.len() as int);
        let a = fs.linked(dir, name, node);
        let b = fs.unlinked(dir, name);
        assert forall|i: int| 0 <= i < a.nodes.len() implies body_wf(
            (#[trigger] a.nodes[i]).body,
            a.nodes.len() as int,
        ) by {
            if i != dir {
                assert(a.nodes[i] == fs.nodes[i]);
            }
        }
        assert forall|i: int| 0 <= i < b.nodes.len() implies body_wf(
            (#[trigger] b.nodes[i]).body,
            b.nodes.len() as int,
        ) by {
            if i != dir {
                assert(b.nodes[i] == fs.nodes[i]);
            }
        }
    }
}

proof fn lemma_with_node_wf(fs: FsView, node: NodeView)
    requires
        fs.wf(),
        body_wf(node.body, fs.nodes.len() as int),
    ensures
        fs.with_node(node).wf(),
{
    let a = fs.with_node(node);
    assert forall|i: int| 0 <= i < a.nodes.len() implies body_wf(
        (#[trigger] a.nodes[i]).body,
        a.nodes.len() as int,
    ) by {
        if i < fs.nodes.len() {
            assert(body_wf(fs.nodes[i].body, fs.nodes.len() as int));
            assert(a.nodes[i] == fs.nodes[i]);
        }
    }
}

proof fn lemma_with_body_wf(fs: FsView, i: int, body: BodyView)
    requires
        fs.wf(),
        0 <= i < fs.nodes.len(),
        body_wf(body, fs.nodes.len() as int),
    ensures
        fs.with_body(i, body).wf(),
{
    let a = fs.with_body(i, body);
    assert forall|k: int| 0 <= k < a.nodes.len() implies body_wf(
        (#[trigger] a.nodes[k]).body,
        a.nodes.len() as int,
    ) by {
        if k != i {
            assert(a.nodes[k] == fs.nodes[k]);
        }
    }
}

proof fn lemma_child_bound(fs: FsView, dir: int, name: Seq<char>)
    requires
        fs.wf(),
        0 <= dir < fs.nodes.len(),
    ensures
        fs.child(dir, name) matches Some(i) ==> 0 <= i < fs.nodes.len(),
{
    if let BodyView::Dir(e) = fs.nodes[dir].body {
        assert(body_wf(fs.nodes[dir].body, fs.nodes.len() as int));
        lemma_entry_bound(e, name, fs.nodes.len() as int);
    }
}

proof fn lemma_walk_bound(fs: FsView, comps: Seq<Seq<char>>, n: int)
    requires
        fs.wf(),
    ensures
        fs.walk(comps, n) matches Ok(i) ==> 0 <= i < fs.nodes.len(),
    decreases n,
{
    if n > 0 {
        lemma_walk_bound(fs, comps, n - 1);
        if let Ok(i) = fs.walk(comps, n - 1) {
            lemma_child_bound(fs, i, comps[n - 1]);
        }
    }
}

proof fn lemma_walk_error(fs: FsView, comps: Seq<Seq<char>>, m: int, n: int)
    requires
        0 <= m <= n,
        fs.walk(comps, m) is Err,
    ensures
        fs.walk(comps, n) == fs.walk(comps, m),
    decreases n,
{
    if m < n {
        lemma_walk_error(fs, comps, m, n - 1);
    }
}

pub(crate) proof fn lemma_reached_wf(fs: FsView, comps: Seq<Seq<char>>, n: int)
    requires
        fs.wf(),
    ensures
        fs.reached(comps, n).0.wf(),
        0 <= fs.reached(comps, n).1 < fs.reached(comps, n).0.nodes.len(),
        fs.reached(comps, n).0.nodes.len() >= fs.nodes.len(),
        fs.reached(comps, n).0.capacity == fs.capacity,
    decreases n,
{
    if n > 0 {
        lemma_reached_wf(fs, comps, n - 1);
        let (before, dir) = fs.reached(comps, n - 1);
        lemma_child_bound(before, dir, comps[n - 1]);
        if before.child(dir, comps[n - 1]) is None {
            let node = fresh_node(BodyView::Dir(Seq::empty()), moded(S_IFDIR, 0o755));
            lemma_with_node_wf(before, node);
            lemma_linked_wf(
                before.with_node(node),
                dir,
                comps[n - 1],
                before.nodes.len() as int,
            );
        }
    }
}

impl Default for MemFs {
    fn default() -> (fs: MemFs)
        ensures
            fs.wf(),
            fs@ == FsView::fresh(),
    {
        MemFs::new()
    }
}

impl MemFs {
    /// See [`FsView::wf`].
    pub open spec fn wf(&self) -> bool {
        self@.wf()
    }

    /// A tree with an empty root directory.
    pub fn new() -> (fs: MemFs)
        ensures
            fs.wf(),
            fs@ == FsView::fresh(),
    {
        let mut nodes: Vec<Node> = Vec::new();
        nodes.push(
            Node {
                body: Body::Dir(Directory::new()),
                mode: S_IFDIR + 0o755,
                uid: 0,
                gid: 0,
                atime: (0, 0),
                mtime: (0, 0),
                ctime: (0, 0),
            },
        );
        let fs = MemFs { nodes, capacity: 64 * 1024 * 1024 };
        assert(fs@.nodes =~= seq![
            fresh_node(BodyView::Dir(Seq::empty()), moded(S_IFDIR, 0o755)),
        ]);
        fs
    }

    /// Total bytes reported to the guest as the volume size.
    pub fn set_capacity(&mut self, bytes: u64)
        ensures
            final(self)@ == (FsView { capacity: bytes, ..old(self)@ }),
    {
        self.capacity = bytes;
    }

    fn add_inode(&mut self, body: Body, mode: u32) -> (node: usize)
        requires
            old(self).wf(),
            body_wf(body@, old(self)@.nodes.len() as int),
        ensures
            final(self).wf(),
            node == old(self)@.nodes.len(),
            final(self)@ == old(self)@.with_node(fresh_node(body@, mode)),
    {
        let node: usize = self.nodes.len();
        self.nodes.push(
            Node { body, mode, uid: 0, gid: 0, atime: (0, 0), mtime: (0, 0), ctime: (0, 0) },
        );
        proof {
            assert(self@.nodes =~= old(self)@.nodes.push(fresh_node(body@, mode)));
            lemma_with_node_wf(old(self)@, fresh_node(body@, mode));
        }
        node
    }

    fn child_idx(&self, dir: usize, name: &[char]) -> (node: Option<usize>)
        requires
            self.wf(),
            dir < self@.nodes.len(),
        ensures
            match (node, self@.child(dir as int, name@)) {
                (Some(a), Some(b)) => a == b && a < self@.nodes.len(),
                (None, None) => true,
                _ => false,
            },
    {
        proof {
            lemma_child_bound(self@, dir as int, name@);
            assert(self@.nodes[dir as int] == self.nodes@[dir as int]@);
        }
        match &self.nodes[dir].body {
            Body::Dir(d) => d.get(name),
            _ => None,
        }
    }

    fn link_child(&mut self, dir: usize, name: &[char], node: usize)
        requires
            old(self).wf(),
            dir < old(self)@.nodes.len(),
            node < old(self)@.nodes.len(),
        ensures
            final(self).wf(),
            final(self)@ == old(self)@.linked(dir as int, name@, node as int),
    {
        let ghost fs = self@;
        proof {
            lemma_linked_wf(fs, dir as int, name@, node as int);
            assert(fs.nodes[dir as int] == self.nodes@[dir as int]@);
        }
        match &mut self.nodes[dir].body {
            Body::Dir(d) => {
                d.put(name, node);
            },
            _ => {},
        }
        assert(self@.nodes =~= fs.linked(dir as int, name@, node as int).nodes);
    }

    fn unlink_child(&mut self, dir: usize, name: &[char])
        requires
            old(self).wf(),
            dir < old(self)@.nodes.len(),
        ensures
            final(self).wf(),
            final(self)@ == old(self)@.unlinked(dir as int, name@),
    {
        let ghost fs = self@;
        proof {
            lemma_linked_wf(fs, dir as int, name@, 0);
            assert(fs.nodes[dir as int] == self.nodes@[dir as int]@);
        }
        match &mut self.nodes[dir].body {
            Body::Dir(d) => {
                d.remove(name);
            },
            _ => {},
        }
        assert(self@.nodes =~= fs.unlinked(dir as int, name@).nodes);
    }

    /// The node that the first `n` components lead to, directories being made
    /// where names are missing.
    fn reach(&mut self, comps: &Vec<Vec<char>>, n: usize) -> (node: usize)
        requires
            old(self).wf(),
            n <= comps@.len(),
        ensures
            final(self).wf(),
            node < final(self)@.nodes.len(),
            (final(self)@, node as int) == old(self)@.reached(texts(comps@), n as int),
    {
        let mut idx: usize = 0;
        let mut i: usize = 0;
        while i < n
            invariant
                self.wf(),
                i <= n <= comps@.len(),
                idx < self@.nodes.len(),
                (self@, idx as int) == old(self)@.reached(texts(comps@), i as int),
            decreases n - i,
        {
            assert(texts(comps@)[i as int] == comps@[i as int]@);
            idx = match self.child_idx(idx, comps[i].as_slice()) {
                Some(child) => child,
                None => {
                    let made: usize = self.add_inode(Body::Dir(Directory::new()), S_IFDIR + 0o755);
                    self.link_child(idx, comps[i].as_slice(), made);
                    made
                },
            };
            i = i + 1;
        }
        idx
    }

    /// Create `path` and any missing parents, returning the directory's node.
    pub fn add_dir(&mut self, path: &str) -> (node: usize)
        requires
            old(self).wf(),
        ensures
            final(self).wf(),
            (final(self)@, node as int) == old(self)@.reached(
                components(path@),
                components(path@).len() as int,
            ),
    {
        let chars: Vec<char> = chars_of(path);
        self.add_dir_chars(chars.as_slice())
    }

    fn add_dir_chars(&mut self, path: &[char]) -> (node: usize)
        requires
            old(self).wf(),
        ensures
            final(self).wf(),
            (final(self)@, node as int) == old(self)@.reached(
                components(path@),
                components(path@).len() as int,
            ),
    {
        let comps: Vec<Vec<char>> = split_path(path);
        assert(texts(comps@).len() == comps@.len());
        self.reach(&comps, comps.len())
    }

    fn add_node(&mut self, path: &[char], body: Body, mode: u32)
        requires
            old(self).wf(),
            components(path@).len() > 0,
            !(body@ is Dir),
        ensures
            final(self).wf(),
            final(self)@ == old(self)@.with_path(path@, fresh_node(body@, mode)),
    {
        let comps: Vec<Vec<char>> = split_path(path);
        assert(texts(comps@).len() == comps@.len());
        let last: usize = comps.len() - 1;
        let dir: usize = self.reach(&comps, last);
        let node: usize = self.add_inode(body, mode);
        assert(texts(comps@)[last as int] == comps@[last as int]@);
        self.link_child(dir, comps[last].as_slice(), node);
    }

    /// Create or replace a regular file, adding parent directories as needed.
    pub fn add_file(&mut self, path: &str, data: &[u8], mode: u32)
        requires
            old(self).wf(),
            components(path@).len() > 0,
        ensures
            final(self).wf(),
            final(self)@ == old(self)@.with_path(
                path@,
                fresh_node(BodyView::File(data@), moded(S_IFREG, mode)),
            ),
    {
        let chars: Vec<char> = chars_of(path);
        self.add_node(
            chars.as_slice(),
            Body::File(vstd::slice::slice_to_vec(data)),
            S_IFREG + mode % 0o10000,
        );
    }

    /// Create or replace a symbolic link, adding parent directories as needed.
    pub fn add_symlink(&mut self, path: &str, target: &str)
        requires
            old(self).wf(),
            components(path@).len() > 0,
        ensures
            final(self).wf(),
            final(self)@ == old(self)@.with_path(
                path@,
                fresh_node(BodyView::Link(target@), moded(S_IFLNK, 0o777)),
            ),
    {
        let chars: Vec<char> = chars_of(path);
        self.add_node(chars.as_slice(), Body::Link(chars_of(target)), S_IFLNK + 0o777);
    }

    fn walk(&self, comps: &Vec<Vec<char>>, n: usize) -> (r: Result<usize, i32>)
        requires
            self.wf(),
            n <= comps@.len(),
        ensures
            match (r, self@.walk(texts(comps@), n as int)) {
                (Ok(a), Ok(b)) => a == b && a < self@.nodes.len(),
                (Err(a), Err(b)) => a == b,
                _ => false,
            },
    {
        let mut idx: usize = 0;
        let mut i: usize = 0;
        while i < n
            invariant
                self.wf(),
                i <= n <= comps@.len(),
                idx < self@.nodes.len(),
                self@.walk(texts(comps@), i as int) == Ok::<int, i32>(idx as int),
            decreases n - i,
        {
            proof {
                assert(texts(comps@)[i as int] == comps@[i as int]@);
                assert(self@.nodes[idx as int] == self.nodes@[idx as int]@);
                lemma_child_bound(self@, idx as int, comps@[i as int]@);
                if self@.walk(texts(comps@), i + 1) is Err {
                    lemma_walk_error(self@, texts(comps@), i + 1, n as int);
                }
            }
            idx = match &self.nodes[idx].body {
                Body::Dir(d) => match d.get(comps[i].as_slice()) {
                    Some(child) => child,
                    None => {
                        return Err(ENOENT);
                    },
                },
                _ => {
                    return Err(ENOTDIR);
                },
            };
            i = i + 1;
        }
        Ok(idx)
    }

    fn lookup(&self, path: &str) -> (r: Result<usize, i32>)
        requires
            self.wf(),
        ensures
            match (r, self@.at(path@)) {
                (Ok(a), Ok(b)) => a == b && a < self@.nodes.len(),
                (Err(a), Err(b)) => a == b,
                _ => false,
            },
    {
        let chars: Vec<char> = chars_of(path);
        let comps: Vec<Vec<char>> = split_path(chars.as_slice());
        assert(texts(comps@).len() == comps@.len());
        self.walk(&comps, comps.len())
    }

    /// (parent node, final component) for an existing-or-to-be-created path.
    fn split(&self, path: &str) -> (r: Result<(usize, Vec<char>), i32>)
        requires
            self.wf(),
        ensures
            match (r, self@.above(path@)) {
                (Ok((dir, name)), Ok(d)) => dir == d && dir < self@.nodes.len() && name@
                    == components(path@).last(),
                (Err(a), Err(b)) => a == b,
                _ => false,
            },
    {
        let chars: Vec<char> = chars_of(path);
        let comps: Vec<Vec<char>> = split_path(chars.as_slice());
        assert(texts(comps@).len() == comps@.len());
        if comps.len() == 0 {
            return Err(EINVAL);
        }
        let last: usize = comps.len() - 1;
        match self.walk(&comps, last) {
            Ok(dir) => {
                assert(texts(comps@)[last as int] == comps@[last as int]@);
                let name: Vec<char> = piece(comps[last].as_slice(), 0, comps[last].len());
                assert(name@ =~= comps@[last as int]@);
                Ok((dir, name))
            },
            Err(e) => Err(e),
        }
    }

    fn attr_of(&self, idx: usize) -> (attr: Attr)
        requires
            self.wf(),
            idx < self@.nodes.len(),
        ensures
            attr == self@.attr(idx as int),
    {
        proof {
            assert(self@.nodes[idx as int] == self.nodes@[idx as int]@);
        }
        let n = &self.nodes[idx];
        let size: u64 = match &n.body {
            Body::File(d) => d.len() as u64,
            Body::Link(t) => {
                let s: String = string_of(t.as_slice());
                let bytes: &[u8] = s.as_str().as_bytes();
                assert(bytes@ == encode_utf8(t@));
                bytes.len() as u64
            },
            Body::Dir(d) => {
                assert(d@.len() == d.entries@.len());
                assert(self@.size_of(idx as int) == d.entries@.len() * 32);
                (d.entries.len() as u64).wrapping_mul(32)
            },
            _ => 0,
        };
        let rdev: u64 = match &n.body {
            Body::Special(rdev) => *rdev,
            _ => 0,
        };
        assert(size == self@.attr(idx as int).size);
        assert(rdev == self@.attr(idx as int).rdev);
        let blocks: u64 = if size % 512 == 0 {
            size / 512
        } else {
            size / 512 + 1
        };
        assert(idx < self.nodes.len());
        assert(blocks == self@.attr(idx as int).blocks);
        assert(file_type(n.mode) == n.mode / 0o10000 % 16 * 0o10000);
        Attr {
            ino: idx as u64 + 1,
            mode: n.mode,
            uid: n.uid,
            gid: n.gid,
            nlink: if n.mode / 0o10000 % 16 * 0o10000 == S_IFDIR {
                2
            } else {
                1
            },
            rdev,
            size,
            blksize: 4096,
            blocks,
            atime: n.atime,
            mtime: n.mtime,
            ctime: n.ctime,
        }
    }

    /// Insert a fresh node under `path`, failing if the name is taken.
    fn create_at(&mut self, path: &str, body: Body, mode: u32) -> (r: Result<Attr, i32>)
        requires
            old(self).wf(),
            body_wf(body@, old(self)@.nodes.len() as int),
        ensures
            final(self).wf(),
            match (r, old(self)@.created(path@, fresh_node(body@, mode))) {
                (Ok(attr), Ok(fs)) => {
                    &&& final(self)@ == fs
                    &&& attr == fs.attr(old(self)@.nodes.len() as int)
                },
                (Err(a), Err(b)) => a == b && final(self)@ == old(self)@,
                _ => false,
            },
    {
        let (dir, name) = match self.split(path) {
            Ok(split) => split,
            Err(e) => {
                return Err(e);
            },
        };
        if self.child_idx(dir, name.as_slice()).is_some() {
            return Err(EEXIST);
        }
        assert(self@.nodes[dir as int] == self.nodes@[dir as int]@);
        let is_dir = match &self.nodes[dir].body {
            Body::Dir(_) => true,
            _ => false,
        };
        if !is_dir {
            return Err(ENOTDIR);
        }
        let node: usize = self.add_inode(body, mode);
        self.link_child(dir, name.as_slice(), node);
        Ok(self.attr_of(node))
    }
}

/// The encoding of a device number.
pub open spec fn makedev_value(major: u32, minor: u32) -> int {
    major / 4096 * 0x1000_0000_0000 + major % 4096 * 256 + minor / 256 * 0x10_0000 + minor % 256
}

/// Linux `makedev` encoding for `st_rdev`.
pub fn makedev(major: u32, minor: u32) -> (rdev: u64)
    ensures
        rdev as int == makedev_value(major, minor),
{
    let (ma, mi): (u64, u64) = (major as u64, minor as u64);
    ma / 4096 * 0x1000_0000_0000 + ma % 4096 * 256 + mi / 256 * 0x10_0000 + mi % 256
}

/// Make `data` exactly `n` bytes long.
fn resize(data: &mut Vec<u8>, n: usize)
    ensures
        final(data)@ == resized(old(data)@, n as nat),
{
    if n <= data.len() {
        data.truncate(n);
    } else {
        let more: usize = n - data.len();
        push_zeros(data, more);
    }
    assert(data@ =~= resized(old(data)@, n as nat));
}

impl FsView {
    /// The tree with a file at node `i` holding `data`.
    pub open spec fn filled(self, i: int, data: Seq<u8>) -> FsView {
        self.with_body(i, BodyView::File(data))
    }

    /// The tree with node `i` replaced.
    pub open spec fn with(self, i: int, node: NodeView) -> FsView {
        FsView { nodes: self.nodes.update(i, node), ..self }
    }

    /// What a read from node `i` may take its bytes from, or the error.
    pub open spec fn contents(self, path: Seq<char>) -> Result<Seq<u8>, i32> {
        match self.at(path) {
            Err(e) => Err(e),
            Ok(i) => match self.nodes[i].body {
                BodyView::File(d) => Ok(d),
                BodyView::Dir(_) => Err(EISDIR),
                _ => Err(EINVAL),
            },
        }
    }
}

/// `data` from `offset` on, at most `n` bytes.
pub open spec fn window(data: Seq<u8>, offset: int, n: int) -> Seq<u8> {
    let start = if offset < data.len() {
        offset
    } else {
        data.len() as int
    };
    let end = if start + n < data.len() {
        start + n
    } else {
        data.len() as int
    };
    data.subrange(start, end)
}

/// Whether the listing gives the entries in their order.
pub open spec fn lists(list: Seq<DirEntry>, e: Entries, fs: FsView) -> bool {
    &&& list.len() == e.len()
    &&& forall|k: int|
        0 <= k < e.len() ==> {
            &&& (#[trigger] list[k]).name@ == e[k].0
            &&& list[k].ino == e[k].1 + 1
            &&& list[k].mode == fs.nodes[e[k].1].mode
        }
}

impl MemFs {
    fn bytes_used(&self) -> (used: u64)
        ensures
            used == if self@.used(self@.nodes.len() as int) <= u64::MAX {
                self@.used(self@.nodes.len() as int)
            } else {
                u64::MAX as nat
            },
    {
        let mut used: u64 = 0;
        let mut i: usize = 0;
        while i < self.nodes.len()
            invariant
                i <= self.nodes@.len(),
                self@.nodes.len() == self.nodes@.len(),
                used == if self@.used(i as int) <= u64::MAX {
                    self@.used(i as int)
                } else {
                    u64::MAX as nat
                },
            decreases self.nodes@.len() - i,
        {
            assert(self@.nodes[i as int] == self.nodes@[i as int]@);
            match &self.nodes[i].body {
                Body::File(d) => {
                    used = used.saturating_add(d.len() as u64);
                },
                _ => {},
            }
            i = i + 1;
        }
        used
    }

    /// The volume: its capacity and what the files leave of it.
    pub fn statfs(&self) -> (stat: StatFs)
        ensures
            stat == ({
                let used = self@.used(self@.nodes.len() as int);
                let free = if used < self@.capacity {
                    ((self@.capacity - used) / 4096) as u64
                } else {
                    0
                };
                StatFs {
                    bsize: 4096,
                    blocks: self@.capacity / 4096,
                    bfree: free,
                    bavail: free,
                    files: self@.nodes.len() as u64,
                    ffree: 0x10_0000,
                }
            }),
    {
        let used: u64 = self.bytes_used();
        let free: u64 = self.capacity.saturating_sub(used) / 4096;
        StatFs {
            bsize: 4096,
            blocks: self.capacity / 4096,
            bfree: free,
            bavail: free,
            files: self.nodes.len() as u64,
            ffree: 0x10_0000,
        }
    }

    /// The attributes of the node at `path`.
    pub fn lstat(&self, path: &str) -> (r: Result<Attr, i32>)
        requires
            self.wf(),
        ensures
            r == match self@.at(path@) {
                Ok(i) => Ok(self@.attr(i)),
                Err(e) => Err(e),
            },
    {
        match self.lookup(path) {
            Ok(i) => Ok(self.attr_of(i)),
            Err(e) => Err(e),
        }
    }

    /// The entries of the directory at `path`, in the order of their names.
    pub fn readdir(&self, path: &str) -> (r: Result<Vec<DirEntry>, i32>)
        requires
            self.wf(),
        ensures
            match (r, self@.at(path@)) {
                (Err(a), Err(b)) => a == b,
                (r, Ok(i)) => match (r, self@.nodes[i].body) {
                    (Ok(list), BodyView::Dir(e)) => lists(list@, e, self@),
                    (Err(a), body) => !(body is Dir) && a == ENOTDIR,
                    _ => false,
                },
                _ => false,
            },
    {
        let idx: usize = match self.lookup(path) {
            Ok(i) => i,
            Err(e) => {
                return Err(e);
            },
        };
        assert(self@.nodes[idx as int] == self.nodes@[idx as int]@);
        assert(body_wf(self@.nodes[idx as int].body, self@.nodes.len() as int));
        match &self.nodes[idx].body {
            Body::Dir(d) => {
                let ghost e = d@;
                let mut list: Vec<DirEntry> = Vec::new();
                let mut k: usize = 0;
                assert(e.len() == d.entries@.len());
                while k < d.entries.len()
                    invariant
                        k <= d.entries@.len(),
                        e == d@,
                        e.len() == d.entries@.len(),
                        body_wf(BodyView::Dir(e), self@.nodes.len() as int),
                        self@.nodes.len() == self.nodes@.len(),
                        lists(list@, e.subrange(0, k as int), self@),
                    decreases d.entries@.len() - k,
                {
                    let i: usize = d.entries[k].1;
                    assert(e[k as int] == (d.entries@[k as int].0@, i as int));
                    assert(self@.nodes[i as int] == self.nodes@[i as int]@);
                    assert(i < self.nodes.len());
                    let ghost before = list@;
                    list.push(
                        DirEntry {
                            name: string_of(d.entries[k].0.as_slice()),
                            ino: i as u64 + 1,
                            mode: self.nodes[i].mode,
                        },
                    );
                    k = k + 1;
                    proof {
                        let now = e.subrange(0, k as int);
                        assert forall|j: int| 0 <= j < now.len() implies {
                            &&& (#[trigger] list@[j]).name@ == now[j].0
                            &&& list@[j].ino == now[j].1 + 1
                            &&& list@[j].mode == self@.nodes[now[j].1].mode
                        } by {
                            if j < k - 1 {
                                assert(list@[j] == before[j]);
                                assert(now[j] == e.subrange(0, k - 1)[j]);
                            }
                        }
                    }
                }
                assert(e.subrange(0, k as int) =~= e);
                Ok(list)
            },
            _ => Err(ENOTDIR),
        }
    }

    /// Open the node at `path`: its attributes, after a file was emptied where
    /// the flags ask for it.
    pub fn open(&mut self, path: &str, flags: u32) -> (r: Result<Attr, i32>)
        requires
            old(self).wf(),
        ensures
            final(self).wf(),
            match (r, old(self)@.at(path@)) {
                (Ok(attr), Ok(i)) => {
                    &&& final(self)@ == if flags / O_TRUNC % 2 == 1
                        && old(self)@.nodes[i].body is File {
                        old(self)@.filled(i, Seq::empty())
                    } else {
                        old(self)@
                    }
                    &&& attr == final(self)@.attr(i)
                },
                (Err(a), Err(b)) => a == b && final(self)@ == old(self)@,
                _ => false,
            },
    {
        let ghost fs = self@;
        let idx: usize = match self.lookup(path) {
            Ok(i) => i,
            Err(e) => {
                return Err(e);
            },
        };
        assert(fs.nodes[idx as int] == self.nodes@[idx as int]@);
        if flags / O_TRUNC % 2 == 1 {
            match &mut self.nodes[idx].body {
                Body::File(d) => {
                    d.clear();
                },
                _ => {},
            }
            proof {
                if fs.nodes[idx as int].body is File {
                    lemma_with_body_wf(fs, idx as int, BodyView::File(Seq::empty()));
                    assert(self@.nodes =~= fs.filled(idx as int, Seq::empty()).nodes);
                } else {
                    assert(self@.nodes =~= fs.nodes);
                }
            }
        }
        Ok(self.attr_of(idx))
    }

    /// Read from the file at `path`, from `offset` on, as much as there is and
    /// `buf` takes.
    pub fn read(&self, path: &str, offset: u64, buf: &mut [u8]) -> (r: Result<usize, i32>)
        requires
            self.wf(),
        ensures
            match (r, self@.contents(path@)) {
                (Ok(n), Ok(d)) => {
                    let w = window(d, offset as int, old(buf)@.len() as int);
                    n == w.len() && final(buf)@ == spliced(old(buf)@, 0, w)
                },
                (Err(a), Err(b)) => a == b && final(buf)@ == old(buf)@,
                _ => false,
            },
    {
        let idx: usize = match self.lookup(path) {
            Ok(i) => i,
            Err(e) => {
                return Err(e);
            },
        };
        assert(self@.nodes[idx as int] == self.nodes@[idx as int]@);
        match &self.nodes[idx].body {
            Body::File(d) => {
                let start: usize = if offset < d.len() as u64 {
                    offset as usize
                } else {
                    d.len()
                };
                let rest: usize = d.len() - start;
                let n: usize = if buf.len() < rest {
                    buf.len()
                } else {
                    rest
                };
                let bytes: &[u8] = vstd::slice::slice_subrange(d.as_slice(), start, start + n);
                assert(bytes@ =~= window(d@, offset as int, old(buf)@.len() as int));
                write_at(buf, 0, bytes);
                Ok(n)
            },
            Body::Dir(_) => Err(EISDIR),
            _ => Err(EINVAL),
        }
    }

    /// Write to the file at `path`, which grows as needed.
    pub fn write(&mut self, path: &str, offset: u64, data: &[u8]) -> (r: Result<usize, i32>)
        requires
            old(self).wf(),
            old(self)@.contents(path@) is Ok ==> offset + data@.len() <= isize::MAX,
        ensures
            final(self).wf(),
            match (r, old(self)@.contents(path@)) {
                (Ok(n), Ok(d)) => {
                    &&& n == data@.len()
                    &&& final(self)@ == old(self)@.filled(
                        old(self)@.at(path@)->Ok_0,
                        overwritten(d, offset as int, data@),
                    )
                },
                (Err(a), Err(b)) => a == b && final(self)@ == old(self)@,
                _ => false,
            },
    {
        let ghost fs = self@;
        let idx: usize = match self.lookup(path) {
            Ok(i) => i,
            Err(e) => {
                return Err(e);
            },
        };
        assert(fs.nodes[idx as int] == self.nodes@[idx as int]@);
        let r: Result<usize, i32> = match &mut self.nodes[idx].body {
            Body::File(d) => {
                let ghost was = d@;
                let start: usize = offset as usize;
                let end: usize = start + data.len();
                if end > d.len() {
                    resize(d, end);
                }
                write_at(d.as_mut_slice(), start, data);
                assert(d@ =~= overwritten(was, offset as int, data@));
                Ok(data.len())
            },
            Body::Dir(_) => Err(EISDIR),
            _ => Err(EINVAL),
        };
        proof {
            match fs.nodes[idx as int].body {
                BodyView::File(d) => {
                    let now = overwritten(d, offset as int, data@);
                    lemma_with_body_wf(fs, idx as int, BodyView::File(now));
                    assert(self@.nodes =~= fs.filled(idx as int, now).nodes);
                },
                _ => {
                    assert(self@.nodes =~= fs.nodes);
                },
            }
        }
        r
    }

    /// Create an empty file.
    pub fn create(&mut self, path: &str, _flags: u32, mode: u32) -> (r: Result<Attr, i32>)
        requires
            old(self).wf(),
        ensures
            final(self).wf(),
            match (
                r,
                old(self)@.created(
                    path@,
                    fresh_node(BodyView::File(Seq::empty()), moded(S_IFREG, mode)),
                ),
            ) {
                (Ok(attr), Ok(fs)) => {
                    &&& final(self)@ == fs
                    &&& attr == fs.attr(old(self)@.nodes.len() as int)
                },
                (Err(a), Err(b)) => a == b && final(self)@ == old(self)@,
                _ => false,
            },
    {
        self.create_at(path, Body::File(Vec::new()), S_IFREG + mode % 0o10000)
    }

    /// Create an empty directory.
    pub fn mkdir(&mut self, path: &str, mode: u32) -> (r: Result<Attr, i32>)
        requires
            old(self).wf(),
        ensures
            final(self).wf(),
            match (
                r,
                old(self)@.created(
                    path@,
                    fresh_node(BodyView::Dir(Seq::empty()), moded(S_IFDIR, mode)),
                ),
            ) {
                (Ok(attr), Ok(fs)) => {
                    &&& final(self)@ == fs
                    &&& attr == fs.attr(old(self)@.nodes.len() as int)
                },
                (Err(a), Err(b)) => a == b && final(self)@ == old(self)@,
                _ => false,
            },
    {
        self.create_at(path, Body::Dir(Directory::new()), S_IFDIR + mode % 0o10000)
    }

    /// Create a symbolic link.
    pub fn symlink(&mut self, path: &str, target: &str) -> (r: Result<Attr, i32>)
        requires
            old(self).wf(),
        ensures
            final(self).wf(),
            match (
                r,
                old(self)@.created(
                    path@,
                    fresh_node(BodyView::Link(target@), moded(S_IFLNK, 0o777)),
                ),
            ) {
                (Ok(attr), Ok(fs)) => {
                    &&& final(self)@ == fs
                    &&& attr == fs.attr(old(self)@.nodes.len() as int)
                },
                (Err(a), Err(b)) => a == b && final(self)@ == old(self)@,
                _ => false,
            },
    {
        self.create_at(path, Body::Link(chars_of(target)), S_IFLNK + 0o777)
    }

    /// Create a device node or a fifo.
    pub fn mknod(&mut self, path: &str, mode: u32, major: u32, minor: u32) -> (r: Result<
        Attr,
        i32,
    >)
        requires
            old(self).wf(),
        ensures
            final(self).wf(),
            match (
                r,
                old(self)@.created(
                    path@,
                    fresh_node(BodyView::Special(makedev_value(major, minor) as u64), mode),
                ),
            ) {
                (Ok(attr), Ok(fs)) => {
                    &&& final(self)@ == fs
                    &&& attr == fs.attr(old(self)@.nodes.len() as int)
                },
                (Err(a), Err(b)) => a == b && final(self)@ == old(self)@,
                _ => false,
            },
    {
        self.create_at(path, Body::Special(makedev(major, minor)), mode)
    }

    /// The target of the symbolic link at `path`.
    pub fn readlink(&self, path: &str) -> (r: Result<String, i32>)
        requires
            self.wf(),
        ensures
            match (r, self@.at(path@)) {
                (Err(a), Err(b)) => a == b,
                (r, Ok(i)) => match (r, self@.nodes[i].body) {
                    (Ok(target), BodyView::Link(t)) => target@ == t,
                    (Err(a), body) => !(body is Link) && a == EINVAL,
                    _ => false,
                },
                _ => false,
            },
    {
        let idx: usize = match self.lookup(path) {
            Ok(i) => i,
            Err(e) => {
                return Err(e);
            },
        };
        assert(self@.nodes[idx as int] == self.nodes@[idx as int]@);
        match &self.nodes[idx].body {
            Body::Link(t) => Ok(string_of(t.as_slice())),
            _ => Err(EINVAL),
        }
    }

    /// Give the node at `existing` another name.
    pub fn hardlink(&mut self, existing: &str, new: &str) -> (r: Result<(), i32>)
        requires
            old(self).wf(),
        ensures
            final(self).wf(),
            match (r, old(self)@.hardlinked(existing@, new@)) {
                (Ok(_), Ok(fs)) => final(self)@ == fs,
                (Err(a), Err(b)) => a == b && final(self)@ == old(self)@,
                _ => false,
            },
    {
        let src: usize = match self.lookup(existing) {
            Ok(i) => i,
            Err(e) => {
                return Err(e);
            },
        };
        let (dir, name) = match self.split(new) {
            Ok(split) => split,
            Err(e) => {
                return Err(e);
            },
        };
        if self.child_idx(dir, name.as_slice()).is_some() {
            return Err(EEXIST);
        }
        self.link_child(dir, name.as_slice(), src);
        Ok(())
    }

    /// Remove the node at `path`. A directory that holds anything stays.
    pub fn remove(&mut self, path: &str, _is_dir: bool) -> (r: Result<(), i32>)
        requires
            old(self).wf(),
        ensures
            final(self).wf(),
            match (r, old(self)@.removed(path@)) {
                (Ok(_), Ok(fs)) => final(self)@ == fs,
                (Err(a), Err(b)) => a == b && final(self)@ == old(self)@,
                _ => false,
            },
    {
        let (dir, name) = match self.split(path) {
            Ok(split) => split,
            Err(e) => {
                return Err(e);
            },
        };
        let idx: usize = match self.child_idx(dir, name.as_slice()) {
            Some(i) => i,
            None => {
                return Err(ENOENT);
            },
        };
        assert(self@.nodes[idx as int] == self.nodes@[idx as int]@);
        match &self.nodes[idx].body {
            Body::Dir(d) => {
                assert(d@.len() == d.entries@.len());
                if d.entries.len() > 0 {
                    return Err(ENOTEMPTY);
                }
            },
            _ => {},
        }
        self.unlink_child(dir, name.as_slice());
        let ghost fs = self@;
        self.nodes[idx].body = Body::Freed;
        proof {
            assert(fs == old(self)@.unlinked(dir as int, name@));
            assert(fs.nodes.len() == old(self)@.nodes.len());
            lemma_with_body_wf(fs, idx as int, BodyView::Freed);
            assert(self@.nodes =~= fs.with_body(idx as int, BodyView::Freed).nodes);
        }
        Ok(())
    }

    /// Move the node at `from` to `to`.
    pub fn rename(&mut self, from: &str, to: &str) -> (r: Result<(), i32>)
        requires
            old(self).wf(),
        ensures
            final(self).wf(),
            match (r, old(self)@.renamed(from@, to@)) {
                (Ok(_), Ok(fs)) => final(self)@ == fs,
                (Err(a), Err(b)) => a == b && final(self)@ == old(self)@,
                _ => false,
            },
    {
        let (from_dir, from_name) = match self.split(from) {
            Ok(split) => split,
            Err(e) => {
                return Err(e);
            },
        };
        let idx: usize = match self.child_idx(from_dir, from_name.as_slice()) {
            Some(i) => i,
            None => {
                return Err(ENOENT);
            },
        };
        let (to_dir, to_name) = match self.split(to) {
            Ok(split) => split,
            Err(e) => {
                return Err(e);
            },
        };
        self.unlink_child(from_dir, from_name.as_slice());
        self.link_child(to_dir, to_name.as_slice(), idx);
        Ok(())
    }

    /// Set the permission bits of the node at `path`.
    pub fn set_mode(&mut self, path: &str, mode: u32) -> (r: Result<(), i32>)
        requires
            old(self).wf(),
        ensures
            final(self).wf(),
            match (r, old(self)@.at(path@)) {
                (Ok(_), Ok(i)) => {
                    let n = old(self)@.nodes[i];
                    final(self)@ == old(self)@.with(
                        i,
                        NodeView { mode: moded(file_type(n.mode), mode), ..n },
                    )
                },
                (Err(a), Err(b)) => a == b && final(self)@ == old(self)@,
                _ => false,
            },
    {
        let ghost fs = self@;
        let idx: usize = match self.lookup(path) {
            Ok(i) => i,
            Err(e) => {
                return Err(e);
            },
        };
        assert(fs.nodes[idx as int] == self.nodes@[idx as int]@);
        let kind: u32 = self.nodes[idx].mode / 0o10000 % 16 * 0o10000;
        self.nodes[idx].mode = kind + mode % 0o10000;
        proof {
            let n = fs.nodes[idx as int];
            let node = NodeView { mode: moded(file_type(n.mode), mode), ..n };
            lemma_same_body_wf(fs, idx as int, node);
            assert(self@.nodes =~= fs.with(idx as int, node).nodes);
        }
        Ok(())
    }

    /// Set the owner of the node at `path`, as far as one is given.
    pub fn set_owner(&mut self, path: &str, uid: Option<u32>, gid: Option<u32>) -> (r: Result<
        (),
        i32,
    >)
        requires
            old(self).wf(),
        ensures
            final(self).wf(),
            match (r, old(self)@.at(path@)) {
                (Ok(_), Ok(i)) => {
                    let n = old(self)@.nodes[i];
                    final(self)@ == old(self)@.with(
                        i,
                        NodeView {
                            uid: match uid {
                                Some(u) => u,
                                None => n.uid,
                            },
                            gid: match gid {
                                Some(g) => g,
                                None => n.gid,
                            },
                            ..n
                        },
                    )
                },
                (Err(a), Err(b)) => a == b && final(self)@ == old(self)@,
                _ => false,
            },
    {
        let ghost fs = self@;
        let idx: usize = match self.lookup(path) {
            Ok(i) => i,
            Err(e) => {
                return Err(e);
            },
        };
        assert(fs.nodes[idx as int] == self.nodes@[idx as int]@);
        if let Some(u) = uid {
            self.nodes[idx].uid = u;
        }
        if let Some(g) = gid {
            self.nodes[idx].gid = g;
        }
        proof {
            let node = self.nodes@[idx as int]@;
            lemma_same_body_wf(fs, idx as int, node);
            assert(self@.nodes =~= fs.with(idx as int, node).nodes);
        }
        Ok(())
    }

    /// Make the file at `path` exactly `size` bytes long.
    pub fn truncate(&mut self, path: &str, size: u64) -> (r: Result<(), i32>)
        requires
            old(self).wf(),
            old(self)@.contents(path@) is Ok ==> size <= isize::MAX,
        ensures
            final(self).wf(),
            match (r, old(self)@.at(path@)) {
                (Err(a), Err(b)) => a == b && final(self)@ == old(self)@,
                (r, Ok(i)) => match (r, old(self)@.nodes[i].body) {
                    (Ok(_), BodyView::File(d)) => final(self)@ == old(self)@.filled(
                        i,
                        resized(d, size as nat),
                    ),
                    (Err(a), body) => !(body is File) && a == EINVAL && final(self)@ == old(self)@,
                    _ => false,
                },
                _ => false,
            },
    {
        let ghost fs = self@;
        let idx: usize = match self.lookup(path) {
            Ok(i) => i,
            Err(e) => {
                return Err(e);
            },
        };
        assert(fs.nodes[idx as int] == self.nodes@[idx as int]@);
        let r: Result<(), i32> = match &mut self.nodes[idx].body {
            Body::File(d) => {
                resize(d, size as usize);
                Ok(())
            },
            _ => Err(EINVAL),
        };
        proof {
            match fs.nodes[idx as int].body {
                BodyView::File(d) => {
                    let now = resized(d, size as nat);
                    lemma_with_body_wf(fs, idx as int, BodyView::File(now));
                    assert(self@.nodes =~= fs.filled(idx as int, now).nodes);
                },
                _ => {
                    assert(self@.nodes =~= fs.nodes);
                },
            }
        }
        r
    }

    /// Set the times of the node at `path`, as far as they are given.
    pub fn set_times(
        &mut self,
        path: &str,
        atime: Option<(u64, u64)>,
        mtime: Option<(u64, u64)>,
    ) -> (r: Result<(), i32>)
        requires
            old(self).wf(),
        ensures
            final(self).wf(),
            match (r, old(self)@.at(path@)) {
                (Ok(_), Ok(i)) => {
                    let n = old(self)@.nodes[i];
                    final(self)@ == old(self)@.with(
                        i,
                        NodeView {
                            atime: match atime {
                                Some(a) => a,
                                None => n.atime,
                            },
                            mtime: match mtime {
                                Some(m) => m,
                                None => n.mtime,
                            },
                            ..n
                        },
                    )
                },
                (Err(a), Err(b)) => a == b && final(self)@ == old(self)@,
                _ => false,
            },
    {
        let ghost fs = self@;
        let idx: usize = match self.lookup(path) {
            Ok(i) => i,
            Err(e) => {
                return Err(e);
            },
        };
        assert(fs.nodes[idx as int] == self.nodes@[idx as int]@);
        if let Some(a) = atime {
            self.nodes[idx].atime = a;
        }
        if let Some(m) = mtime {
            self.nodes[idx].mtime = m;
        }
        proof {
            let node = self.nodes@[idx as int]@;
            lemma_same_body_wf(fs, idx as int, node);
            assert(self@.nodes =~= fs.with(idx as int, node).nodes);
        }
        Ok(())
    }
}

proof fn lemma_same_body_wf(fs: FsView, i: int, node: NodeView)
    requires
        fs.wf(),
        0 <= i < fs.nodes.len(),
        node.body == fs.nodes[i].body,
    ensures
        fs.with(i, node).wf(),
{
    let a = fs.with(i, node);
    assert forall|k: int| 0 <= k < a.nodes.len() implies body_wf(
        (#[trigger] a.nodes[k]).body,
        a.nodes.len() as int,
    ) by {
        assert(body_wf(fs.nodes[k].body, fs.nodes.len() as int));
    }
}

// ---- tar archives --------------------------------------------------------

/// How many digits a field starts with, from `i` on.
pub open spec fn digits_end(field: Seq<u8>, i: int) -> int
    decreases field.len() - i,
{
    if 0 <= i < field.len() && 48 <= field[i] <= 57 {
        digits_end(field, i + 1)
    } else {
        i
    }
}

/// The number that the first `n` digits of a field give in base eight.
pub open spec fn octal_value(field: Seq<u8>, n: int) -> nat
    decreases n,
{
    if n <= 0 {
        0
    } else {
        octal_value(field, n - 1) * 8 + (field[n - 1] - 48) as nat
    }
}

/// The number at the start of a field.
pub open spec fn octal_field(field: Seq<u8>) -> nat {
    octal_value(field, digits_end(field, 0))
}

/// The offset of the first zero byte from `i` on, or the length.
pub open spec fn zero_at(b: Seq<u8>, i: int) -> int
    decreases b.len() - i,
{
    if 0 <= i < b.len() && b[i] != 0 {
        zero_at(b, i + 1)
    } else if i < b.len() {
        i
    } else {
        b.len() as int
    }
}

/// The text up to the first zero byte.
pub open spec fn zero_terminated(b: Seq<u8>) -> Seq<char> {
    text_of(b.subrange(0, zero_at(b, 0)))
}

fn octal(field: &[u8]) -> (v: u64)
    requires
        field@.len() <= 12,
    ensures
        v as nat == octal_field(field@),
{
    let mut v: u64 = 0;
    let mut i: usize = 0;
    while i < field.len() && field[i] >= 48 && field[i] <= 57
        invariant
            i <= field@.len() <= 12,
            digits_end(field@, 0) == digits_end(field@, i as int),
            v as nat == octal_value(field@, i as int),
            i == 0 ==> v < 2,
            i == 1 ==> v < 0x10,
            i == 2 ==> v < 0x100,
            i == 3 ==> v < 0x1000,
            i == 4 ==> v < 0x1_0000,
            i == 5 ==> v < 0x10_0000,
            i == 6 ==> v < 0x100_0000,
            i == 7 ==> v < 0x1000_0000,
            i == 8 ==> v < 0x1_0000_0000,
            i == 9 ==> v < 0x10_0000_0000,
            i == 10 ==> v < 0x100_0000_0000,
            i == 11 ==> v < 0x1000_0000_0000,
            i == 12 ==> v < 0x1_0000_0000_0000,
        decreases field@.len() - i,
    {
        v = v * 8 + (field[i] - 48) as u64;
        i = i + 1;
    }
    v
}

fn cstr(b: &[u8]) -> (text: String)
    ensures
        text@ == zero_terminated(b@),
{
    let mut end: usize = 0;
    while end < b.len() && b[end] != 0
        invariant
            end <= b@.len(),
            zero_at(b@, 0) == zero_at(b@, end as int),
        decreases b@.len() - end,
    {
        end = end + 1;
    }
    lossy_text(vstd::slice::slice_subrange(b, 0, end))
}

/// One entry of an archive.
pub struct TarEntry {
    pub name: Seq<char>,
    pub kind: u8,
    pub mode: u32,
    pub link: Seq<char>,
    pub data: Seq<u8>,
}

/// Whether the archive goes on at `pos` with a header that is not all zeros.
pub open spec fn tar_goes_on(tar: Seq<u8>, pos: int) -> bool {
    0 <= pos && pos + 512 <= tar.len() && exists|i: int|
        pos <= i < pos + 512 && #[trigger] tar[i] != 0
}

/// The size field of the header at `pos`.
pub open spec fn tar_size(tar: Seq<u8>, pos: int) -> nat {
    octal_field(tar.subrange(pos + 124, pos + 136))
}

/// Where the header after the one at `pos` starts: past the data, which is
/// padded to whole blocks.
pub open spec fn tar_next(tar: Seq<u8>, pos: int) -> int {
    pos + 512 + (tar_size(tar, pos) + 511) / 512 * 512
}

/// The name in the header at `pos`.
pub open spec fn tar_name(tar: Seq<u8>, pos: int) -> Seq<char> {
    let base = zero_terminated(tar.subrange(pos, pos + 100));
    let prefix = if tar.subrange(pos + 257, pos + 262) == seq![117u8, 115, 116, 97, 114] {
        zero_terminated(tar.subrange(pos + 345, pos + 500))
    } else {
        Seq::empty()
    };
    if prefix.len() == 0 {
        base
    } else {
        prefix.push('/') + base
    }
}

/// The entry whose header is at `pos`, under the name that a record before it
/// gave, if one did. Data that the archive does not hold is cut off.
pub open spec fn tar_entry(tar: Seq<u8>, pos: int, long_name: Option<Seq<char>>) -> TarEntry {
    let start = pos + 512;
    let end = start + tar_size(tar, pos);
    TarEntry {
        name: match long_name {
            Some(name) => name,
            None => tar_name(tar, pos),
        },
        kind: tar[pos + 156],
        mode: octal_field(tar.subrange(pos + 100, pos + 108)) as u32,
        link: zero_terminated(tar.subrange(pos + 157, pos + 257)),
        data: tar.subrange(
            start,
            if end < tar.len() {
                end
            } else {
                tar.len() as int
            },
        ),
    }
}

impl TarEntry {
    /// Whether this is a file or a symbolic link, which need a name.
    pub open spec fn needs_name(self) -> bool {
        self.kind == 48 || self.kind == 0 || self.kind == 50
    }

    /// The name for the next entry that this record carries.
    pub open spec fn long_name(self) -> Option<Seq<char>> {
        if self.kind == 76 {
            Some(zero_terminated(self.data))
        } else {
            None
        }
    }

    /// Whether the entry is loaded rather than skipped.
    pub open spec fn is_loaded(self) -> bool {
        self.needs_name() || self.kind == 53
    }

    /// The tree after this entry.
    pub open spec fn loaded(self, fs: FsView) -> FsView {
        if self.kind == 53 {
            fs.reached(components(self.name), components(self.name).len() as int).0
        } else if self.kind == 48 || self.kind == 0 {
            fs.with_path(
                self.name,
                fresh_node(BodyView::File(self.data), moded(S_IFREG, self.mode)),
            )
        } else if self.kind == 50 {
            fs.with_path(self.name, fresh_node(BodyView::Link(self.link), moded(S_IFLNK, 0o777)))
        } else {
            fs
        }
    }
}

/// Every file and symbolic link of the archive from `pos` on has a path that
/// names something.
pub open spec fn tar_is_named(tar: Seq<u8>, pos: int, long_name: Option<Seq<char>>) -> bool
    decreases
        if pos < tar.len() {
            tar.len() - pos
        } else {
            0
        },
{
    if tar_goes_on(tar, pos) {
        let entry = tar_entry(tar, pos, long_name);
        &&& entry.needs_name() ==> components(entry.name).len() > 0
        &&& tar_is_named(tar, tar_next(tar, pos), entry.long_name())
    } else {
        true
    }
}

/// The tree after the archive from `pos` on, and how many entries were loaded.
pub open spec fn tar_loaded(
    fs: FsView,
    tar: Seq<u8>,
    pos: int,
    long_name: Option<Seq<char>>,
) -> (FsView, nat)
    decreases
        if pos < tar.len() {
            tar.len() - pos
        } else {
            0
        },
{
    if tar_goes_on(tar, pos) {
        let entry = tar_entry(tar, pos, long_name);
        let (after, n) = tar_loaded(
            entry.loaded(fs),
            tar,
            tar_next(tar, pos),
            entry.long_name(),
        );
        (after, n + if entry.is_loaded() {
            1nat
        } else {
            0
        })
    } else {
        (fs, 0)
    }
}

fn goes_on(tar: &[u8], pos: usize) -> (r: bool)
    requires
        pos <= tar@.len(),
    ensures
        r == tar_goes_on(tar@, pos as int),
{
    if tar.len() - pos < 512 {
        return false;
    }
    let mut i: usize = 0;
    while i < 512
        invariant
            i <= 512,
            pos + 512 <= tar.len(),
            forall|k: int| pos <= k < pos + i ==> #[trigger] tar@[k] == 0,
        decreases 512 - i,
    {
        if tar[pos + i] != 0 {
            assert(tar@[pos + i] != 0);
            return true;
        }
        i = i + 1;
    }
    false
}

/// An entry of an archive, its data as a range.
struct RawEntry {
    name: String,
    kind: u8,
    mode: u32,
    link: String,
    start: usize,
    end: usize,
    next: usize,
}

fn field(tar: &[u8], pos: usize, from: usize, to: usize) -> (r: &[u8])
    requires
        pos + 512 <= tar.len(),
        from <= to <= 512,
    ensures
        r@ == tar@.subrange(pos + from, pos + to),
{
    vstd::slice::slice_subrange(tar, pos + from, pos + to)
}

fn read_name(tar: &[u8], pos: usize) -> (name: String)
    requires
        pos + 512 <= tar.len(),
    ensures
        name@ == tar_name(tar@, pos as int),
{
    let base: String = cstr(field(tar, pos, 0, 100));
    let magic: &[u8] = field(tar, pos, 257, 262);
    let is_ustar: bool = magic[0] == 117 && magic[1] == 115 && magic[2] == 116 && magic[3] == 97
        && magic[4] == 114;
    proof {
        let ustar = seq![117u8, 115, 116, 97, 114];
        if is_ustar {
            assert(magic@ =~= ustar);
        } else {
            assert(magic@ != ustar);
        }
    }
    if !is_ustar {
        return base;
    }
    let mut prefix: Vec<char> = chars_of(cstr(field(tar, pos, 345, 500)).as_str());
    if prefix.len() == 0 {
        return base;
    }
    prefix.push('/');
    let mut rest: Vec<char> = chars_of(base.as_str());
    prefix.append(&mut rest);
    string_of(prefix.as_slice())
}

fn read_entry(tar: &[u8], pos: usize, long_name: Option<String>) -> (e: RawEntry)
    requires
        tar_goes_on(tar@, pos as int),
    ensures
        ({
            let long = match long_name {
                Some(name) => Some(name@),
                None => None,
            };
            let entry = tar_entry(tar@, pos as int, long);
            &&& e.name@ == entry.name
            &&& e.kind == entry.kind
            &&& e.mode == entry.mode
            &&& e.link@ == entry.link
            &&& e.start <= e.end <= tar@.len()
            &&& entry.data == tar@.subrange(e.start as int, e.end as int)
            &&& pos + 512 <= e.next <= tar@.len()
            &&& e.next == tar_next(tar@, pos as int) || (e.next == tar@.len() && tar_next(
                tar@,
                pos as int,
            ) > tar@.len())
        }),
{
    assert(pos + 512 <= tar.len());
    let size: u64 = octal(field(tar, pos, 124, 136));
    let mode: u32 = octal(field(tar, pos, 100, 108)) as u32;
    let start: usize = pos + 512;
    let rest: u64 = (tar.len() - start) as u64;
    let end: usize = if size < rest {
        start + size as usize
    } else {
        tar.len()
    };
    let pad: u64 = (512 - size % 512) % 512;
    assert((size + 511) / 512 * 512 == size + pad);
    let next: usize = if size <= rest && pad <= rest - size {
        start + (size + pad) as usize
    } else {
        tar.len()
    };
    let name: String = match long_name {
        Some(name) => name,
        None => read_name(tar, pos),
    };
    RawEntry {
        name,
        kind: tar[pos + 156],
        mode,
        link: cstr(field(tar, pos, 157, 257)),
        start,
        end,
        next,
    }
}

proof fn lemma_tar_end(fs: FsView, tar: Seq<u8>, pos: int, long_name: Option<Seq<char>>)
    requires
        pos + 512 > tar.len(),
    ensures
        tar_loaded(fs, tar, pos, long_name) == (fs, 0nat),
        tar_is_named(tar, pos, long_name),
{
}

/// The long name, if one is pending.
spec fn pending_name(name: Option<String>) -> Option<Seq<char>> {
    match name {
        Some(name) => Some(name@),
        None => None,
    }
}

/// Whether every file and symbolic link of the archive has a path that names
/// something.
fn check_names(tar: &[u8]) -> (r: bool)
    ensures
        r == tar_is_named(tar@, 0, None),
{
    let mut pos: usize = 0;
    let mut long_name: Option<String> = None;
    while goes_on(tar, pos)
        invariant
            pos <= tar@.len(),
            tar_is_named(tar@, 0, None) == tar_is_named(tar@, pos as int, pending_name(long_name)),
        decreases tar@.len() - pos,
    {
        let ghost was = pos as int;
        let e: RawEntry = read_entry(tar, pos, long_name);
        let ghost entry = tar_entry(tar@, was, pending_name(long_name));
        if e.kind == 48 || e.kind == 0 || e.kind == 50 {
            let chars: Vec<char> = chars_of(e.name.as_str());
            let comps: Vec<Vec<char>> = split_path(chars.as_slice());
            assert(texts(comps@).len() == comps@.len());
            if comps.len() == 0 {
                return false;
            }
        }
        long_name = if e.kind == 76 {
            Some(cstr(vstd::slice::slice_subrange(tar, e.start, e.end)))
        } else {
            None
        };
        assert(pending_name(long_name) == entry.long_name());
        proof {
            if e.next != tar_next(tar@, was) {
                lemma_tar_end(arbitrary(), tar@, e.next as int, entry.long_name());
                lemma_tar_end(arbitrary(), tar@, tar_next(tar@, was), entry.long_name());
            }
        }
        pos = e.next;
    }
    true
}

impl MemFs {
    /// Load a (ustar or GNU) tar archive into the tree. This is the practical
    /// way to hand a browser guest a root filesystem: fetch a tarball, mount
    /// it over 9p. Entries other than files, directories and symlinks are
    /// skipped. Returns the number of entries loaded.
    pub fn load_tar(&mut self, tar: &[u8]) -> (loaded: usize)
        requires
            old(self).wf(),
            tar_is_named(tar@, 0, None),
        ensures
            final(self).wf(),
            (final(self)@, loaded as nat) == tar_loaded(old(self)@, tar@, 0, None),
    {
        let mut pos: usize = 0;
        let mut loaded: usize = 0;
        // A GNU 'L' record carries the next entry's (over-long) name.
        let mut long_name: Option<String> = None;
        while goes_on(tar, pos)
            invariant
                self.wf(),
                pos <= tar@.len(),
                loaded <= pos,
                tar_is_named(tar@, pos as int, pending_name(long_name)),
                tar_loaded(old(self)@, tar@, 0, None) == ({
                    let (after, n) = tar_loaded(
                        self@,
                        tar@,
                        pos as int,
                        pending_name(long_name),
                    );
                    (after, n + loaded as nat)
                }),
            decreases tar@.len() - pos,
        {
            let ghost was = pos as int;
            let ghost fs = self@;
            let e: RawEntry = read_entry(tar, pos, long_name);
            let ghost entry = tar_entry(tar@, was, pending_name(long_name));
            let data: &[u8] = vstd::slice::slice_subrange(tar, e.start, e.end);
            assert(data@ == entry.data);
            long_name = None;
            if e.kind == 76 {
                long_name = Some(cstr(data));
            } else if e.kind == 53 {
                self.add_dir(e.name.as_str());
                loaded = loaded + 1;
            } else if e.kind == 48 || e.kind == 0 {
                self.add_file(e.name.as_str(), data, e.mode);
                loaded = loaded + 1;
            } else if e.kind == 50 {
                self.add_symlink(e.name.as_str(), e.link.as_str());
                loaded = loaded + 1;
            }
            assert(pending_name(long_name) == entry.long_name());
            assert(self@ == entry.loaded(fs));
            proof {
                if e.next != tar_next(tar@, was) {
                    lemma_tar_end(self@, tar@, e.next as int, entry.long_name());
                    lemma_tar_end(self@, tar@, tar_next(tar@, was), entry.long_name());
                }
            }
            pos = e.next;
        }
        loaded
    }

    /// [`load_tar`](MemFs::load_tar) where every file and symbolic link of the
    /// archive has a path that names something; otherwise nothing is loaded.
    pub fn try_load_tar(&mut self, tar: &[u8]) -> (loaded: Option<usize>)
        requires
            old(self).wf(),
        ensures
            final(self).wf(),
            match loaded {
                Some(n) => {
                    &&& tar_is_named(tar@, 0, None)
                    &&& (final(self)@, n as nat) == tar_loaded(old(self)@, tar@, 0, None)
                },
                None => !tar_is_named(tar@, 0, None) && final(self)@ == old(self)@,
            },
    {
        if check_names(tar) {
            Some(self.load_tar(tar))
        } else {
            None
        }
    }
}

// ---- laws ----------------------------------------------------------------

proof fn lemma_walk_created(
    fs: FsView,
    dir: int,
    name: Seq<char>,
    node: NodeView,
    comps: Seq<Seq<char>>,
    n: int,
)
    requires
        fs.wf(),
        0 <= dir < fs.nodes.len(),
        fs.nodes[dir].body is Dir,
        fs.child(dir, name) is None,
        fs.walk(comps, n) is Ok,
    ensures
        fs.with_node(node).linked(dir, name, fs.nodes.len() as int).walk(comps, n) == fs.walk(
            comps,
            n,
        ),
    decreases n,
{
    if n > 0 {
        lemma_walk_created(fs, dir, name, node, comps, n - 1);
        lemma_walk_bound(fs, comps, n - 1);
        let i = fs.walk(comps, n - 1)->Ok_0;
        if i == dir {
            let e = fs.nodes[dir].body->Dir_0;
            assert(body_wf(fs.nodes[dir].body, fs.nodes.len() as int));
            law_directory_reads_back(e, name, fs.nodes.len() as int, comps[n - 1]);
        }
    }
}

/// A path at which a node was created leads to that node, which is none of
/// those that were there before: an inode number is never given out twice.
/// Nodes that existed stay where their numbers say.
pub proof fn law_created_node_is_found_and_new(fs: FsView, path: Seq<char>, node: NodeView)
    requires
        fs.wf(),
    ensures
        fs.created(path, node) matches Ok(after) ==> {
            &&& after.at(path) == Ok::<int, i32>(fs.nodes.len() as int)
            &&& after.nodes[fs.nodes.len() as int] == node
            &&& after.nodes.len() == fs.nodes.len() + 1
            &&& fs.nodes.len() < u64::MAX ==> forall|i: int|
                0 <= i < fs.nodes.len() ==> (#[trigger] after.attr(i)).ino != after.attr(
                    fs.nodes.len() as int,
                ).ino
        },
{
    if let Ok(after) = fs.created(path, node) {
        let comps = components(path);
        let dir = fs.above(path)->Ok_0;
        lemma_walk_bound(fs, comps, comps.len() - 1);
        lemma_walk_created(fs, dir, comps.last(), node, comps, comps.len() - 1);
        let e = fs.nodes[dir].body->Dir_0;
        assert(body_wf(fs.nodes[dir].body, fs.nodes.len() as int));
        law_directory_reads_back(e, comps.last(), fs.nodes.len() as int, comps.last());
        assert(after.nodes[dir].body == BodyView::Dir(
            with_entry(e, comps.last(), fs.nodes.len() as int),
        ));
    }
}

proof fn lemma_walk_removed(
    fs: FsView,
    dir: int,
    name: Seq<char>,
    i: int,
    comps: Seq<Seq<char>>,
    n: int,
)
    requires
        fs.wf(),
        0 <= dir < fs.nodes.len(),
        fs.nodes[dir].body is Dir,
        fs.child(dir, name) == Some(i),
        fs.nodes[i].body matches BodyView::Dir(e) ==> e.len() == 0,
        fs.walk(comps, n) is Ok,
        fs.walk(comps, n) != Ok::<int, i32>(i),
    ensures
        fs.unlinked(dir, name).with_body(i, BodyView::Freed).walk(comps, n) == fs.walk(comps, n),
    decreases n,
{
    if n > 0 {
        lemma_walk_bound(fs, comps, n - 1);
        lemma_child_bound(fs, dir, name);
        let k = fs.walk(comps, n - 1)->Ok_0;
        if k == i {
            assert(entry(fs.nodes[i].body->Dir_0, comps[n - 1]) is None);
        }
        lemma_walk_removed(fs, dir, name, i, comps, n - 1);
        if k == dir {
            let e = fs.nodes[dir].body->Dir_0;
            assert(body_wf(fs.nodes[dir].body, fs.nodes.len() as int));
            law_directory_reads_back(e, name, 0, comps[n - 1]);
        }
    }
}

/// A directory that holds anything is not removed.
pub proof fn law_populated_directory_stays(fs: FsView, path: Seq<char>)
    requires
        fs.wf(),
        components(path).len() > 0,
        fs.at(path) matches Ok(i) && fs.nodes[i].body matches BodyView::Dir(e) && e.len() > 0,
    ensures
        fs.removed(path) == Err::<FsView, i32>(ENOTEMPTY),
{
}

/// A path whose node was removed leads nowhere, and no node takes the place of
/// the one that was removed.
pub proof fn law_removed_path_is_gone(fs: FsView, path: Seq<char>)
    requires
        fs.wf(),
    ensures
        fs.removed(path) matches Ok(after) ==> {
            &&& after.at(path) == Err::<int, i32>(ENOENT)
            &&& after.nodes.len() == fs.nodes.len()
            &&& fs.at(path) matches Ok(i) && after.nodes[i].body is Freed
        },
{
    if let Ok(after) = fs.removed(path) {
        let comps = components(path);
        let name = comps.last();
        let dir = fs.above(path)->Ok_0;
        let i = fs.child(dir, name)->0;
        lemma_walk_bound(fs, comps, comps.len() - 1);
        lemma_child_bound(fs, dir, name);
        let e = fs.nodes[dir].body->Dir_0;
        if dir == i {
            assert(e.len() == 0);
            assert(entry(e, name) is None);
        }
        lemma_walk_removed(fs, dir, name, i, comps, comps.len() - 1);
        assert(body_wf(fs.nodes[dir].body, fs.nodes.len() as int));
        law_directory_reads_back(e, name, 0, name);
        assert(after.nodes[dir].body == BodyView::Dir(without_entry(e, name)));
    }
}

proof fn lemma_walk_filled(fs: FsView, i: int, data: Seq<u8>, comps: Seq<Seq<char>>, n: int)
    requires
        fs.wf(),
        0 <= i < fs.nodes.len(),
        fs.nodes[i].body is File,
    ensures
        fs.filled(i, data).walk(comps, n) == fs.walk(comps, n),
    decreases n,
{
    if n > 0 {
        lemma_walk_bound(fs, comps, n - 1);
        lemma_walk_filled(fs, i, data, comps, n - 1);
    }
}

/// A read of what was written gives back exactly the bytes that were written,
/// and the bytes on either side are what they were, zeros where the file had
/// none.
pub proof fn law_read_gives_back_write(
    fs: FsView,
    path: Seq<char>,
    offset: int,
    data: Seq<u8>,
)
    requires
        fs.wf(),
        fs.contents(path) is Ok,
        offset >= 0,
    ensures
        ({
            let was = fs.contents(path)->Ok_0;
            let after = fs.filled(fs.at(path)->Ok_0, overwritten(was, offset, data));
            &&& after.contents(path) == Ok::<Seq<u8>, i32>(overwritten(was, offset, data))
            &&& window(overwritten(was, offset, data), offset, data.len() as int) == data
            &&& forall|k: int|
                0 <= k < overwritten(was, offset, data).len() && !(offset <= k < offset
                    + data.len()) ==> #[trigger] overwritten(was, offset, data)[k] == if k
                    < was.len() {
                    was[k]
                } else {
                    0
                }
        }),
{
    let was = fs.contents(path)->Ok_0;
    let now = overwritten(was, offset, data);
    lemma_walk_bound(fs, components(path), components(path).len() as int);
    lemma_walk_filled(
        fs,
        fs.at(path)->Ok_0,
        now,
        components(path),
        components(path).len() as int,
    );
    assert(window(now, offset, data.len() as int) =~= data);
}

/// A rename into a directory takes the name away from where it was and gives
/// the node its new name; every other name leads where it did.
pub proof fn law_rename_moves_the_entry(
    fs: FsView,
    from: Seq<char>,
    to: Seq<char>,
    dir: int,
    name: Seq<char>,
)
    requires
        fs.wf(),
        fs.renamed(from, to) is Ok,
        fs.nodes[fs.above(to)->Ok_0].body is Dir,
        0 <= dir < fs.nodes.len(),
    ensures
        ({
            let after = fs.renamed(from, to)->Ok_0;
            let (from_dir, from_name) = (fs.above(from)->Ok_0, components(from).last());
            let (to_dir, to_name) = (fs.above(to)->Ok_0, components(to).last());
            after.child(dir, name) == if dir == to_dir && name == to_name {
                fs.child(from_dir, from_name)
            } else if dir == from_dir && name == from_name {
                None
            } else {
                fs.child(dir, name)
            }
        }),
{
    let (from_dir, from_name) = (fs.above(from)->Ok_0, components(from).last());
    let (to_dir, to_name) = (fs.above(to)->Ok_0, components(to).last());
    let i = fs.child(from_dir, from_name)->0;
    lemma_walk_bound(fs, components(from), components(from).len() - 1);
    lemma_walk_bound(fs, components(to), components(to).len() - 1);
    lemma_child_bound(fs, from_dir, from_name);
    lemma_linked_wf(fs, from_dir, from_name, i);
    let between = fs.unlinked(from_dir, from_name);
    assert(body_wf(fs.nodes[from_dir].body, fs.nodes.len() as int));
    assert(body_wf(between.nodes[to_dir].body, fs.nodes.len() as int));
    law_directory_reads_back(fs.nodes[from_dir].body->Dir_0, from_name, 0, name);
    law_directory_reads_back(between.nodes[to_dir].body->Dir_0, to_name, i, name);
}

/// A hard link in a directory leads to the very node that it was made for;
/// every other name leads where it did.
pub proof fn law_hard_link_shares_the_node(
    fs: FsView,
    existing: Seq<char>,
    new: Seq<char>,
    dir: int,
    name: Seq<char>,
)
    requires
        fs.wf(),
        fs.hardlinked(existing, new) is Ok,
        fs.nodes[fs.above(new)->Ok_0].body is Dir,
        0 <= dir < fs.nodes.len(),
    ensures
        fs.hardlinked(existing, new)->Ok_0.child(dir, name) == if dir == fs.above(new)->Ok_0
            && name == components(new).last() {
            Some(fs.at(existing)->Ok_0)
        } else {
            fs.child(dir, name)
        },
{
    let to_dir = fs.above(new)->Ok_0;
    lemma_walk_bound(fs, components(new), components(new).len() - 1);
    assert(body_wf(fs.nodes[to_dir].body, fs.nodes.len() as int));
    law_directory_reads_back(
        fs.nodes[to_dir].body->Dir_0,
        components(new).last(),
        fs.at(existing)->Ok_0,
        name,
    );
}

impl FsView {
    /// Whether a node is a directory, by its body and by its mode.
    pub open spec fn is_directory(self, i: int) -> bool {
        self.nodes[i].body is Dir && file_type(self.nodes[i].mode) == S_IFDIR
    }

    /// Whether everything in this tree is in `later` too, under its number: every
    /// node is as it was, but for directories, which keep their entries and may
    /// have more.
    pub open spec fn kept_in(self, later: FsView) -> bool {
        &&& later.capacity == self.capacity
        &&& later.nodes.len() >= self.nodes.len()
        &&& forall|i: int|
            0 <= i < self.nodes.len() ==> (#[trigger] later.nodes[i]) == (NodeView {
                body: later.nodes[i].body,
                ..self.nodes[i]
            })
        &&& forall|i: int|
            0 <= i < self.nodes.len() && !(self.nodes[i].body is Dir) ==> #[trigger] later.nodes[i]
                == self.nodes[i]
        &&& forall|i: int|
            0 <= i < self.nodes.len() && self.nodes[i].body is Dir ==> (#[trigger] later.nodes[i]).body is Dir
        &&& forall|i: int, name: Seq<char>|
            0 <= i < self.nodes.len() && self.child(i, name) is Some ==> #[trigger] later.child(
                i,
                name,
            ) == self.child(i, name)
    }
}

pub(crate) proof fn lemma_kept_on(a: FsView, b: FsView, c: FsView)
    requires
        a.kept_in(b),
        b.kept_in(c),
    ensures
        a.kept_in(c),
{
    assert forall|i: int| 0 <= i < a.nodes.len() implies (#[trigger] c.nodes[i]) == (NodeView {
        body: c.nodes[i].body,
        ..a.nodes[i]
    }) by {
        assert(b.nodes[i] == (NodeView { body: b.nodes[i].body, ..a.nodes[i] }));
    }
    assert forall|i: int| 0 <= i < a.nodes.len() && !(a.nodes[i].body is Dir) implies #[trigger] c.nodes[i]
        == a.nodes[i] by {
        assert(b.nodes[i] == a.nodes[i]);
    }
    assert forall|i: int| 0 <= i < a.nodes.len() && a.nodes[i].body is Dir implies (
    #[trigger] c.nodes[i]).body is Dir by {
        assert(b.nodes[i].body is Dir);
    }
    assert forall|i: int, name: Seq<char>|
        0 <= i < a.nodes.len() && a.child(i, name) is Some implies #[trigger] c.child(i, name)
        == a.child(i, name) by {
        assert(b.child(i, name) == a.child(i, name));
    }
}

pub(crate) proof fn lemma_walk_kept(a: FsView, b: FsView, comps: Seq<Seq<char>>, n: int)
    requires
        a.wf(),
        a.kept_in(b),
        a.walk(comps, n) is Ok,
    ensures
        b.walk(comps, n) == a.walk(comps, n),
    decreases n,
{
    if n > 0 {
        lemma_walk_kept(a, b, comps, n - 1);
        lemma_walk_bound(a, comps, n - 1);
        let i = a.walk(comps, n - 1)->Ok_0;
        assert(a.child(i, comps[n - 1]) is Some);
        assert(b.child(i, comps[n - 1]) == a.child(i, comps[n - 1]));
        assert(b.nodes[i].body is Dir);
    }
}

pub(crate) proof fn lemma_linked_kept(fs: FsView, dir: int, name: Seq<char>, node: NodeView)
    requires
        fs.wf(),
        0 <= dir < fs.nodes.len(),
        fs.nodes[dir].body is Dir,
        fs.child(dir, name) is None,
    ensures
        ({
            let later = fs.with_node(node).linked(dir, name, fs.nodes.len() as int);
            &&& fs.kept_in(later)
            &&& later.child(dir, name) == Some(fs.nodes.len() as int)
            &&& later.nodes[fs.nodes.len() as int] == node
        }),
{
    let later = fs.with_node(node).linked(dir, name, fs.nodes.len() as int);
    let e = fs.nodes[dir].body->Dir_0;
    assert(body_wf(fs.nodes[dir].body, fs.nodes.len() as int));
    law_directory_reads_back(e, name, fs.nodes.len() as int, name);
    assert(later.nodes[dir].body == BodyView::Dir(with_entry(e, name, fs.nodes.len() as int)));
    assert forall|i: int, other: Seq<char>|
        0 <= i < fs.nodes.len() && fs.child(i, other) is Some implies #[trigger] later.child(
        i,
        other,
    ) == fs.child(i, other) by {
        if i == dir {
            law_directory_reads_back(e, name, fs.nodes.len() as int, other);
        }
    }
}

pub(crate) proof fn lemma_reached_again(fs: FsView, comps: Seq<Seq<char>>, n: int)
    requires
        fs.walk(comps, n) is Ok,
        0 <= n,
    ensures
        fs.reached(comps, n) == (fs, fs.walk(comps, n)->Ok_0),
    decreases n,
{
    if n > 0 {
        lemma_reached_again(fs, comps, n - 1);
    }
}

/// What making the directories of a path leaves.
pub(crate) proof fn lemma_reached_kept(fs: FsView, comps: Seq<Seq<char>>, n: int)
    requires
        fs.wf(),
        0 <= n,
        forall|k: int|
            0 <= k <= n ==> ((#[trigger] fs.walk(comps, k)) matches Ok(i) ==> fs.is_directory(i)),
    ensures
        ({
            let (later, node) = fs.reached(comps, n);
            &&& fs.kept_in(later)
            &&& later.walk(comps, n) == Ok::<int, i32>(node)
            &&& later.is_directory(node)
            &&& fs.walk(comps, n) is Err ==> later.nodes[node].body == BodyView::Dir(Seq::empty())
            &&& forall|k: int|
                0 <= k <= n ==> ((#[trigger] later.walk(comps, k)) matches Ok(i)
                    && later.is_directory(i))
        }),
    decreases n,
{
    let (later, node) = fs.reached(comps, n);
    if n == 0 {
        assert(fs.walk(comps, 0) == Ok::<int, i32>(0));
        assert(fs.is_directory(0));
    } else {
        lemma_reached_kept(fs, comps, n - 1);
        lemma_reached_wf(fs, comps, n - 1);
        let (before, dir) = fs.reached(comps, n - 1);
        let name = comps[n - 1];
        if fs.walk(comps, n) is Ok {
            lemma_reached_again(fs, comps, n);
            assert forall|k: int| 0 <= k <= n implies ((#[trigger] later.walk(comps, k)) matches Ok(
                i,
            ) && later.is_directory(i)) by {
                if fs.walk(comps, k) is Err {
                    lemma_walk_error(fs, comps, k, n);
                }
            }
        } else {
            // The name is missing: in a directory that was there, or in one that
            // was just made and is empty.
            if fs.walk(comps, n - 1) is Ok {
                lemma_reached_again(fs, comps, n - 1);
            }
            assert(before.child(dir, name) is None);
            let made = fresh_node(BodyView::Dir(Seq::empty()), moded(S_IFDIR, 0o755));
            lemma_linked_kept(before, dir, name, made);
            lemma_kept_on(fs, before, later);
            assert(node == before.nodes.len());
            assert(later.nodes[node] == made);
            lemma_walk_kept(before, later, comps, n - 1);
            assert(later.nodes[dir].body is Dir);
            assert(later.walk(comps, n) == Ok::<int, i32>(node));
            assert forall|k: int| 0 <= k <= n implies ((#[trigger] later.walk(comps, k)) matches Ok(
                i,
            ) && later.is_directory(i)) by {
                if k < n {
                    assert(before.walk(comps, k) is Ok);
                    lemma_walk_kept(before, later, comps, k);
                    lemma_walk_bound(before, comps, k);
                    let i = before.walk(comps, k)->Ok_0;
                    assert(later.nodes[i] == (NodeView {
                        body: later.nodes[i].body,
                        ..before.nodes[i]
                    }));
                }
            }
        }
    }
}

/// Making a directory makes the path and every part of it lead to directories,
/// and gives back the number of the last; everything that was there before keeps
/// its number, its mode and its content, and is found where it was; and making it
/// again changes nothing. That is so unless the path goes through something that
/// is there and is no directory.
pub proof fn law_made_directories_stay(fs: FsView, path: Seq<char>)
    requires
        fs.wf(),
        forall|k: int|
            0 <= k <= components(path).len() ==> ((#[trigger] fs.walk(components(path), k)) matches Ok(
                i,
            ) ==> fs.is_directory(i)),
    ensures
        ({
            let comps = components(path);
            let n = comps.len() as int;
            let (later, node) = fs.reached(comps, n);
            &&& later.at(path) == Ok::<int, i32>(node)
            &&& forall|k: int|
                0 <= k <= n ==> ((#[trigger] later.walk(comps, k)) matches Ok(i) && file_type(
                    later.attr(i).mode,
                ) == S_IFDIR)
            &&& node < u64::MAX ==> later.attr(node).ino == node + 1
            &&& fs.kept_in(later)
            &&& forall|other: Seq<char>| (#[trigger] fs.at(other)) is Ok ==> later.at(other)
                == fs.at(other)
            &&& later.reached(comps, n) == (later, node)
        }),
{
    let comps = components(path);
    let n = comps.len() as int;
    let (later, node) = fs.reached(comps, n);
    lemma_reached_kept(fs, comps, n);
    lemma_reached_again(later, comps, n);
    assert forall|other: Seq<char>| (#[trigger] fs.at(other)) is Ok implies later.at(other)
        == fs.at(other) by {
        lemma_walk_kept(fs, later, components(other), components(other).len() as int);
    }
    lemma_reached_wf(fs, comps, n);
}

} // verus!
