//! What a guest can rely on of the in-memory filesystem: what a path means, what
//! an archive leaves in the tree, and what the attributes of a node say.

use vstd::prelude::*;
use vstd::utf8::encode_utf8;

use crate::memfs::{
    components, components_of, digits_end, file_type, fresh_node, is_component, lemma_kept_on,
    lemma_linked_kept, lemma_reached_again, lemma_reached_kept, lemma_reached_wf, lemma_walk_kept,
    makedev_value, moded, octal_value, resized, tar_entry, tar_goes_on, tar_loaded, tar_next,
    zero_at, BodyView, FsView, NodeView,
};
use crate::text::{find_char, lemma_text_round_trip, pieces_from};

verus! {

// ---- paths ---------------------------------------------------------------

/// The path from the root through names from `k` on: a slash before each.
pub open spec fn path_from(names: Seq<Seq<char>>, k: int) -> Seq<char>
    decreases names.len() - k,
{
    if 0 <= k < names.len() {
        seq!['/'] + names[k] + path_from(names, k + 1)
    } else {
        Seq::empty()
    }
}

/// Whether text can be the name of an entry: it is not empty, not a dot, and has
/// no slash.
pub open spec fn is_name(s: Seq<char>) -> bool {
    &&& s.len() > 0
    &&& s != "."@
    &&& forall|i: int| 0 <= i < s.len() ==> #[trigger] s[i] != '/'
}

proof fn lemma_found(s: Seq<char>, from: int, at: int)
    requires
        0 <= from <= at <= s.len(),
        at < s.len() ==> s[at] == '/',
        forall|i: int| from <= i < at ==> s[i] != '/',
    ensures
        find_char(s, '/', from) == if at < s.len() {
            Some(at)
        } else {
            None
        },
    decreases at - from,
{
    if from < at {
        lemma_found(s, from + 1, at);
    }
}

proof fn lemma_pieces(s: Seq<char>, from: int, word: Seq<char>, names: Seq<Seq<char>>, k: int)
    requires
        0 <= from <= s.len(),
        0 <= k <= names.len(),
        s.subrange(from, s.len() as int) == word + path_from(names, k),
        forall|i: int| 0 <= i < word.len() ==> #[trigger] word[i] != '/',
        forall|i: int| 0 <= i < names.len() ==> is_name(#[trigger] names[i]),
    ensures
        pieces_from(s, '/', from) == seq![word] + names.subrange(k, names.len() as int),
    decreases names.len() - k,
{
    let tail = s.subrange(from, s.len() as int);
    let rest = path_from(names, k);
    let at = from + word.len();
    assert(tail.len() == word.len() + rest.len());
    assert forall|i: int| from <= i < at implies s[i] != '/' by {
        assert(s[i] == tail[i - from]);
        assert(tail[i - from] == word[i - from]);
    }
    if k < names.len() {
        assert(rest[0] == '/');
        assert(s[at] == tail[word.len() as int]);
        lemma_found(s, from, at);
        let left = s.subrange(at + 1, s.len() as int);
        let next = names[k] + path_from(names, k + 1);
        assert forall|i: int| 0 <= i < left.len() implies #[trigger] left[i] == next[i] by {
            assert(left[i] == tail[word.len() + 1 + i]);
            assert(tail[word.len() + 1 + i] == rest[1 + i]);
        }
        assert(left =~= next);
        assert(is_name(names[k]));
        lemma_pieces(s, at + 1, names[k], names, k + 1);
        assert(s.subrange(from, at) =~= word);
        assert(seq![word] + (seq![names[k]] + names.subrange(k + 1, names.len() as int))
            =~= seq![word] + names.subrange(k, names.len() as int));
    } else {
        lemma_found(s, from, at);
        assert(tail =~= word);
        assert(seq![word] + names.subrange(k, names.len() as int) =~= seq![word]);
    }
}

proof fn lemma_components_of(parts: Seq<Seq<char>>, names: Seq<Seq<char>>, n: int)
    requires
        parts == seq![Seq::<char>::empty()] + names,
        1 <= n <= parts.len(),
        forall|i: int| 0 <= i < names.len() ==> is_name(#[trigger] names[i]),
    ensures
        components_of(parts, n) == names.subrange(0, n - 1),
    decreases n,
{
    if n == 1 {
        assert(!is_component(parts[0]));
        assert(components_of(parts, 0) =~= Seq::<Seq<char>>::empty());
        assert(names.subrange(0, 0) =~= Seq::<Seq<char>>::empty());
    } else {
        lemma_components_of(parts, names, n - 1);
        assert(parts[n - 1] == names[n - 2]);
        assert(is_name(names[n - 2]));
        assert(names.subrange(0, n - 2).push(names[n - 2]) =~= names.subrange(0, n - 1));
    }
}

/// A path is the names between its slashes, in order.
pub proof fn law_path_is_its_names(names: Seq<Seq<char>>)
    requires
        forall|i: int| 0 <= i < names.len() ==> is_name(#[trigger] names[i]),
    ensures
        components(path_from(names, 0)) == names,
{
    let s = path_from(names, 0);
    let word = Seq::<char>::empty();
    assert(s.subrange(0, s.len() as int) =~= word + s);
    lemma_pieces(s, 0, word, names, 0);
    assert(names.subrange(0, names.len() as int) =~= names);
    let parts = pieces_from(s, '/', 0);
    lemma_components_of(parts, names, parts.len() as int);
}

// ---- populating ----------------------------------------------------------

/// Whether nothing but directories stands on the way to a path, and nothing at it.
pub open spec fn is_free(fs: FsView, path: Seq<char>) -> bool {
    let comps = components(path);
    &&& comps.len() > 0
    &&& fs.at(path) is Err
    &&& forall|k: int|
        0 <= k < comps.len() ==> ((#[trigger] fs.walk(comps, k)) matches Ok(i) ==> fs.is_directory(
            i,
        ))
}

/// What is put at a path that was free is found there, its parents being made;
/// everything that was there before is kept.
pub proof fn law_populated_path_is_found(fs: FsView, path: Seq<char>, node: NodeView)
    requires
        fs.wf(),
        is_free(fs, path),
    ensures
        ({
            let after = fs.with_path(path, node);
            &&& after.at(path) matches Ok(i) && after.nodes[i] == node && fs.nodes.len() <= i
            &&& fs.kept_in(after)
            &&& forall|other: Seq<char>| (#[trigger] fs.at(other)) is Ok ==> after.at(other)
                == fs.at(other)
        }),
{
    let after = fs.with_path(path, node);
    let comps = components(path);
    let n = comps.len() - 1;
    let name = comps.last();
    lemma_reached_kept(fs, comps, n);
    lemma_reached_wf(fs, comps, n);
    let (before, dir) = fs.reached(comps, n);
    if fs.walk(comps, n) is Ok {
        lemma_reached_again(fs, comps, n);
        assert(before.child(dir, name) is None);
    } else {
        assert(before.nodes[dir].body == BodyView::Dir(Seq::empty()));
        assert(before.child(dir, name) is None);
    }
    lemma_linked_kept(before, dir, name, node);
    lemma_kept_on(fs, before, after);
    lemma_walk_kept(before, after, comps, n);
    assert(after.nodes[dir].body is Dir);
    assert(after.walk(comps, n + 1) == Ok::<int, i32>(before.nodes.len() as int));
    assert forall|other: Seq<char>| (#[trigger] fs.at(other)) is Ok implies after.at(other)
        == fs.at(other) by {
        lemma_walk_kept(fs, after, components(other), components(other).len() as int);
    }
}

// ---- archives ------------------------------------------------------------

/// What eleven octal digits spell, the most significant first.
pub open spec fn octal_of(d: Seq<u8>) -> int {
    (d[0] - 48) * 0x4000_0000 + (d[1] - 48) * 0x800_0000 + (d[2] - 48) * 0x100_0000 + (d[3] - 48)
        * 0x20_0000 + (d[4] - 48) * 0x4_0000 + (d[5] - 48) * 0x8000 + (d[6] - 48) * 0x1000 + (d[7]
        - 48) * 512 + (d[8] - 48) * 64 + (d[9] - 48) * 8 + (d[10] - 48)
}

/// Whether a field holds eleven octal digits and an end.
pub open spec fn is_octal(field: Seq<u8>) -> bool {
    &&& field.len() == 12
    &&& forall|i: int| 0 <= i < 11 ==> 48 <= #[trigger] field[i] <= 55
    &&& field[11] == 0 || field[11] == 32
}

/// Whether the header at `pos` is that of an entry of a kind, with a short path
/// and `size` bytes of data, all of them there.
pub open spec fn is_header(tar: Seq<u8>, pos: int, kind: u8, path: Seq<char>, size: int) -> bool {
    let name = encode_utf8(path);
    let field = tar.subrange(pos + 124, pos + 136);
    &&& 0 <= pos
    &&& 0 <= size
    &&& pos + 512 + size <= tar.len()
    &&& 0 < name.len() < 100
    &&& forall|i: int| 0 <= i < name.len() ==> #[trigger] name[i] != 0
    &&& tar.subrange(pos, pos + name.len()) == name
    &&& tar[pos + name.len()] == 0
    &&& is_octal(field)
    &&& octal_of(field) == size
    &&& tar[pos + 156] == kind
    &&& tar[pos + 257] == 0
}

proof fn lemma_eleven_digits(field: Seq<u8>)
    requires
        is_octal(field),
    ensures
        digits_end(field, 0) == 11,
        octal_value(field, 11) == octal_of(field),
{
    assert(48 <= field[0] <= 55 && 48 <= field[1] <= 55 && 48 <= field[2] <= 55 && 48 <= field[3]
        <= 55 && 48 <= field[4] <= 55 && 48 <= field[5] <= 55 && 48 <= field[6] <= 55 && 48
        <= field[7] <= 55 && 48 <= field[8] <= 55 && 48 <= field[9] <= 55 && 48 <= field[10] <= 55);
    reveal_with_fuel(digits_end, 13);
    reveal_with_fuel(octal_value, 12);
}

proof fn lemma_zero(b: Seq<u8>, i: int, at: int)
    requires
        0 <= i <= at < b.len(),
        b[at] == 0,
        forall|j: int| i <= j < at ==> b[j] != 0,
    ensures
        zero_at(b, i) == at,
    decreases at - i,
{
    if i < at {
        lemma_zero(b, i + 1, at);
    }
}

proof fn lemma_header(tar: Seq<u8>, pos: int, kind: u8, path: Seq<char>, size: int)
    requires
        is_header(tar, pos, kind, path, size),
    ensures
        tar_goes_on(tar, pos),
        tar_entry(tar, pos, None).name == path,
        tar_entry(tar, pos, None).kind == kind,
        tar_entry(tar, pos, None).data == tar.subrange(pos + 512, pos + 512 + size),
        tar_next(tar, pos) == pos + 512 + (size + 511) / 512 * 512,
{
    let name = encode_utf8(path);
    let n = name.len() as int;
    let field = tar.subrange(pos + 124, pos + 136);
    lemma_eleven_digits(field);
    let b = tar.subrange(pos, pos + 100);
    assert(b[n] == 0);
    assert forall|j: int| 0 <= j < n implies b[j] != 0 by {
        assert(tar.subrange(pos, pos + n)[j] == name[j]);
    }
    lemma_zero(b, 0, n);
    assert(b.subrange(0, n) =~= name) by {
        assert forall|j: int| 0 <= j < n implies b[j] == name[j] by {
            assert(tar.subrange(pos, pos + n)[j] == name[j]);
        }
    }
    lemma_text_round_trip(path);
    let magic = tar.subrange(pos + 257, pos + 262);
    assert(magic[0] == 0);
    assert(magic != seq![117u8, 115, 116, 97, 114]) by {
        assert(seq![117u8, 115, 116, 97, 114][0] == 117);
    }
    assert(tar[pos] == tar.subrange(pos, pos + n)[0]);
    assert(tar[pos] != 0);
}

/// An archive goes on behind the data of an entry, at the next whole block.
pub proof fn law_archive_goes_on_at_the_next_block(
    tar: Seq<u8>,
    pos: int,
    kind: u8,
    path: Seq<char>,
    size: int,
)
    requires
        is_header(tar, pos, kind, path, size),
    ensures
        (tar_next(tar, pos) - pos) % 512 == 0,
        pos + 512 + size <= tar_next(tar, pos) < pos + 512 + size + 512,
{
    lemma_header(tar, pos, kind, path, size);
}

/// A file in an archive is loaded: its path leads to a regular file with the data
/// of the entry, it counts, and the archive goes on behind it.
pub proof fn law_archived_file_is_loaded(
    fs: FsView,
    tar: Seq<u8>,
    pos: int,
    kind: u8,
    path: Seq<char>,
    size: int,
)
    requires
        fs.wf(),
        is_header(tar, pos, kind, path, size),
        kind == 0 || kind == 48,
        is_free(fs, path),
    ensures
        ({
            let after = tar_entry(tar, pos, None).loaded(fs);
            let rest = tar_loaded(after, tar, tar_next(tar, pos), None);
            &&& after.contents(path) == Ok::<Seq<u8>, i32>(
                tar.subrange(pos + 512, pos + 512 + size),
            )
            &&& after.at(path) matches Ok(i) && after.nodes[i].mode / 0o10000 % 16 == 0o10
            &&& fs.kept_in(after)
            &&& tar_loaded(fs, tar, pos, None) == (rest.0, rest.1 + 1)
        }),
{
    lemma_header(tar, pos, kind, path, size);
    let entry = tar_entry(tar, pos, None);
    law_populated_path_is_found(
        fs,
        path,
        fresh_node(BodyView::File(entry.data), moded(0o100000, entry.mode)),
    );
}

/// A directory in an archive is made, with its parents.
pub proof fn law_archived_directory_is_made(
    fs: FsView,
    tar: Seq<u8>,
    pos: int,
    path: Seq<char>,
    size: int,
)
    requires
        fs.wf(),
        is_header(tar, pos, 53, path, size),
        forall|k: int|
            0 <= k <= components(path).len() ==> ((#[trigger] fs.walk(components(path), k)) matches Ok(
                i,
            ) ==> fs.is_directory(i)),
    ensures
        ({
            let after = tar_entry(tar, pos, None).loaded(fs);
            let rest = tar_loaded(after, tar, tar_next(tar, pos), None);
            &&& after.at(path) matches Ok(i) && after.is_directory(i)
            &&& fs.kept_in(after)
            &&& tar_loaded(fs, tar, pos, None) == (rest.0, rest.1 + 1)
        }),
{
    lemma_header(tar, pos, 53, path, size);
    lemma_reached_kept(fs, components(path), components(path).len() as int);
}

/// A symbolic link in an archive is loaded with the target that its header names.
pub proof fn law_archived_link_is_loaded(
    fs: FsView,
    tar: Seq<u8>,
    pos: int,
    path: Seq<char>,
    size: int,
    target: Seq<char>,
)
    requires
        fs.wf(),
        is_header(tar, pos, 50, path, size),
        is_free(fs, path),
        encode_utf8(target).len() < 100,
        forall|i: int|
            0 <= i < encode_utf8(target).len() ==> #[trigger] encode_utf8(target)[i] != 0,
        tar.subrange(pos + 157, pos + 157 + encode_utf8(target).len()) == encode_utf8(target),
        tar[pos + 157 + encode_utf8(target).len()] == 0,
    ensures
        ({
            let after = tar_entry(tar, pos, None).loaded(fs);
            let rest = tar_loaded(after, tar, tar_next(tar, pos), None);
            &&& after.at(path) matches Ok(i) && after.nodes[i].body == BodyView::Link(target)
                && after.nodes[i].mode == 0o120777
            &&& fs.kept_in(after)
            &&& tar_loaded(fs, tar, pos, None) == (rest.0, rest.1 + 1)
        }),
{
    lemma_header(tar, pos, 50, path, size);
    let bytes = encode_utf8(target);
    let n = bytes.len() as int;
    let b = tar.subrange(pos + 157, pos + 257);
    assert forall|j: int| 0 <= j < n implies b[j] == bytes[j] by {
        assert(tar.subrange(pos + 157, pos + 157 + n)[j] == bytes[j]);
    }
    assert(b[n] == 0);
    lemma_zero(b, 0, n);
    assert(b.subrange(0, n) =~= bytes);
    lemma_text_round_trip(target);
    law_populated_path_is_found(
        fs,
        path,
        fresh_node(BodyView::Link(target), moded(0o120000, 0o777)),
    );
}

// ---- attributes ----------------------------------------------------------

/// The attributes of a node are its own: a number of its own, its mode, owner and
/// times, and two links for a directory and one for anything else.
pub proof fn law_attributes_are_the_nodes(fs: FsView, i: int)
    requires
        0 <= i < fs.nodes.len() < u64::MAX,
    ensures
        ({
            let a = fs.attr(i);
            let n = fs.nodes[i];
            &&& a.ino == i + 1
            &&& a.mode == n.mode && a.uid == n.uid && a.gid == n.gid
            &&& a.atime == n.atime && a.mtime == n.mtime && a.ctime == n.ctime
            &&& (n.mode / 0o10000 % 16 == 4 ==> a.nlink == 2)
            &&& (n.mode / 0o10000 % 16 != 4 ==> a.nlink == 1)
            &&& (n.body matches BodyView::Special(rdev) ==> a.rdev == rdev)
            &&& (!(n.body is Special) ==> a.rdev == 0)
        }),
{
}

/// The size of a file is the number of its bytes, and that of a link the number
/// of bytes of its target; the blocks are as many of 512 bytes as hold it.
pub proof fn law_size_is_what_is_held(fs: FsView, i: int)
    requires
        0 <= i < fs.nodes.len(),
        fs.size_of(i) <= u64::MAX - 511,
    ensures
        fs.nodes[i].body matches BodyView::File(d) ==> fs.attr(i).size == d.len(),
        fs.nodes[i].body matches BodyView::Link(t) ==> fs.attr(i).size == encode_utf8(t).len(),
        fs.attr(i).blocks * 512 >= fs.attr(i).size,
        fs.attr(i).blocks * 512 < fs.attr(i).size + 512,
{
}

/// A mode is its kind and its twelve permission bits.
pub proof fn law_mode_is_kind_and_permissions(kind: u32, mode: u32)
    requires
        kind == 0o040000 || kind == 0o100000 || kind == 0o120000,
    ensures
        file_type(moded(kind, mode)) == kind,
        moded(kind, mode) % 0o10000 == mode % 0o10000,
{
}

/// A resized file keeps what fits and is zeros behind it.
pub proof fn law_resized_file_keeps_what_fits(data: Seq<u8>, n: nat, i: int)
    requires
        0 <= i < n,
    ensures
        resized(data, n).len() == n,
        i < data.len() ==> resized(data, n)[i] == data[i],
        i >= data.len() ==> resized(data, n)[i] == 0,
{
}

proof fn lemma_parts(a: int, b: int, c: int, d: int)
    requires
        0 <= a < 0x10_0000,
        0 <= b < 4096,
        0 <= c < 0x100_0000,
        0 <= d < 256,
    ensures
        ({
            let dev = a * 0x1000_0000_0000 + b * 256 + c * 0x10_0000 + d;
            &&& dev % 256 == d
            &&& dev / 256 % 4096 == b
            &&& dev / 0x10_0000 % 0x100_0000 == c
            &&& dev / 0x1000_0000_0000 == a
        }),
{
    let dev = a * 0x1000_0000_0000 + b * 256 + c * 0x10_0000 + d;
    let high = a * 0x100_0000 + c;
    let low = b * 256 + d;
    assert(0 <= low < 0x10_0000);
    assert(dev == high * 0x10_0000 + low);
    assert(dev / 0x10_0000 == high);
    assert(high % 0x100_0000 == c);
    let mid = high * 4096 + b;
    assert(dev == mid * 256 + d);
    assert(dev / 256 == mid);
    assert(mid % 4096 == b);
    assert(0 <= c * 0x10_0000 + low < 0x1000_0000_0000);
}

/// A device number holds both numbers that it was made of: the low byte of the
/// minor and the low twelve bits of the major at the bottom, the rest above.
pub proof fn law_device_number_holds_both(major: u32, minor: u32)
    ensures
        ({
            let dev = makedev_value(major, minor);
            &&& 0 <= dev <= u64::MAX
            &&& major == dev / 256 % 4096 + dev / 0x1000_0000_0000 * 4096
            &&& minor == dev % 256 + dev / 0x10_0000 % 0x100_0000 * 256
        }),
{
    lemma_parts(
        major as int / 4096,
        major as int % 4096,
        minor as int / 256,
        minor as int % 256,
    );
}

} // verus!
