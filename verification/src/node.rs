//! File trees as values: what a stored tree stands for, independent of where and
//! how it is stored, and how one entry of a directory is replaced.

use crate::text::{chars_of, utf8_text};
use vstd::prelude::*;
use vstd::utf8::{decode_utf8, valid_utf8};

verus! {

/// The mode of an ordinary file.
pub const BLOB_MODE: u32 = 33188;

/// The mode of a directory.
pub const TREE_MODE: u32 = 16384;

/// The mode of an entry that names a commit of another repository.
pub const LINK_MODE: u32 = 57344;

/// A file, a commit of another repository, or a directory.
pub enum Node {
    Blob { mode: u32, data: Seq<u8> },
    Link { id: Seq<u8> },
    Dir(Map<Seq<u8>, Node>),
}

/// A directory: the node that stands under each name.
pub type Dir = Map<Seq<u8>, Node>;

/// The directory without entries.
pub open spec fn empty_dir() -> Dir {
    Map::empty()
}

/// The entry of `d` called `name`.
pub open spec fn child(d: Dir, name: Seq<u8>) -> Option<Node> {
    if d.dom().contains(name) {
        Some(d[name])
    } else {
        None
    }
}

/// The node without the mode that its entry gave it: a file is an ordinary file.
pub open spec fn plain(n: Node) -> Node {
    match n {
        Node::Blob { mode, data } => Node::Blob { mode: BLOB_MODE, data },
        _ => n,
    }
}

/// An ASCII capital letter as the small one, any other byte as it is.
pub open spec fn lower(b: u8) -> u8 {
    if 65 <= b <= 90 {
        (b + 32) as u8
    } else {
        b
    }
}

/// `name` starts with `r`, which is in small letters, but for the case of letters.
pub open spec fn starts_ignoring_case(name: Seq<u8>, r: Seq<u8>) -> bool {
    name.len() >= r.len() && forall|i: int| 0 <= i < r.len() ==> lower(#[trigger] name[i]) == r[i]
}

/// What follows the first `k` bytes of `name` is dropped by a file system that knows
/// alternate streams and elides trailing dots and spaces.
pub open spec fn elided_after(name: Seq<u8>, k: int) -> bool {
    ||| k < name.len() && (name[k] == 92 || name[k] == 58)
    ||| forall|i: int| k <= i < name.len() ==> #[trigger] name[i] == 32 || name[i] == 46
}

/// `.git`.
pub open spec fn dot_git() -> Seq<u8> {
    seq![46u8, 103u8, 105u8, 116u8]
}

/// `git~1`, the short name that a file system may give to `.git`.
pub open spec fn git_short() -> Seq<u8> {
    seq![103u8, 105u8, 116u8, 126u8, 49u8]
}

/// A byte string that an entry of a stored tree may be called.
pub open spec fn name_storable(name: Seq<u8>) -> bool {
    name.len() > 0 && forall|i: int| 0 <= i < name.len() ==> #[trigger] name[i] != 47 && name[i] != 0
}

/// Which file systems the names in a repository have to be safe on, besides those that take
/// names as they are: `core.protectNTFS` and `core.protectHFS` in the settings of a repository.
#[derive(Clone, Copy, PartialEq, Eq, Structural, Debug)]
pub struct Rules {
    pub protect_ntfs: bool,
    pub protect_hfs: bool,
}

/// A file system that knows short names and alternate streams, and elides trailing dots and
/// spaces, takes the name for `.git`. Where libgit2 runs on Windows it refuses also the short
/// name that the directory of the repository itself has there, which is not counted here.
pub open spec fn is_ntfs_git(name: Seq<u8>) -> bool {
    ||| starts_ignoring_case(name, dot_git()) && elided_after(name, 4)
    ||| starts_ignoring_case(name, git_short()) && elided_after(name, 5)
}

/// A character that a file system may ignore in names.
pub open spec fn hfs_ignores(c: char) -> bool {
    let u = c as u32;
    0x200c <= u <= 0x200f || 0x202a <= u <= 0x202e || 0x206a <= u <= 0x206f || u == 0xfeff
}

/// The characters among the first `k` that are not ignored.
pub open spec fn hfs_shown(t: Seq<char>, k: int) -> Seq<char>
    decreases k,
{
    if k <= 0 {
        Seq::empty()
    } else if hfs_ignores(t[k - 1]) {
        hfs_shown(t, k - 1)
    } else {
        hfs_shown(t, k - 1).push(t[k - 1])
    }
}

/// The low byte of a character, of an ASCII capital letter that of the small one.
pub open spec fn low_byte(c: char) -> int {
    let u = c as u32;
    if 65 <= u <= 90 {
        u + 32
    } else {
        (u % 256) as int
    }
}

/// A file system that ignores some characters takes the name for `.git`. Of the letters only
/// the low bytes count.
pub open spec fn is_hfs_git(name: Seq<u8>) -> bool {
    let t = decode_utf8(name);
    let s = hfs_shown(t, t.len() as int);
    &&& valid_utf8(name)
    &&& s.len() == 4 && s[0] == '.'
    &&& low_byte(s[1]) == 103 && low_byte(s[2]) == 105 && low_byte(s[3]) == 116
}

/// A name under which an entry may be added to a tree: not empty, without a separator
/// or a zero byte, not `.` or `..`, and not one that a file system takes for `.git`. These
/// are the names that libgit2 lets into a tree.
pub open spec fn name_ok(rules: Rules, name: Seq<u8>) -> bool {
    &&& name_storable(name)
    &&& name != seq![46u8]
    &&& name != seq![46u8, 46u8]
    &&& rules.protect_ntfs ==> !is_ntfs_git(name)
    &&& rules.protect_hfs ==> !is_hfs_git(name)
    &&& !rules.protect_ntfs && !rules.protect_hfs ==> !(name.len() == 4 && starts_ignoring_case(
        name,
        dot_git(),
    ))
}

/// Where none of the first characters is ignored, the name starts with them for every file
/// system.
pub proof fn lemma_hfs_start(t: Seq<char>, k: int, j: int)
    requires
        0 <= j <= k <= t.len(),
        forall|i: int| 0 <= i < j ==> !hfs_ignores(#[trigger] t[i]),
    ensures
        j <= hfs_shown(t, k).len(),
        forall|i: int| 0 <= i < j ==> #[trigger] hfs_shown(t, k)[i] == t[i],
        k == j ==> hfs_shown(t, k).len() == j,
    decreases k,
{
    if k > j {
        lemma_hfs_start(t, k - 1, j);
    } else if k > 0 {
        lemma_hfs_start(t, k - 1, j - 1);
    }
}

/// What stands under `name`, where `before` stood, once it was replaced by `item`.
/// No item, or a directory without entries, takes the entry away. A commit of another
/// repository, or an item under a name that is not in order, changes nothing.
pub open spec fn child_after(
    rules: Rules,
    before: Option<Node>,
    name: Seq<u8>,
    item: Option<Node>,
) -> Option<Node> {
    match item {
        None => None,
        Some(Node::Dir(m)) => if m == empty_dir() {
            None
        } else if name_ok(rules, name) {
            item
        } else {
            before
        },
        Some(Node::Blob { mode, data }) => if name_ok(rules, name) {
            Some(Node::Blob { mode: BLOB_MODE, data })
        } else {
            before
        },
        Some(Node::Link { id }) => before,
    }
}

/// The directory `d` with `node` under `name`, or without that name.
pub open spec fn with_child(d: Dir, name: Seq<u8>, node: Option<Node>) -> Dir {
    match node {
        Some(n) => d.insert(name, n),
        None => d.remove(name),
    }
}

/// The directory `d` once its entry `name` was replaced by `item`.
pub open spec fn put_child(rules: Rules, d: Dir, name: Seq<u8>, item: Option<Node>) -> Dir {
    with_child(d, name, child_after(rules, child(d, name), name, item))
}

/// The directory that `n` is, or the empty one.
pub open spec fn dir_or_empty(n: Option<Node>) -> Dir {
    match n {
        Some(Node::Dir(m)) => m,
        _ => empty_dir(),
    }
}

fn has_prefix(name: &[u8], r: &[u8]) -> (b: bool)
    ensures
        b == starts_ignoring_case(name@, r@),
{
    if name.len() < r.len() {
        return false;
    }
    let mut i: usize = 0;
    while i < r.len()
        invariant
            r.len() <= name.len(),
            i <= r.len(),
            forall|k: int| 0 <= k < i ==> lower(#[trigger] name@[k]) == r@[k],
        decreases r.len() - i,
    {
        let c: u8 = name[i];
        let l: u8 = if 65 <= c && c <= 90 { c + 32 } else { c };
        if l != r[i] {
            return false;
        }
        i += 1;
    }
    true
}

fn is_elided_after(name: &[u8], k: usize) -> (b: bool)
    requires
        k <= name@.len(),
    ensures
        b == elided_after(name@, k as int),
{
    if k < name.len() && (name[k] == 92 || name[k] == 58) {
        return true;
    }
    let mut i: usize = k;
    while i < name.len()
        invariant
            k <= i <= name.len(),
            !(k < name.len() && (name@[k as int] == 92 || name@[k as int] == 58)),
            forall|j: int| k <= j < i ==> #[trigger] name@[j] == 32 || name@[j] == 46,
        decreases name.len() - i,
    {
        if name[i] != 32 && name[i] != 46 {
            return false;
        }
        i += 1;
    }
    true
}

/// Whether an entry of a stored tree may be called `name`.
pub fn is_name_storable(name: &[u8]) -> (b: bool)
    ensures
        b == name_storable(name@),
{
    let mut i: usize = 0;
    while i < name.len()
        invariant
            i <= name.len(),
            forall|j: int| 0 <= j < i ==> #[trigger] name@[j] != 47 && name@[j] != 0,
        decreases name.len() - i,
    {
        if name[i] == 47 || name[i] == 0 {
            return false;
        }
        i += 1;
    }
    name.len() > 0
}

fn takes_for_ntfs_git(name: &[u8]) -> (b: bool)
    ensures
        b == is_ntfs_git(name@),
{
    let git: [u8; 4] = [46, 103, 105, 116];
    let short: [u8; 5] = [103, 105, 116, 126, 49];
    assert(git@ =~= dot_git());
    assert(short@ =~= git_short());
    if has_prefix(name, git.as_slice()) && is_elided_after(name, 4) {
        return true;
    }
    has_prefix(name, short.as_slice()) && is_elided_after(name, 5)
}

fn low_byte_of(c: char) -> (r: u32)
    ensures
        r == low_byte(c),
{
    let u: u32 = c as u32;
    if 65 <= u && u <= 90 {
        u + 32
    } else {
        u % 256
    }
}

fn takes_for_hfs_git(name: &[u8]) -> (b: bool)
    ensures
        b == is_hfs_git(name@),
{
    let t = match utf8_text(name) {
        Some(t) => chars_of(t),
        None => {
            return false;
        },
    };
    let mut shown: Vec<char> = Vec::new();
    let mut i: usize = 0;
    while i < t.len()
        invariant
            i <= t@.len(),
            shown@ == hfs_shown(t@, i as int),
        decreases t@.len() - i,
    {
        let c: char = t[i];
        let u: u32 = c as u32;
        if !(0x200c <= u && u <= 0x200f || 0x202a <= u && u <= 0x202e || 0x206a <= u && u <= 0x206f
            || u == 0xfeff) {
            shown.push(c);
        }
        i += 1;
    }
    shown.len() == 4 && shown[0] == '.' && low_byte_of(shown[1]) == 103 && low_byte_of(shown[2])
        == 105 && low_byte_of(shown[3]) == 116
}

/// Whether an entry called `name` may be added to a tree.
pub fn is_name_ok(rules: Rules, name: &[u8]) -> (b: bool)
    ensures
        b == name_ok(rules, name@),
{
    if !is_name_storable(name) {
        return false;
    }
    if name.len() == 1 && name[0] == 46 {
        assert(name@ =~= seq![46u8]);
        return false;
    }
    if name.len() == 2 && name[0] == 46 && name[1] == 46 {
        assert(name@ =~= seq![46u8, 46u8]);
        return false;
    }
    if rules.protect_ntfs && takes_for_ntfs_git(name) {
        return false;
    }
    if rules.protect_hfs && takes_for_hfs_git(name) {
        return false;
    }
    let git: [u8; 4] = [46, 103, 105, 116];
    assert(git@ =~= dot_git());
    rules.protect_ntfs || rules.protect_hfs || !(name.len() == 4 && has_prefix(
        name,
        git.as_slice(),
    ))
}

} // verus!
