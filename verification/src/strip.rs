//! Keeping the files of a tree whose paths match a pattern.

use crate::arena::{
    arena_wf, at, dir, is_blob, is_tree, item, lemma_dir_entry, lemma_dir_listed, lemma_dir_stable,
    lemma_extends_transitive, lemma_has_pos, lemma_item_stable, lemma_node_mode, node, pos, Arena,
    Oid,
};
use crate::error::{Error, ErrorView};
use crate::ids::{lemma_stored_listing, listing, lists, names_of};
use crate::memo::{lemma_memo_get, lemma_memo_set, lemma_memo_stable, memo_values, Memo, MemoView};
use crate::node::{child, child_after, empty_dir, put_child, BLOB_MODE, Dir, Node, Rules};
use crate::path::{join, joined};
use crate::pattern::{pattern_hits, Pattern};
use crate::repo::{entry_views, Repo};
use crate::table::IdMap;
use crate::text::{chars_of, replace_all, replaced_all, utf8_text};
use crate::tree::replace_child;
use vstd::prelude::*;
use vstd::utf8::{decode_utf8, encode_utf8, valid_utf8};

verus! {

/// The path of the directory called `name` in the directory at `root`.
pub open spec fn dir_path(root: Seq<char>, name: Seq<char>) -> Seq<char> {
    if root.len() == 0 {
        name
    } else {
        root + "/"@ + name
    }
}

/// A path written as one name.
pub open spec fn to_ns(path: Seq<char>) -> Seq<char> {
    replace_all(path, "/"@, "%2F"@)
}

/// The name of the file that records where a directory stood.
pub open spec fn marker(root: Seq<char>) -> Seq<char> {
    "JOSH_ORIG_PATH_"@ + to_ns(root)
}

/// The directory `n`, which stands at `root`, with those files only whose paths match the
/// pattern, or do not match it where `invert` says so, and with the directories that hold
/// any. Where `dirs` says so, each directory below the top gets a file that records where
/// it stood.
pub open spec fn strip(
    rules: Rules,
    n: Node,
    root: Seq<char>,
    pattern: Seq<char>,
    invert: bool,
    dirs: bool,
) -> Dir
    decreases n,
{
    match n {
        Node::Dir(m) => {
            let kept = |name: Seq<u8>|
                if m.dom().contains(name) {
                    match m[name] {
                        Node::Blob { .. } => if pattern_hits(pattern, join(root, decode_utf8(name)))
                            == !invert {
                            child_after(rules, None, name, Some(m[name]))
                        } else {
                            None
                        },
                        Node::Dir(_) => child_after(
                            rules,
                            None,
                            name,
                            Some(
                                Node::Dir(
                                    strip(
                                        rules,
                                        m[name],
                                        dir_path(root, decode_utf8(name)),
                                        pattern,
                                        invert,
                                        dirs,
                                    ),
                                ),
                            ),
                        ),
                        Node::Link { .. } => None,
                    }
                } else {
                    None
                };
            let all = Map::new(|name: Seq<u8>| kept(name) is Some, |name: Seq<u8>| kept(name)->0);
            if dirs && root.len() > 0 {
                put_child(
                    rules,
                    all,
                    encode_utf8(marker(root)),
                    Some(Node::Blob { mode: BLOB_MODE, data: Seq::empty() }),
                )
            } else {
                all
            }
        },
        _ => empty_dir(),
    }
}

/// What is kept of the entry `name` of the directory `m`.
pub open spec fn kept_child(
    rules: Rules,
    m: Dir,
    root: Seq<char>,
    pattern: Seq<char>,
    invert: bool,
    dirs: bool,
    name: Seq<u8>,
) -> Option<Node> {
    match child(m, name) {
        Some(Node::Blob { mode, data }) => if pattern_hits(pattern, join(root, decode_utf8(name)))
            == !invert {
            child_after(rules, None, name, Some(Node::Blob { mode, data }))
        } else {
            None
        },
        Some(Node::Dir(s)) => child_after(
            rules,
            None,
            name,
            Some(
                Node::Dir(
                    strip(
                        rules,
                        Node::Dir(s),
                        dir_path(root, decode_utf8(name)),
                        pattern,
                        invert,
                        dirs,
                    ),
                ),
            ),
        ),
        _ => None,
    }
}

/// What is kept of the entries of the directory `m`.
pub open spec fn kept_entries(
    rules: Rules,
    m: Dir,
    root: Seq<char>,
    pattern: Seq<char>,
    invert: bool,
    dirs: bool,
) -> Dir {
    Map::new(
        |n: Seq<u8>| kept_child(rules, m, root, pattern, invert, dirs, n) is Some,
        |n: Seq<u8>| kept_child(rules, m, root, pattern, invert, dirs, n)->0,
    )
}

/// A directory is stripped entry by entry.
pub proof fn lemma_strip_dir(
    rules: Rules,
    m: Dir,
    root: Seq<char>,
    pattern: Seq<char>,
    invert: bool,
    dirs: bool,
)
    ensures
        strip(rules, Node::Dir(m), root, pattern, invert, dirs) == (if dirs && root.len() > 0 {
            put_child(
                rules,
                kept_entries(rules, m, root, pattern, invert, dirs),
                encode_utf8(marker(root)),
                Some(Node::Blob { mode: BLOB_MODE, data: Seq::empty() }),
            )
        } else {
            kept_entries(rules, m, root, pattern, invert, dirs)
        }),
{
    let all = strip(rules, Node::Dir(m), root, pattern, invert, false);
    assert(strip(rules, Node::Dir(m), Seq::empty(), pattern, invert, dirs) =~= kept_entries(
        rules,
        m,
        Seq::empty(),
        pattern,
        invert,
        dirs,
    ));
    assert(all =~= kept_entries(rules, m, root, pattern, invert, false));
}

/// Whether the names of all files and directories in `n` are text.
pub open spec fn names_are_text(n: Node) -> bool
    decreases n,
{
    match n {
        Node::Dir(m) => forall|name: Seq<u8>| #[trigger]
            m.dom().contains(name) ==> match m[name] {
                Node::Link { .. } => true,
                _ => valid_utf8(name) && names_are_text(m[name]),
            },
        _ => true,
    }
}

/// What is wrong with the name of the entry `name` of a directory, or with one inside it.
/// Only the names of files and directories have to be text, and nothing is read of a
/// directory for which there is a record.
pub open spec fn entry_error(
    n: Node,
    name: Seq<u8>,
    root: Seq<char>,
    memo: MemoView,
) -> Option<ErrorView>
    decreases n, 2int, 0int,
{
    match n {
        Node::Blob { .. } => if valid_utf8(name) {
            None
        } else {
            Some(ErrorView::InvalidFilename)
        },
        Node::Dir(_) => if valid_utf8(name) {
            name_error(n, dir_path(root, decode_utf8(name)), memo)
        } else {
            Some(ErrorView::NoName)
        },
        Node::Link { .. } => None,
    }
}

/// The first thing that is wrong with the first `k` of the names in the directory `n`.
pub open spec fn names_error(
    n: Node,
    names: Seq<Seq<u8>>,
    k: int,
    root: Seq<char>,
    memo: MemoView,
) -> Option<ErrorView>
    decreases n, 0int, k,
{
    if k <= 0 {
        None
    } else {
        match names_error(n, names, k - 1, root, memo) {
            Some(e) => Some(e),
            None => match n {
                Node::Dir(m) => if m.dom().contains(names[k - 1]) {
                    entry_error(m[names[k - 1]], names[k - 1], root, memo)
                } else {
                    None
                },
                _ => None,
            },
        }
    }
}

/// The first thing that is wrong with the names in the directory `n`, which stands at
/// `root`, in the order in which the entries stand.
pub open spec fn name_error(n: Node, root: Seq<char>, memo: MemoView) -> Option<ErrorView>
    decreases n, 1int, 0int,
{
    match n {
        Node::Dir(m) => if memo.dom().contains((root, m)) {
            None
        } else {
            names_error(n, listing(m), listing(m).len() as int, root, memo)
        },
        _ => None,
    }
}

/// The directory `n` stripped as `strip` does it, but for the directories for which there
/// is a record.
pub open spec fn strip_with(
    rules: Rules,
    n: Node,
    root: Seq<char>,
    pattern: Seq<char>,
    invert: bool,
    dirs: bool,
    memo: MemoView,
) -> Dir
    decreases n,
{
    match n {
        Node::Dir(m) => if memo.dom().contains((root, m)) {
            memo[(root, m)]
        } else {
            let kept = |name: Seq<u8>|
                if m.dom().contains(name) {
                    match m[name] {
                        Node::Blob { .. } => if pattern_hits(pattern, join(root, decode_utf8(name)))
                            == !invert {
                            child_after(rules, None, name, Some(m[name]))
                        } else {
                            None
                        },
                        Node::Dir(_) => child_after(
                            rules,
                            None,
                            name,
                            Some(
                                Node::Dir(
                                    strip_with(
                                        rules,
                                        m[name],
                                        dir_path(root, decode_utf8(name)),
                                        pattern,
                                        invert,
                                        dirs,
                                        memo,
                                    ),
                                ),
                            ),
                        ),
                        Node::Link { .. } => None,
                    }
                } else {
                    None
                };
            let all = Map::new(|name: Seq<u8>| kept(name) is Some, |name: Seq<u8>| kept(name)->0);
            if dirs && root.len() > 0 {
                put_child(
                    rules,
                    all,
                    encode_utf8(marker(root)),
                    Some(Node::Blob { mode: BLOB_MODE, data: Seq::empty() }),
                )
            } else {
                all
            }
        },
        _ => empty_dir(),
    }
}

/// What is kept of the entry `name` of the directory `m`, where some is on record.
pub open spec fn kept_with(
    rules: Rules,
    m: Dir,
    root: Seq<char>,
    pattern: Seq<char>,
    invert: bool,
    dirs: bool,
    memo: MemoView,
    name: Seq<u8>,
) -> Option<Node> {
    match child(m, name) {
        Some(Node::Blob { mode, data }) => if pattern_hits(pattern, join(root, decode_utf8(name)))
            == !invert {
            child_after(rules, None, name, Some(Node::Blob { mode, data }))
        } else {
            None
        },
        Some(Node::Dir(s)) => child_after(
            rules,
            None,
            name,
            Some(
                Node::Dir(
                    strip_with(
                        rules,
                        Node::Dir(s),
                        dir_path(root, decode_utf8(name)),
                        pattern,
                        invert,
                        dirs,
                        memo,
                    ),
                ),
            ),
        ),
        _ => None,
    }
}

/// What is kept of the entries of the directory `m`, where some is on record.
pub open spec fn entries_with(
    rules: Rules,
    m: Dir,
    root: Seq<char>,
    pattern: Seq<char>,
    invert: bool,
    dirs: bool,
    memo: MemoView,
) -> Dir {
    Map::new(
        |n: Seq<u8>| kept_with(rules, m, root, pattern, invert, dirs, memo, n) is Some,
        |n: Seq<u8>| kept_with(rules, m, root, pattern, invert, dirs, memo, n)->0,
    )
}

proof fn lemma_strip_with_dir(
    rules: Rules,
    m: Dir,
    root: Seq<char>,
    pattern: Seq<char>,
    invert: bool,
    dirs: bool,
    memo: MemoView,
)
    requires
        !memo.dom().contains((root, m)),
    ensures
        strip_with(
            rules,
            Node::Dir(m),
            root,
            pattern,
            invert,
            dirs,
            memo,
        ) == (if dirs && root.len() > 0 {
            put_child(
                rules,
                entries_with(rules, m, root, pattern, invert, dirs, memo),
                encode_utf8(marker(root)),
                Some(Node::Blob { mode: BLOB_MODE, data: Seq::empty() }),
            )
        } else {
            entries_with(rules, m, root, pattern, invert, dirs, memo)
        }),
{
    let kept = |name: Seq<u8>|
        if m.dom().contains(name) {
            match m[name] {
                Node::Blob { .. } => if pattern_hits(pattern, join(root, decode_utf8(name)))
                    == !invert {
                    child_after(rules, None, name, Some(m[name]))
                } else {
                    None
                },
                Node::Dir(_) => child_after(
                    rules,
                    None,
                    name,
                    Some(
                        Node::Dir(
                            strip_with(
                                rules,
                                m[name],
                                dir_path(root, decode_utf8(name)),
                                pattern,
                                invert,
                                dirs,
                                memo,
                            ),
                        ),
                    ),
                ),
                Node::Link { .. } => None,
            }
        } else {
            None
        };
    let all = Map::new(|name: Seq<u8>| kept(name) is Some, |name: Seq<u8>| kept(name)->0);
    assert(all =~= entries_with(rules, m, root, pattern, invert, dirs, memo));
}

/// The second record holds what the first holds, and results that follow from the first.
pub open spec fn adds(
    rules: Rules,
    first: MemoView,
    second: MemoView,
    pattern: Seq<char>,
    invert: bool,
    dirs: bool,
) -> bool {
    &&& forall|k: (Seq<char>, Dir)| #[trigger]
        first.dom().contains(k) ==> second.dom().contains(k) && second[k] == first[k]
    &&& forall|k: (Seq<char>, Dir)| #[trigger]
        second.dom().contains(k) && !first.dom().contains(k) ==> name_error(
            Node::Dir(k.1),
            k.0,
            first,
        ) is None && second[k] == strip_with(
            rules,
            Node::Dir(k.1),
            k.0,
            pattern,
            invert,
            dirs,
            first,
        )
}

/// A record that says nothing new changes no result.
pub proof fn lemma_adds(
    rules: Rules,
    n: Node,
    root: Seq<char>,
    pattern: Seq<char>,
    invert: bool,
    dirs: bool,
    first: MemoView,
    second: MemoView,
)
    requires
        adds(rules, first, second, pattern, invert, dirs),
    ensures
        strip_with(rules, n, root, pattern, invert, dirs, second) == strip_with(
            rules,
            n,
            root,
            pattern,
            invert,
            dirs,
            first,
        ),
        name_error(n, root, second) == name_error(n, root, first),
    decreases n,
{
    if let Node::Dir(m) = n {
        if !second.dom().contains((root, m)) {
            assert forall|name: Seq<u8>| #[trigger] m.dom().contains(
                name,
            ) && m[name] is Dir implies {
                let path = dir_path(root, decode_utf8(name));
                &&& strip_with(rules, m[name], path, pattern, invert, dirs, second) == strip_with(
                    rules,
                    m[name],
                    path,
                    pattern,
                    invert,
                    dirs,
                    first,
                )
                &&& name_error(m[name], path, second) == name_error(m[name], path, first)
            } by {
                lemma_adds(
                    rules,
                    m[name],
                    dir_path(root, decode_utf8(name)),
                    pattern,
                    invert,
                    dirs,
                    first,
                    second,
                );
            }
            lemma_strip_with_dir(rules, m, root, pattern, invert, dirs, first);
            lemma_strip_with_dir(rules, m, root, pattern, invert, dirs, second);
            assert(entries_with(rules, m, root, pattern, invert, dirs, second) =~= entries_with(
                rules,
                m,
                root,
                pattern,
                invert,
                dirs,
                first,
            ));
            lemma_adds_names(n, listing(m), listing(m).len() as int, root, first, second);
        }
    }
}

proof fn lemma_adds_names(
    n: Node,
    names: Seq<Seq<u8>>,
    k: int,
    root: Seq<char>,
    first: MemoView,
    second: MemoView,
)
    requires
        n matches Node::Dir(m) && forall|name: Seq<u8>| #[trigger]
            m.dom().contains(name) && m[name] is Dir ==> name_error(
                m[name],
                dir_path(root, decode_utf8(name)),
                second,
            ) == name_error(m[name], dir_path(root, decode_utf8(name)), first),
    ensures
        names_error(n, names, k, root, second) == names_error(n, names, k, root, first),
    decreases k,
{
    if k > 0 {
        lemma_adds_names(n, names, k - 1, root, first, second);
        let m = n->Dir_0;
        let x = names[k - 1];
        if m.dom().contains(x) {
            assert(entry_error(m[x], x, root, second) == entry_error(m[x], x, root, first));
        }
    }
}

/// What follows from a record that follows from a record follows from that one.
proof fn lemma_adds_transitive(
    rules: Rules,
    first: MemoView,
    second: MemoView,
    third: MemoView,
    pattern: Seq<char>,
    invert: bool,
    dirs: bool,
)
    requires
        adds(rules, first, second, pattern, invert, dirs),
        adds(rules, second, third, pattern, invert, dirs),
    ensures
        adds(rules, first, third, pattern, invert, dirs),
{
    assert forall|k: (Seq<char>, Dir)| #[trigger]
        third.dom().contains(k) && !first.dom().contains(k) implies name_error(
        Node::Dir(k.1),
        k.0,
        first,
    ) is None && third[k] == strip_with(
        rules,
        Node::Dir(k.1),
        k.0,
        pattern,
        invert,
        dirs,
        first,
    ) by {
        if second.dom().contains(k) {
            assert(third[k] == second[k]);
        } else {
            lemma_adds(rules, Node::Dir(k.1), k.0, pattern, invert, dirs, first, second);
        }
    }
    assert forall|k: (Seq<char>, Dir)| #[trigger] first.dom().contains(
        k,
    ) implies third.dom().contains(
        k,
    ) && third[k] == first[k] by {
        assert(second.dom().contains(k));
    }
}

/// Each record is what stripping gives.
pub open spec fn right(
    rules: Rules,
    memo: MemoView,
    pattern: Seq<char>,
    invert: bool,
    dirs: bool,
) -> bool {
    forall|k: (Seq<char>, Dir)| #[trigger]
        memo.dom().contains(k) ==> names_are_text(Node::Dir(k.1)) && memo[k] == strip(
            rules,
            Node::Dir(k.1),
            k.0,
            pattern,
            invert,
            dirs,
        )
}

/// The names of the directory, and those in all directories inside it, can be listed.
pub open spec fn listable(n: Node) -> bool
    decreases n,
{
    match n {
        Node::Dir(m) => lists(m, listing(m)) && forall|name: Seq<u8>| #[trigger]
            m.dom().contains(name) ==> listable(m[name]),
        _ => true,
    }
}

/// The names in a stored tree can be listed.
pub proof fn lemma_listable(a: Arena, i: int, mode: u32)
    requires
        arena_wf(a),
        0 <= i < a.len(),
        i <= usize::MAX,
    ensures
        listable(node(a, i, mode)),
    decreases i,
{
    if a[i] is Tree {
        let o = Oid::Object(i as usize);
        lemma_dir_listed(a, o);
        lemma_stored_listing(a, o);
        let m = dir(a, o);
        let es = a[i]->Tree_0;
        assert forall|name: Seq<u8>| #[trigger] m.dom().contains(name) implies listable(
            m[name],
        ) by {
            lemma_has_pos(es, name);
            let j = pos(es, name);
            lemma_dir_entry(a, o, j);
            lemma_listable(a, at(es[j].oid), es[j].mode);
        }
        assert(node(a, i, mode) == Node::Dir(m));
    }
}

/// A name that is wrong is wrong among more names.
pub proof fn lemma_names_error_stays(
    n: Node,
    names: Seq<Seq<u8>>,
    j: int,
    k: int,
    root: Seq<char>,
    memo: MemoView,
)
    requires
        names_error(n, names, j, root, memo) is Some,
        j <= k,
    ensures
        names_error(n, names, k, root, memo) == names_error(n, names, j, root, memo),
    decreases k - j,
{
    if j < k {
        lemma_names_error_stays(n, names, j, k - 1, root, memo);
    }
}

/// All names in the directories that are on record are text.
pub open spec fn names_known(memo: MemoView) -> bool {
    forall|k: (Seq<char>, Dir)| #[trigger]
        memo.dom().contains(k) ==> names_are_text(Node::Dir(k.1))
}

/// With nothing wrong with any of the first `k` names, nothing is wrong with them.
pub proof fn lemma_names_fine(n: Node, names: Seq<Seq<u8>>, k: int, root: Seq<char>, memo: MemoView)
    requires
        n matches Node::Dir(m) && forall|i: int|
            0 <= i < k ==> entry_error(m[#[trigger] names[i]], names[i], root, memo) is None,
    ensures
        names_error(n, names, k, root, memo) is None,
    decreases k,
{
    if k > 0 {
        lemma_names_fine(n, names, k - 1, root, memo);
        assert(entry_error(n->Dir_0[names[k - 1]], names[k - 1], root, memo) is None);
    }
}

proof fn lemma_names_iff(m: Dir, root: Seq<char>, memo: MemoView)
    requires
        names_known(memo),
        lists(m, listing(m)),
        forall|name: Seq<u8>| #[trigger]
            m.dom().contains(name) && m[name] is Dir ==> (name_error(
                m[name],
                dir_path(root, decode_utf8(name)),
                memo,
            ) is None <==> names_are_text(m[name])),
    ensures
        name_error(Node::Dir(m), root, memo) is None <==> names_are_text(Node::Dir(m)),
{
    let n = Node::Dir(m);
    let names = listing(m);
    let len = names.len() as int;
    if names_are_text(n) {
        assert forall|i: int| 0 <= i < len implies entry_error(
            m[#[trigger] names[i]],
            names[i],
            root,
            memo,
        ) is None by {
            assert(names.contains(names[i]));
            assert(m.dom().contains(names[i]));
        }
        lemma_names_fine(n, names, len, root, memo);
    } else {
        let name = choose|name: Seq<u8>| #[trigger]
            m.dom().contains(name) && !(m[name] is Link || (valid_utf8(name) && names_are_text(
                m[name],
            )));
        assert(names.contains(name));
        let i = names.index_of(name);
        assert(names[i] == name);
        assert(entry_error(m[name], name, root, memo) is Some);
        assert(names_error(n, names, i + 1, root, memo) is Some);
        lemma_names_error_stays(n, names, i + 1, len, root, memo);
    }
}

proof fn lemma_names_agree(
    m: Dir,
    names: Seq<Seq<u8>>,
    k: int,
    r1: Seq<char>,
    m1: MemoView,
    r2: Seq<char>,
    m2: MemoView,
)
    requires
        forall|name: Seq<u8>| #[trigger]
            m.dom().contains(name) && m[name] is Dir ==> name_error(
                m[name],
                dir_path(r1, decode_utf8(name)),
                m1,
            ) == name_error(m[name], dir_path(r2, decode_utf8(name)), m2),
    ensures
        names_error(Node::Dir(m), names, k, r1, m1) == names_error(Node::Dir(m), names, k, r2, m2),
    decreases k,
{
    if k > 0 {
        lemma_names_agree(m, names, k - 1, r1, m1, r2, m2);
        let x = names[k - 1];
        if m.dom().contains(x) {
            assert(entry_error(m[x], x, r1, m1) == entry_error(m[x], x, r2, m2));
        }
    }
}

/// What is wrong with the names in a directory depends neither on where it stands nor on
/// what is on record.
pub proof fn lemma_same_error(n: Node, r1: Seq<char>, m1: MemoView, r2: Seq<char>, m2: MemoView)
    requires
        names_known(m1),
        names_known(m2),
        listable(n),
    ensures
        name_error(n, r1, m1) == name_error(n, r2, m2),
        name_error(n, r1, m1) is None <==> names_are_text(n),
    decreases n,
{
    if let Node::Dir(m) = n {
        assert forall|name: Seq<u8>| #[trigger] m.dom().contains(name) && m[name] is Dir implies {
            let p1 = dir_path(r1, decode_utf8(name));
            let p2 = dir_path(r2, decode_utf8(name));
            &&& name_error(m[name], p1, m1) == name_error(m[name], p2, m2)
            &&& name_error(m[name], p1, m1) is None <==> names_are_text(m[name])
        } by {
            lemma_same_error(
                m[name],
                dir_path(r1, decode_utf8(name)),
                m1,
                dir_path(r2, decode_utf8(name)),
                m2,
            );
        }
        lemma_names_iff(m, r1, m1);
        lemma_names_iff(m, r2, m2);
        lemma_names_agree(m, listing(m), listing(m).len() as int, r1, m1, r2, m2);
    }
}

/// With records that are right, the result is that of stripping without any.
pub proof fn lemma_right(
    rules: Rules,
    n: Node,
    root: Seq<char>,
    pattern: Seq<char>,
    invert: bool,
    dirs: bool,
    memo: MemoView,
)
    requires
        right(rules, memo, pattern, invert, dirs),
    ensures
        strip_with(rules, n, root, pattern, invert, dirs, memo) == strip(
            rules,
            n,
            root,
            pattern,
            invert,
            dirs,
        ),
    decreases n,
{
    if let Node::Dir(m) = n {
        if !memo.dom().contains((root, m)) {
            assert forall|name: Seq<u8>| #[trigger] m.dom().contains(
                name,
            ) && m[name] is Dir implies strip_with(
                rules,
                m[name],
                dir_path(root, decode_utf8(name)),
                pattern,
                invert,
                dirs,
                memo,
            ) == strip(
                rules,
                m[name],
                dir_path(root, decode_utf8(name)),
                pattern,
                invert,
                dirs,
            ) by {
                lemma_right(
                    rules,
                    m[name],
                    dir_path(root, decode_utf8(name)),
                    pattern,
                    invert,
                    dirs,
                    memo,
                );
            }
            lemma_strip_with_dir(rules, m, root, pattern, invert, dirs, memo);
            lemma_strip_dir(rules, m, root, pattern, invert, dirs);
            assert(entries_with(rules, m, root, pattern, invert, dirs, memo) =~= kept_entries(
                rules,
                m,
                root,
                pattern,
                invert,
                dirs,
            ));
        }
    }
}

/// Records that follow from records that are right are right.
pub proof fn lemma_right_stays(
    rules: Rules,
    first: MemoView,
    second: MemoView,
    pattern: Seq<char>,
    invert: bool,
    dirs: bool,
)
    requires
        right(rules, first, pattern, invert, dirs),
        adds(rules, first, second, pattern, invert, dirs),
        forall|k: (Seq<char>, Dir)| #[trigger]
            second.dom().contains(k) ==> listable(Node::Dir(k.1)),
    ensures
        right(rules, second, pattern, invert, dirs),
{
    assert forall|k: (Seq<char>, Dir)| #[trigger] second.dom().contains(k) implies names_are_text(
        Node::Dir(k.1),
    ) && second[k] == strip(rules, Node::Dir(k.1), k.0, pattern, invert, dirs) by {
        if !first.dom().contains(k) {
            lemma_right(rules, Node::Dir(k.1), k.0, pattern, invert, dirs, first);
            lemma_same_error(Node::Dir(k.1), k.0, first, k.0, first);
        }
    }
}

/// The path `p` is `root`, or leads to something inside it.
pub open spec fn below(root: Seq<char>, p: Seq<char>) -> bool {
    root.len() == 0 || p == root || (root + "/"@).is_prefix_of(p)
}

/// What is below a directory in a directory is below that one.
proof fn lemma_below(root: Seq<char>, name: Seq<char>, p: Seq<char>)
    requires
        below(dir_path(root, name), p),
        dir_path(root, name).len() > 0,
    ensures
        below(root, p),
{
    if root.len() > 0 {
        let q = dir_path(root, name);
        assert((root + "/"@).is_prefix_of(q)) by {
            assert(q.subrange(0, (root + "/"@).len() as int) =~= root + "/"@);
        }
        if p != q {
            let w = q + "/"@;
            assert(p.subrange(0, w.len() as int) =~= w);
            assert(p.subrange(0, (root + "/"@).len() as int) =~= root + "/"@) by {
                assert forall|i: int| 0 <= i < (root + "/"@).len() implies p[i] == (root + "/"@)[i] by {
                    assert(p[i] == p.subrange(0, w.len() as int)[i]);
                }
            }
        }
    }
}

fn path_below(root: &str, name: &str) -> (r: String)
    ensures
        r@ == dir_path(root@, name@),
{
    let mut r: String = root.to_owned();
    if chars_of(root).len() > 0 {
        r.append("/");
    }
    r.append(name);
    assert(r@ =~= dir_path(root@, name@));
    r
}

fn marker_of(root: &str) -> (r: String)
    ensures
        r@ == marker(root@),
{
    proof {
        reveal_strlit("/");
    }
    let mut r: String = "JOSH_ORIG_PATH_".to_owned();
    let ns = replaced_all(root, "/", "%2F");
    r.append(ns.as_str());
    r
}

/// What a map of ids holds after a tree at `root` was stripped: what it held before, and
/// results for trees at that path or below it.
pub open spec fn memo_grown(first: IdMap, second: IdMap, root: Seq<char>) -> bool {
    &&& forall|k: (Seq<char>, Oid)| #[trigger]
        first.dom().contains(k) ==> second.dom().contains(k) && second[k] == first[k]
    &&& forall|k: (Seq<char>, Oid)| #[trigger]
        second.dom().contains(k) && !first.dom().contains(k) ==> below(root, k.0)
}

/// The path of a directory in a directory is not empty.
proof fn lemma_path_some(root: Seq<char>, name: Seq<char>, bytes: Seq<u8>)
    requires
        bytes.len() > 0,
        valid_utf8(bytes),
        name == decode_utf8(bytes),
    ensures
        dir_path(root, name).len() > 0,
{
    if name.len() == 0 {
        reveal_with_fuel(decode_utf8, 2);
    }
}

/// Records for what stands below a directory are records for what stands below the one
/// that holds it.
proof fn lemma_memo_grown(
    first: IdMap,
    second: IdMap,
    third: IdMap,
    root: Seq<char>,
    name: Seq<char>,
)
    requires
        memo_grown(first, second, root),
        memo_grown(second, third, dir_path(root, name)),
        dir_path(root, name).len() > 0,
    ensures
        memo_grown(first, third, root),
{
    assert forall|k: (Seq<char>, Oid)| #[trigger]
        third.dom().contains(k) && !first.dom().contains(k) implies below(root, k.0) by {
        if !second.dom().contains(k) {
            lemma_below(root, name, k.0);
        } else {
            assert(second.dom().contains(k));
        }
    }
    assert forall|k: (Seq<char>, Oid)| #[trigger] first.dom().contains(
        k,
    ) implies third.dom().contains(
        k,
    ) && third[k] == first[k] by {
        assert(second.dom().contains(k));
    }
}

/// The tree with those files only that the pattern selects. A tree for which there is a
/// record is not read, whatever the pattern; other results are added to the records.
pub fn striped_tree(
    repo: &mut Repo,
    root: &str,
    input: Oid,
    pattern: &Pattern,
    invert: bool,
    dirs: bool,
    memo: &mut Memo,
) -> (r: Result<Oid, Error>)
    requires
        old(repo).wf(),
        old(memo).wf(old(repo)@),
    ensures
        final(repo).grown_from(*old(repo)),
        final(memo).wf(final(repo)@),
        memo_grown(old(memo)@, final(memo)@, root@),
        adds(
            old(repo).rules(),
            memo_values(old(repo)@, old(memo)@),
            memo_values(final(repo)@, final(memo)@),
            pattern@,
            invert,
            dirs,
        ),
        old(memo)@.dom().contains((root@, input)) ==> {
            &&& r matches Ok(o) && o == old(memo)@[(root@, input)]
            &&& *final(repo) == *old(repo)
            &&& *final(memo) == *old(memo)
        },
        r matches Ok(o) ==> final(memo)@.dom().contains((root@, input)) && final(memo)@[(
            root@,
            input,
        )] == o,
        !is_tree(old(repo)@, input) ==> (r matches Err(e) && e@ == ErrorView::NotFound)
            && *final(repo) == *old(repo) && *final(memo) == *old(memo),
        is_tree(old(repo)@, input) ==> ({
            let n = Node::Dir(dir(old(repo)@, input));
            let known = memo_values(old(repo)@, old(memo)@);
            match r {
                Ok(o) => is_tree(final(repo)@, o) && name_error(n, root@, known) is None && dir(
                    final(repo)@,
                    o,
                ) == strip_with(old(repo).rules(), n, root@, pattern@, invert, dirs, known),
                Err(e) => name_error(n, root@, known) == Some(e@),
            }
        }),
    decreases at(input),
{
    let ghost rules = repo.rules();
    let ghost a0 = repo@;
    let ghost known = memo_values(a0, memo@);
    let ghost pat = pattern@;
    if let Some(o) = memo.get(root, input) {
        proof {
            lemma_memo_get(a0, memo@, root@, input);
        }
        return Ok(o);
    }
    if !repo.is_tree(input) {
        return Err(Error::NotFound);
    }
    let ghost m = dir(a0, input);
    let ghost n0 = Node::Dir(m);
    let ghost names = listing(m);
    let ghost want = entries_with(rules, m, root@, pat, invert, dirs, known);
    proof {
        lemma_memo_get(a0, memo@, root@, input);
        lemma_stored_listing(a0, input);
    }
    let es = repo.entries(input);
    let ghost ev = entry_views(es@);
    let mut result: Oid = repo.empty_tree();
    proof {
        assert(dir(repo@, result) =~= empty_dir());
        lemma_memo_stable(a0, repo@, memo@);
    }
    let mut i: usize = 0;
    while i < es.len()
        invariant
            rules == repo.rules(),
            rules == old(repo).rules(),
            repo.grown_from(*old(repo)),
            old(repo).wf(),
            a0 == old(repo)@,
            is_tree(a0, input),
            m == dir(a0, input),
            n0 == Node::Dir(m),
            names == listing(m),
            names == names_of(ev),
            pat == pattern@,
            known == memo_values(a0, old(memo)@),
            !known.dom().contains((root@, m)),
            !old(memo)@.dom().contains((root@, input)),
            memo.wf(repo@),
            memo_grown(old(memo)@, memo@, root@),
            adds(rules, known, memo_values(repo@, memo@), pat, invert, dirs),
            ev == entry_views(es@),
            ev == a0[at(input)]->Tree_0,
            i <= es.len(),
            is_tree(repo@, result),
            names_error(n0, names, i as int, root@, known) is None,
            forall|n: Seq<u8>|
                #[trigger] child(dir(repo@, result), n) == if exists|j: int|
                    0 <= j < i && (#[trigger] ev[j]).name == n {
                    kept_with(rules, m, root@, pat, invert, dirs, known, n)
                } else {
                    None
                },
        decreases es.len() - i,
    {
        let ghost a1 = repo@;
        let ghost r1 = dir(a1, result);
        let ghost n = ev[i as int].name;
        let ghost w1 = memo@;
        let oid: Oid = es[i].oid;
        let name = es[i].name.as_slice();
        proof {
            lemma_dir_entry(a0, input, i as int);
            lemma_item_stable(a0, a1, oid);
            lemma_node_mode(a0, at(oid), ev[i as int].mode, BLOB_MODE);
            assert forall|k: int| 0 <= k < i implies (#[trigger] ev[k]).name != n by {
                lemma_dir_entry(a0, input, k);
                lemma_dir_listed(a0, input);
            }
            assert(child(r1, n) is None);
            assert(names[i as int] == n);
            assert(names_error(n0, names, i + 1, root@, known) == entry_error(
                m[n],
                n,
                root@,
                known,
            ));
        }
        let mut next: Oid = result;
        if repo.is_blob(oid) {
            match utf8_text(name) {
                None => {
                    proof {
                        lemma_names_error_stays(n0, names, i + 1, names.len() as int, root@, known);
                    }
                    return Err(Error::InvalidFilename);
                },
                Some(text) => {
                    let path = joined(root, text);
                    if pattern.hits(path.as_str()) == !invert {
                        next = replace_child(repo, name, oid, result);
                    }
                },
            }
            proof {
                lemma_memo_stable(a1, repo@, memo@);
            }
        } else if repo.is_tree(oid) {
            match utf8_text(name) {
                None => {
                    proof {
                        lemma_names_error_stays(n0, names, i + 1, names.len() as int, root@, known);
                    }
                    return Err(Error::NoName);
                },
                Some(text) => {
                    let path = path_below(root, text);
                    proof {
                        lemma_dir_listed(a0, oid);
                        lemma_dir_stable(a0, a1, oid);
                        lemma_adds(
                            rules,
                            m[n],
                            path@,
                            pat,
                            invert,
                            dirs,
                            known,
                            memo_values(a1, memo@),
                        );
                    }
                    let r = striped_tree(repo, path.as_str(), oid, pattern, invert, dirs, memo);
                    proof {
                        lemma_extends_transitive(a0, a1, repo@);
                        lemma_adds_transitive(
                            rules,
                            known,
                            memo_values(a1, w1),
                            memo_values(repo@, memo@),
                            pat,
                            invert,
                            dirs,
                        );
                        lemma_path_some(root@, text@, n);
                        lemma_memo_grown(old(memo)@, w1, memo@, root@, text@);
                    }
                    let s = match r {
                        Ok(s) => s,
                        Err(e) => {
                            proof {
                                lemma_names_error_stays(
                                    n0,
                                    names,
                                    i + 1,
                                    names.len() as int,
                                    root@,
                                    known,
                                );
                            }
                            return Err(e);
                        },
                    };
                    let ghost a2 = repo@;
                    proof {
                        lemma_dir_stable(a1, a2, result);
                        lemma_dir_listed(a2, s);
                    }
                    if repo.is_empty_tree(s) {
                        next = result;
                        assert(dir(repo@, next) == r1);
                    } else {
                        next = replace_child(repo, name, s, result);
                        proof {
                            lemma_memo_stable(a2, repo@, memo@);
                            lemma_extends_transitive(a0, a2, repo@);
                        }
                    }
                },
            }
        }
        proof {
            if is_blob(a0, oid) {
                lemma_extends_transitive(a0, a1, repo@);
            }
            let r2 = dir(repo@, next);
            assert(child(r2, n) == kept_with(rules, m, root@, pat, invert, dirs, known, n));
            assert forall|k: Seq<u8>| #[trigger] child(r2, k) == if exists|j: int|
                0 <= j < i + 1 && (#[trigger] ev[j]).name == k {
                kept_with(rules, m, root@, pat, invert, dirs, known, k)
            } else {
                None
            } by {
                if k == n {
                    assert(ev[i as int].name == k);
                } else {
                    assert(child(r2, k) == child(r1, k));
                    if exists|j: int| 0 <= j < i && (#[trigger] ev[j]).name == k {
                        let j = choose|j: int| 0 <= j < i && (#[trigger] ev[j]).name == k;
                        assert(ev[j].name == k);
                    }
                }
            }
        }
        result = next;
        i += 1;
    }
    proof {
        let r = dir(repo@, result);
        assert forall|n: Seq<u8>| #[trigger] m.dom().contains(n) implies exists|j: int|
            0 <= j < ev.len() && (#[trigger] ev[j]).name == n by {
            lemma_dir_listed(a0, input);
            lemma_has_pos(ev, n);
        }
        assert forall|n: Seq<u8>| r.dom().contains(n) <==> want.dom().contains(n) by {
            assert(child(r, n) is Some <==> r.dom().contains(n));
            if m.dom().contains(n) {
            }
        }
        assert forall|n: Seq<u8>| #[trigger] r.dom().contains(n) implies r[n] == want[n] by {
            assert(child(r, n) == Some(r[n]));
        }
        assert(r =~= want);
        lemma_strip_with_dir(rules, m, root@, pat, invert, dirs, known);
    }
    let ghost w2 = memo@;
    let ghost a3 = repo@;
    if dirs && chars_of(root).len() > 0 {
        let empty_blob = repo.add_blob(Vec::new());
        proof {
            lemma_extends_transitive(a0, a3, repo@);
            lemma_dir_stable(a3, repo@, result);
            assert(item(repo@, empty_blob) == Some(
                Node::Blob { mode: BLOB_MODE, data: Seq::<u8>::empty() },
            ));
        }
        let ghost a4 = repo@;
        let name = marker_of(root);
        result = replace_child(repo, name.as_str().as_bytes(), empty_blob, result);
        proof {
            lemma_extends_transitive(a0, a4, repo@);
            lemma_extends_transitive(a3, a4, repo@);
        }
    }
    proof {
        lemma_memo_stable(a3, repo@, w2);
        lemma_dir_stable(a0, repo@, input);
        lemma_memo_set(repo@, w2, root@, input, result);
    }
    memo.set(root, input, result);
    proof {
        let before = memo_values(repo@, w2);
        let after = memo_values(repo@, memo@);
        assert(after == before.insert((root@, m), dir(repo@, result)));
        assert forall|k: (Seq<char>, Dir)| #[trigger]
            after.dom().contains(k) && !known.dom().contains(k) implies name_error(
            Node::Dir(k.1),
            k.0,
            known,
        ) is None && after[k] == strip_with(
            rules,
            Node::Dir(k.1),
            k.0,
            pat,
            invert,
            dirs,
            known,
        ) by {
            if k != (root@, m) {
                assert(before.dom().contains(k));
            }
        }
        assert forall|k: (Seq<char>, Dir)| #[trigger] known.dom().contains(
            k,
        ) implies after.dom().contains(
            k,
        ) && after[k] == known[k] by {
            assert(before.dom().contains(k));
        }
    }
    Ok(result)
}

} // verus!
