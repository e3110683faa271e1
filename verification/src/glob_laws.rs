//! What holds of selecting files by pattern, and of laying trees over each other.

use crate::apply::apply_tree;
use crate::error::ErrorView;
use crate::filter::FilterView;
use crate::laws::gets_and_puts;
use crate::merge::{lemma_merge_dirs, merge, mergeable, merged_child};
use crate::node::{child, child_after, empty_dir, name_ok, plain, BLOB_MODE, Dir, Node, Rules};
use crate::path::join;
use crate::pattern::pattern_hits;
use crate::strip::{dir_path, kept_child, lemma_strip_dir, names_are_text, strip};
use vstd::prelude::*;
use vstd::utf8::{decode_utf8, valid_utf8};

verus! {

/// The content of the file to which the names lead.
pub open spec fn file_at(d: Dir, names: Seq<Seq<u8>>) -> Option<Seq<u8>>
    decreases names.len(),
{
    if names.len() == 0 {
        None
    } else {
        match child(d, names[0]) {
            Some(Node::Blob { data, .. }) => if names.len() == 1 {
                Some(data)
            } else {
                None
            },
            Some(Node::Dir(m)) => file_at(m, names.skip(1)),
            _ => None,
        }
    }
}

/// The path, from `root` on, that the names write down.
pub open spec fn path_text(root: Seq<char>, names: Seq<Seq<u8>>) -> Seq<char>
    decreases names.len(),
{
    if names.len() <= 1 {
        join(root, decode_utf8(names[0]))
    } else {
        path_text(dir_path(root, decode_utf8(names[0])), names.skip(1))
    }
}

/// All names can be given to entries of trees.
pub open spec fn names_ok(rules: Rules, names: Seq<Seq<u8>>) -> bool {
    forall|i: int| 0 <= i < names.len() ==> name_ok(rules, #[trigger] names[i])
}

/// What is kept under a name.
pub proof fn lemma_kept(
    rules: Rules,
    d: Dir,
    root: Seq<char>,
    pattern: Seq<char>,
    invert: bool,
    name: Seq<u8>,
)
    ensures
        child(strip(rules, Node::Dir(d), root, pattern, invert, false), name) == kept_child(
            rules,
            d,
            root,
            pattern,
            invert,
            false,
            name,
        ),
{
    lemma_strip_dir(rules, d, root, pattern, invert, false);
}

/// Stripping a directory that stands at `root` keeps exactly the files whose paths match, or
/// do not match where it is inverted, with their content, as far as their names can be given
/// to entries.
pub proof fn law_strip_keeps(
    rules: Rules,
    d: Dir,
    root: Seq<char>,
    pattern: Seq<char>,
    invert: bool,
    names: Seq<Seq<u8>>,
)
    requires
        names.len() > 0,
    ensures
        file_at(
            strip(rules, Node::Dir(d), root, pattern, invert, false),
            names,
        ) == (if names_ok(rules, names)
            && pattern_hits(pattern, path_text(root, names)) == !invert {
            file_at(d, names)
        } else {
            None
        }),
    decreases names.len(),
{
    let s = strip(rules, Node::Dir(d), root, pattern, invert, false);
    let name = names[0];
    let rest = names.skip(1);
    lemma_kept(rules, d, root, pattern, invert, name);
    if names.len() == 1 {
        assert(names_ok(rules, names) == name_ok(rules, name));
        assert(file_at(empty_dir(), rest) is None);
        if let Some(Node::Dir(m)) = child(d, name) {
            assert(file_at(m, rest) is None);
            if let Some(Node::Dir(w)) = child(s, name) {
                assert(file_at(w, rest) is None);
            }
        }
    } else {
        assert(names_ok(rules, names) == (name_ok(rules, name) && names_ok(rules, rest))) by {
            if name_ok(rules, name) && names_ok(rules, rest) {
                assert forall|i: int| 0 <= i < names.len() implies name_ok(
                    rules,
                    #[trigger] names[i],
                ) by {
                    if i > 0 {
                        assert(names[i] == rest[i - 1]);
                    }
                }
            }
            if names_ok(rules, names) {
                assert forall|i: int| 0 <= i < rest.len() implies name_ok(
                    rules,
                    #[trigger] rest[i],
                ) by {
                    assert(names[i + 1] == rest[i]);
                }
                assert(name_ok(rules, names[0]));
            }
        }
        if let Some(Node::Dir(m)) = child(d, name) {
            law_strip_keeps(rules, m, dir_path(root, decode_utf8(name)), pattern, invert, rest);
            let w = strip(
                rules,
                Node::Dir(m),
                dir_path(root, decode_utf8(name)),
                pattern,
                invert,
                false,
            );
            if w == empty_dir() {
                assert(child(w, rest[0]) is None);
                assert(file_at(w, rest) is None);
            }
        }
    }
}

/// A filter by pattern keeps exactly the files whose paths match, or do not match where it
/// is inverted, with their content, as far as their names can be given to entries.
pub proof fn law_glob_keeps(
    rules: Rules,
    pattern: Seq<char>,
    invert: bool,
    d: Dir,
    n: nat,
    names: Seq<Seq<u8>>,
)
    requires
        names.len() > 0,
    ensures
        apply_tree(rules, FilterView::Glob { pattern, invert }, d, n) matches Ok(t) ==> file_at(
            t,
            names,
        )
            == (if names_ok(rules, names) && pattern_hits(pattern, path_text(Seq::empty(), names))
            == !invert {
            file_at(d, names)
        } else {
            None
        }),
        apply_tree(rules, FilterView::Glob { pattern, invert }, d, n) is Ok <==> names_are_text(
            Node::Dir(d),
        ),
{
    law_strip_keeps(rules, d, Seq::empty(), pattern, invert, names);
}

/// A pattern and its inverse share the files of a tree out: each file that has a name in
/// order is kept by one of the two and not by the other.
pub proof fn law_glob_shares_out(
    rules: Rules,
    pattern: Seq<char>,
    d: Dir,
    n: nat,
    names: Seq<Seq<u8>>,
)
    requires
        names_are_text(Node::Dir(d)),
        names_ok(rules, names),
        file_at(d, names) is Some,
    ensures
        ({
            let hit = apply_tree(rules, FilterView::Glob { pattern, invert: false }, d, n)->Ok_0;
            let rest = apply_tree(rules, FilterView::Glob { pattern, invert: true }, d, n)->Ok_0;
            &&& file_at(hit, names) == file_at(d, names) || file_at(rest, names) == file_at(
                d,
                names,
            )
            &&& file_at(hit, names) is None || file_at(rest, names) is None
        }),
{
    law_glob_keeps(rules, pattern, false, d, n, names);
    law_glob_keeps(rules, pattern, true, d, n, names);
}

proof fn lemma_strip_twice(rules: Rules, d: Dir, root: Seq<char>, pattern: Seq<char>, invert: bool)
    ensures
        strip(
            rules,
            Node::Dir(strip(rules, Node::Dir(d), root, pattern, invert, false)),
            root,
            pattern,
            invert,
            false,
        ) == strip(rules, Node::Dir(d), root, pattern, invert, false),
    decreases Node::Dir(d),
{
    let s = strip(rules, Node::Dir(d), root, pattern, invert, false);
    let w = strip(rules, Node::Dir(s), root, pattern, invert, false);
    assert forall|name: Seq<u8>| #[trigger] child(w, name) == child(s, name) by {
        lemma_kept(rules, d, root, pattern, invert, name);
        lemma_kept(rules, s, root, pattern, invert, name);
        if let Some(Node::Dir(m)) = child(d, name) {
            assert(decreases_to!(Node::Dir(d) => d[name]));
            lemma_strip_twice(rules, m, dir_path(root, decode_utf8(name)), pattern, invert);
        }
    }
    assert forall|name: Seq<u8>| #[trigger] w.dom().contains(name) <==> s.dom().contains(name) by {
        assert(child(w, name) == child(s, name));
    }
    assert forall|name: Seq<u8>| #[trigger] w.dom().contains(name) implies w[name] == s[name] by {
        assert(child(w, name) == child(s, name));
    }
    assert(w =~= s);
}

proof fn lemma_strip_text(rules: Rules, d: Dir, root: Seq<char>, pattern: Seq<char>, invert: bool)
    requires
        names_are_text(Node::Dir(d)),
    ensures
        names_are_text(Node::Dir(strip(rules, Node::Dir(d), root, pattern, invert, false))),
    decreases Node::Dir(d),
{
    let s = strip(rules, Node::Dir(d), root, pattern, invert, false);
    assert forall|name: Seq<u8>| #[trigger] s.dom().contains(name) implies match s[name] {
        Node::Link { .. } => true,
        _ => valid_utf8(name) && names_are_text(s[name]),
    } by {
        lemma_kept(rules, d, root, pattern, invert, name);
        assert(child(s, name) is Some);
        assert(d.dom().contains(name));
        if let Some(Node::Dir(m)) = child(d, name) {
            assert(decreases_to!(Node::Dir(d) => d[name]));
            lemma_strip_text(rules, m, dir_path(root, decode_utf8(name)), pattern, invert);
        }
    }
}

/// What a filter by pattern has kept, it keeps.
pub proof fn law_glob_idempotent(rules: Rules, pattern: Seq<char>, invert: bool, d: Dir, n: nat)
    ensures
        apply_tree(rules, FilterView::Glob { pattern, invert }, d, n) matches Ok(t) ==> apply_tree(
            rules,
            FilterView::Glob { pattern, invert },
            t,
            n,
        ) == Ok::<Dir, ErrorView>(t),
{
    if names_are_text(Node::Dir(d)) {
        lemma_strip_twice(rules, d, Seq::empty(), pattern, invert);
        lemma_strip_text(rules, d, Seq::empty(), pattern, invert);
    }
}

/// A tree of ordinary files, in directories with entries, all with names in order.
pub open spec fn tidy(rules: Rules, n: Node) -> bool
    decreases n,
{
    match n {
        Node::Blob { mode, .. } => mode == BLOB_MODE,
        Node::Link { .. } => false,
        Node::Dir(m) => forall|name: Seq<u8>| #[trigger]
            m.dom().contains(name) ==> {
                &&& name_ok(rules, name)
                &&& valid_utf8(name)
                &&& m[name] != Node::Dir(empty_dir())
                &&& tidy(rules, m[name])
            },
    }
}

pub proof fn lemma_tidy_text(rules: Rules, n: Node)
    requires
        tidy(rules, n),
    ensures
        names_are_text(n),
    decreases n,
{
    if let Node::Dir(m) = n {
        assert forall|name: Seq<u8>| #[trigger] m.dom().contains(name) implies match m[name] {
            Node::Link { .. } => true,
            _ => valid_utf8(name) && names_are_text(m[name]),
        } by {
            lemma_tidy_text(rules, m[name]);
        }
    }
}

/// Directories with the same entries are the same.
pub proof fn lemma_same_dir(x: Dir, y: Dir)
    requires
        forall|name: Seq<u8>| #[trigger] child(x, name) == child(y, name),
    ensures
        x == y,
{
    assert forall|name: Seq<u8>| #[trigger] x.dom().contains(name) <==> y.dom().contains(name) by {
        assert(child(x, name) == child(y, name));
    }
    assert forall|name: Seq<u8>| #[trigger] x.dom().contains(name) implies x[name] == y[name] by {
        assert(child(x, name) == child(y, name));
    }
    assert(x =~= y);
}

/// Whether the entry `n`, called `name`, is the same once a directory was merged with what
/// is kept of it: `kept` tells whether something is kept of the entry, `inner` whether
/// what stands in it is the same, and `free` whether what is not kept is left alone or has
/// to be added.
pub open spec fn stays(
    rules: Rules,
    n: Node,
    name: Seq<u8>,
    kept: bool,
    inner: bool,
    free: bool,
) -> bool {
    &&& kept ==> inner
    &&& kept || !free ==> (n matches Node::Blob { mode, .. } ==> mode == BLOB_MODE)
    &&& !kept && !free ==> name_ok(rules, name) && !(n is Link) && n != Node::Dir(empty_dir())
}

/// The directory `n`, which stands at `root`, is the same once it was merged with what is
/// kept of it. Where it is `free`, the entries that are kept are put into the directory;
/// where it is not, all entries of the directory are put into what is kept. The two take
/// turns from one directory to those in it.
pub open spec fn survives(
    rules: Rules,
    n: Node,
    root: Seq<char>,
    pattern: Seq<char>,
    invert: bool,
    free: bool,
) -> bool
    decreases n,
{
    match n {
        Node::Dir(m) => forall|name: Seq<u8>| #[trigger]
            m.dom().contains(name) ==> stays(
                rules,
                m[name],
                name,
                kept_child(rules, m, root, pattern, invert, false, name) is Some,
                survives(rules, m[name], dir_path(root, decode_utf8(name)), pattern, invert, !free),
                free,
            ),
        _ => true,
    }
}

/// What the entry called `name` tells of merging a directory with what is kept of it.
proof fn lemma_entry_survives(
    rules: Rules,
    d: Dir,
    root: Seq<char>,
    pattern: Seq<char>,
    invert: bool,
    name: Seq<u8>,
)
    requires
        names_are_text(Node::Dir(d)),
        d.dom().contains(name),
    ensures
        ({
            let s = strip(rules, Node::Dir(d), root, pattern, invert, false);
            let kept = kept_child(rules, d, root, pattern, invert, false, name) is Some;
            let below = dir_path(root, decode_utf8(name));
            &&& s.dom().contains(name) == kept
            &&& stays(
                rules,
                d[name],
                name,
                kept,
                survives(rules, d[name], below, pattern, invert, false),
                true,
            ) == (kept ==> child_after(
                rules,
                Some(d[name]),
                name,
                Some(merge(rules, s[name], d[name])),
            ) == Some(
                d[name],
            ) && mergeable(s[name], d[name]))
            &&& stays(
                rules,
                d[name],
                name,
                kept,
                survives(rules, d[name], below, pattern, invert, true),
                false,
            ) == (child_after(
                rules,
                child(s, name),
                name,
                Some(
                    if kept {
                        merge(rules, d[name], s[name])
                    } else {
                        plain(d[name])
                    },
                ),
            ) == Some(d[name]) && valid_utf8(name) && (kept ==> mergeable(d[name], s[name])))
            &&& kept && s[name] == d[name] ==> stays(
                rules,
                d[name],
                name,
                kept,
                survives(rules, d[name], below, pattern, invert, false),
                true,
            ) && stays(
                rules,
                d[name],
                name,
                kept,
                survives(rules, d[name], below, pattern, invert, true),
                false,
            )
        }),
    decreases Node::Dir(d), 0int,
{
    let s = strip(rules, Node::Dir(d), root, pattern, invert, false);
    lemma_kept(rules, d, root, pattern, invert, name);
    assert(child(s, name) is Some <==> s.dom().contains(name));
    match d[name] {
        Node::Dir(m) => {
            assert(decreases_to!(Node::Dir(d) => d[name]));
            assert(child(d, name) == Some(Node::Dir(m)));
            let below = dir_path(root, decode_utf8(name));
            lemma_survives(rules, m, below, pattern, invert);
        },
        Node::Blob { .. } => {
            assert(child(d, name) == Some(d[name]));
        },
        Node::Link { .. } => {
            assert(child(d, name) == Some(d[name]));
        },
    }
}

proof fn lemma_survives(rules: Rules, d: Dir, root: Seq<char>, pattern: Seq<char>, invert: bool)
    requires
        names_are_text(Node::Dir(d)),
    ensures
        ({
            let x = Node::Dir(d);
            let s = Node::Dir(strip(rules, x, root, pattern, invert, false));
            &&& survives(
                rules,
                x,
                root,
                pattern,
                invert,
                true,
            ) == (merge(rules, x, s) == x && mergeable(x, s))
            &&& s != Node::Dir(empty_dir()) ==> survives(
                rules,
                x,
                root,
                pattern,
                invert,
                false,
            ) == (merge(
                rules,
                s,
                x,
            ) == x && mergeable(s, x))
        }),
    decreases Node::Dir(d), 2int,
{
    let x = Node::Dir(d);
    let s = strip(rules, x, root, pattern, invert, false);
    lemma_kept_entries(rules, d, root, pattern, invert);
    if d == empty_dir() {
        assert(s =~= empty_dir());
    }
    if s == empty_dir() || s == d {
        assert forall|name: Seq<u8>| #[trigger] d.dom().contains(name) implies stays(
            rules,
            d[name],
            name,
            kept_child(rules, d, root, pattern, invert, false, name) is Some,
            survives(rules, d[name], dir_path(root, decode_utf8(name)), pattern, invert, false),
            true,
        ) && (s == d ==> stays(
            rules,
            d[name],
            name,
            kept_child(rules, d, root, pattern, invert, false, name) is Some,
            survives(rules, d[name], dir_path(root, decode_utf8(name)), pattern, invert, true),
            false,
        )) by {
            lemma_entry_survives(rules, d, root, pattern, invert, name);
        }
        assert(survives(rules, x, root, pattern, invert, true));
        if s == d {
            assert(survives(rules, x, root, pattern, invert, false));
        }
    } else {
        lemma_survives_free(rules, d, root, pattern, invert);
        lemma_survives_bound(rules, d, root, pattern, invert);
    }
}

proof fn lemma_kept_entries(rules: Rules, d: Dir, root: Seq<char>, pattern: Seq<char>, invert: bool)
    ensures
        forall|name: Seq<u8>| #[trigger]
            strip(rules, Node::Dir(d), root, pattern, invert, false).dom().contains(name)
                ==> d.dom().contains(name),
{
    let s = strip(rules, Node::Dir(d), root, pattern, invert, false);
    assert forall|name: Seq<u8>| #[trigger] s.dom().contains(name) implies d.dom().contains(
        name,
    ) by {
        lemma_kept(rules, d, root, pattern, invert, name);
        assert(child(s, name) is Some);
    }
}

proof fn lemma_survives_free(
    rules: Rules,
    d: Dir,
    root: Seq<char>,
    pattern: Seq<char>,
    invert: bool,
)
    requires
        names_are_text(Node::Dir(d)),
        d != empty_dir(),
        strip(rules, Node::Dir(d), root, pattern, invert, false) != d,
        strip(rules, Node::Dir(d), root, pattern, invert, false) != empty_dir(),
    ensures
        ({
            let x = Node::Dir(d);
            let s = Node::Dir(strip(rules, x, root, pattern, invert, false));
            survives(
                rules,
                x,
                root,
                pattern,
                invert,
                true,
            ) == (merge(rules, x, s) == x && mergeable(x, s))
        }),
    decreases Node::Dir(d), 1int,
{
    let x = Node::Dir(d);
    let s = strip(rules, x, root, pattern, invert, false);
    let n = Node::Dir(s);
    lemma_kept_entries(rules, d, root, pattern, invert);
    lemma_merge_dirs(rules, d, s);
    let p = merge(rules, x, n)->Dir_0;
    if survives(rules, x, root, pattern, invert, true) {
        assert forall|name: Seq<u8>| #[trigger] child(p, name) == child(d, name) by {
            assert(child(p, name) == merged_child(rules, d, s, name));
            if s.dom().contains(name) {
                lemma_entry_survives(rules, d, root, pattern, invert, name);
            }
        }
        lemma_same_dir(p, d);
        assert forall|name: Seq<u8>| #[trigger] s.dom().contains(name) implies valid_utf8(name)
            && (d.dom().contains(name) ==> mergeable(s[name], d[name])) by {
            lemma_entry_survives(rules, d, root, pattern, invert, name);
            lemma_kept(rules, d, root, pattern, invert, name);
        }
    }
    if merge(rules, x, n) == x && mergeable(x, n) {
        assert forall|name: Seq<u8>| #[trigger] d.dom().contains(name) implies stays(
            rules,
            d[name],
            name,
            kept_child(rules, d, root, pattern, invert, false, name) is Some,
            survives(rules, d[name], dir_path(root, decode_utf8(name)), pattern, invert, false),
            true,
        ) by {
            lemma_entry_survives(rules, d, root, pattern, invert, name);
            assert(child(p, name) == merged_child(rules, d, s, name));
            assert(child(p, name) == Some(d[name]));
            if s.dom().contains(name) {
                assert(mergeable(s[name], d[name]));
            }
        }
        assert(survives(rules, x, root, pattern, invert, true));
    }
}

proof fn lemma_survives_bound(
    rules: Rules,
    d: Dir,
    root: Seq<char>,
    pattern: Seq<char>,
    invert: bool,
)
    requires
        names_are_text(Node::Dir(d)),
        d != empty_dir(),
        strip(rules, Node::Dir(d), root, pattern, invert, false) != d,
        strip(rules, Node::Dir(d), root, pattern, invert, false) != empty_dir(),
    ensures
        ({
            let x = Node::Dir(d);
            let s = Node::Dir(strip(rules, x, root, pattern, invert, false));
            survives(
                rules,
                x,
                root,
                pattern,
                invert,
                false,
            ) == (merge(rules, s, x) == x && mergeable(s, x))
        }),
    decreases Node::Dir(d), 1int,
{
    let x = Node::Dir(d);
    let s = strip(rules, x, root, pattern, invert, false);
    let n = Node::Dir(s);
    lemma_kept_entries(rules, d, root, pattern, invert);
    lemma_merge_dirs(rules, s, d);
    let q = merge(rules, n, x)->Dir_0;
    if survives(rules, x, root, pattern, invert, false) {
        assert forall|name: Seq<u8>| #[trigger] child(q, name) == child(d, name) by {
            assert(child(q, name) == merged_child(rules, s, d, name));
            if d.dom().contains(name) {
                lemma_entry_survives(rules, d, root, pattern, invert, name);
            }
        }
        lemma_same_dir(q, d);
        assert forall|name: Seq<u8>| #[trigger] d.dom().contains(name) implies valid_utf8(name) && (
        s.dom().contains(name) ==> mergeable(d[name], s[name])) by {
            lemma_entry_survives(rules, d, root, pattern, invert, name);
        }
    }
    if merge(rules, n, x) == x && mergeable(n, x) {
        assert forall|name: Seq<u8>| #[trigger] d.dom().contains(name) implies stays(
            rules,
            d[name],
            name,
            kept_child(rules, d, root, pattern, invert, false, name) is Some,
            survives(rules, d[name], dir_path(root, decode_utf8(name)), pattern, invert, true),
            false,
        ) by {
            lemma_entry_survives(rules, d, root, pattern, invert, name);
            assert(child(q, name) == merged_child(rules, s, d, name));
            assert(child(q, name) == Some(d[name]));
        }
        assert(survives(rules, x, root, pattern, invert, false));
    }
}

/// Taking back what a filter by pattern kept changes nothing, exactly where the names are
/// text and the tree is the same once it was merged with what is kept of it. A file that is
/// kept has then the mode of an ordinary file. What is not kept is left alone in the tree
/// itself, whatever it is called; in a directory of which something is kept, and in every
/// second one from there on, it has to be an ordinary file or a directory with entries, with
/// a name in order.
pub proof fn law_glob_get_then_put(rules: Rules, pattern: Seq<char>, invert: bool, d: Dir, n: nat)
    ensures
        gets_and_puts(rules, FilterView::Glob { pattern, invert }, d, n) <==> names_are_text(
            Node::Dir(d),
        )
            && survives(rules, Node::Dir(d), Seq::empty(), pattern, invert, true),
{
    if names_are_text(Node::Dir(d)) {
        lemma_survives(rules, d, Seq::empty(), pattern, invert);
        lemma_strip_twice(rules, d, Seq::empty(), pattern, invert);
        lemma_strip_text(rules, d, Seq::empty(), pattern, invert);
        let s = strip(rules, Node::Dir(d), Seq::empty(), pattern, invert, false);
        if merge(rules, Node::Dir(d), Node::Dir(s)) is Dir {
            assert(Node::Dir(merge(rules, Node::Dir(d), Node::Dir(s))->Dir_0) == merge(
                rules,
                Node::Dir(d),
                Node::Dir(s),
            ));
        }
        lemma_merge_dir(rules, d, s);
    }
}

/// Two directories merge to a directory.
proof fn lemma_merge_dir(rules: Rules, ma: Dir, mb: Dir)
    ensures
        merge(rules, Node::Dir(ma), Node::Dir(mb)) is Dir,
{
    if ma != mb && ma != empty_dir() && mb != empty_dir() {
        lemma_merge_dirs(rules, ma, mb);
    }
}

proof fn lemma_tidy_survives(
    rules: Rules,
    n: Node,
    root: Seq<char>,
    pattern: Seq<char>,
    invert: bool,
    free: bool,
)
    requires
        tidy(rules, n),
    ensures
        survives(rules, n, root, pattern, invert, free),
    decreases n,
{
    if let Node::Dir(m) = n {
        assert forall|name: Seq<u8>| #[trigger] m.dom().contains(name) implies stays(
            rules,
            m[name],
            name,
            kept_child(rules, m, root, pattern, invert, false, name) is Some,
            survives(rules, m[name], dir_path(root, decode_utf8(name)), pattern, invert, !free),
            free,
        ) by {
            assert(tidy(rules, m[name]));
            lemma_tidy_survives(
                rules,
                m[name],
                dir_path(root, decode_utf8(name)),
                pattern,
                invert,
                !free,
            );
        }
    }
}

/// Taking back what a filter by pattern kept of a tidy tree changes nothing.
pub proof fn law_glob_tidy(rules: Rules, pattern: Seq<char>, invert: bool, d: Dir, n: nat)
    requires
        tidy(rules, Node::Dir(d)),
    ensures
        gets_and_puts(rules, FilterView::Glob { pattern, invert }, d, n),
{
    lemma_tidy_text(rules, Node::Dir(d));
    lemma_tidy_survives(rules, Node::Dir(d), Seq::empty(), pattern, invert, true);
    law_glob_get_then_put(rules, pattern, invert, d, n);
}

/// Laying a tree over itself, or over nothing, or nothing over it, gives the tree.
pub proof fn law_merge_units(rules: Rules, a: Node)
    ensures
        merge(rules, a, a) == plain(a),
        merge(rules, a, Node::Dir(empty_dir())) == plain(a),
        merge(rules, Node::Dir(empty_dir()), a) == plain(a),
{
}

/// Of a file and something else that is not an empty directory, the first stays.
pub proof fn law_merge_conflict(rules: Rules, a: Node, b: Node)
    requires
        !(a is Dir && b is Dir),
        a != Node::Dir(empty_dir()),
        b != Node::Dir(empty_dir()),
    ensures
        merge(rules, a, b) == plain(a),
{
}

/// What only the first of two directories has stays as it is, and what only the second has
/// is put there.
pub proof fn law_merge_one_sided(rules: Rules, ma: Dir, mb: Dir, name: Seq<u8>)
    requires
        ma != empty_dir(),
        mb != empty_dir(),
        !(ma.dom().contains(name) && mb.dom().contains(name)),
    ensures
        merge(rules, Node::Dir(ma), Node::Dir(mb)) matches Node::Dir(m) && child(m, name) == (
        if mb.dom().contains(name) {
            child_after(rules, None, name, Some(plain(mb[name])))
        } else {
            child(ma, name)
        }),
{
    if ma != mb {
        lemma_merge_dirs(rules, ma, mb);
    }
}

} // verus!
