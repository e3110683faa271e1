//! What files by pattern do to a tree when they are taken back, whatever the pattern is and
//! whether it is inverted or not.

use crate::apply::{apply_tree, unapply_tree};
use crate::error::ErrorView;
use crate::filter::FilterView;
use crate::glob_laws::{file_at, law_glob_keeps, lemma_kept, lemma_tidy_text, path_text, tidy};
use crate::merge::{merge, mergeable};
use crate::merge_laws::{
    fit, joined_child, lemma_fit_symmetric, lemma_halves, lemma_join, lemma_tidy_names,
};
use crate::node::{child, Dir, Node, Rules};
use crate::pattern::pattern_hits;
use crate::ids::listing;
use crate::strip::{
    dir_path, entry_error, lemma_names_error_stays, lemma_names_fine, lemma_same_error, listable,
    name_error, names_are_text, names_error, strip,
};
use vstd::prelude::*;
use vstd::utf8::{decode_utf8, valid_utf8};

verus! {

/// The one that is there; of two, the first.
pub open spec fn first_of(x: Option<Seq<u8>>, y: Option<Seq<u8>>) -> Option<Seq<u8>> {
    match x {
        Some(_) => x,
        None => y,
    }
}

/// Of a file that two tidy trees that fit have, the one in the second tree stays where it
/// stands at the top, and then in every second directory on the way down; elsewhere the one
/// in the first. A file that only one of the two has is the same in the result.
pub proof fn law_merge_contents(rules: Rules, ma: Dir, mb: Dir, names: Seq<Seq<u8>>)
    requires
        tidy(rules, Node::Dir(ma)),
        tidy(rules, Node::Dir(mb)),
        fit(Node::Dir(ma), Node::Dir(mb)),
    ensures
        merge(rules, Node::Dir(ma), Node::Dir(mb)) matches Node::Dir(m) && file_at(m, names) == (
        if names.len() % 2 == 1 {
            first_of(file_at(mb, names), file_at(ma, names))
        } else {
            first_of(file_at(ma, names), file_at(mb, names))
        }),
    decreases names.len(),
{
    lemma_join(rules, ma, mb);
    if names.len() > 0 {
        let m = merge(rules, Node::Dir(ma), Node::Dir(mb))->Dir_0;
        let name = names[0];
        let rest = names.skip(1);
        assert(child(m, name) == joined_child(rules, ma, mb, name));
        if ma.dom().contains(name) && mb.dom().contains(name) {
            assert(fit(ma[name], mb[name]));
            assert(tidy(rules, ma[name]) && tidy(rules, mb[name]));
            if let (Node::Dir(p), Node::Dir(q)) = (ma[name], mb[name]) {
                lemma_fit_symmetric(ma[name], mb[name]);
                law_merge_contents(rules, q, p, rest);
            }
        }
    }
}

/// What fits with a tree fits with what is kept of it.
proof fn lemma_fit_strip(
    rules: Rules,
    p: Dir,
    t: Dir,
    root: Seq<char>,
    pattern: Seq<char>,
    invert: bool,
)
    requires
        fit(Node::Dir(p), Node::Dir(t)),
    ensures
        fit(Node::Dir(p), Node::Dir(strip(rules, Node::Dir(t), root, pattern, invert, false))),
    decreases Node::Dir(p),
{
    let s = strip(rules, Node::Dir(t), root, pattern, invert, false);
    assert forall|name: Seq<u8>| #[trigger]
        p.dom().contains(name) && s.dom().contains(name) implies fit(p[name], s[name]) by {
        assert(Node::Dir(p)->Dir_0 == p);
        assert(p.dom().contains(name) && t.dom().contains(name) ==> fit(p[name], t[name]));
        lemma_kept(rules, t, root, pattern, invert, name);
        assert(child(s, name) == Some(s[name]));
        if let (Node::Dir(m), Node::Dir(w)) = (p[name], t[name]) {
            lemma_fit_strip(rules, m, w, dir_path(root, decode_utf8(name)), pattern, invert);
        }
    }
}

/// What a filter by pattern selects of the changed tree is laid over the parent: nothing
/// else of the changed tree counts, and nothing else happens to the parent. It fails where
/// selecting fails, and where a name that is read to lay the one over the other is no text.
pub proof fn law_glob_put(
    rules: Rules,
    pattern: Seq<char>,
    invert: bool,
    t: Dir,
    parent: Dir,
    n: nat,
)
    ensures
        unapply_tree(rules, FilterView::Glob { pattern, invert }, t, parent, n) == match apply_tree(
            rules,
            FilterView::Glob { pattern, invert },
            t,
            n,
        ) {
            Err(e) => Err(e),
            Ok(s) => if mergeable(Node::Dir(parent), Node::Dir(s)) {
                Ok(merge(rules, Node::Dir(parent), Node::Dir(s))->Dir_0)
            } else {
                Err(ErrorView::NoName)
            },
        },
{
}

/// Whether a pattern, inverted or not, selects the path that the names write down.
pub open spec fn selects(pattern: Seq<char>, invert: bool, names: Seq<Seq<u8>>) -> bool {
    pattern_hits(pattern, path_text(Seq::empty(), names)) != invert
}

/// Taking a tidy tree back through a filter by pattern, to a tidy parent that it fits with,
/// gives a file exactly where the parent has one, or where the changed tree has one whose
/// path is selected. Of a selected file that both have, the content at the top is that of
/// the changed tree, and so in every second directory on the way down; elsewhere, and of
/// all files whose paths are not selected, it is that of the parent.
pub proof fn law_glob_put_files(
    rules: Rules,
    pattern: Seq<char>,
    invert: bool,
    t: Dir,
    parent: Dir,
    n: nat,
    names: Seq<Seq<u8>>,
)
    requires
        tidy(rules, Node::Dir(t)),
        tidy(rules, Node::Dir(parent)),
        fit(Node::Dir(parent), Node::Dir(t)),
    ensures
        unapply_tree(rules, FilterView::Glob { pattern, invert }, t, parent, n) matches Ok(x) && {
            let old = file_at(parent, names);
            let new = file_at(t, names);
            &&& tidy(rules, Node::Dir(x))
            &&& file_at(x, names) is Some <==> old is Some || new is Some && selects(
                pattern,
                invert,
                names,
            )
            &&& new is Some && selects(pattern, invert, names) ==> file_at(x, names) == (
            if names.len() % 2 == 1 || old is None {
                new
            } else {
                old
            })
            &&& new is None || !selects(pattern, invert, names) ==> file_at(x, names) == old
        },
{
    let f = FilterView::Glob { pattern, invert };
    let s = strip(rules, Node::Dir(t), Seq::empty(), pattern, invert, false);
    lemma_tidy_text(rules, Node::Dir(t));
    assert(apply_tree(rules, f, t, n) == Ok::<Dir, ErrorView>(s));
    lemma_halves(rules, t, Seq::empty(), pattern);
    lemma_fit_strip(rules, parent, t, Seq::empty(), pattern, invert);
    lemma_join(rules, parent, s);
    law_merge_contents(rules, parent, s, names);
    if names.len() > 0 {
        law_glob_keeps(rules, pattern, invert, t, n, names);
        if file_at(t, names) is Some {
            lemma_tidy_names(rules, t, names);
        }
    }
}

/// The names in a tree are text where those of the files and directories at the top are, and
/// those in the directories. The name of an entry that names a commit of another repository
/// may be anything.
pub proof fn law_text_names(m: Dir, mode: u32, data: Seq<u8>)
    ensures
        names_are_text(Node::Blob { mode, data }),
        names_are_text(Node::Dir(m)) <==> forall|name: Seq<u8>| #[trigger]
            m.dom().contains(name) ==> m[name] is Link || (valid_utf8(name) && names_are_text(
                m[name],
            )),
{
    if names_are_text(Node::Dir(m)) {
        assert forall|name: Seq<u8>| #[trigger] m.dom().contains(name) implies m[name] is Link || (
        valid_utf8(name) && names_are_text(m[name])) by {}
    } else {
        let name = choose|name: Seq<u8>| #[trigger]
            m.dom().contains(name) && !(match m[name] {
                Node::Link { .. } => true,
                _ => valid_utf8(name) && names_are_text(m[name]),
            });
        assert(m.dom().contains(name));
    }
}

/// Whether the names of an entry, and of all in it, are read without an error.
pub open spec fn entry_reads(n: Node, name: Seq<u8>) -> bool {
    n is Link || (valid_utf8(name) && names_are_text(n))
}

/// Of all names that are no text the first in the order of the entries is what a filter by
/// pattern complains about. The name of a file is an invalid one, and a directory has none.
/// A directory with a name that is text is complained about as it would be alone.
pub proof fn law_glob_error(
    rules: Rules,
    pattern: Seq<char>,
    invert: bool,
    d: Dir,
    k: int,
    n: nat,
)
    requires
        listable(Node::Dir(d)),
        0 <= k < listing(d).len(),
        !entry_reads(d[listing(d)[k]], listing(d)[k]),
        forall|i: int| 0 <= i < k ==> entry_reads(d[#[trigger] listing(d)[i]], listing(d)[i]),
    ensures
        apply_tree(rules, FilterView::Glob { pattern, invert }, d, n) == (match d[listing(d)[k]] {
            Node::Blob { .. } => Err::<Dir, ErrorView>(ErrorView::InvalidFilename),
            Node::Dir(m) => if valid_utf8(listing(d)[k]) {
                apply_tree(rules, FilterView::Glob { pattern, invert }, m, n)
            } else {
                Err(ErrorView::NoName)
            },
            Node::Link { .. } => Err(ErrorView::NoName),
        }),
{
    let root = Seq::<char>::empty();
    let memo = Map::<(Seq<char>, Dir), Dir>::empty();
    let names = listing(d);
    let len = names.len() as int;
    let node = Node::Dir(d);
    assert forall|i: int| 0 <= i < len implies d.dom().contains(#[trigger] names[i]) by {
        assert(names.contains(names[i]));
    }
    assert forall|i: int| 0 <= i < len && d[names[i]] is Dir implies name_error(
        d[#[trigger] names[i]],
        dir_path(root, decode_utf8(names[i])),
        memo,
    ) == name_error(d[names[i]], root, memo) && (name_error(d[names[i]], root, memo) is None
        <==> names_are_text(d[names[i]])) by {
        assert(d.dom().contains(names[i]));
        lemma_same_error(
            d[names[i]],
            dir_path(root, decode_utf8(names[i])),
            memo,
            root,
            memo,
        );
    }
    assert forall|i: int| 0 <= i < k implies entry_error(
        d[#[trigger] names[i]],
        names[i],
        root,
        memo,
    ) is None by {
        assert(entry_reads(d[names[i]], names[i]));
    }
    lemma_names_fine(node, names, k, root, memo);
    let x = d[names[k]];
    assert(d.dom().contains(names[k]));
    assert(entry_error(x, names[k], root, memo) is Some);
    assert(names_error(node, names, k + 1, root, memo) == entry_error(x, names[k], root, memo));
    lemma_names_error_stays(node, names, k + 1, len, root, memo);
    assert(!names_are_text(node));
}

} // verus!
