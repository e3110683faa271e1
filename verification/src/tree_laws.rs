//! How trees are read and changed, one step at a time.

use crate::apply::{apply_tree, deepest, unapply_tree};
use crate::error::ErrorView;
use crate::filter::FilterView;
use crate::laws::{lemma_at_path, lemma_chain};
use crate::merge::{lemma_merge_dirs, merge, mergeable};
use crate::node::{child, dir_or_empty, empty_dir, name_ok, plain, put_child, Dir, Node, Rules};
use crate::path::{components, components_from, join, lemma_components, lookup, replace_at, walk};
use crate::path_laws::{component_names, lemma_replace_at_names, normal_name, normal_path};
use crate::pattern::{glob_is_valid, glob_matches, pattern_hits};
use crate::strip::{lemma_strip_dir, names_are_text, strip};
use crate::text::{lemma_next, next, replace_all, split, split_from};
use crate::text_laws::{law_split, lemma_split_shift};
use vstd::prelude::*;
use vstd::utf8::{decode_utf8, encode_utf8, valid_utf8};

verus! {

/// Replacing one entry of a directory changes no other. Nothing, or a directory without
/// entries, takes the entry away, whatever it is called. A file comes to stand there as an
/// ordinary file, and a directory as it is, if entries may have the name. All else changes
/// nothing.
pub proof fn law_put_child(rules: Rules, d: Dir, name: Seq<u8>, item: Option<Node>, q: Seq<u8>)
    ensures
        q != name ==> child(put_child(rules, d, name, item), q) == child(d, q),
        child(put_child(rules, d, name, item), name) == match item {
            None => None,
            Some(Node::Link { .. }) => child(d, name),
            Some(Node::Blob { mode, data }) => if name_ok(rules, name) {
                Some(Node::Blob { mode: 33188, data })
            } else {
                child(d, name)
            },
            Some(Node::Dir(m)) => if m == Map::<Seq<u8>, Node>::empty() {
                None
            } else if name_ok(rules, name) {
                Some(Node::Dir(m))
            } else {
                child(d, name)
            },
        },
{
}

/// A text without separators that is no way to where one is, or above it, is the name under
/// which one looks.
pub proof fn law_lookup_name(d: Dir, a: Seq<char>)
    requires
        normal_name(a),
        forall|i: int| 0 <= i < a.len() ==> #[trigger] a[i] != '/',
    ensures
        lookup(d, a) == child(d, encode_utf8(a)),
{
    law_split(a, '/', Seq::empty());
}

/// A path leads through the directory under its first name, and nowhere where no directory
/// stands there. One separator at the end leads to the directory itself.
pub proof fn law_lookup_step(d: Dir, a: Seq<char>, b: Seq<char>)
    requires
        normal_name(a),
        forall|i: int| 0 <= i < a.len() ==> #[trigger] a[i] != '/',
    ensures
        match child(d, encode_utf8(a)) {
            Some(Node::Dir(m)) => {
                &&& b.len() == 0 ==> lookup(d, a.push('/') + b) == Some(Node::Dir(m))
                &&& b.len() > 0 && normal_name(split(b, '/')[0]) ==> lookup(d, a.push('/') + b)
                    == lookup(m, b)
                &&& b.len() > 0 && b[0] == '/' ==> lookup(d, a.push('/') + b) is None
            },
            _ => lookup(d, a.push('/') + b) is None,
        },
{
    law_split(a, '/', b);
    let p = a.push('/') + b;
    let names = split(p, '/');
    let rest = split(b, '/');
    assert(names.skip(1) =~= rest);
    lemma_next(b, '/', 0);
    assert(rest.len() > 0);
    assert(names.len() == rest.len() + 1);
    assert(names[1] == rest[0]);
    if b.len() == 0 {
        law_split(b, '/', b);
    }
    if b.len() > 0 && b[0] == '/' {
        let none = Seq::<char>::empty();
        law_split(none, '/', b.skip(1));
        assert(none.push('/') + b.skip(1) =~= b);
        assert(rest[0] == none);
        lemma_next(b.skip(1), '/', 0);
        assert(split(b.skip(1), '/').len() > 0);
        assert(rest.len() >= 2);
    }
}

/// A row of names leads from directory to directory. An empty name at the end leads to the
/// directory before it, and anywhere else nowhere.
pub proof fn law_walk(d: Dir, a: Seq<char>, names: Seq<Seq<char>>)
    ensures
        walk(d, Seq::empty()) is None,
        walk(d, seq![a] + names) == (if a.len() == 0 {
            None
        } else if names.len() == 0 {
            child(d, encode_utf8(a))
        } else {
            match child(d, encode_utf8(a)) {
                Some(Node::Dir(m)) => if names == seq![Seq::<char>::empty()] {
                    Some(Node::Dir(m))
                } else {
                    walk(m, names)
                },
                _ => None,
            }
        }),
{
    let all = seq![a] + names;
    assert(all[0] == a);
    assert(all.skip(1) =~= names);
    if names.len() == 1 {
        assert(all[1] == names[0]);
        if names[0].len() == 0 {
            assert(names[0] =~= Seq::<char>::empty());
            assert(names =~= seq![Seq::<char>::empty()]);
        }
    }
}

/// A path leads where the names between its separators lead, unless it starts with a way to
/// where one is, or above it.
pub proof fn law_lookup_names(d: Dir, p: Seq<char>)
    ensures
        lookup(d, p) == (if split(p, '/')[0] == seq!['.'] || split(p, '/')[0] == seq!['.', '.'] {
            None
        } else {
            walk(d, split(p, '/'))
        }),
{
}

/// No path, a separator at the start, and a way to where one is or above it, lead nowhere.
pub proof fn law_lookup_nowhere(d: Dir, b: Seq<char>)
    ensures
        lookup(d, Seq::empty()) is None,
        lookup(d, seq!['.']) is None,
        lookup(d, seq!['.', '.']) is None,
        lookup(d, seq!['/'] + b) is None,
        lookup(d, seq!['.', '/'] + b) is None,
        lookup(d, seq!['.', '.', '/'] + b) is None,
{
    let none = Seq::<char>::empty();
    law_split(none, '/', b);
    assert(none.push('/') + b =~= seq!['/'] + b);
    law_split(seq!['.'], '/', b);
    assert(seq!['.'].push('/') + b =~= seq!['.', '/'] + b);
    law_split(seq!['.', '.'], '/', b);
    assert(seq!['.', '.'].push('/') + b =~= seq!['.', '.', '/'] + b);
}

/// Putting something at a name is replacing the entry. Putting it at a longer path is putting
/// it where the rest of the path leads in the directory under the first name, or in a new
/// one, and that directory under the name.
pub proof fn law_put_step(
    rules: Rules,
    d: Dir,
    a: Seq<char>,
    b: Seq<char>,
    item: Option<Node>,
)
    requires
        normal_name(a),
        normal_path(b),
        forall|i: int| 0 <= i < a.len() ==> #[trigger] a[i] != '/',
    ensures
        replace_at(rules, d, a, item) == Ok::<Dir, ErrorView>(
            put_child(rules, d, encode_utf8(a), item),
        ),
        replace_at(
            rules,
            match child(d, encode_utf8(a)) {
                Some(Node::Dir(m)) => m,
                _ => Map::empty(),
            },
            b,
            item,
        ) matches Ok(inner) && replace_at(rules, d, a.push('/') + b, item) == Ok::<Dir, ErrorView>(
            put_child(rules, d, encode_utf8(a), Some(Node::Dir(inner))),
        ),
{
    law_split(a, '/', b);
    let p = a.push('/') + b;
    let names = split(p, '/');
    let rest = split(b, '/');
    assert(normal_path(a)) by {
        assert(split(a, '/') == seq![a]);
    }
    lemma_replace_at_names(rules, d, a, item);
    assert(normal_path(p)) by {
        assert forall|i: int| 0 <= i < names.len() implies normal_name(#[trigger] names[i]) by {
            if i > 0 {
                assert(names[i] == rest[i - 1]);
            }
        }
    }
    lemma_replace_at_names(rules, d, p, item);
    let sub = dir_or_empty(child(d, encode_utf8(a)));
    lemma_replace_at_names(rules, sub, b, item);
    assert(names.skip(1) =~= rest);
}

/// Where a path has more than one component, something is put at it by replacing the last
/// in the directory that the others lead to, and putting that directory there. A path without
/// components, or that goes up at the end, names nothing.
pub proof fn law_put_last(rules: Rules, d: Dir, p: Seq<char>, item: Option<Node>)
    ensures
        ({
            let cs = components(p);
            let n = cs.len();
            &&& n == 0 ==> replace_at(rules, d, p, item) == Err::<Dir, ErrorView>(
                ErrorView::FileName,
            )
            &&& n == 1 ==> replace_at(rules, d, p, item) == Ok::<Dir, ErrorView>(
                put_child(rules, d, encode_utf8(p), item),
            )
            &&& n > 1 && cs[n - 1].text == seq!['.', '.'] ==> replace_at(
                rules,
                d,
                p,
                item,
            ) == Err::<
                Dir,
                ErrorView,
            >(ErrorView::FileName)
            &&& n > 1 && cs[n - 1].text != seq!['.', '.'] ==> {
                let parent = p.take(cs[n - 2].end);
                replace_at(rules, d, p, item) == replace_at(
                    rules,
                    d,
                    parent,
                    Some(
                        Node::Dir(
                            put_child(
                                rules,
                                match lookup(d, parent) {
                                    Some(Node::Dir(m)) => m,
                                    _ => Map::empty(),
                                },
                                encode_utf8(cs[n - 1].text),
                                item,
                            ),
                        ),
                    ),
                )
            }
        }),
{
    let cs = components(p);
    let n = cs.len();
    lemma_components(p);
    if n > 1 {
        assert(cs[n - 2].end < cs[n - 1].end);
    }
}

/// The names in a path that are components of it.
pub open spec fn counts(x: Seq<char>) -> bool {
    x.len() > 0 && x != seq!['.']
}

proof fn lemma_components_filter(p: Seq<char>, k: int)
    requires
        0 < k <= p.len(),
    ensures
        Seq::new(components_from(p, k).len(), |i: int| components_from(p, k)[i].text) == split_from(
            p,
            '/',
            k,
        ).filter(|x: Seq<char>| counts(x)),
    decreases p.len() + 1 - k,
{
    let f = |x: Seq<char>| counts(x);
    lemma_next(p, '/', k);
    let e = next(p, '/', k);
    let text = p.subrange(k, e);
    let cs = components_from(p, k);
    let all = split_from(p, '/', k);
    assert(p.subrange(k, p.len() as int) =~= p.skip(k));
    let one = seq![text];
    assert(one.filter(f) == (if counts(text) {
        one
    } else {
        Seq::empty()
    })) by {
        reveal(Seq::filter);
        assert(one.drop_last() =~= Seq::<Seq<char>>::empty());
        assert(Seq::<Seq<char>>::empty().filter(f) =~= Seq::<Seq<char>>::empty());
        assert(Seq::<Seq<char>>::empty().push(text) =~= one);
    }
    if e < p.len() {
        lemma_components_filter(p, e + 1);
        let rest = split_from(p, '/', e + 1);
        let cr = components_from(p, e + 1);
        Seq::filter_distributes_over_add(one, rest, f);
        assert(all == one + rest);
        assert(Seq::new(cs.len(), |i: int| cs[i].text) =~= one.filter(f) + Seq::new(
            cr.len(),
            |i: int| cr[i].text,
        ));
    } else {
        assert(all == one);
        assert(Seq::new(cs.len(), |i: int| cs[i].text) =~= one.filter(f));
    }
}

/// The components of a path are the names between its separators, but for empty ones, and
/// for `.` anywhere but at the start. A separator at the start is the first component.
pub proof fn law_components(a: Seq<char>, b: Seq<char>)
    requires
        forall|i: int| 0 <= i < a.len() ==> #[trigger] a[i] != '/',
        a.len() > 0,
    ensures
        component_names(a) == seq![a],
        component_names(a.push('/') + b) == seq![a] + split(b, '/').filter(
            |x: Seq<char>| x.len() > 0 && x != seq!['.'],
        ),
        component_names(seq!['/'] + b) == seq![seq!['/']] + split(b, '/').filter(
            |x: Seq<char>| x.len() > 0 && x != seq!['.'],
        ),
        component_names(Seq::empty()) == Seq::<Seq<char>>::empty(),
{
    let f = |x: Seq<char>| counts(x);
    assert(f =~= |x: Seq<char>| x.len() > 0 && x != seq!['.']);
    let len = a.len() as int;
    lemma_next(a, '/', 0);
    assert(next(a, '/', 0) == len);
    assert(a.subrange(0, len) =~= a);
    assert(component_names(a) =~= seq![a]);
    let p = a.push('/') + b;
    lemma_next(p, '/', 0);
    assert forall|i: int| 0 <= i < len implies #[trigger] p[i] != '/' by {
        assert(p[i] == a[i]);
    }
    assert(p[len] == '/');
    assert(next(p, '/', 0) == len);
    assert(p.subrange(0, len) =~= a);
    lemma_components_filter(p, len + 1);
    lemma_split_shift(p, '/', len + 1, 0);
    assert(p.skip(len + 1) =~= b);
    let cr = components_from(p, len + 1);
    assert(p[0] == a[0]);
    assert(component_names(p) =~= seq![a] + Seq::new(cr.len(), |i: int| cr[i].text));
    let q = seq!['/'] + b;
    lemma_components_filter(q, 1);
    lemma_split_shift(q, '/', 1, 0);
    assert(q.skip(1) =~= b);
    let cq = components_from(q, 1);
    assert(component_names(q) =~= seq![seq!['/']] + Seq::new(cq.len(), |i: int| cq[i].text));
    assert(component_names(Seq::empty()) =~= Seq::<Seq<char>>::empty());
}

proof fn lemma_component_end(p: Seq<char>, k: int, i: int)
    requires
        0 <= k <= p.len(),
        0 <= i < components_from(p, k).len(),
    ensures
        ({
            let c = components_from(p, k)[i];
            &&& k <= c.end - c.text.len()
            &&& c.end <= p.len()
            &&& p.subrange(c.end - c.text.len(), c.end) == c.text
            &&& c.end < p.len() ==> p[c.end] == '/'
        }),
    decreases p.len() + 1 - k,
{
    lemma_next(p, '/', k);
    let e = next(p, '/', k);
    let text = p.subrange(k, e);
    let cs = components_from(p, k);
    let own: int = if text.len() == 0 || (text == seq!['.'] && k != 0) {
        0
    } else {
        1
    };
    if i < own {
        assert(cs[0].text == text && cs[0].end == e);
    } else if e < p.len() {
        let cr = components_from(p, e + 1);
        assert(cs[i] == cr[i - own]);
        lemma_component_end(p, e + 1, i - own);
    }
}

/// Each component stands in the path just before its end, and the path ends there or goes on
/// with a separator, unless the component is the separator at the start.
pub proof fn law_component_ends(p: Seq<char>, i: int)
    requires
        0 <= i < components(p).len(),
    ensures
        ({
            let c = components(p)[i];
            &&& 0 <= c.end - c.text.len()
            &&& c.end <= p.len()
            &&& p.subrange(c.end - c.text.len(), c.end) == c.text
            &&& c.end < p.len() && !(i == 0 && p[0] == '/') ==> p[c.end] == '/'
        }),
{
    if p.len() > 0 && p[0] == '/' {
        if i > 0 {
            assert(components(p)[i] == components_from(p, 1)[i - 1]);
            lemma_component_end(p, 1, i - 1);
        } else {
            assert(p.subrange(0, 1) =~= seq!['/']);
        }
    } else {
        lemma_component_end(p, 0, i);
    }
}

/// The path from a directory to a name in it has one separator between them, and none where
/// there is no directory.
pub proof fn law_join(p: Seq<char>, name: Seq<char>)
    ensures
        join(Seq::empty(), name) == name,
        p.len() > 0 && p.last() != '/' ==> join(p, name) == p + seq!['/'] + name,
        join(p.push('/'), name) == p + seq!['/'] + name,
{
    assert(p.push('/') + name =~= p + seq!['/'] + name);
}

/// What two directories both have under a name is merged, the second with the first, and
/// put there as any entry is. What one has and the other not is told by other laws.
pub proof fn law_merge_shared(rules: Rules, ma: Dir, mb: Dir, name: Seq<u8>)
    requires
        ma != mb,
        ma.dom().contains(name),
        mb.dom().contains(name),
    ensures
        merge(rules, Node::Dir(ma), Node::Dir(mb)) matches Node::Dir(m) && child(m, name) == child(
            put_child(rules, ma, name, Some(merge(rules, mb[name], ma[name]))),
            name,
        ),
{
    assert(ma != empty_dir() && mb != empty_dir());
    lemma_merge_dirs(rules, ma, mb);
}

/// Two trees can be laid over each other where the names in the second are text, at the top
/// and in turn wherever both have a directory. What is the same, empty or a file is not read.
pub proof fn law_mergeable(ma: Dir, mb: Dir, a: Node, b: Node)
    ensures
        mergeable(a, a),
        mergeable(a, Node::Dir(empty_dir())),
        mergeable(Node::Dir(empty_dir()), a),
        !(a is Dir && b is Dir) ==> mergeable(a, b),
        ma != mb && ma != empty_dir() && mb != empty_dir() ==> (mergeable(
            Node::Dir(ma),
            Node::Dir(mb),
        ) <==> forall|n: Seq<u8>| #[trigger]
            mb.dom().contains(n) ==> valid_utf8(n) && (ma.dom().contains(n) ==> mergeable(
                mb[n],
                ma[n],
            ))),
{
    if ma != mb && ma != empty_dir() && mb != empty_dir() {
        lemma_merge_dirs(Rules { protect_ntfs: false, protect_hfs: false }, ma, mb);
    }
}

/// What is kept of an entry of a directory at `root`. Of a file it is the file, if its path is
/// selected, as an ordinary one. Of a directory it is what is kept of that, if it has any
/// entries. Nothing is kept of an entry that names a commit of another repository, or whose
/// name no entry may have. Where directories are recorded, each below the top has, besides
/// what is kept, a file without content that tells in its name where the directory stood.
pub proof fn law_strip_entry(
    rules: Rules,
    d: Dir,
    root: Seq<char>,
    pattern: Seq<char>,
    invert: bool,
    dirs: bool,
    name: Seq<u8>,
)
    ensures
        ({
            let s = strip(rules, Node::Dir(d), root, pattern, invert, dirs);
            let note = encode_utf8("JOSH_ORIG_PATH_"@ + replace_all(root, "/"@, "%2F"@));
            let recorded = dirs && root.len() > 0;
            let below = if root.len() == 0 {
                decode_utf8(name)
            } else {
                root + "/"@ + decode_utf8(name)
            };
            &&& recorded && name == note && name_ok(rules, note) ==> child(s, name) == Some(
                Node::Blob { mode: 33188, data: Seq::empty() },
            )
            &&& !(recorded && name == note && name_ok(rules, note)) ==> child(
                s,
                name,
            ) == match child(d, name) {
                Some(Node::Blob { mode, data }) => if name_ok(rules, name) && pattern_hits(
                    pattern,
                    join(root, decode_utf8(name)),
                ) != invert {
                    Some(Node::Blob { mode: 33188, data })
                } else {
                    None
                },
                Some(Node::Dir(m)) => {
                    let w = strip(rules, Node::Dir(m), below, pattern, invert, dirs);
                    if name_ok(rules, name) && w != Map::<Seq<u8>, Node>::empty() {
                        Some(Node::Dir(w))
                    } else {
                        None
                    }
                },
                _ => None,
            }
        }),
{
    lemma_strip_dir(rules, d, root, pattern, invert, dirs);
}

/// The filter for directories keeps the workspace files, wherever they stand, and records
/// all directories. It fails where a name is no text.
pub proof fn law_dirs(rules: Rules, d: Dir, n: nat)
    ensures
        glob_is_valid("**/workspace.josh"@) && names_are_text(Node::Dir(d)) ==> apply_tree(
            rules,
            FilterView::Dirs,
            d,
            n,
        ) == Ok::<Dir, ErrorView>(
            strip(rules, Node::Dir(d), Seq::empty(), "**/workspace.josh"@, false, true),
        ),
        glob_is_valid("**/workspace.josh"@) && !names_are_text(Node::Dir(d)) ==> apply_tree(
            rules,
            FilterView::Dirs,
            d,
            n,
        ) is Err,
{
}

/// A chain of any two filters applies the first and then the second. A change is taken back
/// through the second, to what the first makes of the parent, and then through the first.
pub proof fn law_chain(rules: Rules, a: FilterView, b: FilterView, t: Dir, parent: Dir, n: nat)
    ensures
        ({
            let c = FilterView::Chain(Box::new(a), Box::new(b));
            &&& apply_tree(rules, c, t, n) == match apply_tree(rules, a, t, n) {
                Ok(x) => apply_tree(rules, b, x, n),
                Err(e) => Err(e),
            }
            &&& unapply_tree(rules, c, t, parent, n) == match apply_tree(rules, a, parent, n) {
                Err(e) => Err(e),
                Ok(p) => match unapply_tree(rules, b, t, p, n) {
                    Err(e) => Err(e),
                    Ok(x) => unapply_tree(rules, a, x, parent, n),
                },
            }
        }),
{
    lemma_chain(rules, a, b, t, parent, n);
}

/// What the filters for a path do, whatever the path is and whatever stands there: one takes
/// the directory there, or none, one puts the tree there, and one takes away what is there.
/// The ways back put it there, take it from there, and put there what the parent has, of
/// which a file becomes an ordinary one.
pub proof fn law_path_filters(rules: Rules, path: Seq<char>, t: Dir, parent: Dir, n: nat)
    ensures
        apply_tree(rules, FilterView::Subdir(path), t, n) == Ok::<Dir, ErrorView>(
            match lookup(t, path) {
                Some(Node::Dir(m)) => m,
                _ => Map::empty(),
            },
        ),
        unapply_tree(rules, FilterView::Subdir(path), t, parent, n) == replace_at(
            rules,
            parent,
            path,
            Some(Node::Dir(t)),
        ),
        apply_tree(rules, FilterView::Prefix(path), t, n) == replace_at(
            rules,
            Map::empty(),
            path,
            Some(Node::Dir(t)),
        ),
        unapply_tree(rules, FilterView::Prefix(path), t, parent, n) == Ok::<Dir, ErrorView>(
            match lookup(t, path) {
                Some(Node::Dir(m)) => m,
                _ => Map::empty(),
            },
        ),
        apply_tree(rules, FilterView::Hide(path), t, n) == replace_at(rules, t, path, None),
        unapply_tree(rules, FilterView::Hide(path), t, parent, n) == replace_at(
            rules,
            t,
            path,
            match lookup(parent, path) {
                Some(Node::Blob { mode, data }) => Some(Node::Blob { mode: 33188, data }),
                x => x,
            },
        ),
{
    lemma_at_path(rules, path, t, parent, n);
}

/// The filters that concern history leave trees alone, or nothing of them.
pub proof fn law_history_filters(rules: Rules, x: Seq<char>, t: Dir, n: nat)
    ensures
        apply_tree(rules, FilterView::Cutoff(x), t, n) == Ok::<Dir, ErrorView>(t),
        apply_tree(rules, FilterView::Fold, t, n) == Ok::<Dir, ErrorView>(Map::empty()),
{
}

/// A pattern counts the case of letters, and matches neither a separator nor a dot at the
/// start of a name by a wildcard.
pub proof fn law_pattern_hits(pattern: Seq<char>, path: Seq<char>)
    ensures
        pattern_hits(pattern, path) == glob_matches(pattern, path, true, true, true),
{
}

/// Workspaces may stand in workspaces as deep as a machine can count.
pub proof fn law_deepest(n: usize)
    ensures
        n <= deepest(),
{
}

/// A file counts as the same whatever mode its entry gives it, and all else as it is.
pub proof fn law_plain(mode: u32, data: Seq<u8>, id: Seq<u8>, m: Dir)
    ensures
        plain(Node::Blob { mode, data }) == (Node::Blob { mode: 33188, data }),
        plain(Node::Link { id }) == (Node::Link { id }),
        plain(Node::Dir(m)) == Node::Dir(m),
{
}

} // verus!
