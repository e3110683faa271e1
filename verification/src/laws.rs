//! What holds of filters on file trees.

use crate::apply::{
    apply_combine, apply_tree, combine_from_ws, hidden, info_lines, unapply_combine, unapply_mounts,
    unapply_tree, workspace, workspace_text,
};
use crate::error::ErrorView;
use crate::filter::{spec_text, subdir_filter, subdirs, CombineView, FilterView, MountView};
use crate::grammar::{checked_combine, mounts_on, run_end, trimmed, Class};
use crate::node::{child, dir_or_empty, empty_dir, plain, put_child, BLOB_MODE, Dir, Node, Rules};
use crate::path::{components, join, lookup, replace_at, subdir, walk};
use crate::path_laws::{
    clear_way, component_names, good_path, law_get_then_put, law_nothing_in_nothing,
    law_put_elsewhere, law_put_nothing, law_put_then_get, law_put_twice, lemma_component_text,
    lemma_file_names, lemma_good_components, lemma_join, lemma_lookup_empty, lemma_lookup_names,
    lemma_one_name, lemma_path_push, lemma_put_at_last, lemma_put_components,
    lemma_replace_at_names, lemma_walk_last, normal_name, normal_names, normal_path, part, put_at,
    puttable,
};
use crate::text::{find_from, occurs_at, split};
use crate::values::{value_of, PairView};
use vstd::prelude::*;
use vstd::utf8::encode_utf8;

verus! {

/// The filter gives `t` again once `t` was taken back through it.
pub open spec fn puts_and_gets(rules: Rules, f: FilterView, t: Dir, parent: Dir, n: nat) -> bool {
    unapply_tree(rules, f, t, parent, n) matches Ok(x) && apply_tree(
        rules,
        f,
        x,
        n,
    ) == Ok::<Dir, ErrorView>(t)
}

/// What the filter gives of `d` is taken back to `d`.
pub open spec fn gets_and_puts(rules: Rules, f: FilterView, d: Dir, n: nat) -> bool {
    apply_tree(rules, f, d, n) matches Ok(t) && unapply_tree(
        rules,
        f,
        t,
        d,
        n,
    ) == Ok::<Dir, ErrorView>(d)
}

/// What a chain does, in both directions.
pub proof fn lemma_chain(rules: Rules, a: FilterView, b: FilterView, t: Dir, parent: Dir, n: nat)
    ensures
        ({
            let c = FilterView::Chain(Box::new(a), Box::new(b));
            &&& apply_tree(rules, c, t, n) == match apply_tree(rules, a, t, n) {
                Ok(x) => apply_tree(rules, b, x, n),
                Err(e) => Err(e),
            }
            &&& unapply_tree(rules, c, t, parent, n) == match apply_tree(rules, a, parent, n) {
                Err(e) => Err(e),
                Ok(p) => match unapply_tree(rules, b, t, p, n) {
                    Err(e) => Err(e),
                    Ok(x) => unapply_tree(rules, a, x, parent, n),
                },
            }
        }),
{
}

/// What is done at a path, in both directions.
pub proof fn lemma_at_path(rules: Rules, path: Seq<char>, t: Dir, parent: Dir, n: nat)
    ensures
        apply_tree(rules, FilterView::Subdir(path), t, n) == Ok::<Dir, ErrorView>(subdir(t, path)),
        apply_tree(rules, FilterView::Prefix(path), t, n) == replace_at(
            rules,
            empty_dir(),
            path,
            Some(Node::Dir(t)),
        ),
        apply_tree(rules, FilterView::Hide(path), t, n) == replace_at(rules, t, path, None),
        unapply_tree(rules, FilterView::Subdir(path), t, parent, n) == replace_at(
            rules,
            parent,
            path,
            Some(Node::Dir(t)),
        ),
        unapply_tree(rules, FilterView::Prefix(path), t, parent, n) == Ok::<Dir, ErrorView>(
            subdir(t, path),
        ),
        unapply_tree(rules, FilterView::Hide(path), t, parent, n) == replace_at(
            rules,
            t,
            path,
            hidden(parent, path),
        ),
{
}

/// The filter that keeps everything changes nothing, in either direction.
pub proof fn law_nop(rules: Rules, t: Dir, parent: Dir, n: nat)
    ensures
        apply_tree(rules, FilterView::Nop, t, n) == Ok::<Dir, ErrorView>(t),
        unapply_tree(rules, FilterView::Nop, t, parent, n) == Ok::<Dir, ErrorView>(t),
{
}

/// The filter that keeps nothing gives nothing, and takes nothing back.
pub proof fn law_empty(rules: Rules, t: Dir, parent: Dir, n: nat)
    ensures
        apply_tree(rules, FilterView::Empty, t, n) == Ok::<Dir, ErrorView>(empty_dir()),
        unapply_tree(rules, FilterView::Empty, t, parent, n) == Ok::<Dir, ErrorView>(parent),
{
}

/// A tree that was moved below a good path is found again when it is moved back, and a tree
/// without entries at any path.
pub proof fn law_prefix_round_trip(rules: Rules, path: Seq<char>, d: Dir, parent: Dir, n: nat)
    requires
        good_path(rules, path) || d == empty_dir(),
    ensures
        good_path(rules, path) ==> apply_tree(rules, FilterView::Prefix(path), d, n) is Ok,
        apply_tree(rules, FilterView::Prefix(path), d, n) matches Ok(t) ==> unapply_tree(
            rules,
            FilterView::Prefix(path),
            t,
            parent,
            n,
        ) == Ok::<Dir, ErrorView>(d),
{
    lemma_at_path(rules, path, d, parent, n);
    let moved = replace_at(rules, empty_dir(), path, Some(Node::Dir(d)));
    if let Ok(t) = moved {
        lemma_at_path(rules, path, t, parent, n);
    }
    if good_path(rules, path) {
        law_put_then_get(rules, empty_dir(), path, Some(Node::Dir(d)));
    } else {
        law_nothing_in_nothing(rules, path);
        lemma_lookup_empty(path);
    }
}

/// Moving a tree below a good path and taking the directory there gives the tree.
pub proof fn law_prefix_then_subdir(rules: Rules, path: Seq<char>, d: Dir, n: nat)
    requires
        good_path(rules, path),
    ensures
        apply_tree(
            rules,
            FilterView::Chain(
                Box::new(FilterView::Prefix(path)),
                Box::new(FilterView::Subdir(path)),
            ),
            d,
            n,
        ) == Ok::<Dir, ErrorView>(d),
{
    let t = replace_at(rules, empty_dir(), path, Some(Node::Dir(d)))->Ok_0;
    lemma_chain(rules, FilterView::Prefix(path), FilterView::Subdir(path), d, d, n);
    lemma_at_path(rules, path, d, d, n);
    lemma_at_path(rules, path, t, d, n);
    law_prefix_round_trip(rules, path, d, d, n);
}

/// What was taken back into the directory at a good path is what that directory then is.
pub proof fn law_subdir_put_then_get(rules: Rules, path: Seq<char>, t: Dir, parent: Dir, n: nat)
    requires
        good_path(rules, path),
    ensures
        puts_and_gets(rules, FilterView::Subdir(path), t, parent, n),
{
    lemma_at_path(rules, path, t, parent, n);
    lemma_at_path(
        rules,
        path,
        replace_at(rules, parent, path, Some(Node::Dir(t)))->Ok_0,
        parent,
        n,
    );
    law_put_then_get(rules, parent, path, Some(Node::Dir(t)));
}

/// Taking the directory at a good path back as it is changes nothing, where it has entries,
/// or where there is nothing and nothing stands in the way.
pub proof fn law_subdir_get_then_put(rules: Rules, path: Seq<char>, d: Dir, n: nat)
    requires
        good_path(rules, path),
        match lookup(d, path) {
            Some(Node::Dir(m)) => m != empty_dir(),
            Some(_) => false,
            None => clear_way(d, split(path, '/')),
        },
    ensures
        gets_and_puts(rules, FilterView::Subdir(path), d, n),
{
    lemma_at_path(rules, path, d, d, n);
    lemma_at_path(rules, path, subdir(d, path), d, n);
    if lookup(d, path) is Some {
        law_get_then_put(rules, d, path);
    } else {
        law_put_nothing(rules, d, path, Some(Node::Dir(empty_dir())));
    }
}

/// What is taken back into one directory leaves alone what parts from its path.
pub proof fn law_subdir_put_elsewhere(
    rules: Rules,
    path: Seq<char>,
    q: Seq<char>,
    t: Dir,
    parent: Dir,
    n: nat,
)
    requires
        normal_path(path),
        part(split(path, '/'), split(q, '/')),
    ensures
        unapply_tree(rules, FilterView::Subdir(path), t, parent, n) is Ok,
        lookup(unapply_tree(rules, FilterView::Subdir(path), t, parent, n)->Ok_0, q) == lookup(
            parent,
            q,
        ),
{
    lemma_at_path(rules, path, t, parent, n);
    law_put_elsewhere(rules, parent, path, q, Some(Node::Dir(t)));
}

/// Nothing stands where something was hidden.
pub proof fn law_hide_hides(rules: Rules, path: Seq<char>, d: Dir, n: nat)
    requires
        good_path(rules, path),
    ensures
        apply_tree(rules, FilterView::Hide(path), d, n) is Ok,
        lookup(apply_tree(rules, FilterView::Hide(path), d, n)->Ok_0, path) is None,
{
    lemma_at_path(rules, path, d, d, n);
    law_put_then_get(rules, d, path, None);
}

/// Hiding leaves alone what parts from the path.
pub proof fn law_hide_elsewhere(rules: Rules, path: Seq<char>, q: Seq<char>, d: Dir, n: nat)
    requires
        normal_path(path),
        part(split(path, '/'), split(q, '/')),
    ensures
        apply_tree(rules, FilterView::Hide(path), d, n) is Ok,
        lookup(apply_tree(rules, FilterView::Hide(path), d, n)->Ok_0, q) == lookup(d, q),
{
    lemma_at_path(rules, path, d, d, n);
    law_put_elsewhere(rules, d, path, q, None);
}

/// What was hidden is there again when the rest is taken back: a directory with entries or
/// an ordinary file at the path, or nothing where nothing stands in the way.
pub proof fn law_hide_get_then_put(rules: Rules, path: Seq<char>, d: Dir, n: nat)
    requires
        good_path(rules, path),
        match lookup(d, path) {
            Some(x) => puttable(x),
            None => clear_way(d, split(path, '/')),
        },
    ensures
        gets_and_puts(rules, FilterView::Hide(path), d, n),
{
    lemma_at_path(rules, path, d, d, n);
    lemma_at_path(rules, path, replace_at(rules, d, path, None)->Ok_0, d, n);
    match lookup(d, path) {
        Some(x) => {
            law_put_twice(rules, d, path, None, Some(x));
            law_get_then_put(rules, d, path);
            assert(plain(x) == x);
        },
        None => {
            law_put_nothing(rules, d, path, None);
        },
    }
}

/// What was hidden at a good path stands there again, whatever was changed there, and all
/// that parts from the path is as it was changed.
pub proof fn law_hide_put(rules: Rules, path: Seq<char>, q: Seq<char>, t: Dir, parent: Dir, n: nat)
    requires
        good_path(rules, path),
        lookup(parent, path) matches Some(x) ==> puttable(x),
        part(split(path, '/'), split(q, '/')),
    ensures
        unapply_tree(rules, FilterView::Hide(path), t, parent, n) matches Ok(r) && lookup(r, path)
            == lookup(parent, path) && lookup(r, q) == lookup(t, q),
{
    lemma_at_path(rules, path, t, parent, n);
    let h = hidden(parent, path);
    law_put_then_get(rules, t, path, h);
    law_put_elsewhere(rules, t, path, q, h);
}

/// What was taken back past a hidden path is what shows again, where nothing was put there
/// and nothing stands in its way.
pub proof fn law_hide_put_then_get(rules: Rules, path: Seq<char>, t: Dir, parent: Dir, n: nat)
    requires
        good_path(rules, path),
        lookup(t, path) is None,
        clear_way(t, split(path, '/')),
    ensures
        puts_and_gets(rules, FilterView::Hide(path), t, parent, n),
{
    let h = hidden(parent, path);
    lemma_at_path(rules, path, t, parent, n);
    if let Ok(x) = replace_at(rules, t, path, h) {
        lemma_at_path(rules, path, x, parent, n);
    }
    law_put_nothing(rules, t, path, None);
    if h matches Some(Node::Link { .. }) {
        law_put_nothing(rules, t, path, h);
    } else {
        law_put_twice(rules, t, path, h, None);
    }
}

/// Chains may be bracketed either way, in both directions.
pub proof fn law_chain_associative(
    rules: Rules,
    a: FilterView,
    b: FilterView,
    c: FilterView,
    t: Dir,
    parent: Dir,
    n: nat,
)
    ensures
        ({
            let l = FilterView::Chain(
                Box::new(FilterView::Chain(Box::new(a), Box::new(b))),
                Box::new(c),
            );
            let r = FilterView::Chain(
                Box::new(a),
                Box::new(FilterView::Chain(Box::new(b), Box::new(c))),
            );
            &&& apply_tree(rules, l, t, n) == apply_tree(rules, r, t, n)
            &&& unapply_tree(rules, l, t, parent, n) == unapply_tree(rules, r, t, parent, n)
        }),
{
    let ab = FilterView::Chain(Box::new(a), Box::new(b));
    let bc = FilterView::Chain(Box::new(b), Box::new(c));
    lemma_chain(rules, ab, c, t, parent, n);
    lemma_chain(rules, a, bc, t, parent, n);
    lemma_chain(rules, a, b, t, parent, n);
    lemma_chain(rules, a, b, parent, parent, n);
    if let Ok(x) = apply_tree(rules, a, t, n) {
        lemma_chain(rules, b, c, x, x, n);
    }
    if let Ok(q) = apply_tree(rules, a, parent, n) {
        lemma_chain(rules, b, c, t, q, n);
        if let Ok(p) = apply_tree(rules, b, q, n) {
            if let Ok(x) = unapply_tree(rules, c, t, p, n) {
                lemma_chain(rules, a, b, x, parent, n);
            }
        }
    }
}

/// A chain with the filter that keeps everything does what the other filter does, in both
/// directions, and where it comes first the text shows no trace of it.
pub proof fn law_chain_nop(rules: Rules, f: FilterView, t: Dir, parent: Dir, n: nat)
    ensures
        ({
            let l = FilterView::Chain(Box::new(FilterView::Nop), Box::new(f));
            let r = FilterView::Chain(Box::new(f), Box::new(FilterView::Nop));
            &&& apply_tree(rules, l, t, n) == apply_tree(rules, f, t, n)
            &&& apply_tree(rules, r, t, n) == apply_tree(rules, f, t, n)
            &&& unapply_tree(rules, l, t, parent, n) == unapply_tree(rules, f, t, parent, n)
            &&& apply_tree(rules, f, parent, n) is Ok ==> unapply_tree(
                rules,
                r,
                t,
                parent,
                n,
            ) == unapply_tree(
                rules,
                f,
                t,
                parent,
                n,
            )
            &&& spec_text(l) == spec_text(f)
        }),
{
    lemma_chain(rules, FilterView::Nop, f, t, parent, n);
    lemma_chain(rules, f, FilterView::Nop, t, parent, n);
    law_nop(rules, t, parent, n);
    law_nop(rules, parent, parent, n);
    if let Ok(x) = apply_tree(rules, f, t, n) {
        law_nop(rules, x, parent, n);
    }
    if let Ok(x) = unapply_tree(rules, f, t, parent, n) {
        law_nop(rules, x, parent, n);
    }
    if let Ok(p) = apply_tree(rules, f, parent, n) {
        law_nop(rules, t, p, n);
    }
    let nop = ":nop"@;
    let s = spec_text(f);
    reveal_strlit(":nop");
    assert(spec_text(FilterView::Nop) == nop);
    assert((nop + s).subrange(0, 4) =~= nop);
    assert(occurs_at(nop + s, nop, 0));
    assert(find_from(nop + s, nop, 0) == Some(0int));
    assert((nop + s).take(0) + (nop + s).skip(4) =~= s);
}

/// A chain gives again what was taken back through it, where its parts do.
pub proof fn law_chain_put_then_get(
    rules: Rules,
    a: FilterView,
    b: FilterView,
    t: Dir,
    parent: Dir,
    n: nat,
)
    requires
        apply_tree(rules, a, parent, n) matches Ok(p) && puts_and_gets(
            rules,
            b,
            t,
            p,
            n,
        ) && puts_and_gets(
            rules,
            a,
            unapply_tree(rules, b, t, p, n)->Ok_0,
            parent,
            n,
        ),
    ensures
        puts_and_gets(rules, FilterView::Chain(Box::new(a), Box::new(b)), t, parent, n),
{
    let p = apply_tree(rules, a, parent, n)->Ok_0;
    let x = unapply_tree(rules, b, t, p, n)->Ok_0;
    lemma_chain(rules, a, b, t, parent, n);
    lemma_chain(rules, a, b, unapply_tree(rules, a, x, parent, n)->Ok_0, parent, n);
}

/// What a chain gives is taken back to what it was given, where its parts do so.
pub proof fn law_chain_get_then_put(rules: Rules, a: FilterView, b: FilterView, d: Dir, n: nat)
    requires
        gets_and_puts(rules, a, d, n),
        gets_and_puts(rules, b, apply_tree(rules, a, d, n)->Ok_0, n),
    ensures
        gets_and_puts(rules, FilterView::Chain(Box::new(a), Box::new(b)), d, n),
{
    let x = apply_tree(rules, a, d, n)->Ok_0;
    lemma_chain(rules, a, b, d, d, n);
    lemma_chain(rules, a, b, apply_tree(rules, b, x, n)->Ok_0, d, n);
}

/// A chain fails where its first part fails, with the same error.
pub proof fn law_chain_fails(rules: Rules, a: FilterView, b: FilterView, d: Dir, n: nat)
    requires
        apply_tree(rules, a, d, n) is Err,
    ensures
        apply_tree(rules, FilterView::Chain(Box::new(a), Box::new(b)), d, n) == apply_tree(
            rules,
            a,
            d,
            n,
        ),
{
    lemma_chain(rules, a, b, d, d, n);
}

/// The filters that have no inverse say so, by their text.
pub proof fn law_not_reversible(rules: Rules, f: FilterView, t: Dir, parent: Dir, n: nat)
    requires
        f is Dirs || f is Fold || f is Cutoff || f is Info,
    ensures
        unapply_tree(rules, f, t, parent, n) == Err::<Dir, ErrorView>(
            ErrorView::NotReversible(spec_text(f)),
        ),
{
}

/// A combination without mounts is its base.
pub proof fn law_combine_no_mounts(rules: Rules, base: FilterView, t: Dir, parent: Dir, n: nat)
    ensures
        ({
            let c = FilterView::Combine(
                CombineView { base: Box::new(base), mounts: Seq::empty() },
            );
            &&& apply_tree(rules, c, t, n) == apply_tree(rules, base, t, n)
            &&& unapply_tree(rules, c, t, parent, n) == unapply_tree(rules, base, t, parent, n)
        }),
{
    let c = CombineView { base: Box::new(base), mounts: Seq::<MountView>::empty() };
    assert(apply_combine(rules, c, t, n, 0) == apply_tree(rules, base, t, n));
    assert(unapply_mounts(rules, c, t, parent, n, 0) == Ok::<(Dir, Dir), ErrorView>((t, parent)));
    assert(unapply_combine(rules, c, t, parent, n) == unapply_tree(rules, base, t, parent, n));
    assert(apply_tree(rules, FilterView::Combine(c), t, n) == apply_combine(rules, c, t, n, 0));
}

/// What the filter for the first `k` components of a path does.
proof fn lemma_subdirs(rules: Rules, path: Seq<char>, k: int, t: Dir, parent: Dir, n: nat)
    requires
        normal_names(component_names(path)),
        path[0] != '/',
        1 <= k <= components(path).len(),
    ensures
        ({
            let names = component_names(path).take(k);
            let f = subdirs(components(path), k);
            &&& apply_tree(rules, f, t, n) == Ok::<Dir, ErrorView>(dir_or_empty(walk(t, names)))
            &&& unapply_tree(rules, f, t, parent, n) == Ok::<Dir, ErrorView>(
                put_at(rules, parent, names, Some(Node::Dir(t))),
            )
        }),
    decreases k,
{
    let all = component_names(path);
    let names = all.take(k);
    let cs = components(path);
    let name = all[k - 1];
    lemma_component_text(path, 0);
    assert(cs[k - 1].text == name);
    assert(normal_name(name));
    lemma_one_name(name);
    assert(names.last() == name);
    let last = FilterView::Subdir(name);
    if k == 1 {
        lemma_at_path(rules, name, t, parent, n);
        lemma_lookup_names(t, name);
        lemma_replace_at_names(rules, parent, name, Some(Node::Dir(t)));
        assert(names =~= seq![name]);
    } else {
        let front = subdirs(cs, k - 1);
        assert forall|i: int| 0 <= i < names.len() implies normal_name(#[trigger] names[i]) by {
            assert(normal_name(all[i]));
        }
        assert(names.drop_last() =~= all.take(k - 1));
        lemma_chain(rules, front, last, t, parent, n);
        lemma_subdirs(rules, path, k - 1, t, parent, n);
        lemma_subdirs(rules, path, k - 1, parent, parent, n);
        let x = dir_or_empty(walk(t, names.drop_last()));
        lemma_at_path(rules, name, x, parent, n);
        lemma_lookup_names(x, name);
        assert(walk(x, seq![name]) == child(x, encode_utf8(name)));
        lemma_walk_last(t, names);
        let p = dir_or_empty(walk(parent, names.drop_last()));
        lemma_at_path(rules, name, t, p, n);
        lemma_replace_at_names(rules, p, name, Some(Node::Dir(t)));
        let y = put_child(rules, p, encode_utf8(name), Some(Node::Dir(t)));
        assert(put_at(rules, p, seq![name], Some(Node::Dir(t))) == y);
        lemma_subdirs(rules, path, k - 1, y, parent, n);
        lemma_put_at_last(rules, parent, names, Some(Node::Dir(t)));
    }
}

/// The filter for the directory at a relative path goes down by the components of the path,
/// and takes the directory back there. So it does where separators are doubled, where one
/// stands at the end, and where `.` stands between names. It puts the directory where the
/// path itself leads, if all but the last component is written with normal names.
pub proof fn law_subdir_components(rules: Rules, path: Seq<char>, t: Dir, parent: Dir, n: nat)
    requires
        path.len() > 0,
        path[0] != '/',
        normal_names(component_names(path)),
    ensures
        apply_tree(rules, subdir_filter(path), t, n) == Ok::<Dir, ErrorView>(
            dir_or_empty(walk(t, component_names(path))),
        ),
        unapply_tree(rules, subdir_filter(path), t, parent, n) == Ok::<Dir, ErrorView>(
            put_at(rules, parent, component_names(path), Some(Node::Dir(t))),
        ),
        ({
            let cs = components(path);
            cs.len() > 1 && normal_path(path.take(cs[cs.len() - 2].end))
        }) ==> unapply_tree(rules, subdir_filter(path), t, parent, n) == replace_at(
            rules,
            parent,
            path,
            Some(Node::Dir(t)),
        ),
{
    let names = component_names(path);
    let len = names.len() as int;
    let item = Some(Node::Dir(t));
    lemma_subdirs(rules, path, len, t, parent, n);
    assert(names.take(len) =~= names);
    let cs = components(path);
    if len > 1 && normal_path(path.take(cs[len - 2].end)) {
        lemma_put_components(rules, parent, path, item);
    }
}

/// The filter for the directory at a path made of normal names gives what stands there, and
/// puts the directory back there. A separator may stand at the end of the path; but where
/// the path has one name, nothing is put at a path that ends so, while the filter takes the
/// directory back under the name.
pub proof fn law_subdir_filter(rules: Rules, path: Seq<char>, t: Dir, parent: Dir, n: nat)
    requires
        normal_path(path),
    ensures
        apply_tree(rules, subdir_filter(path), t, n) == Ok::<Dir, ErrorView>(subdir(t, path)),
        unapply_tree(rules, subdir_filter(path), t, parent, n) == replace_at(
            rules,
            parent,
            path,
            Some(Node::Dir(t)),
        ),
        subdir_filter(path.push('/')) == subdir_filter(path),
        apply_tree(rules, subdir_filter(path.push('/')), t, n) == Ok::<Dir, ErrorView>(
            subdir(t, path.push('/')),
        ),
        split(path, '/').len() > 1 ==> unapply_tree(
            rules,
            subdir_filter(path.push('/')),
            t,
            parent,
            n,
        ) == replace_at(rules, parent, path.push('/'), Some(Node::Dir(t))),
{
    lemma_good_components(path);
    law_subdir_components(rules, path, t, parent, n);
    lemma_lookup_names(t, path);
    lemma_replace_at_names(rules, parent, path, Some(Node::Dir(t)));
    lemma_path_push(rules, t, path, Some(Node::Dir(t)));
    lemma_path_push(rules, parent, path, Some(Node::Dir(t)));
}

/// A workspace file without text has no mounts.
pub proof fn lemma_no_mounts(base: FilterView)
    ensures
        checked_combine(""@, base) == Ok::<CombineView, ErrorView>(
            CombineView { base: Box::new(base), mounts: Seq::empty() },
        ),
{
    reveal_strlit("");
    let t = ""@;
    let lines = split(t, '\n');
    assert(t =~= Seq::<char>::empty());
    assert(lines.len() == 1);
    assert(lines[0] =~= t);
    assert(run_end(lines[0], 0, Class::Blank) == 0);
    assert(lines[0].skip(0) =~= t);
    assert(trimmed(lines[0]) == t);
    assert(mounts_on(lines, 0) == Seq::<MountView>::empty());
    assert(mounts_on(lines, 1) == Seq::<MountView>::empty());
}

/// Where there is no workspace file, or none that is text, a workspace is the directory at
/// its path.
pub proof fn law_workspace_without_file(rules: Rules, path: Seq<char>, d: Dir, n: nat)
    requires
        good_path(rules, path),
        n > 0,
        workspace_text(d, path) == ""@,
    ensures
        apply_tree(rules, FilterView::Workspace(path), d, n) == Ok::<Dir, ErrorView>(
            subdir(d, path),
        ),
{
    let base = subdir_filter(path);
    lemma_no_mounts(base);
    law_subdir_filter(rules, path, d, d, (n - 1) as nat);
    law_combine_no_mounts(rules, base, d, d, (n - 1) as nat);
    let c = CombineView { base: Box::new(base), mounts: Seq::<MountView>::empty() };
    assert(workspace(d, path) == Ok::<CombineView, ErrorView>(c));
    assert(apply_tree(rules, FilterView::Combine(c), d, (n - 1) as nat) == apply_combine(
        rules,
        c,
        d,
        (n - 1) as nat,
        0,
    ));
}

/// A workspace file that is no list of mounts is as good as none.
pub proof fn law_workspace_with_bad_file(path: Seq<char>, d: Dir)
    requires
        combine_from_ws(d, path) matches Err(ErrorView::InvalidWorkspace(_)),
    ensures
        workspace(d, path) == Ok::<CombineView, ErrorView>(
            CombineView { base: Box::new(subdir_filter(path)), mounts: Seq::empty() },
        ),
{
    lemma_no_mounts(subdir_filter(path));
}

/// A change cannot be taken back through a workspace whose own file cannot be read: the
/// mounts are those that the file in the changed tree describes.
pub proof fn law_workspace_put_with_bad_file(
    rules: Rules,
    path: Seq<char>,
    t: Dir,
    parent: Dir,
    n: nat,
)
    requires
        n > 0,
        combine_from_ws(t, ""@) is Err,
    ensures
        unapply_tree(rules, FilterView::Workspace(path), t, parent, n) == Err::<Dir, ErrorView>(
            combine_from_ws(t, ""@)->Err_0,
        ),
{
}

/// A change in a workspace without a file, or without one that is text, is taken back as
/// one of the directory at its path, and shows again.
pub proof fn law_workspace_put_without_file(
    rules: Rules,
    path: Seq<char>,
    t: Dir,
    parent: Dir,
    n: nat,
)
    requires
        good_path(rules, path),
        n > 0,
        workspace_text(t, ""@) == ""@,
    ensures
        unapply_tree(rules, FilterView::Workspace(path), t, parent, n) == replace_at(
            rules,
            parent,
            path,
            Some(Node::Dir(t)),
        ),
        puts_and_gets(rules, FilterView::Workspace(path), t, parent, n),
{
    let m = (n - 1) as nat;
    let file = "workspace.josh"@;
    let base = subdir_filter(path);
    let c = CombineView { base: Box::new(base), mounts: Seq::<MountView>::empty() };
    lemma_no_mounts(subdir_filter(""@));
    law_subdir_filter(rules, path, t, parent, m);
    assert(unapply_mounts(rules, c, t, parent, m, 0) == Ok::<(Dir, Dir), ErrorView>((t, parent)));
    assert(unapply_tree(rules, FilterView::Workspace(path), t, parent, n) == unapply_combine(
        rules,
        c,
        t,
        parent,
        m,
    ));
    law_put_then_get(rules, parent, path, Some(Node::Dir(t)));
    let x = replace_at(rules, parent, path, Some(Node::Dir(t)))->Ok_0;
    assert(subdir(x, path) == t);
    lemma_file_names(rules);
    lemma_join(rules, x, path, file);
    reveal_strlit("");
    assert(""@ =~= Seq::<char>::empty());
    assert(join(""@, file) == file);
    assert(workspace_text(x, path) == workspace_text(t, ""@));
    law_workspace_without_file(rules, path, x, n);
}

/// The info file stands at the prefix, with one line for each value, and nothing else
/// changes.
pub proof fn law_info_file(
    rules: Rules,
    values: Seq<PairView>,
    prefix: Seq<char>,
    s: Seq<char>,
    q: Seq<char>,
    d: Dir,
    n: nat,
)
    requires
        value_of(values, "prefix"@) == Some(prefix),
        info_lines(values, d, values.len() as int) == Ok::<Seq<char>, ErrorView>(s),
        good_path(rules, join(prefix, ".joshinfo"@)),
        part(split(join(prefix, ".joshinfo"@), '/'), split(q, '/')),
    ensures
        apply_tree(rules, FilterView::Info(values), d, n) matches Ok(t) && lookup(
            t,
            join(prefix, ".joshinfo"@),
        ) == Some(Node::Blob { mode: BLOB_MODE, data: encode_utf8(s) }) && lookup(t, q) == lookup(
            d,
            q,
        ),
{
    let path = join(prefix, ".joshinfo"@);
    let file = Some(Node::Blob { mode: BLOB_MODE, data: encode_utf8(s) });
    law_put_then_get(rules, d, path, file);
    law_put_elsewhere(rules, d, path, q, file);
}

} // verus!
