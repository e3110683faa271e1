//! What holds of combinations of filters.

use crate::apply::{
    apply_combine, apply_tree, unapply_combine, unapply_mounts, unapply_tree, workspace,
    workspace_text,
};
use crate::error::ErrorView;
use crate::filter::{subdir_filter, CombineView, FilterView, MountView};
use crate::grammar::{file_ok, parsed_mounts};
use crate::laws::{gets_and_puts, law_subdir_filter};
use crate::node::{dir_or_empty, empty_dir, Dir, Node, Rules};
use crate::path::{join, lookup, replace_at, subdir};
use crate::path_laws::{
    as_put, bare, clear_way, component_names, good_path, has_gap, is_steady, lands,
    law_get_then_put, law_put_elsewhere, law_put_empty, law_put_nothing, law_put_refused,
    law_put_then_get, law_put_twice, law_puts_commute, lemma_bare, lemma_dotted_parts,
    lemma_file_names, lemma_join, lemma_lookup_empty, lemma_lookup_gap, lemma_put_components,
    lemma_put_past, lemma_replace_at_names, normal_path, part,
};
use crate::text::split;
use vstd::prelude::*;

verus! {

/// The two paths part before either ends.
pub open spec fn paths_part(p: Seq<char>, q: Seq<char>) -> bool {
    part(split(p, '/'), split(q, '/'))
}

/// A combination succeeds where its base and its mounts do, and the mounts stand at normal
/// paths.
pub proof fn law_combine_succeeds(rules: Rules, c: CombineView, d: Dir, n: nat, k: int)
    requires
        0 <= k <= c.mounts.len(),
        apply_tree(rules, *c.base, d, n) is Ok,
        forall|i: int|
            0 <= i < k ==> normal_path((#[trigger] c.mounts[i]).prefix) && apply_tree(
                rules,
                c.mounts[i].filter,
                d,
                n,
            ) is Ok,
    ensures
        apply_combine(rules, c, d, n, k) is Ok,
    decreases k,
{
    if k > 0 {
        law_combine_succeeds(rules, c, d, n, k - 1);
        let base = apply_combine(rules, c, d, n, k - 1)->Ok_0;
        assert(normal_path(c.mounts[k - 1].prefix));
        let t = apply_tree(rules, c.mounts[k - 1].filter, d, n)->Ok_0;
        lemma_replace_at_names(rules, base, c.mounts[k - 1].prefix, Some(Node::Dir(t)));
    }
}

/// What the filter of a mount gives stands at its path, where the mounts after it stand at
/// paths that part from it.
pub proof fn law_mount_shows(rules: Rules, c: CombineView, d: Dir, n: nat, k: int, i: int)
    requires
        0 <= i < k <= c.mounts.len(),
        apply_combine(rules, c, d, n, k) is Ok,
        apply_tree(rules, c.mounts[i].filter, d, n) matches Ok(m) && m != empty_dir(),
        good_path(rules, c.mounts[i].prefix),
        forall|j: int| i < j < k ==> normal_path((#[trigger] c.mounts[j]).prefix),
        forall|j: int|
            i < j < k ==> paths_part((#[trigger] c.mounts[j]).prefix, c.mounts[i].prefix),
    ensures
        lookup(apply_combine(rules, c, d, n, k)->Ok_0, c.mounts[i].prefix) == Some(
            Node::Dir(apply_tree(rules, c.mounts[i].filter, d, n)->Ok_0),
        ),
    decreases k,
{
    let base = apply_combine(rules, c, d, n, k - 1)->Ok_0;
    let t = apply_tree(rules, c.mounts[k - 1].filter, d, n)->Ok_0;
    if i == k - 1 {
        law_put_then_get(rules, base, c.mounts[i].prefix, Some(Node::Dir(t)));
    } else {
        law_mount_shows(rules, c, d, n, k - 1, i);
        assert(paths_part(c.mounts[k - 1].prefix, c.mounts[i].prefix));
        law_put_elsewhere(
            rules,
            base,
            c.mounts[k - 1].prefix,
            c.mounts[i].prefix,
            Some(Node::Dir(t)),
        );
    }
}

/// What the base gives shows at paths that part from those of all mounts.
pub proof fn law_base_shows(rules: Rules, c: CombineView, d: Dir, n: nat, k: int, q: Seq<char>)
    requires
        0 <= k <= c.mounts.len(),
        apply_combine(rules, c, d, n, k) is Ok,
        forall|j: int|
            0 <= j < k ==> normal_path((#[trigger] c.mounts[j]).prefix) && paths_part(
                c.mounts[j].prefix,
                q,
            ),
    ensures
        apply_tree(rules, *c.base, d, n) is Ok,
        lookup(apply_combine(rules, c, d, n, k)->Ok_0, q) == lookup(
            apply_tree(rules, *c.base, d, n)->Ok_0,
            q,
        ),
    decreases k,
{
    if k > 0 {
        let base = apply_combine(rules, c, d, n, k - 1)->Ok_0;
        let t = apply_tree(rules, c.mounts[k - 1].filter, d, n)->Ok_0;
        assert(normal_path(c.mounts[k - 1].prefix));
        law_base_shows(rules, c, d, n, k - 1, q);
        law_put_elsewhere(rules, base, c.mounts[k - 1].prefix, q, Some(Node::Dir(t)));
    }
}

/// A combination over the directory at `home`, which mounts the directories at `sources`,
/// where neither the paths of the mounts nor those of the directories run into each other.
pub open spec fn independent(
    rules: Rules,
    c: CombineView,
    home: Seq<char>,
    sources: Seq<Seq<char>>,
) -> bool {
    &&& sources.len() == c.mounts.len()
    &&& *c.base == subdir_filter(home)
    &&& good_path(rules, home)
    &&& forall|i: int|
        0 <= i < c.mounts.len() ==> {
            &&& good_path(rules, (#[trigger] c.mounts[i]).prefix)
            &&& good_path(rules, sources[i])
            &&& paths_part(home, sources[i])
            &&& c.mounts[i].filter == subdir_filter(sources[i])
        }
    &&& forall|i: int, j: int|
        0 <= i < c.mounts.len() && 0 <= j < c.mounts.len() && i != j ==> paths_part(
            (#[trigger] c.mounts[i]).prefix,
            (#[trigger] c.mounts[j]).prefix,
        ) && paths_part(sources[i], sources[j])
}

/// At the path of each mount stands a directory with entries.
pub open spec fn fills_mounts(c: CombineView, t: Dir) -> bool {
    forall|i: int|
        0 <= i < c.mounts.len() ==> (lookup(t, (#[trigger] c.mounts[i]).prefix) matches Some(
            Node::Dir(m),
        ) && m != empty_dir())
}

proof fn lemma_unapply_parts(
    rules: Rules,
    c: CombineView,
    home: Seq<char>,
    sources: Seq<Seq<char>>,
    t: Dir,
    parent: Dir,
    n: nat,
    k: int,
)
    requires
        independent(rules, c, home, sources),
        fills_mounts(c, t),
        0 <= k <= c.mounts.len(),
    ensures
        unapply_mounts(rules, c, t, parent, n, k) is Ok,
        ({
            let (rest, result) = unapply_mounts(rules, c, t, parent, n, k)->Ok_0;
            &&& forall|i: int|
                k <= i < c.mounts.len() ==> lookup(rest, (#[trigger] c.mounts[i]).prefix) == lookup(
                    t,
                    c.mounts[i].prefix,
                )
            &&& forall|i: int|
                0 <= i < k ==> lookup(result, sources[i]) == lookup(
                    t,
                    (#[trigger] c.mounts[i]).prefix,
                )
            &&& forall|q: Seq<char>|
                (forall|i: int|
                    0 <= i < k ==> paths_part((#[trigger] c.mounts[i]).prefix, q))
                    ==> #[trigger] lookup(rest, q) == lookup(t, q)
        }),
    decreases k,
{
    if k > 0 {
        lemma_unapply_parts(rules, c, home, sources, t, parent, n, k - 1);
        let (rest, result) = unapply_mounts(rules, c, t, parent, n, k - 1)->Ok_0;
        let m = c.mounts[k - 1];
        let here = lookup(t, m.prefix)->0->Dir_0;
        assert(good_path(rules, m.prefix));
        assert(lookup(rest, m.prefix) == Some(Node::Dir(here)));
        let nothing = Some(Node::Dir(empty_dir()));
        law_put_then_get(rules, rest, m.prefix, nothing);
        let left = replace_at(rules, rest, m.prefix, nothing)->Ok_0;
        law_subdir_filter(rules, sources[k - 1], here, result, n);
        law_put_then_get(rules, result, sources[k - 1], Some(Node::Dir(here)));
        let x = replace_at(rules, result, sources[k - 1], Some(Node::Dir(here)))->Ok_0;
        assert(unapply_mounts(rules, c, t, parent, n, k) == Ok::<(Dir, Dir), ErrorView>((left, x)));
        assert forall|i: int| k <= i < c.mounts.len() implies lookup(
            left,
            (#[trigger] c.mounts[i]).prefix,
        ) == lookup(t, c.mounts[i].prefix) by {
            assert(paths_part(m.prefix, c.mounts[i].prefix));
            law_put_elsewhere(rules, rest, m.prefix, c.mounts[i].prefix, nothing);
        }
        assert forall|i: int| 0 <= i < k implies lookup(x, sources[i]) == lookup(
            t,
            (#[trigger] c.mounts[i]).prefix,
        ) by {
            if i < k - 1 {
                assert(paths_part(m.prefix, c.mounts[i].prefix));
                law_put_elsewhere(
                    rules,
                    result,
                    sources[k - 1],
                    sources[i],
                    Some(Node::Dir(here)),
                );
            }
        }
        assert forall|q: Seq<char>|
            (forall|i: int|
                0 <= i < k ==> paths_part(
                    (#[trigger] c.mounts[i]).prefix,
                    q,
                )) implies #[trigger] lookup(
            left,
            q,
        ) == lookup(t, q) by {
            assert(paths_part(m.prefix, q));
            law_put_elsewhere(rules, rest, m.prefix, q, nothing);
        }
    }
}

/// What was changed in a combination shows again once it was taken back: at each mount, and
/// at paths that part from all mounts.
pub proof fn law_combine_put_then_get(
    rules: Rules,
    c: CombineView,
    home: Seq<char>,
    sources: Seq<Seq<char>>,
    t: Dir,
    parent: Dir,
    n: nat,
)
    requires
        independent(rules, c, home, sources),
        fills_mounts(c, t),
    ensures
        unapply_tree(rules, FilterView::Combine(c), t, parent, n) matches Ok(x) && apply_tree(
            rules,
            FilterView::Combine(c),
            x,
            n,
        ) matches Ok(y) && {
            &&& forall|i: int|
                0 <= i < c.mounts.len() ==> lookup(y, (#[trigger] c.mounts[i]).prefix) == lookup(
                    t,
                    c.mounts[i].prefix,
                )
            &&& forall|q: Seq<char>|
                (forall|i: int|
                    0 <= i < c.mounts.len() ==> paths_part((#[trigger] c.mounts[i]).prefix, q))
                    ==> #[trigger] lookup(y, q) == lookup(t, q)
        },
{
    let len = c.mounts.len() as int;
    lemma_unapply_parts(rules, c, home, sources, t, parent, n, len);
    let (rest, result) = unapply_mounts(rules, c, t, parent, n, len)->Ok_0;
    law_subdir_filter(rules, home, rest, result, n);
    law_put_then_get(rules, result, home, Some(Node::Dir(rest)));
    let x = replace_at(rules, result, home, Some(Node::Dir(rest)))->Ok_0;
    assert(unapply_combine(rules, c, t, parent, n) == Ok::<Dir, ErrorView>(x));
    law_subdir_filter(rules, home, x, x, n);
    assert(subdir(x, home) == rest);
    assert forall|i: int| 0 <= i < len implies good_path(rules, (#[trigger] c.mounts[i]).prefix)
        && apply_tree(rules, c.mounts[i].filter, x, n) == Ok::<Dir, ErrorView>(
        dir_or_empty(lookup(t, c.mounts[i].prefix)),
    ) by {
        law_put_elsewhere(rules, result, home, sources[i], Some(Node::Dir(rest)));
        law_subdir_filter(rules, sources[i], x, x, n);
    }
    law_combine_succeeds(rules, c, x, n, len);
    let y = apply_combine(rules, c, x, n, len)->Ok_0;
    assert(apply_tree(rules, FilterView::Combine(c), x, n) == Ok::<Dir, ErrorView>(y));
    assert forall|i: int| 0 <= i < len implies lookup(y, (#[trigger] c.mounts[i]).prefix) == lookup(
        t,
        c.mounts[i].prefix,
    ) by {
        law_mount_shows(rules, c, x, n, len, i);
    }
    assert forall|q: Seq<char>|
        (forall|i: int|
            0 <= i < len ==> paths_part(
                (#[trigger] c.mounts[i]).prefix,
                q,
            )) implies #[trigger] lookup(
        y,
        q,
    ) == lookup(t, q) by {
        law_base_shows(rules, c, x, n, len, q);
        assert(lookup(rest, q) == lookup(t, q));
    }
}

/// The mounts stand at steady paths, none equal to another or inside it.
pub open spec fn apart(c: CombineView) -> bool {
    &&& forall|i: int| 0 <= i < c.mounts.len() ==> is_steady((#[trigger] c.mounts[i]).prefix)
    &&& forall|i: int, j: int|
        0 <= i < c.mounts.len() && 0 <= j < c.mounts.len() && i != j ==> part(
            component_names((#[trigger] c.mounts[i]).prefix),
            component_names((#[trigger] c.mounts[j]).prefix),
        )
}

/// What a mount whose filter gives `t` shows at its path: nothing where entries refuse a
/// name of it, and where nothing can be found at the path.
pub open spec fn shown(rules: Rules, prefix: Seq<char>, t: Dir) -> Option<Node> {
    if normal_path(bare(prefix)) && good_path(rules, bare(prefix)) && lands(prefix) {
        as_put(Some(Node::Dir(t)))
    } else {
        None
    }
}

/// Where to look for what stands at the path of a mount.
spec fn spot(p: Seq<char>) -> Seq<char> {
    if normal_path(bare(p)) {
        bare(p)
    } else {
        p
    }
}

/// A mount leaves alone what stands at the paths of other mounts; at its own, too, where it
/// comes to stand elsewhere or nowhere.
proof fn lemma_spot_kept(
    rules: Rules,
    d: Dir,
    p: Seq<char>,
    q: Seq<char>,
    item: Option<Node>,
)
    requires
        is_steady(p),
        is_steady(q),
        part(component_names(p), component_names(q)) || (p == q && !(normal_path(bare(p)) && lands(
            p,
        ))),
    ensures
        replace_at(rules, d, p, item) is Ok,
        lookup(replace_at(rules, d, p, item)->Ok_0, spot(q)) == lookup(d, spot(q)),
{
    lemma_put_components(rules, d, p, item);
    if normal_path(bare(q)) {
        lemma_bare(rules, d, q);
        lemma_put_past(rules, d, p, bare(q), item);
    } else if has_gap(split(q, '/')) {
        lemma_lookup_gap(d, q);
        lemma_lookup_gap(replace_at(rules, d, p, item)->Ok_0, q);
    } else {
        lemma_dotted_parts(component_names(q), component_names(p), split(q, '/'));
        lemma_put_past(rules, d, p, q, item);
    }
}

/// Over nothing, what the first `k` mounts show at the path of the `i`th.
proof fn lemma_mounts_show(rules: Rules, c: CombineView, d: Dir, n: nat, k: int, i: int)
    requires
        *c.base == FilterView::Empty,
        apart(c),
        0 <= i < c.mounts.len(),
        0 <= k <= c.mounts.len(),
        apply_combine(rules, c, d, n, k) is Ok,
    ensures
        lookup(apply_combine(rules, c, d, n, k)->Ok_0, spot(c.mounts[i].prefix)) == (if i < k {
            shown(rules, c.mounts[i].prefix, apply_tree(rules, c.mounts[i].filter, d, n)->Ok_0)
        } else {
            None
        }),
    decreases k,
{
    let q = c.mounts[i].prefix;
    assert(is_steady(q));
    if k == 0 {
        lemma_lookup_empty(spot(q));
        assert(apply_tree(rules, *c.base, d, n) == Ok::<Dir, ErrorView>(empty_dir()));
    } else {
        lemma_mounts_show(rules, c, d, n, k - 1, i);
        let base = apply_combine(rules, c, d, n, k - 1)->Ok_0;
        let p = c.mounts[k - 1].prefix;
        let item = Some(Node::Dir(apply_tree(rules, c.mounts[k - 1].filter, d, n)->Ok_0));
        assert(is_steady(p));
        if k - 1 != i {
            assert(part(component_names(p), component_names(q)));
            lemma_spot_kept(rules, base, p, q, item);
        } else if normal_path(bare(p)) && lands(p) {
            lemma_bare(rules, base, p);
            lemma_put_components(rules, base, p, item);
            lemma_replace_at_names(rules, base, bare(p), item);
            if good_path(rules, bare(p)) {
                law_put_then_get(rules, base, bare(p), item);
            } else {
                law_put_refused(rules, base, bare(p), item);
            }
        } else {
            lemma_spot_kept(rules, base, p, q, item);
        }
    }
}

/// What is found at the path of a mount is what it shows.
proof fn lemma_shown_found(rules: Rules, d: Dir, p: Seq<char>, t: Dir)
    requires
        lookup(d, spot(p)) == shown(rules, p, t),
    ensures
        lookup(d, p) == shown(rules, p, t),
{
    if normal_path(bare(p)) {
        lemma_bare(rules, d, p);
    }
}

proof fn lemma_mounts_put_back(
    rules: Rules,
    c: CombineView,
    y: Dir,
    d: Dir,
    n: nat,
    k: int,
)
    requires
        apart(c),
        0 <= k <= c.mounts.len(),
        forall|i: int|
            0 <= i < c.mounts.len() ==> gets_and_puts(rules, (#[trigger] c.mounts[i]).filter, d, n)
                && lookup(y, spot(c.mounts[i].prefix)) == shown(
                rules,
                c.mounts[i].prefix,
                apply_tree(rules, c.mounts[i].filter, d, n)->Ok_0,
            ),
    ensures
        unapply_mounts(rules, c, y, d, n, k) matches Ok((rest, result)) && result == d && forall|
            i: int,
        |
            k <= i < c.mounts.len() ==> lookup(
                rest,
                spot((#[trigger] c.mounts[i]).prefix),
            ) == lookup(
                y,
                spot(c.mounts[i].prefix),
            ),
    decreases k,
{
    if k > 0 {
        lemma_mounts_put_back(rules, c, y, d, n, k - 1);
        let rest = unapply_mounts(rules, c, y, d, n, k - 1)->Ok_0.0;
        let m = c.mounts[k - 1];
        assert(is_steady(m.prefix));
        assert(gets_and_puts(rules, m.filter, d, n));
        let t = apply_tree(rules, m.filter, d, n)->Ok_0;
        assert(lookup(rest, spot(m.prefix)) == lookup(y, spot(m.prefix)));
        lemma_shown_found(rules, rest, m.prefix, t);
        let nothing = Some(Node::Dir(empty_dir()));
        lemma_put_components(rules, rest, m.prefix, nothing);
        let left = replace_at(rules, rest, m.prefix, nothing)->Ok_0;
        assert(unapply_mounts(rules, c, y, d, n, k) == Ok::<(Dir, Dir), ErrorView>((left, d)));
        assert forall|i: int| k <= i < c.mounts.len() implies lookup(
            left,
            spot((#[trigger] c.mounts[i]).prefix),
        ) == lookup(y, spot(c.mounts[i].prefix)) by {
            assert(part(component_names(m.prefix), component_names(c.mounts[i].prefix)));
            lemma_spot_kept(rules, rest, m.prefix, c.mounts[i].prefix, nothing);
        }
    }
}

/// A combination over nothing succeeds where its mounts do, and stand at such paths.
proof fn lemma_mounts_succeed(rules: Rules, c: CombineView, d: Dir, n: nat, k: int)
    requires
        *c.base == FilterView::Empty,
        0 <= k <= c.mounts.len(),
        forall|i: int|
            0 <= i < k ==> is_steady((#[trigger] c.mounts[i]).prefix) && apply_tree(
                rules,
                c.mounts[i].filter,
                d,
                n,
            ) is Ok,
    ensures
        apply_combine(rules, c, d, n, k) is Ok,
    decreases k,
{
    if k == 0 {
        assert(apply_tree(rules, *c.base, d, n) == Ok::<Dir, ErrorView>(empty_dir()));
    } else {
        lemma_mounts_succeed(rules, c, d, n, k - 1);
        let base = apply_combine(rules, c, d, n, k - 1)->Ok_0;
        let m = c.mounts[k - 1];
        assert(is_steady(m.prefix));
        let t = apply_tree(rules, m.filter, d, n)->Ok_0;
        lemma_put_components(rules, base, m.prefix, Some(Node::Dir(t)));
    }
}

/// Over nothing, a combination of filters that each give back what they take does so too,
/// where the mounts stand at steady paths, none equal to another or inside it. A mount that
/// shows nothing at its path takes nothing back.
pub proof fn law_combine_over_nothing(rules: Rules, c: CombineView, d: Dir, n: nat)
    requires
        *c.base == FilterView::Empty,
        apart(c),
        forall|i: int|
            0 <= i < c.mounts.len() ==> gets_and_puts(rules, (#[trigger] c.mounts[i]).filter, d, n),
    ensures
        gets_and_puts(rules, FilterView::Combine(c), d, n),
        forall|i: int|
            0 <= i < c.mounts.len() ==> lookup(
                apply_tree(rules, FilterView::Combine(c), d, n)->Ok_0,
                (#[trigger] c.mounts[i]).prefix,
            ) == shown(
                rules,
                c.mounts[i].prefix,
                apply_tree(rules, c.mounts[i].filter, d, n)->Ok_0,
            ),
{
    let len = c.mounts.len() as int;
    assert(apply_tree(rules, *c.base, d, n) == Ok::<Dir, ErrorView>(empty_dir()));
    assert forall|i: int| 0 <= i < len implies is_steady((#[trigger] c.mounts[i]).prefix)
        && apply_tree(rules, c.mounts[i].filter, d, n) is Ok by {
        assert(gets_and_puts(rules, c.mounts[i].filter, d, n));
    }
    lemma_mounts_succeed(rules, c, d, n, len);
    let y = apply_combine(rules, c, d, n, len)->Ok_0;
    assert(apply_tree(rules, FilterView::Combine(c), d, n) == Ok::<Dir, ErrorView>(y));
    assert forall|i: int| 0 <= i < len implies gets_and_puts(
        rules,
        (#[trigger] c.mounts[i]).filter,
        d,
        n,
    ) && lookup(y, spot(c.mounts[i].prefix)) == shown(
        rules,
        c.mounts[i].prefix,
        apply_tree(rules, c.mounts[i].filter, d, n)->Ok_0,
    ) && lookup(y, c.mounts[i].prefix) == shown(
        rules,
        c.mounts[i].prefix,
        apply_tree(rules, c.mounts[i].filter, d, n)->Ok_0,
    ) by {
        assert(gets_and_puts(rules, c.mounts[i].filter, d, n));
        lemma_mounts_show(rules, c, d, n, len, i);
        lemma_shown_found(
            rules,
            y,
            c.mounts[i].prefix,
            apply_tree(rules, c.mounts[i].filter, d, n)->Ok_0,
        );
    }
    lemma_mounts_put_back(rules, c, y, d, n, len);
    let rest = unapply_mounts(rules, c, y, d, n, len)->Ok_0.0;
    assert(unapply_tree(rules, *c.base, rest, d, n) == Ok::<Dir, ErrorView>(d));
    assert(unapply_combine(rules, c, y, d, n) == Ok::<Dir, ErrorView>(d));
}

/// What was changed in a workspace shows again once it was taken back: in the workspace
/// file, at each mount, and at paths that part from all mounts.
pub proof fn law_workspace_put_then_get(
    rules: Rules,
    path: Seq<char>,
    mounts: Seq<MountView>,
    sources: Seq<Seq<char>>,
    t: Dir,
    parent: Dir,
    n: nat,
)
    requires
        n > 0,
        file_ok(workspace_text(t, ""@)),
        parsed_mounts(workspace_text(t, ""@)) == Ok::<Seq<MountView>, ErrorView>(mounts),
        independent(
            rules,
            CombineView { base: Box::new(subdir_filter(path)), mounts },
            path,
            sources,
        ),
        fills_mounts(CombineView { base: Box::new(subdir_filter(path)), mounts }, t),
        forall|i: int|
            0 <= i < mounts.len() ==> paths_part(
                (#[trigger] mounts[i]).prefix,
                "workspace.josh"@,
            ),
    ensures
        unapply_tree(rules, FilterView::Workspace(path), t, parent, n) matches Ok(x) && apply_tree(
            rules,
            FilterView::Workspace(path),
            x,
            n,
        ) matches Ok(y) && {
            &&& forall|i: int|
                0 <= i < mounts.len() ==> lookup(y, (#[trigger] mounts[i]).prefix) == lookup(
                    t,
                    mounts[i].prefix,
                )
            &&& forall|q: Seq<char>|
                (forall|i: int|
                    0 <= i < mounts.len() ==> paths_part((#[trigger] mounts[i]).prefix, q))
                    ==> #[trigger] lookup(y, q) == lookup(t, q)
        },
{
    let c = CombineView { base: Box::new(subdir_filter(path)), mounts };
    let m = (n - 1) as nat;
    let file = "workspace.josh"@;
    let len = mounts.len() as int;
    lemma_file_names(rules);
    law_combine_put_then_get(rules, c, path, sources, t, parent, m);
    lemma_unapply_parts(rules, c, path, sources, t, parent, m, len);
    let (rest, result) = unapply_mounts(rules, c, t, parent, m, len)->Ok_0;
    law_subdir_filter(rules, path, rest, result, m);
    law_put_then_get(rules, result, path, Some(Node::Dir(rest)));
    let x = replace_at(rules, result, path, Some(Node::Dir(rest)))->Ok_0;
    assert(unapply_combine(rules, c, t, parent, m) == Ok::<Dir, ErrorView>(x));
    reveal_strlit("");
    assert(""@ =~= Seq::<char>::empty());
    assert(join(""@, file) == file);
    assert(
        unapply_tree(rules, FilterView::Workspace(path), t, parent, n) == Ok::<Dir, ErrorView>(x)
    );
    lemma_join(rules, x, path, file);
    assert(subdir(x, path) == rest);
    assert(lookup(rest, file) == lookup(t, file));
    assert(workspace_text(x, path) == workspace_text(t, ""@));
    assert(workspace(x, path) == Ok::<CombineView, ErrorView>(c));
    assert(apply_tree(rules, FilterView::Combine(c), x, m) == apply_combine(rules, c, x, m, len));
    assert(
        apply_tree(rules, FilterView::Workspace(path), x, n) == apply_combine(rules, c, x, m, len)
    );
}

/// The directories that a combination mounts have entries, and leave room for the mounts in
/// the directory over which it mounts them.
pub open spec fn has_room(
    c: CombineView,
    home: Seq<char>,
    sources: Seq<Seq<char>>,
    d: Dir,
) -> bool {
    &&& match lookup(d, home) {
        Some(Node::Dir(m)) => m != empty_dir(),
        Some(_) => false,
        None => clear_way(d, split(home, '/')),
    }
    &&& forall|i: int|
        0 <= i < c.mounts.len() ==> {
            &&& lookup(d, sources[i]) matches Some(Node::Dir(m)) && m != empty_dir()
            &&& lookup(subdir(d, home), (#[trigger] c.mounts[i]).prefix) is None
            &&& clear_way(subdir(d, home), split(c.mounts[i].prefix, '/'))
        }
}

/// The directory at `home` with the mounts from the `j`th to before the `k`th.
spec fn mounted(
    rules: Rules,
    c: CombineView,
    home: Seq<char>,
    sources: Seq<Seq<char>>,
    d: Dir,
    j: int,
    k: int,
) -> Dir
    decreases k - j,
{
    if k <= j {
        subdir(d, home)
    } else {
        replace_at(
            rules,
            mounted(rules, c, home, sources, d, j, k - 1),
            c.mounts[k - 1].prefix,
            Some(Node::Dir(subdir(d, sources[k - 1]))),
        )->Ok_0
    }
}

proof fn lemma_mounted(
    rules: Rules,
    c: CombineView,
    home: Seq<char>,
    sources: Seq<Seq<char>>,
    d: Dir,
    n: nat,
    k: int,
)
    requires
        independent(rules, c, home, sources),
        has_room(c, home, sources, d),
        0 <= k <= c.mounts.len(),
    ensures
        apply_combine(rules, c, d, n, k) == Ok::<Dir, ErrorView>(
            mounted(rules, c, home, sources, d, 0, k),
        ),
    decreases k,
{
    if k == 0 {
        law_subdir_filter(rules, home, d, d, n);
    } else {
        lemma_mounted(rules, c, home, sources, d, n, k - 1);
        let m = c.mounts[k - 1];
        assert(good_path(rules, m.prefix));
        law_subdir_filter(rules, sources[k - 1], d, d, n);
        law_put_then_get(
            rules,
            mounted(rules, c, home, sources, d, 0, k - 1),
            m.prefix,
            Some(Node::Dir(subdir(d, sources[k - 1]))),
        );
    }
}

/// Taking the first of the mounts away leaves the others.
proof fn lemma_unmount(
    rules: Rules,
    c: CombineView,
    home: Seq<char>,
    sources: Seq<Seq<char>>,
    d: Dir,
    j: int,
    k: int,
)
    requires
        independent(rules, c, home, sources),
        has_room(c, home, sources, d),
        0 <= j < k <= c.mounts.len(),
    ensures
        replace_at(
            rules,
            mounted(rules, c, home, sources, d, j, k),
            c.mounts[j].prefix,
            None,
        ) == Ok::<
            Dir,
            ErrorView,
        >(mounted(rules, c, home, sources, d, j + 1, k)),
        lookup(mounted(rules, c, home, sources, d, j, k), c.mounts[j].prefix) == lookup(
            d,
            sources[j],
        ),
    decreases k - j,
{
    let p = c.mounts[j].prefix;
    let q = c.mounts[k - 1].prefix;
    assert(good_path(rules, p));
    assert(good_path(rules, q));
    let here = mounted(rules, c, home, sources, d, j, k - 1);
    let item = Some(Node::Dir(subdir(d, sources[k - 1])));
    if j == k - 1 {
        lemma_put_and_take(rules, here, p, subdir(d, sources[j]));
    } else {
        lemma_unmount(rules, c, home, sources, d, j, k - 1);
        assert(paths_part(q, p));
        lemma_take_past(rules, here, p, q, item);
    }
}

proof fn lemma_put_and_take(rules: Rules, d: Dir, p: Seq<char>, m: Dir)
    requires
        good_path(rules, p),
        lookup(d, p) is None,
        clear_way(d, split(p, '/')),
        m != empty_dir(),
    ensures
        replace_at(
            rules,
            replace_at(rules, d, p, Some(Node::Dir(m)))->Ok_0,
            p,
            None,
        ) == Ok::<Dir, ErrorView>(d),
        lookup(replace_at(rules, d, p, Some(Node::Dir(m)))->Ok_0, p) == Some(Node::Dir(m)),
{
    law_put_twice(rules, d, p, Some(Node::Dir(m)), None);
    law_put_nothing(rules, d, p, None);
    law_put_then_get(rules, d, p, Some(Node::Dir(m)));
}

proof fn lemma_take_past(rules: Rules, d: Dir, p: Seq<char>, q: Seq<char>, item: Option<Node>)
    requires
        good_path(rules, p),
        good_path(rules, q),
        paths_part(q, p),
        !(item matches Some(Node::Link { .. })),
    ensures
        replace_at(rules, d, p, None) is Ok,
        replace_at(rules, replace_at(rules, d, q, item)->Ok_0, p, None) == replace_at(
            rules,
            replace_at(rules, d, p, None)->Ok_0,
            q,
            item,
        ),
        replace_at(rules, replace_at(rules, d, p, None)->Ok_0, q, item) is Ok,
        lookup(replace_at(rules, d, q, item)->Ok_0, p) == lookup(d, p),
{
    law_puts_commute(rules, d, q, p, item, None);
    law_put_elsewhere(rules, d, q, p, item);
    law_put_then_get(rules, replace_at(rules, d, p, None)->Ok_0, q, item);
}

proof fn lemma_unapply_mounted(
    rules: Rules,
    c: CombineView,
    home: Seq<char>,
    sources: Seq<Seq<char>>,
    d: Dir,
    n: nat,
    k: int,
)
    requires
        independent(rules, c, home, sources),
        has_room(c, home, sources, d),
        0 <= k <= c.mounts.len(),
    ensures
        unapply_mounts(
            rules,
            c,
            mounted(rules, c, home, sources, d, 0, c.mounts.len() as int),
            d,
            n,
            k,
        ) == Ok::<(Dir, Dir), ErrorView>(
            (mounted(rules, c, home, sources, d, k, c.mounts.len() as int), d),
        ),
    decreases k,
{
    if k > 0 {
        let len = c.mounts.len() as int;
        let m = c.mounts[k - 1];
        let source = sources[k - 1];
        lemma_unapply_mounted(rules, c, home, sources, d, n, k - 1);
        lemma_unmount(rules, c, home, sources, d, k - 1, len);
        assert(good_path(rules, m.prefix));
        law_put_empty(rules, mounted(rules, c, home, sources, d, k - 1, len), m.prefix);
        law_subdir_filter(rules, source, subdir(d, source), d, n);
        law_get_then_put(rules, d, source);
    }
}

/// Taking back what a combination gives of a tree changes nothing.
pub proof fn law_combine_get_then_put(
    rules: Rules,
    c: CombineView,
    home: Seq<char>,
    sources: Seq<Seq<char>>,
    d: Dir,
    n: nat,
)
    requires
        independent(rules, c, home, sources),
        has_room(c, home, sources, d),
    ensures
        gets_and_puts(rules, FilterView::Combine(c), d, n),
{
    let len = c.mounts.len() as int;
    let y = mounted(rules, c, home, sources, d, 0, len);
    lemma_mounted(rules, c, home, sources, d, n, len);
    assert(apply_tree(rules, FilterView::Combine(c), d, n) == Ok::<Dir, ErrorView>(y));
    lemma_unapply_mounted(rules, c, home, sources, d, n, len);
    let base = subdir(d, home);
    assert(mounted(rules, c, home, sources, d, len, len) == base);
    law_subdir_filter(rules, home, base, d, n);
    if lookup(d, home) is Some {
        law_get_then_put(rules, d, home);
    } else {
        law_put_nothing(rules, d, home, Some(Node::Dir(empty_dir())));
    }
    assert(unapply_combine(rules, c, y, d, n) == Ok::<Dir, ErrorView>(d));
}

/// Taking back what a workspace gives of a tree changes nothing.
pub proof fn law_workspace_get_then_put(
    rules: Rules,
    path: Seq<char>,
    mounts: Seq<MountView>,
    sources: Seq<Seq<char>>,
    d: Dir,
    n: nat,
)
    requires
        n > 0,
        file_ok(workspace_text(d, path)),
        parsed_mounts(workspace_text(d, path)) == Ok::<Seq<MountView>, ErrorView>(mounts),
        independent(
            rules,
            CombineView { base: Box::new(subdir_filter(path)), mounts },
            path,
            sources,
        ),
        has_room(
            CombineView { base: Box::new(subdir_filter(path)), mounts },
            path,
            sources,
            d,
        ),
        forall|i: int|
            0 <= i < mounts.len() ==> paths_part(
                (#[trigger] mounts[i]).prefix,
                "workspace.josh"@,
            ),
    ensures
        gets_and_puts(rules, FilterView::Workspace(path), d, n),
{
    let c = CombineView { base: Box::new(subdir_filter(path)), mounts };
    let m = (n - 1) as nat;
    let file = "workspace.josh"@;
    let len = mounts.len() as int;
    lemma_file_names(rules);
    law_combine_get_then_put(rules, c, path, sources, d, m);
    assert(workspace(d, path) == Ok::<CombineView, ErrorView>(c));
    lemma_mounted(rules, c, path, sources, d, m, len);
    let y = mounted(rules, c, path, sources, d, 0, len);
    assert(apply_tree(rules, FilterView::Combine(c), d, m) == apply_combine(rules, c, d, m, len));
    assert(apply_tree(rules, FilterView::Workspace(path), d, n) == Ok::<Dir, ErrorView>(y));
    assert forall|j: int| 0 <= j < len implies good_path(rules, (#[trigger] c.mounts[j]).prefix)
        && paths_part(c.mounts[j].prefix, file) by {
        assert(paths_part(mounts[j].prefix, file));
    }
    law_base_shows(rules, c, d, m, len, file);
    law_subdir_filter(rules, path, d, d, m);
    lemma_join(rules, d, path, file);
    reveal_strlit("");
    assert(""@ =~= Seq::<char>::empty());
    assert(join(""@, file) == file);
    assert(workspace_text(y, ""@) == workspace_text(d, path));
    assert(
        unapply_tree(rules, FilterView::Combine(c), y, d, m) == unapply_combine(rules, c, y, d, m)
    );
    assert(
        unapply_tree(rules, FilterView::Workspace(path), y, d, n) == unapply_combine(
            rules,
            c,
            y,
            d,
            m,
        )
    );
}

} // verus!
