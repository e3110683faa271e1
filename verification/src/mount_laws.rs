//! What a combination does with each of its mounts, in both directions.

use crate::apply::{
    apply_combine, apply_tree, combine_from_ws, unapply_combine, unapply_mounts, unapply_tree,
    workspace, workspace_text,
};
use crate::error::ErrorView;
use crate::filter::{subdir_filter, CombineView, FilterView, MountView};
use crate::grammar::{file_ok, parsed_mounts};
use crate::laws::{law_combine_no_mounts, law_workspace_with_bad_file, puts_and_gets};
use crate::node::{empty_dir, Dir, Node, Rules};
use crate::path::{join, lookup, replace_at};
use crate::path_laws::{good_path, law_put_then_get};
use vstd::prelude::*;
use vstd::utf8::{decode_utf8, valid_utf8};

verus! {

/// A combination of mounts over a base.
pub open spec fn combined(base: FilterView, mounts: Seq<MountView>) -> FilterView {
    FilterView::Combine(CombineView { base: Box::new(base), mounts })
}

proof fn lemma_apply_front(
    rules: Rules,
    base: FilterView,
    ms: Seq<MountView>,
    m: MountView,
    d: Dir,
    n: nat,
    k: int,
)
    requires
        0 <= k <= ms.len(),
    ensures
        apply_combine(
            rules,
            CombineView { base: Box::new(base), mounts: ms.push(m) },
            d,
            n,
            k,
        ) == apply_combine(rules, CombineView { base: Box::new(base), mounts: ms }, d, n, k),
    decreases k,
{
    let c = CombineView { base: Box::new(base), mounts: ms.push(m) };
    let w = CombineView { base: Box::new(base), mounts: ms };
    if k > 0 {
        lemma_apply_front(rules, base, ms, m, d, n, k - 1);
        assert(c.mounts[k - 1] == w.mounts[k - 1]);
    } else {
        assert(apply_combine(rules, c, d, n, 0) == apply_tree(rules, base, d, n));
        assert(apply_combine(rules, w, d, n, 0) == apply_tree(rules, base, d, n));
    }
}

/// One more mount puts what its filter makes of the whole tree at its path, over what the
/// others give; nothing where its filter gives nothing.
pub proof fn law_apply_mount(
    rules: Rules,
    base: FilterView,
    ms: Seq<MountView>,
    m: MountView,
    d: Dir,
    n: nat,
)
    ensures
        apply_tree(rules, combined(base, ms.push(m)), d, n) == match (
            apply_tree(rules, combined(base, ms), d, n),
            apply_tree(rules, m.filter, d, n),
        ) {
            (Err(e), _) => Err(e),
            (Ok(_), Err(e)) => Err(e),
            (Ok(b), Ok(t)) => if t == empty_dir() {
                Ok(b)
            } else {
                replace_at(rules, b, m.prefix, Some(Node::Dir(t)))
            },
        },
{
    let c = CombineView { base: Box::new(base), mounts: ms.push(m) };
    let w = CombineView { base: Box::new(base), mounts: ms };
    let len = ms.len() as int;
    lemma_apply_front(rules, base, ms, m, d, n, len);
    assert(c.mounts[len] == m);
    assert(apply_tree(rules, FilterView::Combine(w), d, n) == apply_combine(rules, w, d, n, len));
    assert(apply_tree(rules, FilterView::Combine(c), d, n) == apply_combine(
        rules,
        c,
        d,
        n,
        len + 1,
    ));
}

/// Taking the first mount out, and then the others, is taking all of them out.
proof fn lemma_unapply_rest(
    rules: Rules,
    base: FilterView,
    m: MountView,
    ms: Seq<MountView>,
    t: Dir,
    parent: Dir,
    left: Dir,
    x: Dir,
    n: nat,
    k: int,
)
    requires
        0 <= k <= ms.len(),
        unapply_mounts(
            rules,
            CombineView { base: Box::new(base), mounts: seq![m] + ms },
            t,
            parent,
            n,
            1,
        ) == Ok::<(Dir, Dir), ErrorView>((left, x)),
    ensures
        unapply_mounts(
            rules,
            CombineView { base: Box::new(base), mounts: seq![m] + ms },
            t,
            parent,
            n,
            k + 1,
        ) == unapply_mounts(
            rules,
            CombineView { base: Box::new(base), mounts: ms },
            left,
            x,
            n,
            k,
        ),
    decreases k,
{
    let c = CombineView { base: Box::new(base), mounts: seq![m] + ms };
    let w = CombineView { base: Box::new(base), mounts: ms };
    if k > 0 {
        lemma_unapply_rest(rules, base, m, ms, t, parent, left, x, n, k - 1);
        assert(c.mounts[k] == w.mounts[k - 1]);
    } else {
        assert(unapply_mounts(rules, w, left, x, n, 0) == Ok::<(Dir, Dir), ErrorView>((left, x)));
    }
}

proof fn lemma_unapply_stops(
    rules: Rules,
    c: CombineView,
    t: Dir,
    parent: Dir,
    n: nat,
    j: int,
    k: int,
    e: ErrorView,
)
    requires
        0 <= j <= k <= c.mounts.len(),
        unapply_mounts(rules, c, t, parent, n, j) == Err::<(Dir, Dir), ErrorView>(e),
    ensures
        unapply_mounts(rules, c, t, parent, n, k) == Err::<(Dir, Dir), ErrorView>(e),
    decreases k - j,
{
    if j < k {
        lemma_unapply_stops(rules, c, t, parent, n, j, k - 1, e);
    }
}

/// A tree is taken back through a combination mount by mount, whatever their filters are.
/// What stands at the path of the first mount, if it is a directory with entries, is taken
/// back through its filter; what is left of the tree is taken back through the other mounts,
/// to what the first has made of the parent. A file at the path of a mount is an error.
pub proof fn law_unapply_mount(
    rules: Rules,
    base: FilterView,
    m: MountView,
    ms: Seq<MountView>,
    t: Dir,
    parent: Dir,
    n: nat,
)
    ensures
        replace_at(rules, t, m.prefix, Some(Node::Dir(empty_dir()))) matches Err(e)
            ==> unapply_tree(rules, combined(base, seq![m] + ms), t, parent, n) == Err::<
            Dir,
            ErrorView,
        >(e),
        replace_at(rules, t, m.prefix, Some(Node::Dir(empty_dir()))) matches Ok(left)
            ==> unapply_tree(rules, combined(base, seq![m] + ms), t, parent, n) == (match lookup(
            t,
            m.prefix,
        ) {
            None => unapply_tree(rules, combined(base, ms), left, parent, n),
            Some(Node::Dir(d)) => if d == empty_dir() {
                unapply_tree(rules, combined(base, ms), left, parent, n)
            } else {
                match unapply_tree(rules, m.filter, d, parent, n) {
                    Err(e) => Err(e),
                    Ok(x) => unapply_tree(rules, combined(base, ms), left, x, n),
                }
            },
            Some(_) => Err(ErrorView::NotFound),
        }),
{
    let c = CombineView { base: Box::new(base), mounts: seq![m] + ms };
    let w = CombineView { base: Box::new(base), mounts: ms };
    let len = c.mounts.len() as int;
    assert(c.mounts[0] == m);
    assert(unapply_mounts(rules, c, t, parent, n, 0) == Ok::<(Dir, Dir), ErrorView>((t, parent)));
    let first = unapply_mounts(rules, c, t, parent, n, 1);
    assert(unapply_tree(rules, FilterView::Combine(c), t, parent, n) == unapply_combine(
        rules,
        c,
        t,
        parent,
        n,
    ));
    match first {
        Err(e) => {
            lemma_unapply_stops(rules, c, t, parent, n, 1, len, e);
        },
        Ok((left, x)) => {
            lemma_unapply_rest(rules, base, m, ms, t, parent, left, x, n, ms.len() as int);
            assert(unapply_tree(rules, FilterView::Combine(w), left, x, n) == unapply_combine(
                rules,
                w,
                left,
                x,
                n,
            ));
        },
    }
}

/// A combination with one mount: what stands at its path is taken back through its filter,
/// whatever that is, and the rest through the base, to what came of it.
pub proof fn law_unapply_one_mount(
    rules: Rules,
    base: FilterView,
    p: Seq<char>,
    g: FilterView,
    t: Dir,
    parent: Dir,
    d: Dir,
    left: Dir,
    n: nat,
)
    requires
        lookup(t, p) == Some(Node::Dir(d)),
        d != empty_dir(),
        replace_at(rules, t, p, Some(Node::Dir(empty_dir()))) == Ok::<Dir, ErrorView>(left),
    ensures
        unapply_tree(
            rules,
            combined(base, seq![MountView { prefix: p, filter: g }]),
            t,
            parent,
            n,
        ) == (match unapply_tree(rules, g, d, parent, n) {
            Err(e) => Err(e),
            Ok(x) => unapply_tree(rules, base, left, x, n),
        }),
{
    let m = MountView { prefix: p, filter: g };
    let none = Seq::<MountView>::empty();
    law_unapply_mount(rules, base, m, none, t, parent, n);
    assert(seq![m] + none =~= seq![m]);
    if let Ok(x) = unapply_tree(rules, g, d, parent, n) {
        law_combine_no_mounts(rules, base, left, x, n);
    }
}

/// What was changed at a mount over nothing shows there again once it was taken back,
/// whatever the filter of the mount is, if that holds of the filter. What the filter takes
/// back is all that changes.
pub proof fn law_mount_put_then_get(
    rules: Rules,
    p: Seq<char>,
    g: FilterView,
    t: Dir,
    parent: Dir,
    d: Dir,
    n: nat,
)
    requires
        good_path(rules, p),
        lookup(t, p) == Some(Node::Dir(d)),
        d != empty_dir(),
        puts_and_gets(rules, g, d, parent, n),
    ensures
        ({
            let c = combined(FilterView::Empty, seq![MountView { prefix: p, filter: g }]);
            &&& unapply_tree(rules, c, t, parent, n) == unapply_tree(rules, g, d, parent, n)
            &&& unapply_tree(rules, c, t, parent, n) matches Ok(x) && apply_tree(
                rules,
                c,
                x,
                n,
            ) matches Ok(y) && lookup(y, p) == Some(Node::Dir(d))
        }),
{
    let m = MountView { prefix: p, filter: g };
    let none = Seq::<MountView>::empty();
    let nothing = Some(Node::Dir(empty_dir()));
    law_put_then_get(rules, t, p, nothing);
    let left = replace_at(rules, t, p, nothing)->Ok_0;
    law_unapply_one_mount(rules, FilterView::Empty, p, g, t, parent, d, left, n);
    let x = unapply_tree(rules, g, d, parent, n)->Ok_0;
    assert(unapply_tree(rules, FilterView::Empty, left, x, n) == Ok::<Dir, ErrorView>(x));
    law_apply_mount(rules, FilterView::Empty, none, m, x, n);
    law_combine_no_mounts(rules, FilterView::Empty, x, x, n);
    assert(none.push(m) =~= seq![m]);
    assert(apply_tree(rules, FilterView::Empty, x, n) == Ok::<Dir, ErrorView>(empty_dir()));
    law_put_then_get(rules, empty_dir(), p, Some(Node::Dir(d)));
}

/// The file `workspace.josh` in the directory at the path, as far as it is text.
pub proof fn law_workspace_file(d: Dir, path: Seq<char>)
    ensures
        lookup(d, join(path, "workspace.josh"@)) matches Some(Node::Blob { data, .. })
            ==> valid_utf8(data) ==> workspace_text(d, path) == decode_utf8(data),
        !(lookup(d, join(path, "workspace.josh"@)) matches Some(Node::Blob { data, .. })
            && valid_utf8(data)) ==> workspace_text(d, path).len() == 0,
{
    reveal_strlit("");
}

/// A workspace is the combination of the mounts that its file describes over the directory
/// in which the file stands. A changed tree is taken back through the mounts that the file
/// in the changed tree describes.
pub proof fn law_workspace_is_combination(
    rules: Rules,
    path: Seq<char>,
    mounts: Seq<MountView>,
    d: Dir,
    parent: Dir,
    n: nat,
)
    requires
        n > 0,
    ensures
        file_ok(workspace_text(d, path)) && parsed_mounts(workspace_text(d, path)) == Ok::<
            Seq<MountView>,
            ErrorView,
        >(mounts) ==> apply_tree(rules, FilterView::Workspace(path), d, n) == apply_tree(
            rules,
            combined(subdir_filter(path), mounts),
            d,
            (n - 1) as nat,
        ),
        file_ok(workspace_text(d, ""@)) && parsed_mounts(workspace_text(d, ""@)) == Ok::<
            Seq<MountView>,
            ErrorView,
        >(mounts) ==> unapply_tree(rules, FilterView::Workspace(path), d, parent, n)
            == unapply_tree(
                rules,
                combined(subdir_filter(path), mounts),
                d,
                parent,
                (n - 1) as nat,
            ),
{
    let c = CombineView { base: Box::new(subdir_filter(path)), mounts };
    let m = (n - 1) as nat;
    if file_ok(workspace_text(d, path)) && parsed_mounts(workspace_text(d, path)) == Ok::<
        Seq<MountView>,
        ErrorView,
    >(mounts) {
        assert(workspace(d, path) == Ok::<CombineView, ErrorView>(c));
        assert(apply_tree(rules, FilterView::Combine(c), d, m) == apply_combine(
            rules,
            c,
            d,
            m,
            mounts.len() as int,
        ));
    }
    if file_ok(workspace_text(d, ""@)) && parsed_mounts(workspace_text(d, ""@)) == Ok::<
        Seq<MountView>,
        ErrorView,
    >(mounts) {
        assert(combine_from_ws(d, ""@)->Ok_0.mounts == mounts);
        assert(unapply_tree(rules, FilterView::Combine(c), d, parent, m) == unapply_combine(
            rules,
            c,
            d,
            parent,
            m,
        ));
    }
}

/// A file with a pattern that is not well formed makes a workspace fail, and one that is no
/// list of mounts counts as empty; but nothing is taken back through either.
pub proof fn law_workspace_bad_files(
    rules: Rules,
    path: Seq<char>,
    d: Dir,
    parent: Dir,
    n: nat,
)
    ensures
        n > 0 && !file_ok(workspace_text(d, path)) ==> apply_tree(
            rules,
            FilterView::Workspace(path),
            d,
            n,
        ) == Err::<Dir, ErrorView>(ErrorView::InvalidPattern),
        n > 0 && file_ok(workspace_text(d, path)) && parsed_mounts(workspace_text(d, path)) is Err
            ==> apply_tree(rules, FilterView::Workspace(path), d, n) == apply_tree(
            rules,
            subdir_filter(path),
            d,
            (n - 1) as nat,
        ),
        n > 0 && !file_ok(workspace_text(d, ""@)) ==> unapply_tree(
            rules,
            FilterView::Workspace(path),
            d,
            parent,
            n,
        ) == Err::<Dir, ErrorView>(ErrorView::InvalidPattern),
        n > 0 && file_ok(workspace_text(d, ""@)) ==> (parsed_mounts(
            workspace_text(d, ""@),
        ) matches Err(e) ==> unapply_tree(
            rules,
            FilterView::Workspace(path),
            d,
            parent,
            n,
        ) == Err::<
            Dir,
            ErrorView,
        >(e)),
        n == 0 ==> apply_tree(rules, FilterView::Workspace(path), d, n) == Err::<Dir, ErrorView>(
            ErrorView::TooDeep,
        ),
        n == 0 ==> unapply_tree(rules, FilterView::Workspace(path), d, parent, n) == Err::<
            Dir,
            ErrorView,
        >(ErrorView::TooDeep),
{
    if n > 0 && file_ok(workspace_text(d, path)) && parsed_mounts(workspace_text(d, path)) is Err {
        law_workspace_with_bad_file(path, d);
        let m = (n - 1) as nat;
        let c = CombineView {
            base: Box::new(subdir_filter(path)),
            mounts: Seq::<MountView>::empty(),
        };
        assert(workspace(d, path) == Ok::<CombineView, ErrorView>(c));
        law_combine_no_mounts(rules, subdir_filter(path), d, d, m);
        assert(apply_tree(rules, FilterView::Combine(c), d, m) == apply_combine(rules, c, d, m, 0));
    }
}

} // verus!
