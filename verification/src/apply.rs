//! What filters do to file trees, and how changes are taken back through them.

use crate::arena::{
    at, dir, is_tree, item, lemma_dir_listed, lemma_dir_stable, lemma_extends_transitive,
    lemma_item_stable, Arena, Oid,
};
use crate::error::{Error, ErrorView};
use crate::filter::{
    lemma_combine_view, mount_views, spec_text, subdir_filter, subdir_filter_of, Combine,
    CombineView, Filter, FilterView,
};
use crate::grammar::{checked_combine, try_build_combine_filter};
use crate::ids::{git_id, git_id_of, hex, hex_text};
use crate::memo::{lemma_memo_has, memo_values};
use crate::merge::{merge, mergeable, merged_tree};
use crate::node::{empty_dir, plain, BLOB_MODE, Dir, Node, Rules, TREE_MODE};
use crate::path::{join, joined, lookup, replace_at, subdir};
use crate::pattern::{glob_is_valid, Pattern};
use crate::repo::{Object, Repo};
use crate::strip::{
    lemma_listable, lemma_right, lemma_right_stays, lemma_same_error, listable, name_error,
    names_are_text, strip, striped_tree,
};
use crate::text::{replace_all, replaced_all, same_text, utf8_text};
use crate::tree::{get_path, replace_subtree, subtree_or_empty};
use crate::values::{value_of, PairView, Values};
use vstd::prelude::*;
use vstd::utf8::{decode_utf8, encode_utf8, valid_utf8};

verus! {

/// How deep workspaces may stand in workspaces: as deep as a machine can count.
pub open spec fn deepest() -> nat {
    usize::MAX as nat
}

/// The result of a function on a repository is the tree, or the error, that is told.
pub open spec fn gives(a: Arena, r: Result<Oid, Error>, want: Result<Dir, ErrorView>) -> bool {
    match r {
        Ok(o) => is_tree(a, o) && want == Ok::<Dir, ErrorView>(dir(a, o)),
        Err(e) => want == Err::<Dir, ErrorView>(e@),
    }
}

/// The files of a directory that a pattern selects, where all names are text.
pub open spec fn selected(
    rules: Rules,
    d: Dir,
    pattern: Seq<char>,
    invert: bool,
    dirs: bool,
) -> Result<Dir, ErrorView> {
    if names_are_text(Node::Dir(d)) {
        Ok(strip(rules, Node::Dir(d), Seq::empty(), pattern, invert, dirs))
    } else {
        Err(name_error(Node::Dir(d), Seq::empty(), Map::empty())->0)
    }
}

/// The value of an info filter with its escapes resolved.
pub open spec fn unescaped(v: Seq<char>) -> Seq<char> {
    replace_all(replace_all(v, "<colon>"@, ":"@), "<comma>"@, ","@)
}

/// The id of what stands at a path, in base sixteen; zeros where nothing does.
pub open spec fn id_at(d: Dir, path: Seq<char>) -> Result<Seq<char>, ErrorView> {
    match lookup(d, path) {
        None => Ok(hex(Seq::new(20, |i: int| 0u8))),
        Some(n) => match git_id(n) {
            Some(id) => Ok(hex(id)),
            None => Err(ErrorView::Unhashable),
        },
    }
}

/// The lines of an info file for the first `k` values. The value `#tree` stands for the id
/// of what stands at the prefix.
pub open spec fn info_lines(values: Seq<PairView>, d: Dir, k: int) -> Result<Seq<char>, ErrorView>
    decreases k,
{
    if k <= 0 {
        Ok(Seq::empty())
    } else {
        let key = values[k - 1].0;
        let value = unescaped(values[k - 1].1);
        match info_lines(values, d, k - 1) {
            Err(e) => Err(e),
            Ok(s) => if key == "prefix"@ {
                Ok(s)
            } else if value == "#tree"@ {
                match value_of(values, "prefix"@) {
                    None => Err(ErrorView::MissingPrefix),
                    Some(prefix) => match id_at(d, prefix) {
                        Ok(id) => Ok(s + key + ": "@ + id + "\n"@),
                        Err(e) => Err(e),
                    },
                }
            } else {
                Ok(s + key + ": "@ + value + "\n"@)
            },
        }
    }
}

/// The directory with an info file at the prefix that the values name.
pub open spec fn with_info(rules: Rules, values: Seq<PairView>, d: Dir) -> Result<Dir, ErrorView> {
    match info_lines(values, d, values.len() as int) {
        Err(e) => Err(e),
        Ok(s) => match value_of(values, "prefix"@) {
            None => Err(ErrorView::MissingPrefix),
            Some(prefix) => replace_at(
                rules,
                d,
                join(prefix, ".joshinfo"@),
                Some(Node::Blob { mode: BLOB_MODE, data: encode_utf8(s) }),
            ),
        },
    }
}

/// The text of the workspace file in the directory at `path`; none is as good as an empty
/// one.
pub open spec fn workspace_text(d: Dir, path: Seq<char>) -> Seq<char> {
    match lookup(d, join(path, "workspace.josh"@)) {
        Some(Node::Blob { mode, data }) => if valid_utf8(data) {
            decode_utf8(data)
        } else {
            ""@
        },
        _ => ""@,
    }
}

/// The combination that the workspace file in the directory at `path` describes, over that
/// directory, where its patterns are well formed.
pub open spec fn combine_from_ws(d: Dir, path: Seq<char>) -> Result<CombineView, ErrorView> {
    checked_combine(workspace_text(d, path), subdir_filter(path))
}

/// The combination for the workspace at `path`. A workspace file that cannot be read is as
/// good as an empty one, unless a pattern in it is not well formed.
pub open spec fn workspace(d: Dir, path: Seq<char>) -> Result<CombineView, ErrorView> {
    match combine_from_ws(d, path) {
        Ok(c) => Ok(c),
        Err(ErrorView::InvalidPattern) => Err(ErrorView::InvalidPattern),
        Err(_) => checked_combine(""@, subdir_filter(path)),
    }
}

/// What the filter `f` makes of the directory `d`, where `f` is not made of other filters.
pub open spec fn apply_leaf(rules: Rules, f: FilterView, d: Dir) -> Result<Dir, ErrorView> {
    match f {
        FilterView::Dirs => if glob_is_valid("**/workspace.josh"@) {
            selected(rules, d, "**/workspace.josh"@, false, true)
        } else {
            Err(ErrorView::InvalidPattern)
        },
        FilterView::Fold => Ok(empty_dir()),
        FilterView::Empty => Ok(empty_dir()),
        FilterView::Subdir(path) => Ok(subdir(d, path)),
        FilterView::Prefix(path) => replace_at(rules, empty_dir(), path, Some(Node::Dir(d))),
        FilterView::Hide(path) => replace_at(rules, d, path, None),
        FilterView::Glob { pattern, invert } => selected(rules, d, pattern, invert, false),
        FilterView::Info(values) => with_info(rules, values, d),
        _ => Ok(d),
    }
}

/// What the filter `f` makes of the directory `d`, where workspaces may stand in workspaces
/// up to the depth `n`.
pub open spec fn apply_tree(rules: Rules, f: FilterView, d: Dir, n: nat) -> Result<Dir, ErrorView>
    decreases n, f, 0int,
{
    match f {
        FilterView::Chain(a, b) => match apply_tree(rules, *a, d, n) {
            Ok(t) => apply_tree(rules, *b, t, n),
            Err(e) => Err(e),
        },
        FilterView::Combine(c) => apply_combine(rules, c, d, n, c.mounts.len() as int),
        FilterView::Workspace(path) => if n == 0 {
            Err(ErrorView::TooDeep)
        } else {
            match workspace(d, path) {
                Ok(c) => apply_combine(rules, c, d, (n - 1) as nat, c.mounts.len() as int),
                Err(e) => Err(e),
            }
        },
        _ => apply_leaf(rules, f, d),
    }
}

/// What a combination of the first `k` mounts makes of the directory `d`: a mount whose
/// filter gives nothing is left out.
pub open spec fn apply_combine(
    rules: Rules,
    c: CombineView,
    d: Dir,
    n: nat,
    k: int,
) -> Result<Dir, ErrorView>
    decreases n, c, k,
{
    if k <= 0 || k > c.mounts.len() {
        apply_tree(rules, *c.base, d, n)
    } else {
        match apply_combine(rules, c, d, n, k - 1) {
            Err(e) => Err(e),
            Ok(base) => match apply_tree(rules, c.mounts[k - 1].filter, d, n) {
                Err(e) => Err(e),
                Ok(t) => if t == empty_dir() {
                    Ok(base)
                } else {
                    replace_at(rules, base, c.mounts[k - 1].prefix, Some(Node::Dir(t)))
                },
            },
        }
    }
}

/// What was hidden at a path.
pub open spec fn hidden(d: Dir, path: Seq<char>) -> Option<Node> {
    match lookup(d, path) {
        Some(n) => Some(plain(n)),
        None => None,
    }
}

/// What the directory `parent` becomes when the filter `f` gave `t`, where `f` is not made
/// of other filters.
pub open spec fn unapply_leaf(
    rules: Rules,
    f: FilterView,
    t: Dir,
    parent: Dir,
) -> Result<Dir, ErrorView> {
    match f {
        FilterView::Nop => Ok(t),
        FilterView::Empty => Ok(parent),
        FilterView::Subdir(path) => replace_at(rules, parent, path, Some(Node::Dir(t))),
        FilterView::Prefix(path) => Ok(subdir(t, path)),
        FilterView::Hide(path) => replace_at(rules, t, path, hidden(parent, path)),
        FilterView::Glob { pattern, invert } => match selected(rules, t, pattern, invert, false) {
            Err(e) => Err(e),
            Ok(s) => if mergeable(Node::Dir(parent), Node::Dir(s)) {
                Ok(merge(rules, Node::Dir(parent), Node::Dir(s))->Dir_0)
            } else {
                Err(ErrorView::NoName)
            },
        },
        _ => Err(ErrorView::NotReversible(spec_text(f))),
    }
}

/// What the directory `parent` becomes when the filter `f` gave `t`.
pub open spec fn unapply_tree(
    rules: Rules,
    f: FilterView,
    t: Dir,
    parent: Dir,
    n: nat,
) -> Result<Dir, ErrorView>
    decreases n, f, 0int,
{
    match f {
        FilterView::Chain(a, b) => match apply_tree(rules, *a, parent, n) {
            Err(e) => Err(e),
            Ok(p) => match unapply_tree(rules, *b, t, p, n) {
                Err(e) => Err(e),
                Ok(x) => unapply_tree(rules, *a, x, parent, n),
            },
        },
        FilterView::Combine(c) => unapply_combine(rules, c, t, parent, n),
        FilterView::Workspace(path) => if n == 0 {
            Err(ErrorView::TooDeep)
        } else {
            match combine_from_ws(t, ""@) {
                Err(e) => Err(e),
                Ok(c) => unapply_combine(
                    rules,
                    CombineView { base: Box::new(subdir_filter(path)), mounts: c.mounts },
                    t,
                    parent,
                    (n - 1) as nat,
                ),
            }
        },
        _ => unapply_leaf(rules, f, t, parent),
    }
}

/// What is left of `t`, and what `parent` has become, when the first `k` mounts were taken
/// out of `t`.
pub open spec fn unapply_mounts(
    rules: Rules,
    c: CombineView,
    t: Dir,
    parent: Dir,
    n: nat,
    k: int,
) -> Result<(Dir, Dir), ErrorView>
    decreases n, c, k,
{
    if k <= 0 || k > c.mounts.len() {
        Ok((t, parent))
    } else {
        match unapply_mounts(rules, c, t, parent, n, k - 1) {
            Err(e) => Err(e),
            Ok((rest, result)) => {
                let prefix = c.mounts[k - 1].prefix;
                match replace_at(rules, rest, prefix, Some(Node::Dir(empty_dir()))) {
                    Err(e) => Err(e),
                    Ok(left) => match lookup(rest, prefix) {
                        None => Ok((left, result)),
                        Some(Node::Dir(m)) => if m == empty_dir() {
                            Ok((left, result))
                        } else {
                            match unapply_tree(rules, c.mounts[k - 1].filter, m, result, n) {
                                Err(e) => Err(e),
                                Ok(x) => Ok((left, x)),
                            }
                        },
                        Some(_) => Err(ErrorView::NotFound),
                    },
                }
            },
        }
    }
}

/// What the directory `parent` becomes when a combination gave `t`: what stands at each
/// mount is taken back through its filter, and the rest through the base.
pub open spec fn unapply_combine(
    rules: Rules,
    c: CombineView,
    t: Dir,
    parent: Dir,
    n: nat,
) -> Result<Dir, ErrorView>
    decreases n, c, c.mounts.len() + 1,
{
    match unapply_mounts(rules, c, t, parent, n, c.mounts.len() as int) {
        Err(e) => Err(e),
        Ok((rest, result)) => unapply_tree(rules, *c.base, rest, result, n),
    }
}

/// Keeps the files of a tree that a pattern selects.
fn select_files(
    repo: &mut Repo,
    tree: Oid,
    pattern: &Pattern,
    invert: bool,
    dirs: bool,
) -> (r: Result<Oid, Error>)
    requires
        old(repo).wf(),
        is_tree(old(repo)@, tree),
    ensures
        final(repo).grown_from(*old(repo)),
        gives(
            final(repo)@,
            r,
            selected(old(repo).rules(), dir(old(repo)@, tree), pattern@, invert, dirs),
        ),
{
    let ghost rules = repo.rules();
    let ghost a = repo@;
    let ghost n = Node::Dir(dir(a, tree));
    let mut memo = repo.take_memo(pattern.as_str(), invert, dirs);
    let ghost known = memo_values(a, memo@);
    proof {
        reveal_strlit("");
        assert(""@ =~= Seq::<char>::empty());
        lemma_dir_listed(a, tree);
        lemma_listable(a, at(tree), TREE_MODE);
        lemma_right(rules, n, ""@, pattern@, invert, dirs, known);
        lemma_same_error(n, ""@, known, ""@, Map::empty());
    }
    let r = striped_tree(repo, "", tree, pattern, invert, dirs, &mut memo);
    proof {
        let after = memo_values(repo@, memo@);
        assert forall|k: (Seq<char>, Dir)| #[trigger] after.dom().contains(k) implies listable(
            Node::Dir(k.1),
        ) by {
            let o = lemma_memo_has(repo@, memo@, k);
            lemma_dir_listed(repo@, o);
            lemma_listable(repo@, at(o), TREE_MODE);
        }
        lemma_right_stays(rules, known, after, pattern@, invert, dirs);
    }
    repo.keep_memo(pattern.as_str(), invert, dirs, memo);
    r
}

/// Lays the files of a tree that a pattern selects over another tree.
fn put_files(
    repo: &mut Repo,
    tree: Oid,
    parent_tree: Oid,
    pattern: &Pattern,
    invert: bool,
) -> (r: Result<Oid, Error>)
    requires
        old(repo).wf(),
        is_tree(old(repo)@, tree),
        is_tree(old(repo)@, parent_tree),
    ensures
        final(repo).grown_from(*old(repo)),
        gives(
            final(repo)@,
            r,
            unapply_leaf(
                old(repo).rules(),
                FilterView::Glob { pattern: pattern@, invert },
                dir(old(repo)@, tree),
                dir(old(repo)@, parent_tree),
            ),
        ),
{
    let ghost rules = repo.rules();
    let ghost a = repo@;
    let ghost p = dir(a, parent_tree);
    let stripped = match select_files(repo, tree, pattern, invert, false) {
        Ok(s) => s,
        Err(e) => {
            return Err(e);
        },
    };
    let ghost b = repo@;
    proof {
        lemma_dir_stable(a, b, parent_tree);
        lemma_dir_listed(b, parent_tree);
        lemma_dir_listed(b, stripped);
    }
    let r = merged_tree(repo, parent_tree, stripped);
    proof {
        lemma_extends_transitive(a, b, repo@);
        if let Ok(o) = r {
            assert(merge(rules, Node::Dir(p), Node::Dir(dir(b, stripped))) is Dir);
            if is_tree(repo@, o) {
                lemma_dir_listed(repo@, o);
            }
        }
    }
    r
}

fn unescaped_text(v: &str) -> (r: String)
    ensures
        r@ == unescaped(v@),
{
    proof {
        reveal_strlit("<colon>");
        reveal_strlit("<comma>");
    }
    let r = replaced_all(v, "<colon>", ":");
    replaced_all(r.as_str(), "<comma>", ",")
}

/// The id of what stands at a path, in base sixteen; zeros where nothing does.
pub fn id_text_at(repo: &Repo, tree: Oid, path: &str) -> (r: Result<String, Error>)
    requires
        repo.wf(),
        is_tree(repo@, tree),
    ensures
        match r {
            Ok(s) => id_at(dir(repo@, tree), path@) == Ok::<Seq<char>, ErrorView>(s@),
            Err(e) => id_at(dir(repo@, tree), path@) == Err::<Seq<char>, ErrorView>(e@),
        },
{
    match get_path(repo, tree, path) {
        None => {
            let zeros: [u8; 20] = [0; 20];
            assert(zeros@ =~= Seq::new(20, |i: int| 0u8));
            Ok(hex_text(zeros.as_slice()))
        },
        Some(o) => {
            let ghost n = lookup(dir(repo@, tree), path@)->0;
            assert(git_id(plain(n)) == git_id(n));
            match git_id_of(repo, o) {
                Ok(id) => Ok(hex_text(id.as_slice())),
                Err(e) => Err(e),
            }
        },
    }
}

/// A value that cannot be written spoils all info files that hold it.
proof fn lemma_info_fail(values: Seq<PairView>, d: Dir, j: int, k: int, e: ErrorView)
    requires
        info_lines(values, d, j) == Err::<Seq<char>, ErrorView>(e),
        1 <= j <= k,
    ensures
        info_lines(values, d, k) == Err::<Seq<char>, ErrorView>(e),
    decreases k - j,
{
    if j < k {
        lemma_info_fail(values, d, j, k - 1, e);
    }
}

/// The lines of an info file.
fn info_text(values: &Values, repo: &Repo, tree: Oid) -> (r: Result<String, Error>)
    requires
        repo.wf(),
        is_tree(repo@, tree),
    ensures
        ({
            let want = info_lines(values@, dir(repo@, tree), values@.len() as int);
            match r {
                Ok(s) => want == Ok::<Seq<char>, ErrorView>(s@),
                Err(e) => want == Err::<Seq<char>, ErrorView>(e@),
            }
        }),
{
    let ghost d = dir(repo@, tree);
    let mut s: String = String::new();
    let mut i: usize = 0;
    assert(s@ =~= Seq::<char>::empty());
    while i < values.len()
        invariant
            repo.wf(),
            is_tree(repo@, tree),
            d == dir(repo@, tree),
            i <= values@.len(),
            info_lines(values@, d, i as int) == Ok::<Seq<char>, ErrorView>(s@),
        decreases values@.len() - i,
    {
        let pair = values.pair(i);
        let value = unescaped_text(pair.value.as_str());
        if !same_text(pair.key.as_str(), "prefix") {
            let shown: String = if same_text(value.as_str(), "#tree") {
                match values.get("prefix") {
                    None => {
                        proof {
                            lemma_info_fail(
                                values@,
                                d,
                                i + 1,
                                values@.len() as int,
                                ErrorView::MissingPrefix,
                            );
                        }
                        return Err(Error::MissingPrefix);
                    },
                    Some(prefix) => match id_text_at(repo, tree, prefix) {
                        Ok(id) => id,
                        Err(e) => {
                            proof {
                                lemma_info_fail(values@, d, i + 1, values@.len() as int, e@);
                            }
                            return Err(e);
                        },
                    },
                }
            } else {
                value
            };
            s.append(pair.key.as_str());
            s.append(": ");
            s.append(shown.as_str());
            s.append("\n");
        }
        i += 1;
    }
    Ok(s)
}

/// Adds an info file to a tree.
fn add_info(values: &Values, repo: &mut Repo, tree: Oid) -> (r: Result<Oid, Error>)
    requires
        old(repo).wf(),
        is_tree(old(repo)@, tree),
    ensures
        final(repo).grown_from(*old(repo)),
        gives(final(repo)@, r, with_info(old(repo).rules(), values@, dir(old(repo)@, tree))),
{
    let ghost a = repo@;
    let s = match info_text(values, repo, tree) {
        Ok(s) => s,
        Err(e) => {
            return Err(e);
        },
    };
    match values.get("prefix") {
        None => Err(Error::MissingPrefix),
        Some(prefix) => {
            let path = joined(prefix, ".joshinfo");
            let blob = repo.add_blob(crate::bytes::copied(s.as_str().as_bytes()));
            let ghost b = repo@;
            proof {
                lemma_dir_stable(a, b, tree);
                assert(item(b, blob) == Some(
                    Node::Blob { mode: BLOB_MODE, data: encode_utf8(s@) },
                ));
            }
            let r = replace_subtree(repo, path.as_str(), blob, tree);
            proof {
                lemma_extends_transitive(a, b, repo@);
            }
            r
        },
    }
}

/// The combination that the workspace file in the directory at a path describes.
pub fn combine_filter_from_ws(repo: &Repo, tree: Oid, ws_path: &str) -> (r: Result<Combine, Error>)
    requires
        repo.wf(),
        is_tree(repo@, tree),
    ensures
        match r {
            Ok(c) => combine_from_ws(dir(repo@, tree), ws_path@) == Ok::<CombineView, ErrorView>(
                c.view(),
            ),
            Err(e) => combine_from_ws(dir(repo@, tree), ws_path@) == Err::<CombineView, ErrorView>(
                e@,
            ),
        },
{
    let base = subdir_filter_of(ws_path);
    let wsp = joined(ws_path, "workspace.josh");
    if let Some(o) = get_path(repo, tree, wsp.as_str()) {
        if let Some(Object::Blob(data)) = repo.object(o) {
            if let Some(text) = utf8_text(data.as_slice()) {
                return try_build_combine_filter(text, base);
            }
        }
    }
    try_build_combine_filter("", base)
}

/// The combination for the workspace at a path.
pub fn workspace_filter(repo: &Repo, tree: Oid, ws_path: &str) -> (r: Result<Combine, Error>)
    requires
        repo.wf(),
        is_tree(repo@, tree),
    ensures
        match r {
            Ok(c) => workspace(dir(repo@, tree), ws_path@) == Ok::<CombineView, ErrorView>(
                c.view(),
            ),
            Err(e) => workspace(dir(repo@, tree), ws_path@) == Err::<CombineView, ErrorView>(e@),
        },
{
    match combine_filter_from_ws(repo, tree, ws_path) {
        Ok(c) => Ok(c),
        Err(Error::InvalidPattern) => Err(Error::InvalidPattern),
        Err(_) => try_build_combine_filter("", subdir_filter_of(ws_path)),
    }
}

/// A mount that cannot be applied spoils all combinations that hold it.
proof fn lemma_apply_combine_fail(
    rules: Rules,
    c: CombineView,
    d: Dir,
    n: nat,
    j: int,
    k: int,
    e: ErrorView,
)
    requires
        apply_combine(rules, c, d, n, j) == Err::<Dir, ErrorView>(e),
        0 <= j <= k <= c.mounts.len(),
    ensures
        apply_combine(rules, c, d, n, k) == Err::<Dir, ErrorView>(e),
    decreases k - j,
{
    if j < k {
        lemma_apply_combine_fail(rules, c, d, n, j, k - 1, e);
    }
}

proof fn lemma_unapply_mounts_fail(
    rules: Rules,
    c: CombineView,
    t: Dir,
    parent: Dir,
    n: nat,
    j: int,
    k: int,
    e: ErrorView,
)
    requires
        unapply_mounts(rules, c, t, parent, n, j) == Err::<(Dir, Dir), ErrorView>(e),
        0 <= j <= k <= c.mounts.len(),
    ensures
        unapply_mounts(rules, c, t, parent, n, k) == Err::<(Dir, Dir), ErrorView>(e),
    decreases k - j,
{
    if j < k {
        lemma_unapply_mounts_fail(rules, c, t, parent, n, j, k - 1, e);
    }
}

impl Combine {
    /// The tree that the combination makes of a tree, where workspaces may stand in
    /// workspaces up to the depth `n`.
    pub fn apply_within(&self, repo: &mut Repo, tree: Oid, n: usize) -> (r: Result<Oid, Error>)
        requires
            old(repo).wf(),
            is_tree(old(repo)@, tree),
        ensures
            final(repo).grown_from(*old(repo)),
            gives(
                final(repo)@,
                r,
                apply_combine(
                    old(repo).rules(),
                    self.view(),
                    dir(old(repo)@, tree),
                    n as nat,
                    self.view().mounts.len() as int,
                ),
            ),
        decreases n, self, 0int,
    {
        let ghost rules = repo.rules();
        let ghost c = self.view();
        let ghost a = repo@;
        let ghost d = dir(a, tree);
        let ghost len = c.mounts.len() as int;
        proof {
            lemma_combine_view(*self);
        }
        let mut base = match self.base.apply_within(repo, tree, n) {
            Ok(o) => o,
            Err(e) => {
                proof {
                    lemma_apply_combine_fail(rules, c, d, n as nat, 0, len, e@);
                }
                return Err(e);
            },
        };
        let mut i: usize = 0;
        while i < self.mounts.len()
            invariant
                rules == repo.rules(),
                rules == old(repo).rules(),
                decreases_to!(self => self.mounts@),
                c == self.view(),
                c.mounts == mount_views(self.mounts@),
                len == c.mounts.len(),
                old(repo).wf(),
                a == old(repo)@,
                is_tree(a, tree),
                d == dir(a, tree),
                repo.grown_from(*old(repo)),
                i <= self.mounts@.len(),
                is_tree(repo@, base),
                apply_combine(rules, c, d, n as nat, i as int) == Ok::<Dir, ErrorView>(
                    dir(repo@, base),
                ),
            decreases self.mounts@.len() - i,
        {
            let ghost a1 = repo@;
            let ghost b1 = dir(a1, base);
            proof {
                lemma_dir_stable(a, a1, tree);
            }
            assert(decreases_to!(self.mounts@ => self.mounts@[i as int]));
            assert(c.mounts[i as int] == self.mounts@[i as int].view());
            let otree = match self.mounts[i].filter.apply_within(repo, tree, n) {
                Ok(o) => o,
                Err(e) => {
                    proof {
                        lemma_extends_transitive(a, a1, repo@);
                        lemma_apply_combine_fail(rules, c, d, n as nat, i + 1, len, e@);
                    }
                    return Err(e);
                },
            };
            let ghost a2 = repo@;
            proof {
                lemma_extends_transitive(a, a1, a2);
                lemma_dir_stable(a1, a2, base);
                lemma_dir_listed(a2, otree);
            }
            if !repo.is_empty_tree(otree) {
                match replace_subtree(repo, self.mounts[i].prefix.as_str(), otree, base) {
                    Ok(o) => {
                        base = o;
                    },
                    Err(e) => {
                        proof {
                            lemma_extends_transitive(a, a2, repo@);
                            lemma_apply_combine_fail(rules, c, d, n as nat, i + 1, len, e@);
                        }
                        return Err(e);
                    },
                }
            }
            proof {
                lemma_extends_transitive(a, a2, repo@);
            }
            i += 1;
        }
        Ok(base)
    }

    /// What the tree `parent_tree` becomes when the combination gave `tree`, where
    /// workspaces may stand in workspaces up to the depth `n`.
    pub fn unapply_within(
        &self,
        repo: &mut Repo,
        tree: Oid,
        parent_tree: Oid,
        n: usize,
    ) -> (r: Result<Oid, Error>)
        requires
            old(repo).wf(),
            is_tree(old(repo)@, tree),
            is_tree(old(repo)@, parent_tree),
        ensures
            final(repo).grown_from(*old(repo)),
            gives(
                final(repo)@,
                r,
                unapply_combine(
                    old(repo).rules(),
                    self.view(),
                    dir(old(repo)@, tree),
                    dir(old(repo)@, parent_tree),
                    n as nat,
                ),
            ),
        decreases n, self, 0int,
    {
        let ghost rules = repo.rules();
        let ghost c = self.view();
        let ghost a = repo@;
        let ghost t = dir(a, tree);
        let ghost p = dir(a, parent_tree);
        let ghost len = c.mounts.len() as int;
        proof {
            lemma_combine_view(*self);
        }
        let mut ws_tree: Oid = tree;
        let mut result: Oid = parent_tree;
        let mut i: usize = 0;
        while i < self.mounts.len()
            invariant
                rules == repo.rules(),
                rules == old(repo).rules(),
                decreases_to!(self => self.mounts@),
                c == self.view(),
                c.mounts == mount_views(self.mounts@),
                len == c.mounts.len(),
                old(repo).wf(),
                a == old(repo)@,
                is_tree(a, tree),
                is_tree(a, parent_tree),
                t == dir(a, tree),
                p == dir(a, parent_tree),
                repo.grown_from(*old(repo)),
                i <= self.mounts@.len(),
                is_tree(repo@, ws_tree),
                is_tree(repo@, result),
                unapply_mounts(rules, c, t, p, n as nat, i as int) == Ok::<(Dir, Dir), ErrorView>(
                    (dir(repo@, ws_tree), dir(repo@, result)),
                ),
            decreases self.mounts@.len() - i,
        {
            let ghost a1 = repo@;
            let ghost rest = dir(a1, ws_tree);
            assert(decreases_to!(self.mounts@ => self.mounts@[i as int]));
            assert(c.mounts[i as int] == self.mounts@[i as int].view());
            let prefix = self.mounts[i].prefix.as_str();
            let found = get_path(repo, ws_tree, prefix);
            let empty = repo.empty_tree();
            let ghost a2 = repo@;
            proof {
                lemma_extends_transitive(a, a1, a2);
                lemma_dir_stable(a1, a2, ws_tree);
                lemma_dir_stable(a1, a2, result);
                lemma_dir_listed(a2, empty);
                if let Some(o) = found {
                    lemma_item_stable(a1, a2, o);
                }
            }
            let left = match replace_subtree(repo, prefix, empty, ws_tree) {
                Ok(o) => o,
                Err(e) => {
                    proof {
                        lemma_extends_transitive(a, a2, repo@);
                        lemma_unapply_mounts_fail(rules, c, t, p, n as nat, i + 1, len, e@);
                    }
                    return Err(e);
                },
            };
            let ghost a3 = repo@;
            proof {
                lemma_extends_transitive(a, a2, a3);
                lemma_dir_stable(a2, a3, result);
            }
            if let Some(o) = found {
                proof {
                    lemma_item_stable(a2, a3, o);
                    if is_tree(a3, o) {
                        lemma_dir_listed(a3, o);
                    }
                }
                if !repo.is_empty_tree(o) {
                    if !repo.is_tree(o) {
                        proof {
                            lemma_unapply_mounts_fail(
                                rules,
                                c,
                                t,
                                p,
                                n as nat,
                                i + 1,
                                len,
                                ErrorView::NotFound,
                            );
                        }
                        return Err(Error::NotFound);
                    }
                    match self.mounts[i].filter.unapply_within(repo, o, result, n) {
                        Ok(x) => {
                            result = x;
                        },
                        Err(e) => {
                            proof {
                                lemma_extends_transitive(a, a3, repo@);
                                lemma_unapply_mounts_fail(rules, c, t, p, n as nat, i + 1, len, e@);
                            }
                            return Err(e);
                        },
                    }
                }
            }
            proof {
                lemma_extends_transitive(a, a3, repo@);
                lemma_dir_stable(a3, repo@, left);
            }
            ws_tree = left;
            i += 1;
        }
        let ghost a4 = repo@;
        let r = self.base.unapply_within(repo, ws_tree, result, n);
        proof {
            lemma_extends_transitive(a, a4, repo@);
        }
        r
    }
}

impl Filter {
    /// The tree that the filter makes of a tree, where workspaces may stand in workspaces
    /// up to the depth `n`.
    pub fn apply_within(&self, repo: &mut Repo, tree: Oid, n: usize) -> (r: Result<Oid, Error>)
        requires
            old(repo).wf(),
            is_tree(old(repo)@, tree),
        ensures
            final(repo).grown_from(*old(repo)),
            gives(
                final(repo)@,
                r,
                apply_tree(old(repo).rules(), self.view(), dir(old(repo)@, tree), n as nat),
            ),
        decreases n, self, 0int,
    {
        let ghost a = repo@;
        let ghost d = dir(a, tree);
        match self {
            Filter::Nop => Ok(tree),
            Filter::Dirs => match Pattern::new("**/workspace.josh") {
                Ok(pattern) => select_files(repo, tree, &pattern, false, true),
                Err(e) => Err(e),
            },
            Filter::Fold => {
                let r = repo.empty_tree();
                assert(dir(repo@, r) =~= empty_dir());
                Ok(r)
            },
            Filter::Empty => {
                let r = repo.empty_tree();
                assert(dir(repo@, r) =~= empty_dir());
                Ok(r)
            },
            Filter::Cutoff(_) => Ok(tree),
            Filter::Chain(first, second) => {
                let t = match first.apply_within(repo, tree, n) {
                    Ok(t) => t,
                    Err(e) => {
                        return Err(e);
                    },
                };
                let ghost b = repo@;
                let r = second.apply_within(repo, t, n);
                proof {
                    lemma_extends_transitive(a, b, repo@);
                }
                r
            },
            Filter::Subdir(path) => Ok(subtree_or_empty(repo, tree, path.as_str())),
            Filter::Prefix(path) => {
                let empty = repo.empty_tree();
                let ghost b = repo@;
                proof {
                    assert(dir(b, empty) =~= empty_dir());
                    lemma_dir_stable(a, b, tree);
                    lemma_dir_listed(b, tree);
                }
                let r = replace_subtree(repo, path.as_str(), tree, empty);
                proof {
                    lemma_extends_transitive(a, b, repo@);
                }
                r
            },
            Filter::Hide(path) => replace_subtree(repo, path.as_str(), Oid::Zero, tree),
            Filter::Glob { pattern, invert } => select_files(repo, tree, pattern, *invert, false),
            Filter::Info(values) => add_info(values, repo, tree),
            Filter::Combine(c) => c.apply_within(repo, tree, n),
            Filter::Workspace(path) => {
                if n == 0 {
                    return Err(Error::TooDeep);
                }
                match workspace_filter(repo, tree, path.as_str()) {
                    Ok(cw) => cw.apply_within(repo, tree, n - 1),
                    Err(e) => Err(e),
                }
            },
        }
    }

    /// What the tree `parent_tree` becomes when the filter gave `tree`, where workspaces may
    /// stand in workspaces up to the depth `n`.
    pub fn unapply_within(
        &self,
        repo: &mut Repo,
        tree: Oid,
        parent_tree: Oid,
        n: usize,
    ) -> (r: Result<Oid, Error>)
        requires
            old(repo).wf(),
            is_tree(old(repo)@, tree),
            is_tree(old(repo)@, parent_tree),
        ensures
            final(repo).grown_from(*old(repo)),
            gives(
                final(repo)@,
                r,
                unapply_tree(
                    old(repo).rules(),
                    self.view(),
                    dir(old(repo)@, tree),
                    dir(old(repo)@, parent_tree),
                    n as nat,
                ),
            ),
        decreases n, self, 0int,
    {
        let ghost a = repo@;
        let ghost t = dir(a, tree);
        let ghost p = dir(a, parent_tree);
        match self {
            Filter::Nop => Ok(tree),
            Filter::Empty => Ok(parent_tree),
            Filter::Chain(first, second) => {
                let p = match first.apply_within(repo, parent_tree, n) {
                    Ok(p) => p,
                    Err(e) => {
                        return Err(e);
                    },
                };
                let ghost b = repo@;
                proof {
                    lemma_dir_stable(a, b, tree);
                }
                let x = match second.unapply_within(repo, tree, p, n) {
                    Ok(x) => x,
                    Err(e) => {
                        proof {
                            lemma_extends_transitive(a, b, repo@);
                        }
                        return Err(e);
                    },
                };
                let ghost c = repo@;
                proof {
                    lemma_extends_transitive(a, b, c);
                    lemma_dir_stable(a, c, parent_tree);
                }
                let r = first.unapply_within(repo, x, parent_tree, n);
                proof {
                    lemma_extends_transitive(a, c, repo@);
                }
                r
            },
            Filter::Subdir(path) => {
                proof {
                    lemma_dir_listed(a, tree);
                }
                replace_subtree(repo, path.as_str(), tree, parent_tree)
            },
            Filter::Prefix(path) => Ok(subtree_or_empty(repo, tree, path.as_str())),
            Filter::Hide(path) => {
                let hidden: Oid = match get_path(repo, parent_tree, path.as_str()) {
                    Some(o) => o,
                    None => Oid::Zero,
                };
                replace_subtree(repo, path.as_str(), hidden, tree)
            },
            Filter::Glob { pattern, invert } => put_files(
                repo,
                tree,
                parent_tree,
                pattern,
                *invert,
            ),
            Filter::Combine(c) => c.unapply_within(repo, tree, parent_tree, n),
            Filter::Workspace(path) => {
                if n == 0 {
                    return Err(Error::TooDeep);
                }
                match combine_filter_from_ws(repo, tree, "") {
                    Ok(c) => {
                        proof {
                            lemma_combine_view(c);
                        }
                        let cw = Combine {
                            base: subdir_filter_of(path.as_str()),
                            mounts: c.mounts,
                        };
                        proof {
                            lemma_combine_view(cw);
                        }
                        cw.unapply_within(repo, tree, parent_tree, n - 1)
                    },
                    Err(e) => Err(e),
                }
            },
            _ => Err(Error::NotReversible(self.filter_spec())),
        }
    }

    /// The tree that the filter makes of a tree. A workspace that stands in itself has no end
    /// that a machine reaches; `apply_within` sets one.
    pub fn apply_to_tree(&self, repo: &mut Repo, tree: Oid) -> (r: Result<Oid, Error>)
        requires
            old(repo).wf(),
            is_tree(old(repo)@, tree),
        ensures
            final(repo).grown_from(*old(repo)),
            gives(
                final(repo)@,
                r,
                apply_tree(old(repo).rules(), self.view(), dir(old(repo)@, tree), deepest()),
            ),
    {
        self.apply_within(repo, tree, usize::MAX)
    }

    /// What the tree `parent_tree` becomes when the filter gave `tree`.
    pub fn unapply(&self, repo: &mut Repo, tree: Oid, parent_tree: Oid) -> (r: Result<Oid, Error>)
        requires
            old(repo).wf(),
            is_tree(old(repo)@, tree),
            is_tree(old(repo)@, parent_tree),
        ensures
            final(repo).grown_from(*old(repo)),
            gives(
                final(repo)@,
                r,
                unapply_tree(
                    old(repo).rules(),
                    self.view(),
                    dir(old(repo)@, tree),
                    dir(old(repo)@, parent_tree),
                    deepest(),
                ),
            ),
    {
        self.unapply_within(repo, tree, parent_tree, usize::MAX)
    }
}

} // verus!
