//! Filtering commits and their history.

use crate::apply::{apply_tree, deepest, gives, workspace, workspace_filter};
use crate::arena::{
    arena_wf, commit, commit_opt, dir, extends, is_commit, is_commit_or_zero, is_tree,
    lemma_commit_stable, lemma_dir_injective, lemma_dir_listed, lemma_dir_stable,
    lemma_extends_transitive, Arena, CommitView, Oid,
};
use crate::cache::{
    cache_values, lemma_cache_get, lemma_cache_set, lemma_cache_stable, lemma_opt_stable,
    FilterCache,
};
use crate::commits::{
    apply_commit, cached, created, distinct, filtered_list, filtered_parents, folded, height, known,
    lines_text, mount_texts, present, rewritten, selected_parents, without, workspace_commit,
    workspace_parents, workspace_tree_and_parents, MapsView, WorkspaceParents,
};
use crate::error::{Error, ErrorView};
use crate::filter::{lemma_combine_view, mount_views, spec_text, Combine, Filter, FilterView};
use crate::grammar::try_build_combine_filter;
use crate::history_laws::law_workspace_tree;
use crate::merge::{merge, merged_tree};
use crate::node::{empty_dir, Dir, Node, Rules};
use crate::repo::{commits, Repo};
use crate::text::{same_text, texts};
use crate::walk::{depth, history, lemma_depth, lemma_finished_depth, revwalk};
use vstd::prelude::*;

verus! {

/// What the two maps tell of commits.
pub open spec fn maps(a: Arena, forward: FilterCache, backward: FilterCache) -> MapsView {
    MapsView { forward: cache_values(a, forward@), backward: cache_values(a, backward@) }
}

/// The result of a function on a repository is the commit, or none, or the error, that is
/// told.
pub open spec fn names_commit(
    a: Arena,
    r: Result<Oid, Error>,
    want: Result<Option<CommitView>, ErrorView>,
) -> bool {
    match r {
        Ok(o) => is_commit_or_zero(a, o) && want == Ok::<Option<CommitView>, ErrorView>(
            commit_opt(a, o),
        ),
        Err(e) => want == Err::<Option<CommitView>, ErrorView>(e@),
    }
}

/// The ids name commits, or nothing.
pub open spec fn are_commits_or_zero(a: Arena, os: Seq<Oid>) -> bool {
    forall|i: int| 0 <= i < os.len() ==> is_commit_or_zero(a, #[trigger] os[i])
}

/// The ids name commits.
pub open spec fn are_commits(a: Arena, os: Seq<Oid>) -> bool {
    forall|i: int| 0 <= i < os.len() ==> is_commit(a, #[trigger] os[i])
}

/// The commits, or none, that the ids name.
pub open spec fn commit_opts(a: Arena, os: Seq<Oid>) -> Seq<Option<CommitView>> {
    Seq::new(os.len(), |i: int| commit_opt(a, os[i]))
}

/// The ids among the first `k` that name something.
pub open spec fn nonzero(os: Seq<Oid>, k: int) -> Seq<Oid>
    decreases k,
{
    if k <= 0 {
        Seq::empty()
    } else if os[k - 1] == Oid::Zero {
        nonzero(os, k - 1)
    } else {
        nonzero(os, k - 1).push(os[k - 1])
    }
}

proof fn lemma_commits_stable(a: Arena, b: Arena, os: Seq<Oid>)
    requires
        arena_wf(a),
        extends(a, b),
        are_commits(a, os),
    ensures
        are_commits(b, os),
        commits(a, os) == commits(b, os),
{
    assert forall|i: int| 0 <= i < os.len() implies is_commit(b, #[trigger] os[i]) && commit(
        a,
        os[i],
    ) == commit(b, os[i]) by {
        lemma_commit_stable(a, b, os[i]);
    }
    assert(commits(a, os) =~= commits(b, os));
}

proof fn lemma_opts_stable(a: Arena, b: Arena, os: Seq<Oid>)
    requires
        arena_wf(a),
        extends(a, b),
        are_commits_or_zero(a, os),
    ensures
        are_commits_or_zero(b, os),
        commit_opts(a, os) == commit_opts(b, os),
{
    assert forall|i: int| 0 <= i < os.len() implies is_commit_or_zero(b, #[trigger] os[i])
        && commit_opt(a, os[i]) == commit_opt(b, os[i]) by {
        lemma_opt_stable(a, b, os[i]);
    }
    assert(commit_opts(a, os) =~= commit_opts(b, os));
}

proof fn lemma_nonzero(a: Arena, os: Seq<Oid>, k: int)
    requires
        are_commits_or_zero(a, os),
        0 <= k <= os.len(),
    ensures
        are_commits(a, nonzero(os, k)),
        commits(a, nonzero(os, k)) == present(commit_opts(a, os), k),
    decreases k,
{
    if k > 0 {
        lemma_nonzero(a, os, k - 1);
        assert(is_commit_or_zero(a, os[k - 1]));
        if os[k - 1] != Oid::Zero {
            assert(commits(a, nonzero(os, k)) =~= commits(a, nonzero(os, k - 1)).push(
                commit(a, os[k - 1]),
            ));
        }
    } else {
        assert(commits(a, nonzero(os, k)) =~= Seq::<CommitView>::empty());
    }
}

/// The parents that a filtered commit gets.
pub fn select_parent_commits(
    repo: &Repo,
    original_commit: Oid,
    filtered_tree: Oid,
    filtered_parent_commits: &Vec<Oid>,
) -> (r: Vec<Oid>)
    requires
        repo.wf(),
        is_commit(repo@, original_commit),
        is_tree(repo@, filtered_tree),
        are_commits(repo@, filtered_parent_commits@),
    ensures
        are_commits(repo@, r@),
        commits(repo@, r@) == selected_parents(
            commit(repo@, original_commit),
            dir(repo@, filtered_tree),
            commits(repo@, filtered_parent_commits@),
        ),
{
    let ghost a = repo@;
    let ghost t = dir(a, filtered_tree);
    let ghost c = commit(a, original_commit);
    let ghost ps = commits(a, filtered_parent_commits@);
    let mut affects_filtered: bool = false;
    let mut i: usize = 0;
    while i < filtered_parent_commits.len()
        invariant
            repo.wf(),
            a == repo@,
            is_tree(a, filtered_tree),
            t == dir(a, filtered_tree),
            are_commits(a, filtered_parent_commits@),
            ps == commits(a, filtered_parent_commits@),
            i <= filtered_parent_commits@.len(),
            affects_filtered <==> exists|j: int| 0 <= j < i && (#[trigger] ps[j]).tree != t,
        decreases filtered_parent_commits@.len() - i,
    {
        let x: Oid = repo.tree_of(filtered_parent_commits[i]);
        assert(ps[i as int].tree == dir(a, x));
        if x != filtered_tree {
            proof {
                if dir(a, x) == t {
                    lemma_dir_injective(a, x, filtered_tree);
                }
            }
            affects_filtered = true;
        }
        i += 1;
    }
    let original_tree: Oid = repo.tree_of(original_commit);
    let original_parents = repo.parents_of(original_commit);
    let mut all_diffs_empty: bool = true;
    let mut k: usize = 0;
    while k < original_parents.len()
        invariant
            repo.wf(),
            a == repo@,
            is_tree(a, original_tree),
            c == commit(a, original_commit),
            dir(a, original_tree) == c.tree,
            are_commits(a, original_parents@),
            commits(a, original_parents@) == c.parents,
            k <= original_parents@.len(),
            all_diffs_empty <==> forall|j: int|
                0 <= j < k ==> (#[trigger] c.parents[j]).tree == c.tree,
        decreases original_parents@.len() - k,
    {
        let x: Oid = repo.tree_of(original_parents[k]);
        assert(c.parents[k as int] == commit(a, original_parents@[k as int]));
        if x != original_tree {
            proof {
                if dir(a, x) == c.tree {
                    lemma_dir_injective(a, x, original_tree);
                }
            }
            all_diffs_empty = false;
        }
        k += 1;
    }
    if affects_filtered || all_diffs_empty {
        crate::repo::copied_oids(filtered_parent_commits)
    } else {
        let r: Vec<Oid> = Vec::new();
        assert(commits(a, r@) =~= Seq::<CommitView>::empty());
        r
    }
}

/// Makes the commit with another tree and other parents.
pub fn rewrite(repo: &mut Repo, base: Oid, parents: Vec<Oid>, tree: Oid) -> (r: Result<Oid, Error>)
    requires
        old(repo).wf(),
        is_commit(old(repo)@, base),
        are_commits(old(repo)@, parents@),
        is_tree(old(repo)@, tree),
    ensures
        final(repo).grown_from(*old(repo)),
        r matches Ok(o) && is_commit(final(repo)@, o) && commit(final(repo)@, o) == rewritten(
            commit(old(repo)@, base),
            commits(old(repo)@, parents@),
            dir(old(repo)@, tree),
        ),
{
    let meta = repo.meta_of(base);
    repo.add_commit(tree, parents, meta)
}

/// Makes the filtered commit for a commit whose filtered parents and tree are given.
pub fn create_filtered_commit(
    repo: &mut Repo,
    original_commit: Oid,
    filtered_parent_ids: Vec<Oid>,
    filtered_tree: Oid,
) -> (r: Result<Oid, Error>)
    requires
        old(repo).wf(),
        is_commit(old(repo)@, original_commit),
        is_tree(old(repo)@, filtered_tree),
    ensures
        final(repo).grown_from(*old(repo)),
        match r {
            Ok(o) => {
                &&& are_commits_or_zero(old(repo)@, filtered_parent_ids@)
                &&& is_commit_or_zero(final(repo)@, o)
                &&& commit_opt(final(repo)@, o) == created(
                    commit(old(repo)@, original_commit),
                    present(
                        commit_opts(old(repo)@, filtered_parent_ids@),
                        filtered_parent_ids@.len() as int,
                    ),
                    dir(old(repo)@, filtered_tree),
                )
            },
            Err(e) => !are_commits_or_zero(old(repo)@, filtered_parent_ids@) && e@
                == ErrorView::NotFound && *final(repo) == *old(repo),
        },
        are_commits_or_zero(old(repo)@, filtered_parent_ids@) && selected_parents(
            commit(old(repo)@, original_commit),
            dir(old(repo)@, filtered_tree),
            present(
                commit_opts(old(repo)@, filtered_parent_ids@),
                filtered_parent_ids@.len() as int,
            ),
        ).len() == 0 ==> {
            let ids = nonzero(filtered_parent_ids@, filtered_parent_ids@.len() as int);
            &&& ids.len() > 0 ==> *final(repo) == *old(repo) && r == Ok::<Oid, Error>(ids[0])
            &&& ids.len() == 0 && dir(old(repo)@, filtered_tree) == empty_dir() ==> *final(repo)
                == *old(repo) && r == Ok::<Oid, Error>(Oid::Zero)
        },
{
    let ghost a = repo@;
    let ghost ids = filtered_parent_ids@;
    let mut filtered_parent_commits: Vec<Oid> = Vec::new();
    let mut i: usize = 0;
    while i < filtered_parent_ids.len()
        invariant
            *repo == *old(repo),
            old(repo).wf(),
            a == repo@,
            ids == filtered_parent_ids@,
            i <= ids.len(),
            forall|j: int| 0 <= j < i ==> is_commit_or_zero(a, #[trigger] ids[j]),
            filtered_parent_commits@ == nonzero(ids, i as int),
        decreases ids.len() - i,
    {
        let x: Oid = filtered_parent_ids[i];
        if x != Oid::Zero {
            if !repo.is_commit(x) {
                assert(!is_commit_or_zero(a, ids[i as int]));
                return Err(Error::NotFound);
            }
            filtered_parent_commits.push(x);
        }
        i += 1;
    }
    proof {
        lemma_nonzero(a, ids, ids.len() as int);
    }
    let ghost ps = commits(a, filtered_parent_commits@);
    let selected = select_parent_commits(
        repo,
        original_commit,
        filtered_tree,
        &filtered_parent_commits,
    );
    assert(commits(a, selected@).len() == selected@.len());
    assert(ps.len() == filtered_parent_commits@.len());
    if selected.len() == 0 {
        if filtered_parent_commits.len() != 0 {
            assert(ps[0] == commit(a, filtered_parent_commits@[0]));
            assert(is_commit(a, filtered_parent_commits@[0]));
            return Ok(filtered_parent_commits[0]);
        }
        if repo.is_empty_tree(filtered_tree) {
            return Ok(Oid::Zero);
        }
    }
    rewrite(repo, original_commit, selected, filtered_tree)
}

fn holds(ts: &Vec<String>, t: &str) -> (r: bool)
    ensures
        r == texts(ts@).contains(t@),
{
    let mut i: usize = 0;
    while i < ts.len()
        invariant
            i <= ts@.len(),
            forall|j: int| 0 <= j < i ==> (#[trigger] ts@[j])@ != t@,
        decreases ts@.len() - i,
    {
        if same_text(ts[i].as_str(), t) {
            assert(texts(ts@)[i as int] == t@);
            return true;
        }
        i += 1;
    }
    proof {
        if texts(ts@).contains(t@) {
            let k = texts(ts@).index_of(t@);
            assert(ts@[k]@ == t@);
        }
    }
    false
}

/// The texts of the mounts of a combination.
fn texts_of_mounts(c: &Combine) -> (r: Vec<String>)
    ensures
        texts(r@) == mount_texts(c.view()),
{
    let mut r: Vec<String> = Vec::new();
    let ghost cv = c.view();
    proof {
        lemma_combine_view(*c);
    }
    let mut i: usize = 0;
    while i < c.mounts.len()
        invariant
            cv == c.view(),
            cv.mounts == mount_views(c.mounts@),
            i <= c.mounts@.len(),
            texts(r@) == mount_texts(cv).take(i as int),
        decreases c.mounts@.len() - i,
    {
        let ghost was = texts(r@);
        let t = c.mounts[i].text();
        assert(cv.mounts[i as int] == c.mounts@[i as int].view());
        r.push(t);
        assert(texts(r@) =~= was.push(mount_texts(cv)[i as int]));
        assert(mount_texts(cv).take(i + 1) =~= was.push(mount_texts(cv)[i as int]));
        i += 1;
    }
    assert(mount_texts(cv).take(i as int) =~= mount_texts(cv));
    r
}

/// The texts of a list, each where it first stands.
fn distinct_texts(ts: &Vec<String>) -> (r: Vec<String>)
    ensures
        texts(r@) == distinct(texts(ts@), ts@.len() as int),
{
    let mut r: Vec<String> = Vec::new();
    let mut i: usize = 0;
    assert(texts(r@) =~= Seq::<Seq<char>>::empty());
    while i < ts.len()
        invariant
            i <= ts@.len(),
            texts(r@) == distinct(texts(ts@), i as int),
        decreases ts@.len() - i,
    {
        assert(texts(ts@)[i as int] == ts@[i as int]@);
        if !holds(&r, ts[i].as_str()) {
            let ghost was = texts(r@);
            let t: String = ts[i].as_str().to_owned();
            r.push(t);
            assert(texts(r@) =~= was.push(ts@[i as int]@));
        }
        i += 1;
    }
    r
}

/// The texts of a list that are not in another.
fn texts_without(ts: &Vec<String>, gone: &Vec<String>) -> (r: Vec<String>)
    ensures
        texts(r@) == without(texts(ts@), texts(gone@), ts@.len() as int),
{
    let mut r: Vec<String> = Vec::new();
    let mut i: usize = 0;
    assert(texts(r@) =~= Seq::<Seq<char>>::empty());
    while i < ts.len()
        invariant
            i <= ts@.len(),
            texts(r@) == without(texts(ts@), texts(gone@), i as int),
        decreases ts@.len() - i,
    {
        assert(texts(ts@)[i as int] == ts@[i as int]@);
        if !holds(gone, ts[i].as_str()) {
            let ghost was = texts(r@);
            let t: String = ts[i].as_str().to_owned();
            r.push(t);
            assert(texts(r@) =~= was.push(ts@[i as int]@));
        }
        i += 1;
    }
    r
}

/// The texts of a list, each on a line of its own.
fn text_of_lines(ts: &Vec<String>) -> (r: String)
    ensures
        r@ == lines_text(texts(ts@), ts@.len() as int),
{
    let mut r: String = String::new();
    let mut i: usize = 0;
    assert(r@ =~= Seq::<char>::empty());
    while i < ts.len()
        invariant
            i <= ts@.len(),
            r@ == lines_text(texts(ts@), i as int),
        decreases ts@.len() - i,
    {
        assert(texts(ts@)[i as int] == ts@[i as int]@);
        r.append(ts[i].as_str());
        r.append("\n");
        i += 1;
    }
    r
}

/// The maps tell the same of commits in a repository that has grown.
proof fn lemma_maps_stable(a: Arena, b: Arena, forward: FilterCache, backward: FilterCache)
    requires
        arena_wf(a),
        arena_wf(b),
        extends(a, b),
        forward.wf(a),
        backward.wf(a),
    ensures
        forward.wf(b),
        backward.wf(b),
        maps(a, forward, backward) == maps(b, forward, backward),
{
    lemma_cache_stable(a, b, forward@);
    lemma_cache_stable(a, b, backward@);
}

/// Trees that cannot be merged spoil all that is laid over them.
proof fn lemma_folded_fail(
    rules: Rules,
    tree: Dir,
    cs: Seq<CommitView>,
    j: int,
    k: int,
    e: ErrorView,
)
    requires
        folded(rules, tree, cs, j) == Err::<Dir, ErrorView>(e),
        1 <= j <= k,
    ensures
        folded(rules, tree, cs, k) == Err::<Dir, ErrorView>(e),
    decreases k - j,
{
    if j < k {
        lemma_folded_fail(rules, tree, cs, j, k - 1, e);
    }
}

/// Lays the trees of commits over a tree.
fn fold_trees(repo: &mut Repo, tree: Oid, cs: &Vec<Oid>) -> (r: Result<Oid, Error>)
    requires
        old(repo).wf(),
        is_tree(old(repo)@, tree),
        are_commits(old(repo)@, cs@),
    ensures
        final(repo).grown_from(*old(repo)),
        gives(
            final(repo)@,
            r,
            folded(
                old(repo).rules(),
                dir(old(repo)@, tree),
                commits(old(repo)@, cs@),
                cs@.len() as int,
            ),
        ),
{
    let ghost rules = repo.rules();
    let ghost a = repo@;
    let ghost d = dir(a, tree);
    let ghost cv = commits(a, cs@);
    let mut result: Oid = tree;
    let mut i: usize = 0;
    while i < cs.len()
        invariant
            rules == repo.rules(),
            rules == old(repo).rules(),
            old(repo).wf(),
            a == old(repo)@,
            d == dir(a, tree),
            are_commits(a, cs@),
            cv == commits(a, cs@),
            repo.grown_from(*old(repo)),
            i <= cs@.len(),
            is_tree(repo@, result),
            folded(rules, d, cv, i as int) == Ok::<Dir, ErrorView>(dir(repo@, result)),
        decreases cs@.len() - i,
    {
        let ghost a1 = repo@;
        proof {
            lemma_commit_stable(a, a1, cs@[i as int]);
        }
        let t: Oid = repo.tree_of(cs[i]);
        proof {
            lemma_dir_listed(a1, result);
            lemma_dir_listed(a1, t);
            assert(cv[i as int].tree == dir(a1, t));
            assert(merge(rules, Node::Dir(dir(a1, result)), Node::Dir(dir(a1, t))) is Dir);
        }
        match merged_tree(repo, result, t) {
            Ok(o) => {
                proof {
                    lemma_extends_transitive(a, a1, repo@);
                    if is_tree(repo@, o) {
                        lemma_dir_listed(repo@, o);
                    }
                }
                result = o;
            },
            Err(e) => {
                proof {
                    lemma_extends_transitive(a, a1, repo@);
                    lemma_folded_fail(rules, d, cv, i + 1, cs@.len() as int, e@);
                }
                return Err(e);
            },
        }
        i += 1;
    }
    Ok(result)
}

proof fn lemma_present_len(vs: Seq<Option<CommitView>>, k: int)
    requires
        0 <= k <= vs.len(),
    ensures
        present(vs, k).len() <= k,
        present(vs, k).len() == k <==> forall|i: int| 0 <= i < k ==> (#[trigger] vs[i]) is Some,
    decreases k,
{
    if k > 0 {
        lemma_present_len(vs, k - 1);
    }
}

/// Whether all ids of a list name something.
fn all_nonzero(os: &Vec<Oid>) -> (r: bool)
    ensures
        r <==> forall|i: int| 0 <= i < os@.len() ==> #[trigger] os@[i] != Oid::Zero,
{
    let mut i: usize = 0;
    while i < os.len()
        invariant
            i <= os@.len(),
            forall|j: int| 0 <= j < i ==> #[trigger] os@[j] != Oid::Zero,
        decreases os@.len() - i,
    {
        if os[i] == Oid::Zero {
            return false;
        }
        i += 1;
    }
    true
}

/// The mounts of a commit, or an earlier parent, that cannot be read spoil the whole.
proof fn lemma_workspace_parents_fail(
    rules: Rules,
    path: Seq<char>,
    c: CommitView,
    s: MapsView,
    n: nat,
    lines: Seq<Seq<char>>,
    j: int,
    k: int,
)
    requires
        workspace_parents(rules, path, c, s, n, lines, j).0 is Err,
        0 <= j <= k <= c.parents.len(),
    ensures
        workspace_parents(rules, path, c, s, n, lines, k) == workspace_parents(
            rules,
            path,
            c,
            s,
            n,
            lines,
            j,
        ),
    decreases k - j,
{
    if j < k {
        lemma_workspace_parents_fail(rules, path, c, s, n, lines, j, k - 1);
    }
}

impl Filter {
    /// Filters the parents of a commit.
    fn filter_parents(
        &self,
        repo: &mut Repo,
        original_commit: Oid,
        forward_maps: &mut FilterCache,
        backward_maps: &mut FilterCache,
    ) -> (r: Result<Vec<Oid>, Error>)
        requires
            old(repo).wf(),
            is_commit(old(repo)@, original_commit),
            old(forward_maps).wf(old(repo)@),
            old(backward_maps).wf(old(repo)@),
        ensures
            final(repo).grown_from(*old(repo)),
            final(forward_maps).wf(final(repo)@),
            final(backward_maps).wf(final(repo)@),
            ({
                let c = commit(old(repo)@, original_commit);
                let want = filtered_parents(
                    old(repo).rules(),
                    self.view(),
                    c,
                    maps(old(repo)@, *old(forward_maps), *old(backward_maps)),
                    deepest(),
                    c.parents.len() as int,
                );
                &&& r matches Ok(ids)
                &&& are_commits_or_zero(final(repo)@, ids@)
                &&& commit_opts(final(repo)@, ids@) == want.0
                &&& maps(final(repo)@, *final(forward_maps), *final(backward_maps)) == want.1
            }),
        decreases height(self.view()), depth(commit(old(repo)@, original_commit)), 0int,
    {
        let ghost rules = repo.rules();
        let ghost a = repo@;
        let ghost n = deepest();
        let ghost f = self.view();
        let ghost c = commit(a, original_commit);
        let ghost s0 = maps(a, *forward_maps, *backward_maps);
        let parents = repo.parents_of(original_commit);
        let mut ids: Vec<Oid> = Vec::new();
        let mut i: usize = 0;
        assert(commit_opts(a, ids@) =~= Seq::<Option<CommitView>>::empty());
        while i < parents.len()
            invariant
                rules == repo.rules(),
                rules == old(repo).rules(),
                old(repo).wf(),
                a == old(repo)@,
                n == deepest(),
                f == self.view(),
                c == commit(a, original_commit),
                are_commits(a, parents@),
                commits(a, parents@) == c.parents,
                repo.grown_from(*old(repo)),
                forward_maps.wf(repo@),
                backward_maps.wf(repo@),
                i <= parents@.len(),
                are_commits_or_zero(repo@, ids@),
                commit_opts(repo@, ids@) == filtered_parents(rules, f, c, s0, n, i as int).0,
                maps(repo@, *forward_maps, *backward_maps) == filtered_parents(
                    rules,
                    f,
                    c,
                    s0,
                    n,
                    i as int,
                ).1,
            decreases parents@.len() - i,
        {
            let ghost a1 = repo@;
            proof {
                lemma_commit_stable(a, a1, parents@[i as int]);
                assert(c.parents[i as int] == commit(a, parents@[i as int]));
                lemma_depth(c, i as int);
            }
            let x = apply_filter_cached(repo, self, parents[i], forward_maps, backward_maps);
            proof {
                lemma_extends_transitive(a, a1, repo@);
                lemma_opts_stable(a1, repo@, ids@);
            }
            let ghost was = commit_opts(repo@, ids@);
            match x {
                Ok(o) => {
                    ids.push(o);
                    assert(commit_opts(repo@, ids@) =~= was.push(commit_opt(repo@, o)));
                },
                Err(e) => {
                    return Err(e);
                },
            }
            i += 1;
        }
        Ok(ids)
    }

    /// Filters the parents of a commit in the workspace at a path, and tells which of the
    /// given mounts none of them has.
    #[verifier::rlimit(30)]
    #[verifier::spinoff_prover]
    fn workspace_parents(
        &self,
        path: &str,
        repo: &mut Repo,
        original_commit: Oid,
        forward_maps: &mut FilterCache,
        backward_maps: &mut FilterCache,
        lines: Vec<String>,
    ) -> (r: Result<(Vec<Oid>, Vec<String>), Error>)
        requires
            self.view() == FilterView::Workspace(path@),
            old(repo).wf(),
            is_commit(old(repo)@, original_commit),
            old(forward_maps).wf(old(repo)@),
            old(backward_maps).wf(old(repo)@),
        ensures
            final(repo).grown_from(*old(repo)),
            final(forward_maps).wf(final(repo)@),
            final(backward_maps).wf(final(repo)@),
            ({
                let c = commit(old(repo)@, original_commit);
                let want = workspace_parents(
                    old(repo).rules(),
                    path@,
                    c,
                    maps(old(repo)@, *old(forward_maps), *old(backward_maps)),
                    deepest(),
                    texts(lines@),
                    c.parents.len() as int,
                );
                &&& maps(final(repo)@, *final(forward_maps), *final(backward_maps)) == want.1
                &&& match r {
                    Ok((ids, ls)) => {
                        &&& are_commits(final(repo)@, ids@)
                        &&& want.0 == Ok::<WorkspaceParents, ErrorView>(
                            WorkspaceParents {
                                commits: commits(final(repo)@, ids@),
                                lines: texts(ls@),
                            },
                        )
                    },
                    Err(e) => want.0 == Err::<WorkspaceParents, ErrorView>(e@),
                }
            }),
        decreases height(self.view()), depth(commit(old(repo)@, original_commit)), 0int,
    {
        let ghost rules = repo.rules();
        let ghost a = repo@;
        let ghost n = deepest();
        let ghost c = commit(a, original_commit);
        let ghost s0 = maps(a, *forward_maps, *backward_maps);
        let ghost l0 = texts(lines@);
        let ghost len = c.parents.len() as int;
        let parents = repo.parents_of(original_commit);
        let mut ids: Vec<Oid> = Vec::new();
        let mut ls: Vec<String> = lines;
        let mut i: usize = 0;
        assert(commits(a, ids@) =~= Seq::<CommitView>::empty());
        while i < parents.len()
            invariant
                rules == repo.rules(),
                rules == old(repo).rules(),
                self.view() == FilterView::Workspace(path@),
                old(repo).wf(),
                a == old(repo)@,
                n == deepest(),
                c == commit(a, original_commit),
                len == c.parents.len(),
                are_commits(a, parents@),
                commits(a, parents@) == c.parents,
                repo.grown_from(*old(repo)),
                forward_maps.wf(repo@),
                backward_maps.wf(repo@),
                i <= parents@.len(),
                are_commits(repo@, ids@),
                s0 == maps(a, *old(forward_maps), *old(backward_maps)),
                l0 == texts(lines@),
                workspace_parents(rules, path@, c, s0, n, l0, i as int).0 == Ok::<
                    WorkspaceParents,
                    ErrorView,
                >(WorkspaceParents { commits: commits(repo@, ids@), lines: texts(ls@) }),
                maps(repo@, *forward_maps, *backward_maps) == workspace_parents(
                    rules,
                    path@,
                    c,
                    s0,
                    n,
                    l0,
                    i as int,
                ).1,
            decreases parents@.len() - i,
        {
            let ghost a1 = repo@;
            let ghost p = c.parents[i as int];
            proof {
                lemma_commit_stable(a, a1, parents@[i as int]);
                assert(p == commit(a, parents@[i as int]));
                lemma_depth(c, i as int);
            }
            let x = apply_filter_cached(repo, self, parents[i], forward_maps, backward_maps);
            let ghost a2 = repo@;
            proof {
                lemma_extends_transitive(a, a1, a2);
                lemma_commits_stable(a1, a2, ids@);
                lemma_commit_stable(a, a2, parents@[i as int]);
            }
            match x {
                Ok(o) => {
                    if o != Oid::Zero {
                        let ghost was = commits(a2, ids@);
                        ids.push(o);
                        assert(commits(a2, ids@) =~= was.push(commit(a2, o)));
                    }
                },
                Err(e) => {
                    return Err(e);
                },
            }
            let tree: Oid = repo.tree_of(parents[i]);
            match workspace_filter(repo, tree, path) {
                Ok(pcw) => {
                    let gone = texts_of_mounts(&pcw);
                    ls = texts_without(&ls, &gone);
                },
                Err(e) => {
                    proof {
                        lemma_workspace_parents_fail(rules, path@, c, s0, n, l0, i + 1, len);
                    }
                    return Err(e);
                },
            }
            i += 1;
        }
        Ok((ids, ls))
    }

    /// The tree and the parents of the filtered commit in the workspace at a path.
    #[verifier::rlimit(30)]
    #[verifier::spinoff_prover]
    pub fn ws_apply_to_tree_and_parents(
        &self,
        path: &str,
        repo: &mut Repo,
        original_commit: Oid,
        forward_maps: &mut FilterCache,
        backward_maps: &mut FilterCache,
    ) -> (r: Result<(Oid, Vec<Oid>), Error>)
        requires
            self.view() == FilterView::Workspace(path@),
            old(repo).wf(),
            is_commit(old(repo)@, original_commit),
            old(forward_maps).wf(old(repo)@),
            old(backward_maps).wf(old(repo)@),
        ensures
            final(repo).grown_from(*old(repo)),
            final(forward_maps).wf(final(repo)@),
            final(backward_maps).wf(final(repo)@),
            ({
                let want = workspace_tree_and_parents(
                    old(repo).rules(),
                    path@,
                    commit(old(repo)@, original_commit),
                    maps(old(repo)@, *old(forward_maps), *old(backward_maps)),
                    deepest(),
                );
                &&& maps(final(repo)@, *final(forward_maps), *final(backward_maps)) == want.1
                &&& match r {
                    Ok((t, ids)) => {
                        &&& is_tree(final(repo)@, t)
                        &&& are_commits(final(repo)@, ids@)
                        &&& want.0 == Ok::<(Dir, Seq<CommitView>), ErrorView>(
                            (dir(final(repo)@, t), commits(final(repo)@, ids@)),
                        )
                    },
                    Err(e) => want.0 == Err::<(Dir, Seq<CommitView>), ErrorView>(e@),
                }
            }),
            r matches Ok((t, _)) ==> apply_tree(
                old(repo).rules(),
                self.view(),
                commit(old(repo)@, original_commit).tree,
                deepest(),
            ) == Ok::<Dir, ErrorView>(dir(final(repo)@, t)),
        decreases height(self.view()), depth(commit(old(repo)@, original_commit)), 1int,
    {
        let ghost rules = repo.rules();
        let ghost a = repo@;
        let ghost c = commit(a, original_commit);
        let ghost s0 = maps(a, *forward_maps, *backward_maps);
        let full_tree: Oid = repo.tree_of(original_commit);
        let cw = match workspace_filter(repo, full_tree, path) {
            Ok(cw) => cw,
            Err(e) => {
                return Err(e);
            },
        };
        let mounts = texts_of_mounts(&cw);
        assert(texts(mounts@).len() == mounts@.len());
        let in_this = distinct_texts(&mounts);
        let (mut ids, lines) = match self.workspace_parents(
            path,
            repo,
            original_commit,
            forward_maps,
            backward_maps,
            in_this,
        ) {
            Ok(x) => x,
            Err(e) => {
                return Err(e);
            },
        };
        let ghost a1 = repo@;
        proof {
            assert(texts(lines@).len() == lines@.len());
            lemma_commit_stable(a, a1, original_commit);
            lemma_dir_stable(a, a1, full_tree);
        }
        let s = text_of_lines(&lines);
        let pcw = match try_build_combine_filter(s.as_str(), Box::new(Filter::Empty)) {
            Ok(pcw) => pcw,
            Err(e) => {
                return Err(e);
            },
        };
        let ghost pv = pcw.view();
        let parents = repo.parents_of(original_commit);
        if parents.len() > 0 {
            let new = Filter::Combine(pcw);
            assert(new.view() == FilterView::Combine(pv));
            assert(c.parents[0] == commit(a1, parents@[0]));
            let x = new.apply_to_commit(repo, parents[0], forward_maps, backward_maps);
            proof {
                lemma_extends_transitive(a, a1, repo@);
                lemma_commits_stable(a1, repo@, ids@);
                lemma_dir_stable(a1, repo@, full_tree);
            }
            match x {
                Ok(o) => {
                    if o != Oid::Zero {
                        let ghost was = commits(repo@, ids@);
                        ids.push(o);
                        assert(commits(repo@, ids@) =~= was.push(commit(repo@, o)));
                    }
                },
                Err(e) => {
                    return Err(e);
                },
            }
        }
        let ghost a2 = repo@;
        let t = cw.apply_within(repo, full_tree, usize::MAX - 1);
        proof {
            lemma_extends_transitive(a, a2, repo@);
            lemma_commits_stable(a2, repo@, ids@);
            lemma_maps_stable(a2, repo@, *forward_maps, *backward_maps);
            law_workspace_tree(rules, path@, c, s0, deepest());
        }
        match t {
            Ok(t) => Ok((t, ids)),
            Err(e) => Err(e),
        }
    }

    /// The filtered commit for a commit; nothing where nothing is left of it.
    #[verifier::rlimit(30)]
    #[verifier::spinoff_prover]
    pub fn apply_to_commit(
        &self,
        repo: &mut Repo,
        original_commit: Oid,
        forward_maps: &mut FilterCache,
        backward_maps: &mut FilterCache,
    ) -> (r: Result<Oid, Error>)
        requires
            old(repo).wf(),
            is_commit(old(repo)@, original_commit),
            old(forward_maps).wf(old(repo)@),
            old(backward_maps).wf(old(repo)@),
        ensures
            final(repo).grown_from(*old(repo)),
            final(forward_maps).wf(final(repo)@),
            final(backward_maps).wf(final(repo)@),
            ({
                let want = apply_commit(
                    old(repo).rules(),
                    self.view(),
                    commit(old(repo)@, original_commit),
                    maps(old(repo)@, *old(forward_maps), *old(backward_maps)),
                    deepest(),
                );
                &&& maps(final(repo)@, *final(forward_maps), *final(backward_maps)) == want.1
                &&& names_commit(final(repo)@, r, want.0)
            }),
            ({
                let key = (spec_text(self.view()), original_commit);
                !(self.view() is Chain) && !(self.view() is Cutoff)
                    && old(forward_maps)@.dom().contains(key) ==> {
                    &&& r == Ok::<Oid, Error>(old(forward_maps)@[key])
                    &&& *final(repo) == *old(repo)
                    &&& *final(forward_maps) == *old(forward_maps)
                    &&& *final(backward_maps) == *old(backward_maps)
                }
            }),
        decreases height(self.view()), depth(commit(old(repo)@, original_commit)), 3int,
    {
        let ghost a = repo@;
        let ghost f = self.view();
        let ghost c = commit(a, original_commit);
        match self {
            Filter::Chain(first, second) => {
                let x = first.apply_to_commit(repo, original_commit, forward_maps, backward_maps);
                let ghost b = repo@;
                match x {
                    Ok(o) => {
                        if o == Oid::Zero {
                            return Ok(Oid::Zero);
                        }
                        let r = second.apply_to_commit(repo, o, forward_maps, backward_maps);
                        proof {
                            lemma_extends_transitive(a, b, repo@);
                        }
                        return r;
                    },
                    Err(e) => {
                        return Err(e);
                    },
                }
            },
            Filter::Cutoff(_) => {
                let tree: Oid = repo.tree_of(original_commit);
                let none: Vec<Oid> = Vec::new();
                assert(commits(a, none@) =~= Seq::<CommitView>::empty());
                let r = rewrite(repo, original_commit, none, tree);
                proof {
                    lemma_maps_stable(a, repo@, *forward_maps, *backward_maps);
                }
                return r;
            },
            _ => {},
        }
        let text = self.filter_spec();
        proof {
            lemma_cache_get(a, forward_maps@, text@, original_commit);
        }
        if forward_maps.has(text.as_str(), original_commit) {
            let r: Oid = forward_maps.get(text.as_str(), original_commit);
            return Ok(r);
        }
        match self {
            Filter::Fold => self.fold_commit(repo, original_commit, forward_maps, backward_maps),
            Filter::Workspace(path) => self.workspace_commit(
                path.as_str(),
                repo,
                original_commit,
                forward_maps,
                backward_maps,
            ),
            _ => self.plain_commit(repo, original_commit, forward_maps, backward_maps),
        }
    }

    /// The filtered commit for a commit in the workspace at a path.
    fn workspace_commit(
        &self,
        path: &str,
        repo: &mut Repo,
        original_commit: Oid,
        forward_maps: &mut FilterCache,
        backward_maps: &mut FilterCache,
    ) -> (r: Result<Oid, Error>)
        requires
            self.view() == FilterView::Workspace(path@),
            old(repo).wf(),
            is_commit(old(repo)@, original_commit),
            old(forward_maps).wf(old(repo)@),
            old(backward_maps).wf(old(repo)@),
        ensures
            final(repo).grown_from(*old(repo)),
            final(forward_maps).wf(final(repo)@),
            final(backward_maps).wf(final(repo)@),
            ({
                let want = workspace_commit(
                    old(repo).rules(),
                    path@,
                    commit(old(repo)@, original_commit),
                    maps(old(repo)@, *old(forward_maps), *old(backward_maps)),
                    deepest(),
                );
                &&& maps(final(repo)@, *final(forward_maps), *final(backward_maps)) == want.1
                &&& names_commit(final(repo)@, r, want.0)
            }),
        decreases height(self.view()), depth(commit(old(repo)@, original_commit)), 2int,
    {
        let ghost a = repo@;
        let (t, ids) = match self.ws_apply_to_tree_and_parents(
            path,
            repo,
            original_commit,
            forward_maps,
            backward_maps,
        ) {
            Ok(x) => x,
            Err(e) => {
                return Err(e);
            },
        };
        let ghost b = repo@;
        proof {
            lemma_commit_stable(a, b, original_commit);
            lemma_all_present(b, ids@);
        }
        let r = create_filtered_commit(repo, original_commit, ids, t);
        proof {
            lemma_extends_transitive(a, b, repo@);
            lemma_maps_stable(b, repo@, *forward_maps, *backward_maps);
        }
        r
    }

    /// The filtered commit for a commit, where the filter depends on trees alone.
    fn plain_commit(
        &self,
        repo: &mut Repo,
        original_commit: Oid,
        forward_maps: &mut FilterCache,
        backward_maps: &mut FilterCache,
    ) -> (r: Result<Oid, Error>)
        requires
            !(self.view() is Chain),
            !(self.view() is Cutoff),
            !(self.view() is Fold),
            !(self.view() is Workspace),
            old(repo).wf(),
            is_commit(old(repo)@, original_commit),
            old(forward_maps).wf(old(repo)@),
            old(backward_maps).wf(old(repo)@),
            !known(
                maps(old(repo)@, *old(forward_maps), *old(backward_maps)),
                spec_text(self.view()),
                commit(old(repo)@, original_commit),
            ),
        ensures
            final(repo).grown_from(*old(repo)),
            final(forward_maps).wf(final(repo)@),
            final(backward_maps).wf(final(repo)@),
            ({
                let want = apply_commit(
                    old(repo).rules(),
                    self.view(),
                    commit(old(repo)@, original_commit),
                    maps(old(repo)@, *old(forward_maps), *old(backward_maps)),
                    deepest(),
                );
                &&& maps(final(repo)@, *final(forward_maps), *final(backward_maps)) == want.1
                &&& names_commit(final(repo)@, r, want.0)
            }),
        decreases height(self.view()), depth(commit(old(repo)@, original_commit)), 2int,
    {
        let ghost a = repo@;
        let tree: Oid = repo.tree_of(original_commit);
        let x = self.apply_to_tree(repo, tree);
        let ghost b = repo@;
        proof {
            lemma_maps_stable(a, b, *forward_maps, *backward_maps);
            lemma_commit_stable(a, b, original_commit);
        }
        let t = match x {
            Ok(t) => t,
            Err(e) => {
                return Err(e);
            },
        };
        let ids = match self.filter_parents(repo, original_commit, forward_maps, backward_maps) {
            Ok(ids) => ids,
            Err(e) => {
                return Err(e);
            },
        };
        let ghost d = repo@;
        proof {
            lemma_extends_transitive(a, b, d);
            lemma_commit_stable(b, d, original_commit);
            lemma_dir_stable(b, d, t);
        }
        let r = create_filtered_commit(repo, original_commit, ids, t);
        proof {
            lemma_extends_transitive(a, d, repo@);
            lemma_maps_stable(d, repo@, *forward_maps, *backward_maps);
        }
        r
    }

    /// The filtered commit for a commit, where what the history held is joined to it.
    fn fold_commit(
        &self,
        repo: &mut Repo,
        original_commit: Oid,
        forward_maps: &mut FilterCache,
        backward_maps: &mut FilterCache,
    ) -> (r: Result<Oid, Error>)
        requires
            self.view() == FilterView::Fold,
            old(repo).wf(),
            is_commit(old(repo)@, original_commit),
            old(forward_maps).wf(old(repo)@),
            old(backward_maps).wf(old(repo)@),
            !known(
                maps(old(repo)@, *old(forward_maps), *old(backward_maps)),
                spec_text(self.view()),
                commit(old(repo)@, original_commit),
            ),
        ensures
            final(repo).grown_from(*old(repo)),
            final(forward_maps).wf(final(repo)@),
            final(backward_maps).wf(final(repo)@),
            ({
                let want = apply_commit(
                    old(repo).rules(),
                    self.view(),
                    commit(old(repo)@, original_commit),
                    maps(old(repo)@, *old(forward_maps), *old(backward_maps)),
                    deepest(),
                );
                &&& maps(final(repo)@, *final(forward_maps), *final(backward_maps)) == want.1
                &&& names_commit(final(repo)@, r, want.0)
            }),
        decreases height(self.view()), depth(commit(old(repo)@, original_commit)), 2int,
    {
        let ghost a = repo@;
        let ids = match self.filter_parents(repo, original_commit, forward_maps, backward_maps) {
            Ok(ids) => ids,
            Err(e) => {
                return Err(e);
            },
        };
        let ghost b = repo@;
        let ghost vs = commit_opts(b, ids@);
        proof {
            lemma_commit_stable(a, b, original_commit);
            lemma_present_len(vs, vs.len() as int);
            lemma_nonzero(b, ids@, ids@.len() as int);
            assert forall|i: int| 0 <= i < vs.len() implies ((#[trigger] vs[i]) is Some <==> ids@[i]
                != Oid::Zero) by {}
        }
        if !all_nonzero(&ids) {
            proof {
                let i = choose|i: int| 0 <= i < ids@.len() && ids@[i] == Oid::Zero;
                assert(vs[i] is None);
            }
            return Err(Error::NotFound);
        }
        proof {
            assert forall|i: int| 0 <= i < vs.len() implies (#[trigger] vs[i]) is Some by {
                assert(ids@[i] != Oid::Zero);
            }
            lemma_all_nonzero(ids@, ids@.len() as int);
            assert(ids@.take(ids@.len() as int) =~= ids@);
        }
        let tree: Oid = repo.tree_of(original_commit);
        let x = fold_trees(repo, tree, &ids);
        let ghost d = repo@;
        proof {
            lemma_extends_transitive(a, b, d);
            lemma_maps_stable(b, d, *forward_maps, *backward_maps);
            lemma_commit_stable(b, d, original_commit);
            lemma_opts_stable(b, d, ids@);
        }
        let t = match x {
            Ok(t) => t,
            Err(e) => {
                return Err(e);
            },
        };
        let r = create_filtered_commit(repo, original_commit, ids, t);
        proof {
            lemma_extends_transitive(a, d, repo@);
            lemma_maps_stable(d, repo@, *forward_maps, *backward_maps);
        }
        r
    }
}

/// A list of ids that name something has all of them.
proof fn lemma_all_nonzero(os: Seq<Oid>, k: int)
    requires
        0 <= k <= os.len(),
        forall|i: int| 0 <= i < os.len() ==> #[trigger] os[i] != Oid::Zero,
    ensures
        nonzero(os, k) == os.take(k),
    decreases k,
{
    if k > 0 {
        lemma_all_nonzero(os, k - 1);
        assert(os.take(k) =~= os.take(k - 1).push(os[k - 1]));
    } else {
        assert(os.take(k) =~= Seq::<Oid>::empty());
    }
}

/// The commits that a list of ids of commits names are all there.
proof fn lemma_all_present(a: Arena, os: Seq<Oid>)
    requires
        are_commits(a, os),
    ensures
        are_commits_or_zero(a, os),
        present(commit_opts(a, os), os.len() as int) == commits(a, os),
{
    assert forall|i: int| 0 <= i < os.len() implies #[trigger] os[i] != Oid::Zero by {
        assert(is_commit(a, os[i]));
    }
    lemma_nonzero(a, os, os.len() as int);
    lemma_all_nonzero(os, os.len() as int);
    assert(os.take(os.len() as int) =~= os);
}

/// The filtered commit for a commit, as it is known or, where it is not, after all its
/// history was filtered.
pub fn apply_filter_cached(
    repo: &mut Repo,
    filter: &Filter,
    newrev: Oid,
    forward_maps: &mut FilterCache,
    backward_maps: &mut FilterCache,
) -> (r: Result<Oid, Error>)
    requires
        old(repo).wf(),
        old(forward_maps).wf(old(repo)@),
        old(backward_maps).wf(old(repo)@),
    ensures
        final(repo).grown_from(*old(repo)),
        final(forward_maps).wf(final(repo)@),
        final(backward_maps).wf(final(repo)@),
        is_commit(old(repo)@, newrev) ==> ({
            let want = cached(
                old(repo).rules(),
                filter.view(),
                commit(old(repo)@, newrev),
                maps(old(repo)@, *old(forward_maps), *old(backward_maps)),
                deepest(),
            );
            &&& maps(final(repo)@, *final(forward_maps), *final(backward_maps)) == want.1
            &&& r matches Ok(o)
            &&& is_commit_or_zero(final(repo)@, o)
            &&& commit_opt(final(repo)@, o) == want.0
        }),
        ({
            let key = (spec_text(filter.view()), newrev);
            let known = old(forward_maps)@.dom().contains(key);
            &&& known || !is_commit(old(repo)@, newrev) ==> {
                &&& *final(repo) == *old(repo)
                &&& *final(forward_maps) == *old(forward_maps)
                &&& *final(backward_maps) == *old(backward_maps)
            }
            &&& known ==> r == Ok::<Oid, Error>(old(forward_maps)@[key])
            &&& !known && !is_commit(old(repo)@, newrev) ==> (r matches Err(e) && e@
                == ErrorView::NotFound)
        }),
    decreases height(filter.view()), depth(commit(old(repo)@, newrev)), 4int,
{
    let ghost rules = repo.rules();
    let ghost a = repo@;
    let ghost n = deepest();
    let ghost f = filter.view();
    let text = filter.filter_spec();
    proof {
        if is_commit(a, newrev) {
            lemma_cache_get(a, forward_maps@, text@, newrev);
        }
    }
    if forward_maps.has(text.as_str(), newrev) {
        let r: Oid = forward_maps.get(text.as_str(), newrev);
        return Ok(r);
    }
    if !repo.is_commit(newrev) {
        return Err(Error::NotFound);
    }
    let ghost c = commit(a, newrev);
    let ghost list = history(c);
    let ghost s0 = maps(a, *forward_maps, *backward_maps);
    let walk = revwalk(repo, newrev);
    assert(commits(a, walk@) == list);
    let mut i: usize = 0;
    while i < walk.len()
        invariant
            rules == repo.rules(),
            rules == old(repo).rules(),
            old(repo).wf(),
            a == old(repo)@,
            n == deepest(),
            f == filter.view(),
            text@ == spec_text(f),
            is_commit(a, newrev),
            c == commit(a, newrev),
            list == history(c),
            are_commits(a, walk@),
            commits(a, walk@) == list,
            repo.grown_from(*old(repo)),
            forward_maps.wf(repo@),
            backward_maps.wf(repo@),
            i <= walk@.len(),
            maps(repo@, *forward_maps, *backward_maps) == filtered_list(
                rules,
                f,
                list,
                depth(c),
                s0,
                n,
                i as int,
            ),
        decreases walk@.len() - i,
    {
        let ghost a1 = repo@;
        let ghost x = list[i as int];
        let o: Oid = walk[i];
        proof {
            assert(x == commit(a, o));
            lemma_commit_stable(a, a1, o);
            assert(list.contains(x));
            lemma_finished_depth(c, Seq::empty(), x);
        }
        let done = filter.apply_to_commit(repo, o, forward_maps, backward_maps);
        let v: Oid = match done {
            Ok(v) => v,
            Err(_) => Oid::Zero,
        };
        let ghost a2 = repo@;
        proof {
            lemma_extends_transitive(a, a1, a2);
            lemma_commit_stable(a1, a2, o);
            lemma_cache_set(a2, forward_maps@, text@, o, v);
            lemma_cache_set(a2, backward_maps@, text@, v, o);
        }
        forward_maps.set(text.as_str(), o, v);
        backward_maps.set(text.as_str(), v, o);
        i += 1;
    }
    proof {
        lemma_commit_stable(a, repo@, newrev);
        lemma_cache_get(repo@, forward_maps@, text@, newrev);
        lemma_listed_known(rules, f, c, s0, n);
    }
    let r: Oid = forward_maps.get(text.as_str(), newrev);
    Ok(r)
}

/// Once the history of a commit was filtered, the filtered commit for it is known.
proof fn lemma_listed_known(rules: Rules, f: FilterView, c: CommitView, s: MapsView, n: nat)
    ensures
        known(
            filtered_list(rules, f, history(c), depth(c), s, n, history(c).len() as int),
            spec_text(f),
            c,
        ),
{
    let list = history(c);
    assert(list.len() > 0 && list[list.len() - 1] == c);
}

} // verus!
