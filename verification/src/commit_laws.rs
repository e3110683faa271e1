//! What becomes of each commit of a history: its tree, its parents, and what is recorded.

use crate::apply::{apply_tree, workspace};
use crate::arena::CommitView;
use crate::commits::{
    apply_commit, cached, created, distinct, filtered_list, filtered_parents, folded, known,
    lines_text, mount_texts, present, recalled, recorded, rewritten, selected_parents,
    with_new_mounts, without, workspace_commit, workspace_parents, workspace_tree,
    workspace_tree_and_parents, MapsView, WorkspaceParents,
};
use crate::error::ErrorView;
use crate::filter::{mount_text, spec_text, CombineView, FilterView, MountView};
use crate::grammar::checked_combine;
use crate::grammar_laws::{law_mounts_round_trip, lemma_mount_line, mount_wf, texts_of};
use crate::history_laws::{goes_by_parents, has_mount, is_plain, law_new_mounts, outcome};
use crate::merge::{merge, mergeable};
use crate::node::{empty_dir, Dir, Node, Rules};
use crate::step_laws::lemma_own_step;
use crate::walk::{depth, history, in_order, law_history_order, lemma_finished_depth};
use vstd::prelude::*;

verus! {

/// The commit has the same tree as all commits that it follows.
pub open spec fn changes_nothing(c: CommitView) -> bool {
    forall|i: int| 0 <= i < c.parents.len() ==> (#[trigger] c.parents[i]).tree == c.tree
}

/// All commits have the tree.
pub open spec fn all_have(ps: Seq<CommitView>, t: Dir) -> bool {
    forall|i: int| 0 <= i < ps.len() ==> (#[trigger] ps[i]).tree == t
}

/// A commit keeps all its filtered parents, in their order, where its filtered tree differs
/// from that of one of them, or where it changed nothing before it was filtered: merges stay
/// merges. It keeps none else.
pub proof fn law_parents_kept(c: CommitView, t: Dir, ps: Seq<CommitView>)
    ensures
        !all_have(ps, t) ==> selected_parents(c, t, ps) == ps,
        changes_nothing(c) ==> selected_parents(c, t, ps) == ps,
        all_have(ps, t) && !changes_nothing(c) ==> selected_parents(c, t, ps).len() == 0,
{
}

/// The filtered commit for a commit, by what its filtered parents and its filtered tree are.
/// Where the tree differs from that of a filtered parent, the commit is made again with all
/// filtered parents, in their order, and all else that it records. So it is where it changed
/// nothing before. Where only the filter makes it change nothing, its first filtered parent
/// stands for it. Without filtered parents it is made again if it has files.
pub proof fn law_filtered_commit(c: CommitView, ps: Seq<CommitView>, t: Dir)
    ensures
        !all_have(ps, t) ==> created(c, ps, t) == Some(
            CommitView { tree: t, parents: ps, meta: c.meta },
        ),
        ps.len() > 0 && changes_nothing(c) ==> created(c, ps, t) == Some(
            CommitView { tree: t, parents: ps, meta: c.meta },
        ),
        ps.len() > 0 && all_have(ps, t) && !changes_nothing(c) ==> created(c, ps, t) == Some(ps[0]),
        ps.len() == 0 && t != empty_dir() ==> created(c, ps, t) == Some(
            CommitView { tree: t, parents: ps, meta: c.meta },
        ),
        ps.len() == 0 && t == empty_dir() ==> created(c, ps, t) is None,
{
    law_parents_kept(c, t, ps);
    if ps.len() == 0 {
        assert(selected_parents(c, t, ps) =~= ps);
    }
}

/// Making a commit again keeps all that it records, but for its tree and its parents.
pub proof fn law_made_again(c: CommitView, ps: Seq<CommitView>, t: Dir)
    ensures
        rewritten(c, ps, t).meta == c.meta,
        rewritten(c, ps, t).tree == t,
        rewritten(c, ps, t).parents == ps,
{
}

/// Of filtered commits those that are there stay, in their order.
pub proof fn law_present(vs: Seq<Option<CommitView>>, v: Option<CommitView>)
    ensures
        present(Seq::empty(), 0).len() == 0,
        present(vs.push(v), vs.len() as int + 1) == match v {
            Some(c) => present(vs, vs.len() as int).push(c),
            None => present(vs, vs.len() as int),
        },
{
    lemma_present_front(vs, v, vs.len() as int);
}

proof fn lemma_present_front(vs: Seq<Option<CommitView>>, v: Option<CommitView>, k: int)
    requires
        0 <= k <= vs.len(),
    ensures
        present(vs.push(v), k) == present(vs, k),
    decreases k,
{
    if k > 0 {
        lemma_present_front(vs, v, k - 1);
    }
}

/// Folding lays the trees of commits over a tree one after the other.
pub proof fn law_folded_step(rules: Rules, tree: Dir, cs: Seq<CommitView>, c: CommitView)
    ensures
        folded(rules, tree, Seq::empty(), 0) == Ok::<Dir, ErrorView>(tree),
        folded(rules, tree, cs.push(c), cs.len() as int + 1) == match folded(
            rules,
            tree,
            cs,
            cs.len() as int,
        ) {
            Err(e) => Err(e),
            Ok(t) => if mergeable(Node::Dir(t), Node::Dir(c.tree)) {
                Ok(merge(rules, Node::Dir(t), Node::Dir(c.tree))->Dir_0)
            } else {
                Err(ErrorView::NoName)
            },
        },
{
    lemma_folded_front(rules, tree, cs, c, cs.len() as int);
}

proof fn lemma_folded_front(rules: Rules, tree: Dir, cs: Seq<CommitView>, c: CommitView, k: int)
    requires
        0 <= k <= cs.len(),
    ensures
        folded(rules, tree, cs.push(c), k) == folded(rules, tree, cs, k),
    decreases k,
{
    if k > 0 {
        lemma_folded_front(rules, tree, cs, c, k - 1);
    }
}

/// The states in which the commits of a list are filtered one after the other: each is
/// filtered with what is known so far, and what comes out is recorded in both directions. A
/// commit that cannot be filtered is recorded as one of which nothing is left.
pub open spec fn is_pass(
    rules: Rules,
    f: FilterView,
    list: Seq<CommitView>,
    n: nat,
    ms: Seq<MapsView>,
) -> bool {
    &&& ms.len() == list.len() + 1
    &&& forall|i: int|
        0 <= i < list.len() ==> {
            let x = apply_commit(rules, f, #[trigger] list[i], ms[i], n);
            let v = match x.0 {
                Ok(v) => v,
                Err(_) => None,
            };
            &&& ms[i + 1].forward == x.1.forward.insert((spec_text(f), Some(list[i])), v)
            &&& ms[i + 1].backward == x.1.backward.insert((spec_text(f), v), Some(list[i]))
        }
}

/// A filtered commit that is known is what was recorded, and nothing is done for it. For one
/// that is not known all its history is filtered, oldest first, each commit once, and what
/// was recorded for it last is what it is.
pub proof fn law_history_filtered(rules: Rules, f: FilterView, c: CommitView, s: MapsView, n: nat)
    ensures
        s.forward.dom().contains((spec_text(f), Some(c))) ==> cached(rules, f, c, s, n) == (
            s.forward[(spec_text(f), Some(c))],
            s,
        ),
        !s.forward.dom().contains((spec_text(f), Some(c))) ==> exists|ms: Seq<MapsView>|
            {
                &&& #[trigger] is_pass(rules, f, history(c), n, ms)
                &&& ms[0] == s
                &&& cached(rules, f, c, s, n) == (
                    ms.last().forward[(spec_text(f), Some(c))],
                    ms.last(),
                )
            },
{
    if !known(s, spec_text(f), c) {
        let list = history(c);
        let len = list.len() as int;
        let b = depth(c);
        assert forall|i: int| 0 <= i < len implies depth(#[trigger] list[i]) <= b by {
            assert(list.contains(list[i]));
            lemma_finished_depth(c, Seq::empty(), list[i]);
        }
        let ms = Seq::new(list.len() + 1, |k: int| filtered_list(rules, f, list, b, s, n, k));
        assert forall|i: int| 0 <= i < len implies {
            let x = apply_commit(rules, f, #[trigger] list[i], ms[i], n);
            let v = match x.0 {
                Ok(v) => v,
                Err(_) => None,
            };
            &&& ms[i + 1].forward == x.1.forward.insert((spec_text(f), Some(list[i])), v)
            &&& ms[i + 1].backward == x.1.backward.insert((spec_text(f), v), Some(list[i]))
        } by {
            assert(ms[i] == filtered_list(rules, f, list, b, s, n, i));
            assert(ms[i + 1] == filtered_list(rules, f, list, b, s, n, i + 1));
        }
        assert(is_pass(rules, f, list, n, ms));
        assert(ms[0] == filtered_list(rules, f, list, b, s, n, 0));
        assert(ms.last() == filtered_list(rules, f, list, b, s, n, len));
    }
}

/// Parents that are known are what was recorded.
proof fn lemma_known_parents(
    rules: Rules,
    f: FilterView,
    c: CommitView,
    s: MapsView,
    n: nat,
    k: int,
)
    requires
        0 <= k <= c.parents.len(),
        forall|i: int| 0 <= i < c.parents.len() ==> known(s, spec_text(f), #[trigger] c.parents[i]),
    ensures
        filtered_parents(rules, f, c, s, n, k) == (
            Seq::new(k as nat, |i: int| recalled(s, spec_text(f), c.parents[i])),
            s,
        ),
    decreases k,
{
    let want = Seq::new(k as nat, |i: int| recalled(s, spec_text(f), c.parents[i]));
    if k > 0 {
        lemma_known_parents(rules, f, c, s, n, k - 1);
        assert(known(s, spec_text(f), c.parents[k - 1]));
        let front = Seq::new((k - 1) as nat, |i: int| recalled(s, spec_text(f), c.parents[i]));
        assert(cached(rules, f, c.parents[k - 1], s, n) == (
            recalled(s, spec_text(f), c.parents[k - 1]),
            s,
        ));
        assert(want =~= front.push(recalled(s, spec_text(f), c.parents[k - 1])));
    } else {
        assert(want =~= Seq::empty());
    }
}

/// What is recorded for the commits that a commit follows.
pub open spec fn of_parents(
    s: MapsView,
    text: Seq<char>,
    c: CommitView,
) -> Seq<Option<CommitView>> {
    Seq::new(c.parents.len(), |i: int| s.forward[(text, Some(c.parents[i]))])
}

/// A commit whose filtered parents are known is filtered by its tree and these alone, and
/// nothing is learned by it.
pub proof fn law_commit_by_parents(rules: Rules, f: FilterView, c: CommitView, s: MapsView, n: nat)
    requires
        is_plain(f),
        !known(s, spec_text(f), c),
        forall|i: int| 0 <= i < c.parents.len() ==> known(s, spec_text(f), #[trigger] c.parents[i]),
    ensures
        ({
            let vs = of_parents(s, spec_text(f), c);
            apply_commit(rules, f, c, s, n) == match apply_tree(rules, f, c.tree, n) {
                Ok(t) => (
                    Ok::<Option<CommitView>, ErrorView>(
                        created(c, present(vs, vs.len() as int), t),
                    ),
                    s,
                ),
                Err(e) => (Err(e), s),
            }
        }),
{
    lemma_known_parents(rules, f, c, s, n, c.parents.len() as int);
    assert(filtered_parents(rules, f, c, s, n, c.parents.len() as int).0 =~= of_parents(
        s,
        spec_text(f),
        c,
    ));
}

/// The same for folding: the trees of all filtered parents are laid over that of the commit.
/// Where one of them is gone, the commit cannot be folded.
pub proof fn law_fold_by_parents(rules: Rules, c: CommitView, s: MapsView, n: nat)
    requires
        !known(s, spec_text(FilterView::Fold), c),
        forall|i: int|
            0 <= i < c.parents.len() ==> known(
                s,
                spec_text(FilterView::Fold),
                #[trigger] c.parents[i],
            ),
    ensures
        ({
            let vs = of_parents(s, spec_text(FilterView::Fold), c);
            let ps = present(vs, vs.len() as int);
            apply_commit(rules, FilterView::Fold, c, s, n) == if ps.len() < vs.len() {
                (Err::<Option<CommitView>, ErrorView>(ErrorView::NotFound), s)
            } else {
                match folded(rules, c.tree, ps, ps.len() as int) {
                    Ok(t) => (Ok(created(c, ps, t)), s),
                    Err(e) => (Err(e), s),
                }
            }
        }),
{
    let f = FilterView::Fold;
    lemma_known_parents(rules, f, c, s, n, c.parents.len() as int);
    assert(filtered_parents(rules, f, c, s, n, c.parents.len() as int).0 =~= of_parents(
        s,
        spec_text(f),
        c,
    ));
}

/// What is recorded for the commit is what its tree, and what is recorded for the commits
/// that it follows, make of it.
pub open spec fn follows(
    rules: Rules,
    f: FilterView,
    n: nat,
    t: MapsView,
    z: CommitView,
) -> bool {
    &&& known(t, spec_text(f), z)
    &&& forall|i: int| 0 <= i < z.parents.len() ==> known(t, spec_text(f), #[trigger] z.parents[i])
    &&& t.forward[(spec_text(f), Some(z))] == outcome(
        rules,
        f,
        z,
        of_parents(t, spec_text(f), z),
        n,
    )
}

proof fn lemma_list_follows(
    rules: Rules,
    f: FilterView,
    list: Seq<CommitView>,
    bound: nat,
    s: MapsView,
    n: nat,
    k: int,
)
    requires
        goes_by_parents(f),
        in_order(list),
        forall|i: int| 0 <= i < list.len() ==> depth(#[trigger] list[i]) <= bound,
        0 <= k <= list.len(),
    ensures
        ({
            let t = filtered_list(rules, f, list, bound, s, n, k);
            let text = spec_text(f);
            &&& forall|z: CommitView| #[trigger]
                known(t, text, z) <==> known(s, text, z) || list.take(k).contains(z)
            &&& forall|z: CommitView|
                known(s, text, z) ==> #[trigger] recalled(t, text, z) == recalled(s, text, z)
            &&& forall|i: int|
                0 <= i < k && !known(s, text, #[trigger] list[i]) ==> follows(
                    rules,
                    f,
                    n,
                    t,
                    list[i],
                )
        }),
    decreases k,
{
    let text = spec_text(f);
    if k == 0 {
        assert(list.take(0) =~= Seq::<CommitView>::empty());
    } else {
        lemma_list_follows(rules, f, list, bound, s, n, k - 1);
        let before = filtered_list(rules, f, list, bound, s, n, k - 1);
        let c = list[k - 1];
        assert(depth(c) <= bound);
        let front = list.take(k - 1);
        assert(list.take(k) =~= front.push(c));
        assert(!front.contains(c)) by {
            if front.contains(c) {
                let j = front.index_of(c);
                assert(list[j] == list[k - 1]);
            }
        }
        assert forall|i: int| 0 <= i < c.parents.len() implies known(
            before,
            text,
            #[trigger] c.parents[i],
        ) by {
            assert(front.contains(list[k - 1].parents[i]));
        }
        lemma_own_step(rules, f, c, before, n);
        let x = apply_commit(rules, f, c, before, n);
        let v = match x.0 {
            Ok(v) => v,
            Err(_) => None,
        };
        let t = recorded(x.1, text, c, v);
        assert(filtered_list(rules, f, list, bound, s, n, k) == t);
        if !known(before, text, c) {
            lemma_known_parents(rules, f, c, before, n, c.parents.len() as int);
            assert(filtered_parents(rules, f, c, before, n, c.parents.len() as int).0
                =~= of_parents(before, text, c));
            assert(v == outcome(rules, f, c, of_parents(before, text, c), n));
        }
        assert forall|z: CommitView| #[trigger] known(t, text, z) <==> known(s, text, z)
            || list.take(k).contains(z) by {
            assert(x.1.forward.dom().contains((text, Some(z))) == known(before, text, z));
            if z == c {
                assert(list.take(k)[k - 1] == c);
            } else {
                if front.contains(z) {
                    let j = front.index_of(z);
                    assert(list.take(k)[j] == z);
                }
                if list.take(k).contains(z) {
                    let j = list.take(k).index_of(z);
                    assert(j < k - 1);
                    assert(front[j] == z);
                }
            }
        }
        assert forall|z: CommitView| z != c implies #[trigger] recalled(t, text, z) == recalled(
            before,
            text,
            z,
        ) by {
            assert(x.1.forward[(text, Some(z))] == before.forward[(text, Some(z))]);
        }
        assert forall|z: CommitView| known(s, text, z) implies #[trigger] recalled(t, text, z)
            == recalled(s, text, z) by {
            assert(known(before, text, z));
            assert(recalled(before, text, z) == recalled(s, text, z));
        }
        assert forall|i: int| 0 <= i < k && !known(s, text, #[trigger] list[i]) implies follows(
            rules,
            f,
            n,
            t,
            list[i],
        ) by {
            let z = list[i];
            assert forall|j: int| 0 <= j < z.parents.len() implies z.parents[j] != c && known(
                t,
                text,
                #[trigger] z.parents[j],
            ) by {
                assert(list.take(i).contains(list[i].parents[j]));
                let m = list.take(i).index_of(z.parents[j]);
                assert(list[m] == z.parents[j]);
                assert(list[m] != list[k - 1]);
                assert(list.take(k)[m] == z.parents[j]);
                assert(list.take(k).contains(z.parents[j]));
            }
            assert(of_parents(t, text, z) =~= of_parents(before, text, z)) by {
                assert forall|j: int| 0 <= j < z.parents.len() implies of_parents(t, text, z)[j]
                    == of_parents(before, text, z)[j] by {
                    let p = z.parents[j];
                    assert(p != c);
                    assert(recalled(t, text, p) == recalled(before, text, p));
                }
            }
            assert(list.take(k)[i] == z);
            assert(list.take(k).contains(z));
            if i < k - 1 {
                assert(list[i] != list[k - 1]);
                assert(recalled(t, text, z) == recalled(before, text, z));
                assert(follows(rules, f, n, before, z));
            } else {
                assert(!known(before, text, c));
            }
        }
    }
}

/// After the filtered commit for a commit that was not known was asked for, what is recorded
/// for each commit of its history that was not known is what its tree, and what is recorded
/// for the commits that it follows, make of it. What was known stays as it was, and nothing
/// but the history is recorded.
pub proof fn law_history_follows(rules: Rules, f: FilterView, c: CommitView, s: MapsView, n: nat)
    requires
        goes_by_parents(f),
        !known(s, spec_text(f), c),
    ensures
        ({
            let t = cached(rules, f, c, s, n).1;
            let text = spec_text(f);
            &&& forall|z: CommitView| #[trigger]
                known(t, text, z) <==> known(s, text, z) || history(c).contains(z)
            &&& forall|z: CommitView|
                known(s, text, z) ==> #[trigger] recalled(t, text, z) == recalled(s, text, z)
            &&& forall|i: int|
                0 <= i < history(c).len() && !known(s, text, #[trigger] history(c)[i]) ==> follows(
                    rules,
                    f,
                    n,
                    t,
                    history(c)[i],
                )
        }),
{
    let list = history(c);
    law_history_order(c);
    assert forall|i: int| 0 <= i < list.len() implies depth(#[trigger] list[i]) <= depth(c) by {
        assert(list.contains(list[i]));
        lemma_finished_depth(c, Seq::empty(), list[i]);
    }
    lemma_list_follows(rules, f, list, depth(c), s, n, list.len() as int);
    assert(list.take(list.len() as int) =~= list);
}

/// A merge whose filtered parents are all there, and do not all have its filtered tree, is
/// filtered to a merge of these, in their order, with the filtered tree and all else that it
/// records. This holds throughout a history, of every filter that goes by the trees of
/// commits.
pub proof fn law_merges_stay(
    rules: Rules,
    f: FilterView,
    c: CommitView,
    s: MapsView,
    n: nat,
    z: CommitView,
    ps: Seq<CommitView>,
    t: Dir,
)
    requires
        is_plain(f),
        !known(s, spec_text(f), c),
        history(c).contains(z),
        !known(s, spec_text(f), z),
        apply_tree(rules, f, z.tree, n) == Ok::<Dir, ErrorView>(t),
        ps.len() == z.parents.len(),
        forall|i: int|
            0 <= i < ps.len() ==> cached(rules, f, c, s, n).1.forward[(
                spec_text(f),
                Some(z.parents[i]),
            )] == Some(#[trigger] ps[i]),
        exists|i: int| 0 <= i < ps.len() && (#[trigger] ps[i]).tree != t,
    ensures
        cached(rules, f, c, s, n).1.forward[(spec_text(f), Some(z))] == Some(
            CommitView { tree: t, parents: ps, meta: z.meta },
        ),
{
    let w = cached(rules, f, c, s, n).1;
    law_history_follows(rules, f, c, s, n);
    let i = history(c).index_of(z);
    assert(history(c)[i] == z);
    assert(follows(rules, f, n, w, z));
    let vs = of_parents(w, spec_text(f), z);
    assert forall|j: int| 0 <= j < vs.len() implies #[trigger] vs[j] == Some(ps[j]) by {
        assert(ps[j] == ps[j]);
    }
    crate::history_laws::lemma_present_all(vs, ps, vs.len() as int);
    assert(ps.take(vs.len() as int) =~= ps);
    law_filtered_commit(z, ps, t);
}

/// The filtered commits for the parents of a commit are asked for one after the other: `vs`
/// are the answers, and `ms` what is known in between.
pub open spec fn asked(
    rules: Rules,
    f: FilterView,
    c: CommitView,
    n: nat,
    vs: Seq<Option<CommitView>>,
    ms: Seq<MapsView>,
) -> bool {
    &&& vs.len() == c.parents.len()
    &&& ms.len() == vs.len() + 1
    &&& forall|i: int|
        0 <= i < vs.len() ==> cached(rules, f, #[trigger] c.parents[i], ms[i], n) == (
            vs[i],
            ms[i + 1],
        )
}

proof fn lemma_asked(rules: Rules, f: FilterView, c: CommitView, s: MapsView, n: nat) -> (r: (
    Seq<Option<CommitView>>,
    Seq<MapsView>,
))
    ensures
        asked(rules, f, c, n, r.0, r.1),
        r.1[0] == s,
        filtered_parents(rules, f, c, s, n, c.parents.len() as int) == (r.0, r.1.last()),
{
    let len = c.parents.len() as int;
    let vs = Seq::new(
        c.parents.len(),
        |i: int| filtered_parents(rules, f, c, s, n, i + 1).0.last(),
    );
    let ms = Seq::new(c.parents.len() + 1, |i: int| filtered_parents(rules, f, c, s, n, i).1);
    assert forall|i: int| 0 <= i < vs.len() implies cached(
        rules,
        f,
        #[trigger] c.parents[i],
        ms[i],
        n,
    ) == (vs[i], ms[i + 1]) by {
        let x = cached(rules, f, c.parents[i], filtered_parents(rules, f, c, s, n, i).1, n);
        assert(filtered_parents(rules, f, c, s, n, i + 1) == (
            filtered_parents(rules, f, c, s, n, i).0.push(x.0),
            x.1,
        ));
    }
    lemma_asked_values(rules, f, c, s, n, vs, len);
    assert(vs.take(len) =~= vs);
    assert(filtered_parents(rules, f, c, s, n, 0).1 == s);
    (vs, ms)
}

proof fn lemma_asked_values(
    rules: Rules,
    f: FilterView,
    c: CommitView,
    s: MapsView,
    n: nat,
    vs: Seq<Option<CommitView>>,
    k: int,
)
    requires
        0 <= k <= c.parents.len(),
        vs == Seq::new(
            c.parents.len(),
            |i: int| filtered_parents(rules, f, c, s, n, i + 1).0.last(),
        ),
    ensures
        filtered_parents(rules, f, c, s, n, k).0 == vs.take(k),
    decreases k,
{
    if k > 0 {
        lemma_asked_values(rules, f, c, s, n, vs, k - 1);
        assert(vs.take(k) =~= vs.take(k - 1).push(vs[k - 1]));
    } else {
        assert(vs.take(0) =~= Seq::empty());
    }
}

/// A filtered commit that is known is what was recorded, and filtering the commit learns
/// nothing. Chains, and cutting history off, do not ask for what is known.
pub proof fn law_known_commit(rules: Rules, f: FilterView, c: CommitView, s: MapsView, n: nat)
    requires
        !(f is Chain) && !(f is Cutoff),
        s.forward.dom().contains((spec_text(f), Some(c))),
    ensures
        apply_commit(rules, f, c, s, n) == (
            Ok::<Option<CommitView>, ErrorView>(s.forward[(spec_text(f), Some(c))]),
            s,
        ),
{
}

/// A commit that is not known is filtered by its tree and by the filtered commits for all
/// its parents, which are asked for in their order. Where its tree cannot be filtered, no
/// parent is asked for.
pub proof fn law_commit_asks(rules: Rules, f: FilterView, c: CommitView, s: MapsView, n: nat)
    requires
        is_plain(f),
        !known(s, spec_text(f), c),
    ensures
        apply_tree(rules, f, c.tree, n) matches Err(e) ==> apply_commit(rules, f, c, s, n) == (
            Err::<Option<CommitView>, ErrorView>(e),
            s,
        ),
        apply_tree(rules, f, c.tree, n) matches Ok(t) ==> exists|
            vs: Seq<Option<CommitView>>,
            ms: Seq<MapsView>,
        |
            {
                &&& #[trigger] asked(rules, f, c, n, vs, ms)
                &&& ms[0] == s
                &&& apply_commit(rules, f, c, s, n) == (
                    Ok::<Option<CommitView>, ErrorView>(
                        created(c, present(vs, vs.len() as int), t),
                    ),
                    ms.last(),
                )
            },
{
    if apply_tree(rules, f, c.tree, n) is Ok {
        let r = lemma_asked(rules, f, c, s, n);
        assert(asked(rules, f, c, n, r.0, r.1));
    }
}

/// The same for folding, where all parents have to be there.
pub proof fn law_fold_asks(rules: Rules, c: CommitView, s: MapsView, n: nat)
    requires
        !known(s, spec_text(FilterView::Fold), c),
    ensures
        exists|vs: Seq<Option<CommitView>>, ms: Seq<MapsView>|
            {
                let ps = present(vs, vs.len() as int);
                &&& #[trigger] asked(rules, FilterView::Fold, c, n, vs, ms)
                &&& ms[0] == s
                &&& apply_commit(rules, FilterView::Fold, c, s, n) == (
                    if ps.len() < vs.len() {
                        Err::<Option<CommitView>, ErrorView>(ErrorView::NotFound)
                    } else {
                        match folded(rules, c.tree, ps, ps.len() as int) {
                            Ok(t) => Ok(created(c, ps, t)),
                            Err(e) => Err(e),
                        }
                    },
                    ms.last(),
                )
            },
{
    let r = lemma_asked(rules, FilterView::Fold, c, s, n);
    assert(asked(rules, FilterView::Fold, c, n, r.0, r.1));
}

/// The lines are those mounts of the workspace of a commit that no commit that it follows
/// has, each once.
pub open spec fn are_new_mounts(path: Seq<char>, c: CommitView, lines: Seq<Seq<char>>) -> bool {
    &&& lines.no_duplicates()
    &&& forall|x: Seq<char>| #[trigger]
        lines.contains(x) <==> has_mount(path, c, x) && forall|i: int|
            0 <= i < c.parents.len() ==> !has_mount(path, #[trigger] c.parents[i], x)
}

proof fn lemma_distinct(ts: Seq<Seq<char>>, k: int)
    requires
        0 <= k <= ts.len(),
    ensures
        distinct(ts, k).no_duplicates(),
        forall|x: Seq<char>| #[trigger] distinct(ts, k).contains(x) <==> ts.take(k).contains(x),
    decreases k,
{
    if k > 0 {
        lemma_distinct(ts, k - 1);
        let r = distinct(ts, k - 1);
        let all = distinct(ts, k);
        let y = ts[k - 1];
        assert(ts.take(k) =~= ts.take(k - 1).push(y));
        assert forall|x: Seq<char>| #[trigger] all.contains(x) <==> ts.take(k).contains(x) by {
            lemma_push_contains(ts.take(k - 1), y, x);
            lemma_push_contains(r, y, x);
            assert(r.contains(x) <==> ts.take(k - 1).contains(x));
        }
        if !r.contains(y) {
            assert forall|i: int, j: int| 0 <= i < j < all.len() implies all[i] != all[j] by {
                assert(r.contains(r[i]));
            }
        }
    } else {
        assert(ts.take(0) =~= Seq::<Seq<char>>::empty());
    }
}

proof fn lemma_push_contains(s: Seq<Seq<char>>, y: Seq<char>, x: Seq<char>)
    ensures
        s.push(y).contains(x) <==> s.contains(x) || x == y,
{
    let t = s.push(y);
    if s.contains(x) {
        assert(t[s.index_of(x)] == x);
    }
    assert(t[s.len() as int] == y);
    if t.contains(x) {
        let i = t.index_of(x);
        if i < s.len() {
            assert(s[i] == x);
        }
    }
}

proof fn lemma_without_once(ts: Seq<Seq<char>>, gone: Seq<Seq<char>>, k: int)
    requires
        0 <= k <= ts.len(),
        ts.no_duplicates(),
    ensures
        without(ts, gone, k).no_duplicates(),
        forall|x: Seq<char>| #[trigger]
            without(ts, gone, k).contains(x) ==> ts.take(k).contains(x),
    decreases k,
{
    if k > 0 {
        lemma_without_once(ts, gone, k - 1);
        let r = without(ts, gone, k - 1);
        let all = without(ts, gone, k);
        let y = ts[k - 1];
        assert(ts.take(k) =~= ts.take(k - 1).push(y));
        assert(!ts.take(k - 1).contains(y)) by {
            if ts.take(k - 1).contains(y) {
                let i = ts.take(k - 1).index_of(y);
                assert(ts[i] == ts[k - 1]);
            }
        }
        assert forall|x: Seq<char>| #[trigger] all.contains(x) implies ts.take(k).contains(x) by {
            lemma_push_contains(ts.take(k - 1), y, x);
            lemma_push_contains(r, y, x);
            assert(r.contains(x) ==> ts.take(k - 1).contains(x));
        }
        if !gone.contains(y) {
            assert forall|i: int, j: int| 0 <= i < j < all.len() implies all[i] != all[j] by {
                assert(r.contains(r[i]));
            }
        }
    }
}

/// What becomes of the first `k` parents of a commit in a workspace, where the workspaces of
/// all of them can be read.
proof fn lemma_workspace_asked(
    rules: Rules,
    path: Seq<char>,
    c: CommitView,
    s: MapsView,
    n: nat,
    lines: Seq<Seq<char>>,
    vs: Seq<Option<CommitView>>,
    ms: Seq<MapsView>,
    k: int,
)
    requires
        0 <= k <= c.parents.len(),
        lines.no_duplicates(),
        ms[0] == s,
        asked(rules, FilterView::Workspace(path), c, n, vs, ms),
        forall|i: int| 0 <= i < k ==> workspace((#[trigger] c.parents[i]).tree, path) is Ok,
    ensures
        ({
            let r = workspace_parents(rules, path, c, s, n, lines, k);
            &&& r.0 matches Ok(w) && w.commits == present(vs, k) && w.lines.no_duplicates()
            &&& r.1 == ms[k]
        }),
    decreases k,
{
    if k > 0 {
        lemma_workspace_asked(rules, path, c, s, n, lines, vs, ms, k - 1);
        let before = workspace_parents(rules, path, c, s, n, lines, k - 1);
        let w = before.0->Ok_0;
        let p = c.parents[k - 1];
        assert(workspace(p.tree, path) is Ok);
        assert(cached(rules, FilterView::Workspace(path), p, ms[k - 1], n) == (
            vs[k - 1],
            ms[k - 1 + 1],
        ));
        lemma_without_once(
            w.lines,
            mount_texts(workspace(p.tree, path)->Ok_0),
            w.lines.len() as int,
        );
    }
}

/// The answers for the parents of a commit, and what is known in between.
proof fn lemma_workspace_parents_asked(
    rules: Rules,
    path: Seq<char>,
    c: CommitView,
    s: MapsView,
    n: nat,
) -> (r: (Seq<Option<CommitView>>, Seq<MapsView>))
    ensures
        asked(rules, FilterView::Workspace(path), c, n, r.0, r.1),
        r.1[0] == s,
{
    lemma_asked(rules, FilterView::Workspace(path), c, s, n)
}

/// What a workspace makes of a commit. All its parents are asked for in their order. Those
/// of its mounts that none of its parents has, however many, are put together over nothing,
/// and what that makes of the first parent is one more parent, after all others. The tree
/// is what the workspace makes of the tree of the commit.
pub proof fn law_workspace_parents(
    rules: Rules,
    path: Seq<char>,
    c: CommitView,
    s: MapsView,
    n: nat,
)
    requires
        workspace(c.tree, path) is Ok,
        forall|i: int|
            0 <= i < c.parents.len() ==> workspace((#[trigger] c.parents[i]).tree, path) is Ok,
    ensures
        exists|vs: Seq<Option<CommitView>>, ms: Seq<MapsView>, lines: Seq<Seq<char>>|
            {
                let ps = present(vs, vs.len() as int);
                let r = workspace_tree_and_parents(rules, path, c, s, n);
                let tree = apply_tree(rules, FilterView::Workspace(path), c.tree, n);
                &&& #[trigger] asked(rules, FilterView::Workspace(path), c, n, vs, ms)
                &&& ms[0] == s
                &&& #[trigger] are_new_mounts(path, c, lines)
                &&& match checked_combine(
                    lines_text(lines, lines.len() as int),
                    FilterView::Empty,
                ) {
                    Err(e) => r.0 == Err::<(Dir, Seq<CommitView>), ErrorView>(
                        e,
                    ) && r.1 == ms.last(),
                    Ok(m) => if c.parents.len() == 0 {
                        r.1 == s && r.0 == match tree {
                            Ok(t) => Ok((t, ps)),
                            Err(e) => Err(e),
                        }
                    } else {
                        let x = apply_commit(
                            rules,
                            FilterView::Combine(m),
                            c.parents[0],
                            ms.last(),
                            n,
                        );
                        r.1 == x.1 && r.0 == match (x.0, tree) {
                            (Err(e), _) => Err(e),
                            (_, Err(e)) => Err(e),
                            (Ok(None), Ok(t)) => Ok((t, ps)),
                            (Ok(Some(v)), Ok(t)) => Ok((t, ps.push(v))),
                        }
                    },
                }
            },
{
    let cw = workspace(c.tree, path)->Ok_0;
    let len = c.parents.len() as int;
    let mounts = mount_texts(cw);
    let all = distinct(mounts, mounts.len() as int);
    let a = lemma_workspace_parents_asked(rules, path, c, s, n);
    let (vs, ms) = a;
    lemma_distinct(mounts, mounts.len() as int);
    assert(mounts.take(mounts.len() as int) =~= mounts);
    lemma_workspace_asked(rules, path, c, s, n, all, vs, ms, len);
    let w = workspace_parents(rules, path, c, s, n, all, len).0->Ok_0;
    let lines = w.lines;
    assert forall|x: Seq<char>| #[trigger] lines.contains(x) <==> has_mount(path, c, x) && forall|
        i: int,
    |
        0 <= i < c.parents.len() ==> !has_mount(path, #[trigger] c.parents[i], x) by {
        law_new_mounts(rules, path, c, s, n, all, len, x);
        assert(has_mount(path, c, x) <==> all.contains(x));
    }
    assert(are_new_mounts(path, c, lines));
    assert(asked(rules, FilterView::Workspace(path), c, n, vs, ms));
    assert(apply_tree(rules, FilterView::Workspace(path), c.tree, n) == workspace_tree(
        rules,
        cw,
        c.tree,
        n,
    ));
    assert(ms.last() == ms[len]);
    assert(workspace_parents(rules, path, c, s, n, all, len).1 == ms[len]);
    let y = with_new_mounts(rules, c, w, ms[len], n);
}

/// The filtered commit in a workspace that is not known is made of what the workspace makes
/// of the commit.
pub proof fn law_workspace_commit(
    rules: Rules,
    path: Seq<char>,
    c: CommitView,
    s: MapsView,
    n: nat,
)
    requires
        !known(s, spec_text(FilterView::Workspace(path)), c),
    ensures
        ({
            let r = workspace_tree_and_parents(rules, path, c, s, n);
            apply_commit(rules, FilterView::Workspace(path), c, s, n) == (
                match r.0 {
                    Err(e) => Err::<Option<CommitView>, ErrorView>(e),
                    Ok((t, ps)) => Ok(created(c, ps, t)),
                },
                r.1,
            )
        }),
{
    let f = FilterView::Workspace(path);
    assert(apply_commit(rules, f, c, s, n) == workspace_commit(rules, path, c, s, n));
}

/// A commit whose workspace cannot be read, or that follows one whose workspace cannot be
/// read, cannot be filtered.
pub proof fn law_workspace_unreadable(
    rules: Rules,
    path: Seq<char>,
    c: CommitView,
    s: MapsView,
    n: nat,
    j: int,
)
    ensures
        workspace(c.tree, path) matches Err(e) ==> workspace_tree_and_parents(
            rules,
            path,
            c,
            s,
            n,
        ) == (Err::<(Dir, Seq<CommitView>), ErrorView>(e), s),
        workspace(c.tree, path) is Ok && 0 <= j < c.parents.len() && (forall|i: int|
            0 <= i < j ==> workspace((#[trigger] c.parents[i]).tree, path) is Ok) ==> (workspace(
            c.parents[j].tree,
            path,
        ) matches Err(e) ==> workspace_tree_and_parents(rules, path, c, s, n).0 == Err::<
            (Dir, Seq<CommitView>),
            ErrorView,
        >(e)),
{
    if workspace(c.tree, path) is Ok && 0 <= j < c.parents.len() && (forall|i: int|
        0 <= i < j ==> workspace((#[trigger] c.parents[i]).tree, path) is Ok) {
        if let Err(e) = workspace(c.parents[j].tree, path) {
            let mounts = mount_texts(workspace(c.tree, path)->Ok_0);
            let all = distinct(mounts, mounts.len() as int);
            let (vs, ms) = lemma_workspace_parents_asked(rules, path, c, s, n);
            lemma_distinct(mounts, mounts.len() as int);
            lemma_workspace_asked(rules, path, c, s, n, all, vs, ms, j);
            lemma_workspace_stops(rules, path, c, s, n, all, j + 1, c.parents.len() as int, e);
        }
    }
}

proof fn lemma_workspace_stops(
    rules: Rules,
    path: Seq<char>,
    c: CommitView,
    s: MapsView,
    n: nat,
    lines: Seq<Seq<char>>,
    j: int,
    k: int,
    e: ErrorView,
)
    requires
        0 <= j <= k <= c.parents.len(),
        workspace_parents(rules, path, c, s, n, lines, j).0 == Err::<WorkspaceParents, ErrorView>(
            e,
        ),
    ensures
        workspace_parents(rules, path, c, s, n, lines, k).0 == Err::<WorkspaceParents, ErrorView>(
            e,
        ),
    decreases k - j,
{
    if j < k {
        lemma_workspace_stops(rules, path, c, s, n, lines, j, k - 1, e);
    }
}

/// The lines for the mounts of a combination: the path, and the text of the filter.
pub proof fn law_mount_lines(c: CombineView, i: int)
    requires
        0 <= i < c.mounts.len(),
    ensures
        mount_texts(c).len() == c.mounts.len(),
        mount_texts(c)[i] == c.mounts[i].prefix + " = "@ + spec_text(c.mounts[i].filter),
{
}

/// Lines are written one after the other, each with an end.
pub proof fn law_lines(ts: Seq<Seq<char>>, t: Seq<char>)
    ensures
        lines_text(Seq::empty(), 0) == Seq::<char>::empty(),
        lines_text(ts.push(t), ts.len() as int + 1) == lines_text(ts, ts.len() as int) + t + "\n"@,
{
    lemma_lines_front(ts, t, ts.len() as int);
}

proof fn lemma_lines_front(ts: Seq<Seq<char>>, t: Seq<char>, k: int)
    requires
        0 <= k <= ts.len(),
    ensures
        lines_text(ts.push(t), k) == lines_text(ts, k),
    decreases k,
{
    if k > 0 {
        lemma_lines_front(ts, t, k - 1);
    }
}

/// The mount is one of the workspace at `path` in the tree `d`, under the same path and with
/// a filter of the same text.
pub open spec fn is_mounted(path: Seq<char>, d: Dir, m: MountView) -> bool {
    workspace(d, path) matches Ok(w) && exists|i: int|
        0 <= i < w.mounts.len() && (#[trigger] w.mounts[i]).prefix + " = "@ + spec_text(
            w.mounts[i].filter,
        ) == m.prefix + " = "@ + spec_text(m.filter)
}

proof fn lemma_has_mount(path: Seq<char>, c: CommitView, m: MountView)
    ensures
        has_mount(path, c, mount_text(m)) <==> is_mounted(path, c.tree, m),
{
    if let Ok(w) = workspace(c.tree, path) {
        let ts = mount_texts(w);
        if ts.contains(mount_text(m)) {
            let i = ts.index_of(mount_text(m));
            assert(mount_text(w.mounts[i]) == mount_text(m));
        }
        if is_mounted(path, c.tree, m) {
            let i = choose|i: int|
                0 <= i < w.mounts.len() && (#[trigger] w.mounts[i]).prefix + " = "@ + spec_text(
                    w.mounts[i].filter,
                ) == m.prefix + " = "@ + spec_text(m.filter);
            assert(ts[i] == mount_text(m));
        }
    }
}

/// What new mounts are put together to, where all mounts of the workspace can be written on
/// a line: the mounts of the workspace that none of the parents has, and no others.
pub proof fn law_new_mounts_together(path: Seq<char>, c: CommitView, lines: Seq<Seq<char>>)
    requires
        are_new_mounts(path, c, lines),
        workspace(c.tree, path) matches Ok(w) && forall|i: int|
            0 <= i < w.mounts.len() ==> mount_wf(#[trigger] w.mounts[i]),
    ensures
        checked_combine(lines_text(lines, lines.len() as int), FilterView::Empty) matches Ok(k) && {
            &&& *k.base == FilterView::Empty
            &&& k.mounts.no_duplicates()
            &&& forall|m: MountView| #[trigger]
                k.mounts.contains(m) <==> workspace(c.tree, path)->Ok_0.mounts.contains(m)
                    && forall|i: int|
                    0 <= i < c.parents.len() ==> !is_mounted(
                        path,
                        (#[trigger] c.parents[i]).tree,
                        m,
                    )
        },
{
    let w = workspace(c.tree, path)->Ok_0;
    let ts = mount_texts(w);
    let ms = Seq::new(lines.len(), |i: int| w.mounts[ts.index_of(lines[i])]);
    assert forall|i: int| 0 <= i < lines.len() implies mount_text(#[trigger] ms[i]) == lines[i]
        && mount_wf(ms[i]) && w.mounts.contains(ms[i]) by {
        assert(lines.contains(lines[i]));
        assert(has_mount(path, c, lines[i]));
        let k = ts.index_of(lines[i]);
        assert(ts[k] == lines[i]);
        assert(w.mounts[k] == ms[i]);
    }
    assert(texts_of(ms) =~= lines);
    law_mounts_round_trip(ms);
    assert forall|i: int, j: int| 0 <= i < j < ms.len() implies ms[i] != ms[j] by {
        assert(lines[i] != lines[j]);
        assert(mount_text(ms[i]) == lines[i] && mount_text(ms[j]) == lines[j]);
    }
    assert forall|m: MountView| #[trigger] ms.contains(m) <==> w.mounts.contains(m) && forall|
        i: int,
    |
        0 <= i < c.parents.len() ==> !is_mounted(path, (#[trigger] c.parents[i]).tree, m) by {
        let x = mount_text(m);
        lemma_has_mount(path, c, m);
        assert forall|i: int| 0 <= i < c.parents.len() implies has_mount(
            path,
            #[trigger] c.parents[i],
            x,
        ) == is_mounted(path, c.parents[i].tree, m) by {
            lemma_has_mount(path, c.parents[i], m);
        }
        assert(lines.contains(x) <==> has_mount(path, c, x) && forall|i: int|
            0 <= i < c.parents.len() ==> !has_mount(path, #[trigger] c.parents[i], x));
        if ms.contains(m) {
            let k = ms.index_of(m);
            assert(lines[k] == x);
            assert(lines.contains(x));
            assert forall|i: int| 0 <= i < c.parents.len() implies !is_mounted(
                path,
                (#[trigger] c.parents[i]).tree,
                m,
            ) by {
                assert(!has_mount(path, c.parents[i], x));
            }
        }
        if w.mounts.contains(m) && forall|i: int|
            0 <= i < c.parents.len() ==> !is_mounted(path, (#[trigger] c.parents[i]).tree, m) {
            let q = w.mounts.index_of(m);
            assert(mount_wf(w.mounts[q]));
            assert(ts[q] == x);
            assert(ts.contains(x));
            assert forall|i: int| 0 <= i < c.parents.len() implies !has_mount(
                path,
                #[trigger] c.parents[i],
                x,
            ) by {
                assert(!is_mounted(path, c.parents[i].tree, m));
            }
            assert(lines.contains(x));
            let k = lines.index_of(x);
            assert(mount_text(ms[k]) == x);
            lemma_mount_line(m);
            lemma_mount_line(ms[k]);
            assert(ms[k] == m);
        }
    }
}

} // verus!
