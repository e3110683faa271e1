//! What stored objects stand for.

use crate::arena::{
    arena_wf, at, commit, commit_opt, dir, extends, is_commit, is_commit_or_zero, is_tree, item,
    lemma_commit_injective, lemma_commit_stable, lemma_dir_entry, lemma_dir_injective,
    lemma_dir_listed, lemma_dir_stable, lemma_has_pos, node, object_wf, Arena, CommitView,
    EntryView, ObjectView, Oid,
};
use crate::cache::{cache_values, cache_wf, lemma_cache_get, lemma_cache_set, CacheMap};
use crate::node::{child, Node};
use crate::repo::{commits, entry_fits, gathered};
use vstd::prelude::*;

verus! {

/// What an object stands for where an entry with the given mode names it: a file has the
/// mode and the stored content, a tree its entries.
pub proof fn law_stored_node(a: Arena, o: Oid, mode: u32)
    requires
        arena_wf(a),
        0 <= at(o) < a.len(),
    ensures
        match a[at(o)] {
            ObjectView::Blob(data) => node(a, at(o), mode) == (Node::Blob { mode, data }),
            ObjectView::Link(id) => node(a, at(o), mode) == (Node::Link { id }),
            ObjectView::Tree(_) => node(a, at(o), mode) == Node::Dir(dir(a, o)),
            ObjectView::Commit { .. } => node(a, at(o), mode) is Link,
        },
        item(a, o) == Some(node(a, at(o), 33188)),
        item(a, Oid::Zero) is None,
{
    if a[at(o)] is Tree {
        lemma_dir_listed(a, o);
        assert(node(a, at(o), mode) == node(a, at(o), 16384));
    }
}

/// A stored tree has under each name of its entries what that entry names, and nothing
/// else.
pub proof fn law_stored_tree(a: Arena, o: Oid, j: int, name: Seq<u8>)
    requires
        arena_wf(a),
        is_tree(a, o),
    ensures
        ({
            let es = a[at(o)]->Tree_0;
            &&& 0 <= j < es.len() ==> child(dir(a, o), es[j].name) == Some(
                node(a, at(es[j].oid), es[j].mode),
            )
            &&& (forall|i: int| 0 <= i < es.len() ==> (#[trigger] es[i]).name != name) ==> child(
                dir(a, o),
                name,
            ) is None
        }),
{
    let es = a[at(o)]->Tree_0;
    if 0 <= j < es.len() {
        lemma_dir_entry(a, o, j);
    }
    lemma_dir_listed(a, o);
    if dir(a, o).dom().contains(name) {
        lemma_has_pos(es, name);
    }
}

/// A stored commit has the tree that its id names, the commits that it follows in their
/// order, and all else that it records.
pub proof fn law_stored_commit(a: Arena, o: Oid)
    requires
        arena_wf(a),
        is_commit(a, o),
    ensures
        a[at(o)] matches ObjectView::Commit { tree, parents, meta } && commit(a, o) == (CommitView {
            tree: dir(a, tree),
            parents: Seq::new(parents.len(), |i: int| commit(a, parents[i])),
            meta,
        }),
        commit_opt(a, o) == Some(commit(a, o)),
        commit_opt(a, Oid::Zero) is None,
{
    assert(object_wf(a, at(o), a[at(o)]));
    let parents = a[at(o)]->parents;
    let want = Seq::new(parents.len(), |i: int| commit(a, parents[i]));
    let c = commit(a, o);
    assert forall|j: int| 0 <= j < parents.len() implies c.parents[j] == want[j] by {
        assert(is_commit(a, parents[j]));
    }
    assert(c.parents =~= want);
}

/// Objects that are added change none that were there.
pub proof fn law_growing(a: Arena, b: Arena, o: Oid)
    requires
        arena_wf(a),
        extends(a, b),
    ensures
        is_tree(a, o) ==> is_tree(b, o) && dir(a, o) == dir(b, o),
        is_commit(a, o) ==> is_commit(b, o) && commit(a, o) == commit(b, o),
{
    if is_tree(a, o) {
        lemma_dir_stable(a, b, o);
    }
    if is_commit(a, o) {
        lemma_commit_stable(a, b, o);
    }
}

/// The same tree, or the same commit, has one id.
pub proof fn law_one_id(a: Arena, x: Oid, y: Oid)
    requires
        arena_wf(a),
    ensures
        is_tree(a, x) && is_tree(a, y) && dir(a, x) == dir(a, y) ==> x == y,
        is_commit(a, x) && is_commit(a, y) && commit(a, x) == commit(a, y) ==> x == y,
{
    if is_tree(a, x) && is_tree(a, y) && dir(a, x) == dir(a, y) {
        lemma_dir_injective(a, x, y);
    }
    if is_commit(a, x) && is_commit(a, y) && commit(a, x) == commit(a, y) {
        lemma_commit_injective(a, x, y);
    }
}

/// Which entries may stand in a tree: those with a name, without separators and zero bytes
/// in it, that name a file, a directory or a commit of another repository, as the mode says.
pub proof fn law_entry_fits(a: Arena, e: EntryView)
    ensures
        entry_fits(a, e) <==> {
            &&& e.name.len() > 0
            &&& forall|i: int| 0 <= i < e.name.len() ==> #[trigger] e.name[i] != 47 && e.name[i] != 0
            &&& 0 <= at(e.oid) < a.len()
            &&& match a[at(e.oid)] {
                ObjectView::Tree(_) => e.mode == 16384,
                ObjectView::Link(_) => e.mode == 57344,
                ObjectView::Blob(_) => e.mode != 16384 && e.mode != 57344,
                ObjectView::Commit { .. } => false,
            }
        },
{
}

/// A tree is made of the entries that are given: each stands under its name, and of those
/// with the same name the last.
pub proof fn law_gathered(a: Arena, es: Seq<EntryView>, e: EntryView, name: Seq<u8>)
    ensures
        gathered(a, Seq::empty()).dom().is_empty(),
        child(gathered(a, es.push(e)), name) == (if name == e.name {
            Some(node(a, at(e.oid), e.mode))
        } else {
            child(gathered(a, es), name)
        }),
{
    assert(es.push(e).drop_last() =~= es);
}

/// The commits that ids name are those that each of them names, in their order.
pub proof fn law_commits(a: Arena, os: Seq<Oid>, i: int)
    requires
        0 <= i < os.len(),
    ensures
        commits(a, os).len() == os.len(),
        commits(a, os)[i] == commit(a, os[i]),
{
}

/// What a map of ids knows of a commit is what it knows of its id, and recording one id
/// records what it names and leaves all else alone.
pub proof fn law_maps(a: Arena, m: CacheMap, t: Seq<char>, o: Oid, v: Oid)
    requires
        arena_wf(a),
        cache_wf(a, m),
        is_commit_or_zero(a, o),
        is_commit_or_zero(a, v),
    ensures
        m.dom().contains((t, o)) <==> cache_values(a, m).dom().contains((t, commit_opt(a, o))),
        m.dom().contains((t, o)) ==> cache_values(a, m)[(t, commit_opt(a, o))] == commit_opt(
            a,
            m[(t, o)],
        ),
        cache_values(a, m.insert((t, o), v)) == cache_values(a, m).insert(
            (t, commit_opt(a, o)),
            commit_opt(a, v),
        ),
{
    lemma_cache_get(a, m, t, o);
    lemma_cache_set(a, m, t, o, v);
}

} // verus!
