//! The objects of a repository as a sequence in which each object names only earlier
//! ones, and what an object of such a sequence stands for.

use crate::bytes::{ascending, lemma_ascending_unique, lemma_lt_irreflexive, lt};
use crate::node::{name_storable, plain, BLOB_MODE, Dir, LINK_MODE, Node, TREE_MODE};
use vstd::prelude::*;

verus! {

/// Names an object of a repository, or nothing.
#[derive(Clone, Copy, PartialEq, Eq, Structural, Debug, Hash)]
pub enum Oid {
    Zero,
    Object(usize),
}

/// One entry of a stored tree.
pub struct EntryView {
    pub name: Seq<u8>,
    pub mode: u32,
    pub oid: Oid,
}

/// A stored object. A link stands for a commit of another repository.
pub enum ObjectView {
    Blob(Seq<u8>),
    Link(Seq<u8>),
    Tree(Seq<EntryView>),
    Commit { tree: Oid, parents: Seq<Oid>, meta: Seq<u8> },
}

/// The objects of a repository, in the order in which they were added.
pub type Arena = Seq<ObjectView>;

/// A commit as a value: its file tree, the commits it follows, and all else that it
/// records (who made it, when, and why).
pub struct CommitView {
    pub tree: Dir,
    pub parents: Seq<CommitView>,
    pub meta: Seq<u8>,
}

/// The position that an id names.
pub open spec fn at(o: Oid) -> int {
    match o {
        Oid::Zero => -1,
        Oid::Object(k) => k as int,
    }
}

pub open spec fn is_object(a: Arena, o: Oid) -> bool {
    0 <= at(o) < a.len()
}

pub open spec fn is_tree(a: Arena, o: Oid) -> bool {
    is_object(a, o) && a[at(o)] is Tree
}

pub open spec fn is_blob(a: Arena, o: Oid) -> bool {
    is_object(a, o) && a[at(o)] is Blob
}

pub open spec fn is_commit(a: Arena, o: Oid) -> bool {
    is_object(a, o) && a[at(o)] is Commit
}

/// What an entry of a tree may name.
pub open spec fn is_item(a: Arena, o: Oid) -> bool {
    is_object(a, o) && !(a[at(o)] is Commit)
}

/// The string by which an entry has its place in a tree: a directory is placed as if
/// its name ended in a separator.
pub open spec fn key(e: EntryView) -> Seq<u8> {
    if e.mode == TREE_MODE {
        e.name.push(47u8)
    } else {
        e.name
    }
}

pub open spec fn keys(es: Seq<EntryView>) -> Seq<Seq<u8>> {
    Seq::new(es.len(), |i: int| key(es[i]))
}

pub open spec fn has_name(es: Seq<EntryView>, name: Seq<u8>) -> bool {
    exists|j: int| 0 <= j < es.len() && (#[trigger] es[j]).name == name
}

/// The place of the entry called `name`.
pub open spec fn pos(es: Seq<EntryView>, name: Seq<u8>) -> int {
    choose|j: int| 0 <= j < es.len() && (#[trigger] es[j]).name == name
}

pub open spec fn names_distinct(es: Seq<EntryView>) -> bool {
    forall|i: int, j: int|
        0 <= i < j < es.len() ==> (#[trigger] es[i]).name != (#[trigger] es[j]).name
}

/// The mode of an entry says what kind of object it names.
pub open spec fn mode_fits(mode: u32, o: ObjectView) -> bool {
    match o {
        ObjectView::Tree(_) => mode == TREE_MODE,
        ObjectView::Link(_) => mode == LINK_MODE,
        ObjectView::Blob(_) => mode != TREE_MODE && mode != LINK_MODE,
        ObjectView::Commit { .. } => false,
    }
}

/// The entry can stand in an object at place `i`.
pub open spec fn entry_wf(a: Arena, i: int, e: EntryView) -> bool {
    name_storable(e.name) && 0 <= at(e.oid) < i && i <= a.len() && mode_fits(e.mode, a[at(e.oid)])
}

/// The entries of a tree: in order, no name twice, each naming an earlier object.
pub open spec fn entries_wf(a: Arena, i: int, es: Seq<EntryView>) -> bool {
    &&& ascending(keys(es))
    &&& names_distinct(es)
    &&& forall|j: int| 0 <= j < es.len() ==> entry_wf(a, i, #[trigger] es[j])
}

/// The object `o` can stand at place `i`: it names earlier objects of the right kind.
pub open spec fn object_wf(a: Arena, i: int, o: ObjectView) -> bool {
    match o {
        ObjectView::Blob(_) => true,
        ObjectView::Link(id) => id.len() == 20,
        ObjectView::Tree(es) => entries_wf(a, i, es),
        ObjectView::Commit { tree, parents, meta } => {
            &&& at(tree) < i
            &&& is_tree(a, tree)
            &&& forall|j: int|
                0 <= j < parents.len() ==> at(#[trigger] parents[j]) < i && is_commit(a, parents[j])
        },
    }
}

/// Every object names earlier objects of the right kind, and none occurs twice.
pub open spec fn arena_wf(a: Arena) -> bool {
    &&& forall|i: int| 0 <= i < a.len() ==> object_wf(a, i, #[trigger] a[i])
    &&& forall|i: int, j: int| 0 <= i < j < a.len() ==> #[trigger] a[i] != #[trigger] a[j]
}

/// `b` holds the objects of `a` where `a` holds them, and maybe more after them.
pub open spec fn extends(a: Arena, b: Arena) -> bool {
    a.len() <= b.len() && forall|i: int| 0 <= i < a.len() ==> #[trigger] a[i] == b[i]
}

/// What the object at place `i` stands for, under an entry of the given mode. A commit, and
/// a place without an object, stand for something that no tree takes.
pub open spec fn node(a: Arena, i: int, mode: u32) -> Node
    decreases i,
{
    if 0 <= i < a.len() {
        match a[i] {
            ObjectView::Blob(data) => Node::Blob { mode, data },
            ObjectView::Link(id) => Node::Link { id },
            ObjectView::Tree(es) => Node::Dir(
                Map::new(
                    |n: Seq<u8>| has_name(es, n),
                    |n: Seq<u8>|
                        {
                            let e = es[pos(es, n)];
                            if 0 <= at(e.oid) < i {
                                node(a, at(e.oid), e.mode)
                            } else {
                                arbitrary()
                            }
                        },
                ),
            ),
            ObjectView::Commit { .. } => Node::Link { id: Seq::empty() },
        }
    } else {
        Node::Link { id: Seq::empty() }
    }
}

/// The directory that `es` lists.
pub open spec fn listed(a: Arena, es: Seq<EntryView>) -> Dir {
    Map::new(
        |n: Seq<u8>| has_name(es, n),
        |n: Seq<u8>| node(a, at(es[pos(es, n)].oid), es[pos(es, n)].mode),
    )
}

/// The directory that the tree `o` stands for.
pub open spec fn dir(a: Arena, o: Oid) -> Dir {
    match node(a, at(o), TREE_MODE) {
        Node::Dir(m) => m,
        _ => arbitrary(),
    }
}

/// What stands in a tree where `o` was put: the id that names nothing puts nothing. An id of
/// no object puts what no tree takes.
pub open spec fn item(a: Arena, o: Oid) -> Option<Node> {
    if o == Oid::Zero {
        None
    } else {
        Some(node(a, at(o), BLOB_MODE))
    }
}

/// The commit at place `i` as a value.
pub open spec fn commit_at(a: Arena, i: int) -> CommitView
    decreases i,
{
    if 0 <= i < a.len() {
        match a[i] {
            ObjectView::Commit { tree, parents, meta } => CommitView {
                tree: dir(a, tree),
                parents: Seq::new(
                    parents.len(),
                    |j: int|
                        if 0 <= j < parents.len() && 0 <= at(parents[j]) < i {
                            commit_at(a, at(parents[j]))
                        } else {
                            arbitrary()
                        },
                ),
                meta,
            },
            _ => arbitrary(),
        }
    } else {
        arbitrary()
    }
}

/// The commit that `o` names as a value.
pub open spec fn commit(a: Arena, o: Oid) -> CommitView {
    commit_at(a, at(o))
}

/// The commit that `o` names, if it names any.
pub open spec fn commit_opt(a: Arena, o: Oid) -> Option<CommitView> {
    if o == Oid::Zero {
        None
    } else {
        Some(commit(a, o))
    }
}

/// `o` names a commit, or nothing.
pub open spec fn is_commit_or_zero(a: Arena, o: Oid) -> bool {
    o == Oid::Zero || is_commit(a, o)
}

pub proof fn lemma_pos(es: Seq<EntryView>, j: int)
    requires
        names_distinct(es),
        0 <= j < es.len(),
    ensures
        has_name(es, es[j].name),
        pos(es, es[j].name) == j,
{
    let k = pos(es, es[j].name);
    assert(0 <= k < es.len() && es[k].name == es[j].name);
    if k < j {
        assert(es[k].name != es[j].name);
    }
    if j < k {
        assert(es[j].name != es[k].name);
    }
}

pub proof fn lemma_has_pos(es: Seq<EntryView>, n: Seq<u8>)
    requires
        has_name(es, n),
    ensures
        0 <= pos(es, n) < es.len(),
        es[pos(es, n)].name == n,
{
}

/// A tree stands for the directory that its entries list.
pub proof fn lemma_dir_listed(a: Arena, o: Oid)
    requires
        arena_wf(a),
        is_tree(a, o),
    ensures
        dir(a, o) == listed(a, a[at(o)]->Tree_0),
        node(a, at(o), BLOB_MODE) == Node::Dir(dir(a, o)),
        node(a, at(o), TREE_MODE) == Node::Dir(dir(a, o)),
{
    let es = a[at(o)]->Tree_0;
    assert(object_wf(a, at(o), a[at(o)]));
    assert forall|n: Seq<u8>| has_name(es, n) implies #[trigger] dir(a, o)[n] == listed(
        a,
        es,
    )[n] by {
        assert(entry_wf(a, at(o), es[pos(es, n)]));
    }
    assert(dir(a, o) =~= listed(a, es));
    assert(node(a, at(o), BLOB_MODE) == node(a, at(o), TREE_MODE));
}

/// The entry at place `j` of a tree.
pub proof fn lemma_dir_entry(a: Arena, o: Oid, j: int)
    requires
        arena_wf(a),
        is_tree(a, o),
        0 <= j < a[at(o)]->Tree_0.len(),
    ensures
        ({
            let e = a[at(o)]->Tree_0[j];
            &&& entry_wf(a, at(o), e)
            &&& dir(a, o).dom().contains(e.name)
            &&& dir(a, o)[e.name] == node(a, at(e.oid), e.mode)
        }),
{
    lemma_dir_listed(a, o);
    assert(object_wf(a, at(o), a[at(o)]));
    lemma_pos(a[at(o)]->Tree_0, j);
}

/// The mode of a file shows in the node; that of other entries does not.
pub proof fn lemma_node_mode(a: Arena, i: int, m1: u32, m2: u32)
    requires
        0 <= i < a.len(),
    ensures
        plain(node(a, i, m1)) == plain(node(a, i, m2)),
        plain(node(a, i, m1)) == node(a, i, BLOB_MODE),
{
}

pub proof fn lemma_node_stable(a: Arena, b: Arena, i: int, mode: u32)
    requires
        arena_wf(a),
        extends(a, b),
        0 <= i < a.len(),
    ensures
        node(a, i, mode) == node(b, i, mode),
    decreases i,
{
    assert(object_wf(a, i, a[i]));
    if let ObjectView::Tree(es) = a[i] {
        let ma = node(a, i, mode)->Dir_0;
        let mb = node(b, i, mode)->Dir_0;
        assert forall|n: Seq<u8>| has_name(es, n) implies #[trigger] ma[n] == mb[n] by {
            let e = es[pos(es, n)];
            assert(entry_wf(a, i, e));
            lemma_node_stable(a, b, at(e.oid), e.mode);
        }
        assert(ma =~= mb);
    }
}

pub proof fn lemma_listed_stable(a: Arena, b: Arena, es: Seq<EntryView>)
    requires
        arena_wf(a),
        extends(a, b),
        forall|j: int| 0 <= j < es.len() ==> entry_wf(a, a.len() as int, #[trigger] es[j]),
    ensures
        listed(a, es) == listed(b, es),
{
    assert forall|n: Seq<u8>| has_name(es, n) implies #[trigger] listed(a, es)[n] == listed(
        b,
        es,
    )[n] by {
        let e = es[pos(es, n)];
        assert(entry_wf(a, a.len() as int, e));
        lemma_node_stable(a, b, at(e.oid), e.mode);
    }
    assert(listed(a, es) =~= listed(b, es));
}

pub proof fn lemma_dir_stable(a: Arena, b: Arena, o: Oid)
    requires
        arena_wf(a),
        extends(a, b),
        is_tree(a, o),
    ensures
        is_tree(b, o),
        dir(a, o) == dir(b, o),
{
    lemma_node_stable(a, b, at(o), TREE_MODE);
}

pub proof fn lemma_item_stable(a: Arena, b: Arena, o: Oid)
    requires
        arena_wf(a),
        extends(a, b),
        o == Oid::Zero || is_object(a, o),
    ensures
        o == Oid::Zero || is_object(b, o),
        is_item(a, o) ==> is_item(b, o),
        item(a, o) == item(b, o),
{
    if o != Oid::Zero {
        lemma_node_stable(a, b, at(o), BLOB_MODE);
    }
}

pub proof fn lemma_commit_stable(a: Arena, b: Arena, o: Oid)
    requires
        arena_wf(a),
        extends(a, b),
        is_commit(a, o),
    ensures
        is_commit(b, o),
        commit(a, o) == commit(b, o),
    decreases at(o),
{
    let i = at(o);
    assert(object_wf(a, i, a[i]));
    let parents = a[i]->parents;
    lemma_dir_stable(a, b, a[i]->Commit_tree);
    assert forall|j: int| 0 <= j < parents.len() implies commit(a, o).parents[j] == commit(
        b,
        o,
    ).parents[j] by {
        assert(is_commit(a, parents[j]));
        lemma_commit_stable(a, b, parents[j]);
    }
    assert(commit(a, o).parents =~= commit(b, o).parents);
}

/// A list of entries in order, without a name twice, is determined by what it holds.
pub proof fn lemma_entries_unique(x: Seq<EntryView>, y: Seq<EntryView>)
    requires
        ascending(keys(x)),
        ascending(keys(y)),
        forall|e: EntryView| x.contains(e) <==> y.contains(e),
    ensures
        x == y,
{
    let kx = keys(x);
    let ky = keys(y);
    assert forall|k: Seq<u8>| kx.contains(k) <==> ky.contains(k) by {
        if kx.contains(k) {
            let i = kx.index_of(k);
            assert(x.contains(x[i]));
            let j = y.index_of(x[i]);
            assert(ky[j] == k);
        }
        if ky.contains(k) {
            let i = ky.index_of(k);
            assert(y.contains(y[i]));
            let j = x.index_of(y[i]);
            assert(kx[j] == k);
        }
    }
    lemma_ascending_unique(kx, ky);
    assert forall|i: int| 0 <= i < x.len() implies x[i] == y[i] by {
        assert(x.contains(x[i]));
        let j = y.index_of(x[i]);
        assert(ky[j] == key(x[i]));
        assert(kx[i] == key(x[i]));
        assert(ky[i] == ky[j]);
        lemma_lt_irreflexive(ky[i]);
        if i < j {
            assert(lt(ky[i], ky[j]));
        }
        if j < i {
            assert(lt(ky[j], ky[i]));
        }
    }
    assert(kx.len() == x.len() && ky.len() == y.len());
    assert(x =~= y);
}

/// One half of `lemma_node_injective` on trees: an entry of the one is in the other.
proof fn lemma_entry_in(a: Arena, i: int, j: int, k: int)
    requires
        arena_wf(a),
        0 <= i < a.len(),
        0 <= j < a.len(),
        a[i] is Tree,
        a[j] is Tree,
        node(a, i, TREE_MODE) == node(a, j, TREE_MODE),
        0 <= k < a[i]->Tree_0.len(),
    ensures
        a[j]->Tree_0.contains(a[i]->Tree_0[k]),
    decreases i + j, 0nat,
{
    let oi = Oid::Object(i as usize);
    let x = a[i]->Tree_0;
    let y = a[j]->Tree_0;
    assert(object_wf(a, i, a[i]));
    assert(object_wf(a, j, a[j]));
    let e = x[k];
    lemma_pos(x, k);
    assert(entry_wf(a, i, e));
    let mi = node(a, i, TREE_MODE)->Dir_0;
    let mj = node(a, j, TREE_MODE)->Dir_0;
    assert(mi.dom().contains(e.name));
    assert(mj.dom().contains(e.name));
    lemma_has_pos(y, e.name);
    let f = y[pos(y, e.name)];
    assert(entry_wf(a, j, f));
    assert(mi[e.name] == node(a, at(e.oid), e.mode));
    assert(mj[e.name] == node(a, at(f.oid), f.mode));
    lemma_node_injective(a, at(e.oid), at(f.oid), e.mode, f.mode);
    assert(e.oid == f.oid);
    assert(e.mode == f.mode);
    assert(e == f);
    assert(y.contains(f));
}

/// Different objects stand for different things.
pub proof fn lemma_node_injective(a: Arena, i: int, j: int, m1: u32, m2: u32)
    requires
        arena_wf(a),
        0 <= i < a.len(),
        0 <= j < a.len(),
        !(a[i] is Commit),
        !(a[j] is Commit),
        plain(node(a, i, m1)) == plain(node(a, j, m2)),
    ensures
        i == j,
    decreases i + j, 1nat,
{
    if a[i] is Tree && a[j] is Tree {
        let x = a[i]->Tree_0;
        let y = a[j]->Tree_0;
        assert(object_wf(a, i, a[i]));
        assert(object_wf(a, j, a[j]));
        assert(node(a, i, m1) == node(a, i, TREE_MODE));
        assert(node(a, j, m2) == node(a, j, TREE_MODE));
        assert forall|e: EntryView| x.contains(e) <==> y.contains(e) by {
            if x.contains(e) {
                lemma_entry_in(a, i, j, x.index_of(e));
            }
            if y.contains(e) {
                lemma_entry_in(a, j, i, y.index_of(e));
            }
        }
        lemma_entries_unique(x, y);
    }
    assert(a[i] == a[j]);
    if i < j {
        assert(a[i] != a[j]);
    }
    if j < i {
        assert(a[j] != a[i]);
    }
}

/// Two trees that stand for the same directory are one.
pub proof fn lemma_dir_injective(a: Arena, x: Oid, y: Oid)
    requires
        arena_wf(a),
        is_tree(a, x),
        is_tree(a, y),
        dir(a, x) == dir(a, y),
    ensures
        x == y,
{
    lemma_dir_listed(a, x);
    lemma_dir_listed(a, y);
    lemma_node_injective(a, at(x), at(y), TREE_MODE, TREE_MODE);
}

/// Two commits that stand for the same value are one.
pub proof fn lemma_commit_injective(a: Arena, x: Oid, y: Oid)
    requires
        arena_wf(a),
        is_commit(a, x),
        is_commit(a, y),
        commit(a, x) == commit(a, y),
    ensures
        x == y,
    decreases at(x),
{
    let i = at(x);
    let j = at(y);
    assert(object_wf(a, i, a[i]));
    assert(object_wf(a, j, a[j]));
    let p = a[i]->parents;
    let q = a[j]->parents;
    lemma_dir_injective(a, a[i]->Commit_tree, a[j]->Commit_tree);
    assert(commit(a, x).parents.len() == p.len());
    assert(commit(a, y).parents.len() == q.len());
    assert forall|k: int| 0 <= k < p.len() implies p[k] == q[k] by {
        assert(is_commit(a, p[k]));
        assert(is_commit(a, q[k]));
        assert(commit(a, x).parents[k] == commit(a, p[k]));
        assert(commit(a, y).parents[k] == commit(a, q[k]));
        lemma_commit_injective(a, p[k], q[k]);
    }
    assert(p =~= q);
    assert(a[i] == a[j]);
    if i < j {
        assert(a[i] != a[j]);
    }
    if j < i {
        assert(a[j] != a[i]);
    }
}

/// A new object that names objects of the arena can be appended.
pub proof fn lemma_arena_push(a: Arena, o: ObjectView)
    requires
        arena_wf(a),
        object_wf(a, a.len() as int, o),
        forall|j: int| 0 <= j < a.len() ==> #[trigger] a[j] != o,
    ensures
        arena_wf(a.push(o)),
        extends(a, a.push(o)),
{
    let b = a.push(o);
    assert forall|i: int| 0 <= i < b.len() implies object_wf(b, i, #[trigger] b[i]) by {
        if i < a.len() {
            assert(object_wf(a, i, a[i]));
        }
        lemma_object_stable(a, b, i, b[i]);
    }
}

/// An object that fits into an arena fits into a longer one.
pub proof fn lemma_object_stable(a: Arena, b: Arena, i: int, o: ObjectView)
    requires
        extends(a, b),
        0 <= i <= a.len(),
        object_wf(a, i, o),
    ensures
        object_wf(b, i, o),
{
    if let ObjectView::Tree(es) = o {
        assert forall|j: int| 0 <= j < es.len() implies entry_wf(b, i, #[trigger] es[j]) by {
            assert(entry_wf(a, i, es[j]));
        }
    }
    if let ObjectView::Commit { tree, parents, meta } = o {
        assert forall|j: int| 0 <= j < parents.len() implies at(
            #[trigger] parents[j],
        ) < i && is_commit(
            b,
            parents[j],
        ) by {
            assert(is_commit(a, parents[j]));
        }
    }
}

pub proof fn lemma_extends_transitive(a: Arena, b: Arena, c: Arena)
    requires
        extends(a, b),
        extends(b, c),
    ensures
        extends(a, c),
{
    assert forall|i: int| 0 <= i < a.len() implies #[trigger] a[i] == c[i] by {
        assert(a[i] == b[i]);
        assert(b[i] == c[i]);
    }
}

} // verus!
