//! What is known of trees of which files were selected, by the path at which each stood.

use crate::arena::{
    arena_wf, dir, extends, is_tree, lemma_dir_injective, lemma_dir_stable, Arena, Oid,
};
use crate::node::Dir;
use crate::table::{IdMap, IdTable};
use vstd::prelude::*;

verus! {

/// For a path and the directory that stood there, what was selected of it.
pub type MemoView = Map<(Seq<char>, Dir), Dir>;

/// All ids name trees.
pub open spec fn memo_wf(a: Arena, m: IdMap) -> bool {
    forall|k: (Seq<char>, Oid)| #[trigger]
        m.dom().contains(k) ==> is_tree(a, k.1) && is_tree(a, m[k])
}

/// The id `o` names the directory for which `k` asks, and there is an entry for it.
pub open spec fn memo_entry(a: Arena, m: IdMap, k: (Seq<char>, Dir), o: Oid) -> bool {
    m.dom().contains((k.0, o)) && is_tree(a, o) && dir(a, o) == k.1
}

/// What a map from ids to ids tells of directories.
pub open spec fn memo_values(a: Arena, m: IdMap) -> MemoView {
    Map::new(
        |k: (Seq<char>, Dir)| exists|o: Oid| memo_entry(a, m, k, o),
        |k: (Seq<char>, Dir)| dir(a, m[(k.0, choose|o: Oid| memo_entry(a, m, k, o))]),
    )
}

/// The entry for an id is the entry for the directory that it names.
pub proof fn lemma_memo_get(a: Arena, m: IdMap, t: Seq<char>, o: Oid)
    requires
        arena_wf(a),
        is_tree(a, o),
    ensures
        memo_values(a, m).dom().contains((t, dir(a, o))) == m.dom().contains((t, o)),
        m.dom().contains((t, o)) ==> memo_values(a, m)[(t, dir(a, o))] == dir(a, m[(t, o)]),
{
    let k = (t, dir(a, o));
    if m.dom().contains((t, o)) {
        assert(memo_entry(a, m, k, o));
    }
    if exists|x: Oid| memo_entry(a, m, k, x) {
        let x = choose|x: Oid| memo_entry(a, m, k, x);
        lemma_dir_injective(a, x, o);
    }
}

/// What is known for a directory is known for an id that names it.
pub proof fn lemma_memo_has(a: Arena, m: IdMap, k: (Seq<char>, Dir)) -> (o: Oid)
    requires
        memo_values(a, m).dom().contains(k),
    ensures
        memo_entry(a, m, k, o),
{
    choose|o: Oid| memo_entry(a, m, k, o)
}

/// An entry that is set for an id is set for the directory that it names.
pub proof fn lemma_memo_set(a: Arena, m: IdMap, t: Seq<char>, o: Oid, v: Oid)
    requires
        arena_wf(a),
        memo_wf(a, m),
        is_tree(a, o),
        is_tree(a, v),
    ensures
        memo_wf(a, m.insert((t, o), v)),
        memo_values(a, m.insert((t, o), v)) == memo_values(a, m).insert((t, dir(a, o)), dir(a, v)),
{
    let w = m.insert((t, o), v);
    let got = memo_values(a, w);
    let want = memo_values(a, m).insert((t, dir(a, o)), dir(a, v));
    assert forall|k: (Seq<char>, Dir)|
        #![trigger got.dom().contains(k)]
        #![trigger want.dom().contains(k)]
        #![trigger got[k]]
        #![trigger want[k]]
        got.dom().contains(k) == want.dom().contains(k) && (got.dom().contains(k) ==> got[k]
            == want[k]) by {
        if exists|x: Oid| memo_entry(a, w, k, x) {
            let x = choose|x: Oid| memo_entry(a, w, k, x);
            lemma_memo_get(a, w, k.0, x);
            lemma_memo_get(a, m, k.0, x);
            if (k.0, x) != (t, o) && k == (t, dir(a, o)) {
                lemma_dir_injective(a, x, o);
            }
        }
        if exists|x: Oid| memo_entry(a, m, k, x) {
            let x = choose|x: Oid| memo_entry(a, m, k, x);
            lemma_memo_get(a, w, k.0, x);
            lemma_memo_get(a, m, k.0, x);
        }
        lemma_memo_get(a, w, t, o);
    }
    assert(got =~= want);
}

/// What is known of directories stays known in a repository that has grown.
pub proof fn lemma_memo_stable(a: Arena, b: Arena, m: IdMap)
    requires
        arena_wf(a),
        arena_wf(b),
        extends(a, b),
        memo_wf(a, m),
    ensures
        memo_wf(b, m),
        memo_values(a, m) == memo_values(b, m),
{
    assert forall|k: (Seq<char>, Oid)| #[trigger] m.dom().contains(k) implies is_tree(b, k.1)
        && is_tree(b, m[k]) by {
        lemma_dir_stable(a, b, k.1);
        lemma_dir_stable(a, b, m[k]);
    }
    let x = memo_values(a, m);
    let y = memo_values(b, m);
    assert forall|k: (Seq<char>, Dir)|
        #![trigger x.dom().contains(k)]
        #![trigger y.dom().contains(k)]
        #![trigger x[k]]
        #![trigger y[k]]
        x.dom().contains(k) == y.dom().contains(k) && (x.dom().contains(k) ==> x[k] == y[k]) by {
        if exists|o: Oid| memo_entry(a, m, k, o) {
            let o = choose|o: Oid| memo_entry(a, m, k, o);
            lemma_dir_stable(a, b, o);
            lemma_dir_stable(a, b, m[(k.0, o)]);
            lemma_memo_get(b, m, k.0, o);
        }
        if exists|o: Oid| memo_entry(b, m, k, o) {
            let o = choose|o: Oid| memo_entry(b, m, k, o);
            assert(m.dom().contains((k.0, o)));
            lemma_dir_stable(a, b, o);
            lemma_memo_get(a, m, k.0, o);
        }
    }
    assert(x =~= y);
}

/// What is known of trees of which files were selected.
pub struct Memo {
    ids: IdTable,
}

impl View for Memo {
    type V = IdMap;

    closed spec fn view(&self) -> IdMap {
        self.ids@
    }
}

impl Memo {
    /// All ids name trees of the repository.
    pub open spec fn wf(&self, a: Arena) -> bool {
        memo_wf(a, self@)
    }

    /// Nothing is known.
    pub fn new() -> (r: Memo)
        ensures
            r@ == Map::<(Seq<char>, Oid), Oid>::empty(),
    {
        Memo { ids: IdTable::new() }
    }

    /// What was selected of a tree that stood at a path.
    pub fn get(&self, root: &str, input: Oid) -> (r: Option<Oid>)
        ensures
            match r {
                Some(o) => self@.dom().contains((root@, input)) && self@[(root@, input)] == o,
                None => !self@.dom().contains((root@, input)),
            },
    {
        self.ids.find(root, input)
    }

    /// Records what was selected of a tree that stood at a path.
    pub fn set(&mut self, root: &str, input: Oid, to: Oid)
        ensures
            final(self)@ == old(self)@.insert((root@, input), to),
    {
        self.ids.set(root, input, to);
    }
}

} // verus!
