//! What is known of filtered commits, by the text of the filter.

use crate::arena::{
    arena_wf, commit, commit_opt, extends, is_commit_or_zero, lemma_commit_injective,
    lemma_commit_stable, Arena, CommitView, Oid,
};
use crate::table::{IdMap, IdTable};
use vstd::prelude::*;

verus! {

/// For the text of a filter and a commit, or none, a commit, or none.
pub type CacheView = Map<(Seq<char>, Option<CommitView>), Option<CommitView>>;

/// For the text of a filter and an id, an id.
pub type CacheMap = IdMap;

/// All ids name commits, or nothing.
pub open spec fn cache_wf(a: Arena, m: CacheMap) -> bool {
    forall|k: (Seq<char>, Oid)| #[trigger]
        m.dom().contains(k) ==> is_commit_or_zero(a, k.1) && is_commit_or_zero(a, m[k])
}

/// The id `o` names the commit for which `k` asks, and there is an entry for it.
pub open spec fn entry_for(
    a: Arena,
    m: CacheMap,
    k: (Seq<char>, Option<CommitView>),
    o: Oid,
) -> bool {
    m.dom().contains((k.0, o)) && is_commit_or_zero(a, o) && commit_opt(a, o) == k.1
}

/// What a map from ids to ids tells of commits.
pub open spec fn cache_values(a: Arena, m: CacheMap) -> CacheView {
    Map::new(
        |k: (Seq<char>, Option<CommitView>)| exists|o: Oid| entry_for(a, m, k, o),
        |k: (Seq<char>, Option<CommitView>)|
            commit_opt(a, m[(k.0, choose|o: Oid| entry_for(a, m, k, o))]),
    )
}

proof fn lemma_opt_injective(a: Arena, x: Oid, y: Oid)
    requires
        arena_wf(a),
        is_commit_or_zero(a, x),
        is_commit_or_zero(a, y),
        commit_opt(a, x) == commit_opt(a, y),
    ensures
        x == y,
{
    if x != Oid::Zero && y != Oid::Zero {
        lemma_commit_injective(a, x, y);
    }
}

/// A commit, or none, is the same in a repository that has grown.
pub proof fn lemma_opt_stable(a: Arena, b: Arena, o: Oid)
    requires
        arena_wf(a),
        extends(a, b),
        is_commit_or_zero(a, o),
    ensures
        is_commit_or_zero(b, o),
        commit_opt(a, o) == commit_opt(b, o),
{
    if o != Oid::Zero {
        lemma_commit_stable(a, b, o);
    }
}

/// The entry for an id is the entry for the commit that it names.
pub proof fn lemma_cache_get(a: Arena, m: CacheMap, t: Seq<char>, o: Oid)
    requires
        arena_wf(a),
        is_commit_or_zero(a, o),
    ensures
        cache_values(a, m).dom().contains((t, commit_opt(a, o))) == m.dom().contains((t, o)),
        m.dom().contains((t, o)) ==> cache_values(a, m)[(t, commit_opt(a, o))] == commit_opt(
            a,
            m[(t, o)],
        ),
{
    let k = (t, commit_opt(a, o));
    if m.dom().contains((t, o)) {
        assert(entry_for(a, m, k, o));
    }
    if exists|x: Oid| entry_for(a, m, k, x) {
        let x = choose|x: Oid| entry_for(a, m, k, x);
        lemma_opt_injective(a, x, o);
    }
}

/// An entry that is set for an id is set for the commit that it names.
pub proof fn lemma_cache_set(a: Arena, m: CacheMap, t: Seq<char>, o: Oid, v: Oid)
    requires
        arena_wf(a),
        cache_wf(a, m),
        is_commit_or_zero(a, o),
        is_commit_or_zero(a, v),
    ensures
        cache_wf(a, m.insert((t, o), v)),
        cache_values(a, m.insert((t, o), v)) == cache_values(a, m).insert(
            (t, commit_opt(a, o)),
            commit_opt(a, v),
        ),
{
    let w = m.insert((t, o), v);
    let got = cache_values(a, w);
    let want = cache_values(a, m).insert((t, commit_opt(a, o)), commit_opt(a, v));
    assert forall|k: (Seq<char>, Option<CommitView>)|
        #![trigger got.dom().contains(k)]
        #![trigger want.dom().contains(k)]
        #![trigger got[k]]
        #![trigger want[k]]
        got.dom().contains(k) == want.dom().contains(k) && (got.dom().contains(k) ==> got[k]
            == want[k]) by {
        if exists|x: Oid| entry_for(a, w, k, x) {
            let x = choose|x: Oid| entry_for(a, w, k, x);
            lemma_cache_get(a, w, k.0, x);
            lemma_cache_get(a, m, k.0, x);
            if (k.0, x) != (t, o) && k == (t, commit_opt(a, o)) {
                lemma_opt_injective(a, x, o);
            }
        }
        if exists|x: Oid| entry_for(a, m, k, x) {
            let x = choose|x: Oid| entry_for(a, m, k, x);
            lemma_cache_get(a, w, k.0, x);
            lemma_cache_get(a, m, k.0, x);
        }
        lemma_cache_get(a, w, t, o);
    }
    assert(got =~= want);
}

/// What is known of commits stays known in a repository that has grown.
pub proof fn lemma_cache_stable(a: Arena, b: Arena, m: CacheMap)
    requires
        arena_wf(a),
        arena_wf(b),
        extends(a, b),
        cache_wf(a, m),
    ensures
        cache_wf(b, m),
        cache_values(a, m) == cache_values(b, m),
{
    assert forall|k: (Seq<char>, Oid)| #[trigger] m.dom().contains(k) implies is_commit_or_zero(
        b,
        k.1,
    ) && is_commit_or_zero(b, m[k]) by {
        lemma_opt_stable(a, b, k.1);
        lemma_opt_stable(a, b, m[k]);
    }
    let x = cache_values(a, m);
    let y = cache_values(b, m);
    assert forall|k: (Seq<char>, Option<CommitView>)|
        #![trigger x.dom().contains(k)]
        #![trigger y.dom().contains(k)]
        #![trigger x[k]]
        #![trigger y[k]]
        x.dom().contains(k) == y.dom().contains(k) && (x.dom().contains(k) ==> x[k] == y[k]) by {
        if exists|o: Oid| entry_for(a, m, k, o) {
            let o = choose|o: Oid| entry_for(a, m, k, o);
            lemma_opt_stable(a, b, o);
            lemma_opt_stable(a, b, m[(k.0, o)]);
            lemma_cache_get(b, m, k.0, o);
        }
        if exists|o: Oid| entry_for(b, m, k, o) {
            let o = choose|o: Oid| entry_for(b, m, k, o);
            assert(m.dom().contains((k.0, o)));
            lemma_opt_stable(a, b, o);
            lemma_cache_get(a, m, k.0, o);
        }
    }
    assert(x =~= y);
}

/// What is known of filtered commits.
pub struct FilterCache {
    ids: IdTable,
}

impl View for FilterCache {
    type V = CacheMap;

    closed spec fn view(&self) -> CacheMap {
        self.ids@
    }
}

impl FilterCache {
    /// All ids name commits of the repository, or nothing.
    pub open spec fn wf(&self, a: Arena) -> bool {
        cache_wf(a, self@)
    }

    /// Nothing is known.
    pub fn new() -> (r: FilterCache)
        ensures
            r@ == Map::<(Seq<char>, Oid), Oid>::empty(),
    {
        FilterCache { ids: IdTable::new() }
    }

    /// Whether something is known for a filter and a commit, or none.
    pub fn has(&self, text: &str, from: Oid) -> (r: bool)
        ensures
            r == self@.dom().contains((text@, from)),
    {
        self.ids.find(text, from).is_some()
    }

    /// What is known for a filter and a commit, or none; nothing where that is not known.
    pub fn get(&self, text: &str, from: Oid) -> (r: Oid)
        ensures
            r == (if self@.dom().contains((text@, from)) {
                self@[(text@, from)]
            } else {
                Oid::Zero
            }),
    {
        match self.ids.find(text, from) {
            Some(o) => o,
            None => Oid::Zero,
        }
    }

    /// Records what is known for a filter and a commit, or none.
    pub fn set(&mut self, text: &str, from: Oid, to: Oid)
        ensures
            final(self)@ == old(self)@.insert((text@, from), to),
    {
        self.ids.set(text, from, to);
    }
}

} // verus!
