//! Lists of tree entries: how one entry is replaced while the list keeps its order.

use crate::arena::{
    at, has_name, key, keys, lemma_has_pos, lemma_pos, listed, names_distinct, node, pos, Arena,
    EntryView,
};
use crate::bytes::{ascending, copied, lemma_lt_total, lemma_lt_transitive, less, lt, same};
use crate::node::{name_storable, TREE_MODE};
use crate::repo::{copied_entry, entry_views, Entry};
use vstd::prelude::*;

verus! {

/// The list is in order, and no name occurs twice.
pub open spec fn in_order(es: Seq<EntryView>) -> bool {
    &&& ascending(keys(es))
    &&& names_distinct(es)
    &&& forall|i: int| 0 <= i < es.len() ==> name_storable((#[trigger] es[i]).name)
}

/// `r` is the list `es` with `e` as its entry called `name`, or without that name.
pub open spec fn replaced(
    r: Seq<EntryView>,
    es: Seq<EntryView>,
    name: Seq<u8>,
    e: Option<EntryView>,
) -> bool {
    &&& in_order(r)
    &&& forall|x: EntryView| #[trigger]
        r.contains(x) <==> (es.contains(x) && x.name != name) || Some(x) == e
}

/// Entries of different names have different places.
proof fn lemma_keys_differ(x: EntryView, y: EntryView)
    requires
        name_storable(x.name),
        name_storable(y.name),
        x.name != y.name,
    ensures
        key(x) != key(y),
{
    if key(x) == key(y) {
        if x.mode == TREE_MODE && y.mode == TREE_MODE {
            assert(x.name.push(47u8).drop_last() =~= x.name);
            assert(y.name.push(47u8).drop_last() =~= y.name);
        } else if x.mode == TREE_MODE {
            assert(y.name[x.name.len() as int] == 47);
        } else if y.mode == TREE_MODE {
            assert(x.name[y.name.len() as int] == 47);
        }
    }
}

/// What a list stands for once an entry was replaced.
pub proof fn lemma_listed_replaced(
    a: Arena,
    r: Seq<EntryView>,
    es: Seq<EntryView>,
    name: Seq<u8>,
    e: Option<EntryView>,
)
    requires
        in_order(es),
        replaced(r, es, name, e),
        e matches Some(x) ==> x.name == name,
    ensures
        listed(a, r) == (match e {
            Some(x) => listed(a, es).insert(name, node(a, at(x.oid), x.mode)),
            None => listed(a, es).remove(name),
        }),
{
    let want = match e {
        Some(x) => listed(a, es).insert(name, node(a, at(x.oid), x.mode)),
        None => listed(a, es).remove(name),
    };
    let got = listed(a, r);
    assert forall|n: Seq<u8>| #[trigger] got.dom().contains(n) <==> want.dom().contains(n) by {
        if has_name(r, n) {
            lemma_has_pos(r, n);
            let x = r[pos(r, n)];
            assert(r.contains(x));
            if es.contains(x) && x.name != name {
                let k = es.index_of(x);
                assert(es[k].name == n);
            }
        }
        if n != name && has_name(es, n) {
            lemma_has_pos(es, n);
            let x = es[pos(es, n)];
            assert(es.contains(x));
            assert(r.contains(x));
            let k = r.index_of(x);
            assert(r[k].name == n);
        }
        if n == name {
            if let Some(x) = e {
                assert(r.contains(x));
                let k = r.index_of(x);
                assert(r[k].name == n);
            }
        }
    }
    assert forall|n: Seq<u8>| got.dom().contains(n) implies #[trigger] got[n] == want[n] by {
        lemma_has_pos(r, n);
        let x = r[pos(r, n)];
        assert(r.contains(x));
        if n != name {
            assert(es.contains(x));
            let k = es.index_of(x);
            lemma_pos(es, k);
        }
    }
    assert(got =~= want);
}

fn key_of(e: &Entry) -> (r: Vec<u8>)
    ensures
        r@ == key(e@),
{
    let mut r: Vec<u8> = copied(e.name.as_slice());
    if e.mode == TREE_MODE {
        r.push(47u8);
    }
    r
}

/// The list without the entry called `name`.
fn without(es: &Vec<Entry>, name: &[u8]) -> (r: Vec<Entry>)
    requires
        in_order(entry_views(es@)),
    ensures
        replaced(entry_views(r@), entry_views(es@), name@, None),
        forall|i: int| 0 <= i < r@.len() ==> (#[trigger] entry_views(r@)[i]).name != name@,
{
    let mut r: Vec<Entry> = Vec::new();
    let mut i: usize = 0;
    let ghost ev = entry_views(es@);
    while i < es.len()
        invariant
            i <= es.len(),
            ev == entry_views(es@),
            in_order(ev),
            in_order(entry_views(r@)),
            forall|x: EntryView| #[trigger]
                entry_views(r@).contains(x) <==> ev.take(i as int).contains(x) && x.name != name@,
        decreases es.len() - i,
    {
        let ghost rv = entry_views(r@);
        assert(ev.take(i + 1) =~= ev.take(i as int).push(ev[i as int]));
        if !same(es[i].name.as_slice(), name) {
            let e = copied_entry(&es[i]);
            r.push(e);
            proof {
                let nv = entry_views(r@);
                assert(nv =~= rv.push(ev[i as int]));
                assert forall|k: int| 0 <= k < rv.len() implies lt(
                    key(#[trigger] rv[k]),
                    key(ev[i as int]),
                )
                    && rv[k].name != ev[i as int].name by {
                    assert(rv.contains(rv[k]));
                    let m = ev.take(i as int).index_of(rv[k]);
                    assert(ev[m] == rv[k]);
                    assert(lt(keys(ev)[m], keys(ev)[i as int]));
                }
                assert forall|p: int, q: int| 0 <= p < q < nv.len() implies lt(
                    #[trigger] keys(nv)[p],
                    #[trigger] keys(nv)[q],
                ) by {
                    if q < rv.len() {
                        assert(lt(keys(rv)[p], keys(rv)[q]));
                    } else {
                        assert(lt(key(rv[p]), key(ev[i as int])));
                    }
                }
                assert(in_order(nv));
            }
        }
        proof {
            let nv = entry_views(r@);
            let t = ev.take(i as int);
            let t1 = ev.take(i + 1);
            assert forall|x: EntryView| #[trigger] nv.contains(x) <==> t1.contains(
                x,
            ) && x.name != name@ by {
                assert(t1.contains(x) <==> t.contains(x) || x == ev[i as int]) by {
                    if t.contains(x) {
                        assert(t1[t.index_of(x)] == x);
                    }
                    assert(t1[i as int] == ev[i as int]);
                    if t1.contains(x) {
                        let k = t1.index_of(x);
                        if k < i {
                            assert(t[k] == x);
                        }
                    }
                }
                assert(rv.contains(x) <==> t.contains(x) && x.name != name@);
                if nv.len() > rv.len() {
                    if rv.contains(x) {
                        assert(nv[rv.index_of(x)] == x);
                    }
                    assert(nv[rv.len() as int] == ev[i as int]);
                    if nv.contains(x) {
                        let k = nv.index_of(x);
                        if k < rv.len() {
                            assert(rv[k] == x);
                        }
                    }
                }
            }
        }
        i += 1;
    }
    assert(ev.take(ev.len() as int) =~= ev);
    proof {
        let rv = entry_views(r@);
        assert forall|i: int| 0 <= i < rv.len() implies (#[trigger] rv[i]).name != name@ by {
            assert(rv.contains(rv[i]));
        }
    }
    r
}

/// The list with one more entry, of a name that it does not hold.
fn inserted(es: Vec<Entry>, e: Entry) -> (r: Vec<Entry>)
    requires
        in_order(entry_views(es@)),
        name_storable(e@.name),
        forall|i: int| 0 <= i < es@.len() ==> (#[trigger] entry_views(es@)[i]).name != e@.name,
    ensures
        in_order(entry_views(r@)),
        forall|x: EntryView| #[trigger]
            entry_views(r@).contains(x) <==> entry_views(es@).contains(x) || x == e@,
{
    let k = key_of(&e);
    let mut p: usize = 0;
    let ghost ev = entry_views(es@);
    let ghost ee = e@;
    while p < es.len()
        invariant
            p <= es.len(),
            ev == entry_views(es@),
            k@ == key(ee),
            forall|i: int| 0 <= i < p ==> !lt(k@, key(#[trigger] ev[i])),
        ensures
            p <= es.len(),
            forall|i: int| 0 <= i < p ==> !lt(k@, key(#[trigger] ev[i])),
            p < es.len() ==> lt(k@, key(ev[p as int])),
        decreases es.len() - p,
    {
        let q = key_of(&es[p]);
        if less(k.as_slice(), q.as_slice()) {
            break;
        }
        p += 1;
    }
    let mut r = es;
    r.insert(p, e);
    proof {
        let rv = entry_views(r@);
        assert(rv =~= ev.insert(p as int, ee));
        assert forall|i: int| 0 <= i < p implies lt(key(#[trigger] ev[i]), key(ee)) by {
            lemma_keys_differ(ev[i], ee);
            lemma_lt_total(key(ev[i]), key(ee));
        }
        assert forall|i: int| p <= i < ev.len() implies lt(key(ee), key(#[trigger] ev[i])) by {
            if i > p {
                assert(lt(keys(ev)[p as int], keys(ev)[i]));
                lemma_lt_transitive(key(ee), key(ev[p as int]), key(ev[i]));
            }
        }
        assert forall|i: int, j: int| 0 <= i < j < rv.len() implies lt(
            #[trigger] keys(rv)[i],
            #[trigger] keys(rv)[j],
        ) by {
            if i != p && j != p {
                let i1 = if i < p { i } else { i - 1 };
                let j1 = if j < p { j } else { j - 1 };
                assert(lt(keys(ev)[i1], keys(ev)[j1]));
            } else if i == p {
                assert(rv[j] == ev[j - 1]);
            } else {
                assert(rv[i] == ev[i]);
            }
        }
        assert forall|i: int, j: int| 0 <= i < j < rv.len() implies (#[trigger] rv[i]).name != (
        #[trigger] rv[j]).name by {
            let i1 = if i < p { i } else { i - 1 };
            let j1 = if j < p { j } else { j - 1 };
            if i != p && j != p {
                assert(ev[i1].name != ev[j1].name);
            } else if i == p {
                assert(rv[j] == ev[j - 1]);
            } else {
                assert(rv[i] == ev[i]);
            }
        }
        assert forall|i: int| 0 <= i < rv.len() implies name_storable((#[trigger] rv[i]).name) by {
            if i < p {
                assert(rv[i] == ev[i]);
            } else if i > p {
                assert(rv[i] == ev[i - 1]);
            }
        }
        assert forall|x: EntryView| #[trigger] rv.contains(x) <==> ev.contains(x) || x == ee by {
            if ev.contains(x) {
                let i = ev.index_of(x);
                if i < p {
                    assert(rv[i] == x);
                } else {
                    assert(rv[i + 1] == x);
                }
            }
            assert(rv[p as int] == ee);
            if rv.contains(x) {
                let i = rv.index_of(x);
                if i < p {
                    assert(ev[i] == x);
                } else if i > p {
                    assert(ev[i - 1] == x);
                }
            }
        }
    }
    r
}

/// The list with `e` as its entry called `name`, or without that name.
pub fn with_entry(es: &Vec<Entry>, name: &[u8], e: Option<Entry>) -> (r: Vec<Entry>)
    requires
        in_order(entry_views(es@)),
        e matches Some(x) ==> x@.name == name@ && name_storable(name@),
    ensures
        replaced(
            entry_views(r@),
            entry_views(es@),
            name@,
            match e {
                Some(x) => Some(x@),
                None => None,
            },
        ),
{
    let w = without(es, name);
    match e {
        None => w,
        Some(x) => inserted(w, x),
    }
}

} // verus!
