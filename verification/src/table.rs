//! Ids that are found by a text and an id.

use crate::arena::Oid;
use crate::text::same_text;
use std::collections::HashMap;
use vstd::prelude::*;

verus! {

/// For a text and an id, an id.
pub type IdMap = Map<(Seq<char>, Oid), Oid>;

/// What is known for one text.
struct Known {
    text: String,
    to: Oid,
}

/// The first place from `i` on where something is known for the text `t`.
spec fn place_from(list: Seq<Known>, t: Seq<char>, i: int) -> int
    decreases list.len() - i,
{
    if i >= list.len() || list[i].text@ == t {
        i
    } else {
        place_from(list, t, i + 1)
    }
}

spec fn has(list: Seq<Known>, t: Seq<char>) -> bool {
    place_from(list, t, 0) < list.len()
}

spec fn value(list: Seq<Known>, t: Seq<char>) -> Oid {
    list[place_from(list, t, 0)].to
}

proof fn lemma_place_from(list: Seq<Known>, t: Seq<char>, i: int)
    requires
        0 <= i <= list.len(),
    ensures
        i <= place_from(list, t, i) <= list.len(),
        place_from(list, t, i) < list.len() ==> list[place_from(list, t, i)].text@ == t,
    decreases list.len() - i,
{
    if i < list.len() && list[i].text@ != t {
        lemma_place_from(list, t, i + 1);
    }
}

/// A place depends on the texts alone.
proof fn lemma_place_same(x: Seq<Known>, y: Seq<Known>, t: Seq<char>, i: int)
    requires
        0 <= i <= x.len() <= y.len(),
        forall|j: int| 0 <= j < x.len() ==> (#[trigger] x[j]).text@ == y[j].text@,
    ensures
        place_from(x, t, i) < x.len() ==> place_from(y, t, i) == place_from(x, t, i),
        place_from(x, t, i) == x.len() ==> place_from(y, t, i) == place_from(y, t, x.len() as int),
    decreases x.len() - i,
{
    if i < x.len() {
        assert(x[i].text@ == y[i].text@);
        if x[i].text@ != t {
            lemma_place_same(x, y, t, i + 1);
        }
    }
}

fn place(list: &Vec<Known>, text: &str) -> (r: usize)
    ensures
        r == place_from(list@, text@, 0),
        r <= list@.len(),
{
    let mut i: usize = 0;
    while i < list.len() && !same_text(list[i].text.as_str(), text)
        invariant
            i <= list@.len(),
            place_from(list@, text@, 0) == place_from(list@, text@, i as int),
        decreases list@.len() - i,
    {
        i += 1;
    }
    i
}

fn put(list: &mut Vec<Known>, text: &str, to: Oid)
    ensures
        forall|t: Seq<char>|
            #[trigger] has(final(list)@, t) == (t == text@ || has(old(list)@, t)),
        forall|t: Seq<char>|
            has(final(list)@, t) ==> #[trigger] value(final(list)@, t) == (if t == text@ {
                to
            } else {
                value(old(list)@, t)
            }),
{
    let ghost first = list@;
    let p: usize = place(list, text);
    proof {
        lemma_place_from(first, text@, 0);
    }
    if p == list.len() {
        list.push(Known { text: text.to_owned(), to });
    } else {
        list[p].to = to;
    }
    proof {
        let last = list@;
        assert(last[p as int].text@ == text@ && last[p as int].to == to);
        assert forall|j: int| 0 <= j < first.len() implies (#[trigger] first[j]).text@
            == last[j].text@ by {}
        assert forall|t: Seq<char>| #[trigger] has(last, t) == (t == text@ || has(first, t)) && (
        has(last, t) ==> value(last, t) == (if t == text@ {
            to
        } else {
            value(first, t)
        })) by {
            lemma_place_from(first, t, 0);
            lemma_place_same(first, last, t, 0);
            lemma_place_from(last, t, 0);
            lemma_place_from(last, t, first.len() as int);
            let q = place_from(last, t, 0);
            if q < last.len() && q != p {
                assert(last[q] == first[q]);
            }
        }
    }
}

/// Ids that are found by a text and an id.
pub struct IdTable {
    zero: Vec<Known>,
    objects: HashMap<usize, Vec<Known>>,
}

impl IdTable {
    spec fn list(&self, o: Oid) -> Seq<Known> {
        match o {
            Oid::Zero => self.zero@,
            Oid::Object(k) => if self.objects@.dom().contains(k) {
                self.objects@[k]@
            } else {
                Seq::empty()
            },
        }
    }
}

impl View for IdTable {
    type V = IdMap;

    closed spec fn view(&self) -> IdMap {
        Map::new(
            |k: (Seq<char>, Oid)| has(self.list(k.1), k.0),
            |k: (Seq<char>, Oid)| value(self.list(k.1), k.0),
        )
    }
}

impl IdTable {
    /// Nothing is known.
    pub fn new() -> (r: IdTable)
        ensures
            r@ == Map::<(Seq<char>, Oid), Oid>::empty(),
    {
        let r = IdTable { zero: Vec::new(), objects: HashMap::new() };
        assert(r@ =~= Map::<(Seq<char>, Oid), Oid>::empty());
        r
    }

    /// What is known for a text and an id.
    pub fn find(&self, text: &str, from: Oid) -> (r: Option<Oid>)
        ensures
            match r {
                Some(o) => self@.dom().contains((text@, from)) && self@[(text@, from)] == o,
                None => !self@.dom().contains((text@, from)),
            },
    {
        broadcast use vstd::std_specs::hash::group_hash_axioms;

        let list = match from {
            Oid::Zero => &self.zero,
            Oid::Object(k) => match self.objects.get(&k) {
                Some(list) => list,
                None => {
                    return None;
                },
            },
        };
        let p: usize = place(list, text);
        if p < list.len() {
            Some(list[p].to)
        } else {
            None
        }
    }

    /// Records what is known for a text and an id.
    pub fn set(&mut self, text: &str, from: Oid, to: Oid)
        ensures
            final(self)@ == old(self)@.insert((text@, from), to),
    {
        broadcast use vstd::std_specs::hash::group_hash_axioms;

        let ghost before = *self;
        match from {
            Oid::Zero => {
                put(&mut self.zero, text, to);
            },
            Oid::Object(k) => {
                let mut list = match self.objects.remove(&k) {
                    Some(list) => list,
                    None => Vec::new(),
                };
                put(&mut list, text, to);
                self.objects.insert(k, list);
            },
        }
        proof {
            let want = before@.insert((text@, from), to);
            assert forall|o: Oid| o != from implies #[trigger] self.list(o) == before.list(o) by {}
            assert forall|k: (Seq<char>, Oid)| has(self.list(k.1), k.0) == want.dom().contains(
                k,
            ) && (
            has(self.list(k.1), k.0) ==> value(self.list(k.1), k.0) == want[k]) by {}
            assert(self@ =~= want);
        }
    }
}

} // verus!
