//! Tables of texts, in the order of their keys.

use crate::bytes::{lemma_lt_irreflexive, lemma_lt_total, lemma_lt_transitive, less, lt};
use crate::text::{pieces, same_text, split, texts};
use vstd::prelude::*;
use vstd::utf8::{encode_utf8, encode_utf8_decode_utf8};

verus! {

/// A key and its value.
pub type PairView = (Seq<char>, Seq<char>);

/// The key `a` has its place before `b`.
pub open spec fn before(a: Seq<char>, b: Seq<char>) -> bool {
    lt(encode_utf8(a), encode_utf8(b))
}

/// The pairs are in the order of their keys, and no key occurs twice.
pub open spec fn sorted(s: Seq<PairView>) -> bool {
    forall|i: int, j: int| 0 <= i < j < s.len() ==> before((#[trigger] s[i]).0, (#[trigger] s[j]).0)
}

/// The place of the first pair from `i` on whose key does not stand before `k`.
pub open spec fn place_from(s: Seq<PairView>, k: Seq<char>, i: int) -> int
    decreases s.len() - i,
{
    if i < s.len() && before(s[i].0, k) {
        place_from(s, k, i + 1)
    } else {
        i
    }
}

/// The table has the key `k` at place `p`.
pub open spec fn has_at(s: Seq<PairView>, k: Seq<char>, p: int) -> bool {
    0 <= p < s.len() && s[p].0 == k
}

/// The table with the value `v` for the key `k`.
pub open spec fn with_pair(s: Seq<PairView>, k: Seq<char>, v: Seq<char>) -> Seq<PairView> {
    let p = place_from(s, k, 0);
    if has_at(s, k, p) {
        s.update(p, (k, v))
    } else {
        s.insert(p, (k, v))
    }
}

/// The value of the key `k`.
pub open spec fn value_of(s: Seq<PairView>, k: Seq<char>) -> Option<Seq<char>> {
    let p = place_from(s, k, 0);
    if has_at(s, k, p) {
        Some(s[p].1)
    } else {
        None
    }
}

proof fn lemma_place_from(s: Seq<PairView>, k: Seq<char>, i: int)
    requires
        0 <= i <= s.len(),
    ensures
        i <= place_from(s, k, i) <= s.len(),
        forall|j: int| i <= j < place_from(s, k, i) ==> before((#[trigger] s[j]).0, k),
        place_from(s, k, i) < s.len() ==> !before(s[place_from(s, k, i)].0, k),
    decreases s.len() - i,
{
    if i < s.len() && before(s[i].0, k) {
        lemma_place_from(s, k, i + 1);
    }
}

proof fn lemma_before_total(a: Seq<char>, b: Seq<char>)
    requires
        a != b,
        !before(a, b),
    ensures
        before(b, a),
{
    encode_utf8_decode_utf8(a);
    encode_utf8_decode_utf8(b);
    lemma_lt_total(encode_utf8(a), encode_utf8(b));
}

/// A table stays in order when a value is set.
pub proof fn lemma_with_pair_sorted(s: Seq<PairView>, k: Seq<char>, v: Seq<char>)
    requires
        sorted(s),
    ensures
        sorted(with_pair(s, k, v)),
{
    let p = place_from(s, k, 0);
    lemma_place_from(s, k, 0);
    let r = with_pair(s, k, v);
    assert forall|i: int, j: int| 0 <= i < j < r.len() implies before(
        (#[trigger] r[i]).0,
        (#[trigger] r[j]).0,
    ) by {
        if has_at(s, k, p) {
            assert(r[i].0 == s[i].0 && r[j].0 == s[j].0);
        } else {
            if p < s.len() {
                lemma_before_total(s[p].0, k);
            }
            if i < p {
                assert(r[i] == s[i]);
                if p < j {
                    assert(r[j] == s[j - 1]);
                    assert(before(s[i].0, s[j - 1].0));
                } else if j < p {
                    assert(r[j] == s[j]);
                    assert(before(s[i].0, s[j].0));
                }
            } else if i == p {
                assert(r[j] == s[j - 1]);
                if p < j - 1 {
                    assert(before(s[p].0, s[j - 1].0));
                    lemma_lt_transitive(
                        encode_utf8(k),
                        encode_utf8(s[p].0),
                        encode_utf8(s[j - 1].0),
                    );
                }
            } else {
                assert(r[i] == s[i - 1] && r[j] == s[j - 1]);
                assert(before(s[i - 1].0, s[j - 1].0));
            }
        }
    }
}

/// In a table in order, the place of a key is where it stands.
pub proof fn lemma_place(s: Seq<PairView>, p: int)
    requires
        sorted(s),
        0 <= p < s.len(),
    ensures
        place_from(s, s[p].0, 0) == p,
{
    let q = place_from(s, s[p].0, 0);
    lemma_place_from(s, s[p].0, 0);
    if q < p {
        assert(before(s[q].0, s[p].0));
    }
    if p < q {
        assert(before(s[p].0, s[p].0));
        lemma_lt_irreflexive(encode_utf8(s[p].0));
    }
}

/// A value that was set is found again, and those of other keys are as they were.
pub proof fn law_set_then_get(s: Seq<PairView>, k: Seq<char>, v: Seq<char>, j: Seq<char>)
    requires
        sorted(s),
    ensures
        value_of(with_pair(s, k, v), j) == (if j == k {
            Some(v)
        } else {
            value_of(s, j)
        }),
{
    let r = with_pair(s, k, v);
    let p = place_from(s, k, 0);
    lemma_with_pair_sorted(s, k, v);
    lemma_place_from(s, k, 0);
    lemma_place_from(s, j, 0);
    lemma_place_from(r, j, 0);
    lemma_place(r, p);
    if j != k {
        let x = place_from(s, j, 0);
        let y = place_from(r, j, 0);
        if has_at(s, j, x) {
            let z = if has_at(s, k, p) || x < p {
                x
            } else {
                x + 1
            };
            assert(r[z] == s[x]);
            lemma_place(r, z);
        }
        if has_at(r, j, y) {
            let z = if has_at(s, k, p) || y < p {
                y
            } else {
                y - 1
            };
            assert(r[y] == s[z]);
            lemma_place(s, z);
        }
    }
}

/// A key and its value.
#[derive(Debug)]
pub struct Pair {
    pub key: String,
    pub value: String,
}

impl View for Pair {
    type V = PairView;

    open spec fn view(&self) -> PairView {
        (self.key@, self.value@)
    }
}

/// A table of texts, in the order of the keys.
#[derive(Debug)]
pub struct Values {
    pairs: Vec<Pair>,
}

impl View for Values {
    type V = Seq<PairView>;

    closed spec fn view(&self) -> Seq<PairView> {
        Seq::new(self.pairs@.len(), |i: int| self.pairs@[i]@)
    }
}

impl Values {
    #[verifier::type_invariant]
    spec fn in_order(self) -> bool {
        sorted(self@)
    }

    /// The table without keys.
    pub fn new() -> (r: Values)
        ensures
            r@ == Seq::<PairView>::empty(),
            sorted(r@),
    {
        let r = Values { pairs: Vec::new() };
        assert(r@ =~= Seq::<PairView>::empty());
        r
    }

    /// How many keys there are.
    pub fn len(&self) -> (r: usize)
        ensures
            r == self@.len(),
    {
        self.pairs.len()
    }

    /// The pair at a place.
    pub fn pair(&self, i: usize) -> (r: &Pair)
        requires
            i < self@.len(),
        ensures
            r@ == self@[i as int],
    {
        &self.pairs[i]
    }

    fn place(&self, k: &str) -> (r: usize)
        ensures
            r == place_from(self@, k@, 0),
            r <= self@.len(),
            r <= self.pairs@.len(),
    {
        let mut i: usize = 0;
        while i < self.pairs.len() && less(self.pairs[i].key.as_str().as_bytes(), k.as_bytes())
            invariant
                i <= self.pairs@.len(),
                place_from(self@, k@, 0) == place_from(self@, k@, i as int),
            decreases self.pairs@.len() - i,
        {
            assert(self@[i as int].0 == self.pairs@[i as int].key@);
            i += 1;
        }
        if i < self.pairs.len() {
            assert(self@[i as int].0 == self.pairs@[i as int].key@);
        }
        i
    }

    /// The value of a key.
    pub fn get(&self, k: &str) -> (r: Option<&str>)
        ensures
            match r {
                Some(v) => value_of(self@, k@) == Some(v@),
                None => value_of(self@, k@) is None,
            },
    {
        let p: usize = self.place(k);
        if p < self.pairs.len() && same_text(self.pairs[p].key.as_str(), k) {
            Some(self.pairs[p].value.as_str())
        } else {
            None
        }
    }

    /// Sets the value of a key.
    pub fn insert(&mut self, k: &str, v: &str)
        ensures
            final(self)@ == with_pair(old(self)@, k@, v@),
            sorted(final(self)@),
    {
        proof {
            use_type_invariant(&*self);
            lemma_with_pair_sorted(self@, k@, v@);
        }
        let p: usize = self.place(k);
        let found: bool = p < self.pairs.len() && same_text(self.pairs[p].key.as_str(), k);
        let ghost was = self@;
        let mut pairs: Vec<Pair> = Vec::new();
        std::mem::swap(&mut pairs, &mut self.pairs);
        let pair = Pair { key: k.to_owned(), value: v.to_owned() };
        if found {
            pairs.set(p, pair);
        } else {
            pairs.insert(p, pair);
        }
        assert(Seq::new(pairs@.len(), |i: int| pairs@[i]@) =~= with_pair(was, k@, v@));
        self.pairs = pairs;
    }
}

/// The table once an argument was read: `key=value` sets a key, a text without `=` sets
/// the key `prefix`, and any other text is left out.
pub open spec fn with_argument(s: Seq<PairView>, arg: Seq<char>) -> Seq<PairView> {
    let x = split(arg, '=');
    if x.len() == 2 {
        with_pair(s, x[0], x[1])
    } else if x.len() == 1 {
        with_pair(s, "prefix"@, x[0])
    } else {
        s
    }
}

/// The table that a list of arguments gives.
pub open spec fn arguments(args: Seq<Seq<char>>) -> Seq<PairView>
    decreases args.len(),
{
    if args.len() == 0 {
        Seq::empty()
    } else {
        with_argument(arguments(args.drop_last()), args.last())
    }
}

/// Arguments make a table in order.
pub proof fn lemma_arguments_sorted(args: Seq<Seq<char>>)
    ensures
        sorted(arguments(args)),
    decreases args.len(),
{
    if args.len() > 0 {
        let x = split(args.last(), '=');
        let s = arguments(args.drop_last());
        lemma_arguments_sorted(args.drop_last());
        if x.len() == 2 {
            lemma_with_pair_sorted(s, x[0], x[1]);
        } else if x.len() == 1 {
            lemma_with_pair_sorted(s, "prefix"@, x[0]);
        }
    }
}

/// Of arguments that set the same key the last counts, and a key that an argument does not
/// set keeps its value.
pub proof fn law_last_argument_counts(args: Seq<Seq<char>>, arg: Seq<char>, k: Seq<char>)
    ensures
        ({
            let x = split(arg, '=');
            let after = value_of(arguments(args.push(arg)), k);
            if x.len() == 2 && x[0] == k {
                after == Some(x[1])
            } else if x.len() == 1 && k == "prefix"@ {
                after == Some(x[0])
            } else {
                after == value_of(arguments(args), k)
            }
        }),
{
    let x = split(arg, '=');
    let s = arguments(args);
    lemma_arguments_sorted(args);
    assert(args.push(arg).drop_last() =~= args);
    if x.len() == 2 {
        law_set_then_get(s, x[0], x[1], k);
    } else if x.len() == 1 {
        law_set_then_get(s, "prefix"@, x[0], k);
    }
}

/// The texts of a list as values.
pub open spec fn strs(v: Seq<&str>) -> Seq<Seq<char>> {
    Seq::new(v.len(), |i: int| v[i]@)
}

/// The table that a list of arguments gives.
pub fn kvargs(args: &[&str]) -> (r: Values)
    ensures
        r@ == arguments(strs(args@)),
        sorted(r@),
{
    let mut r = Values::new();
    let ghost all = strs(args@);
    let mut i: usize = 0;
    assert(all.take(0) =~= Seq::<Seq<char>>::empty());
    while i < args.len()
        invariant
            all == strs(args@),
            i <= args.len(),
            r@ == arguments(all.take(i as int)),
            sorted(r@),
        decreases args.len() - i,
    {
        let x = pieces(args[i], '=');
        assert(texts(x@).len() == x@.len());
        if x.len() == 2 {
            assert(texts(x@)[0] == x@[0]@ && texts(x@)[1] == x@[1]@);
            r.insert(x[0].as_str(), x[1].as_str());
        } else if x.len() == 1 {
            assert(texts(x@)[0] == x@[0]@);
            r.insert("prefix", x[0].as_str());
        }
        assert(all.take(i + 1).drop_last() =~= all.take(i as int));
        i += 1;
    }
    assert(all.take(i as int) =~= all);
    r
}

} // verus!
