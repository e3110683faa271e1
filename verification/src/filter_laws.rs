//! The texts of filters, and which filter a name and its arguments make.

use crate::bytes::lt;
use crate::filter::{
    combine_text, made, mount_text, mounts_table, prefix_table, spec_text, subdir_filter, subdirs,
    values_text, CombineView, FilterView, MountView,
};
use crate::mount_laws::combined;
use crate::path::{components, ComponentView};
use crate::path_laws::component_names;
use crate::text::{remove_first, trim_end};
use crate::values::{
    arguments, before, has_at, law_set_then_get, lemma_arguments_sorted, lemma_place,
    lemma_with_pair_sorted, place_from, sorted, value_of, PairView,
};
use vstd::prelude::*;
use vstd::utf8::encode_utf8;

verus! {

/// The texts of the filters that are not made of others.
pub proof fn law_plain_texts(x: Seq<char>)
    ensures
        spec_text(FilterView::Nop) == ":nop"@,
        spec_text(FilterView::Empty) == ":empty"@,
        spec_text(FilterView::Dirs) == ":DIRS"@,
        spec_text(FilterView::Fold) == ":FOLD"@,
        spec_text(FilterView::Cutoff(x)) == ":CUTOFF="@ + x,
        spec_text(FilterView::Subdir(x)) == ":/"@ + x,
        spec_text(FilterView::Prefix(x)) == ":prefix="@ + x,
        spec_text(FilterView::Hide(x)) == ":hide="@ + x,
        spec_text(FilterView::Glob { pattern: x, invert: false }) == ":glob="@ + x,
        spec_text(FilterView::Glob { pattern: x, invert: true }) == ":~glob="@ + x,
        spec_text(FilterView::Workspace(x)) == ":workspace="@ + x,
{
}

/// The text of a chain is those of its parts, one after the other, without the first trace of
/// the filter that keeps everything.
pub proof fn law_chain_text(a: FilterView, b: FilterView)
    ensures
        spec_text(FilterView::Chain(Box::new(a), Box::new(b))) == remove_first(
            spec_text(a) + spec_text(b),
            ":nop"@,
        ),
{
}

proof fn lemma_values_front(values: Seq<PairView>, v: PairView, k: int)
    requires
        0 <= k <= values.len(),
    ensures
        values_text(values.push(v), k) == values_text(values, k),
    decreases k,
{
    if k > 0 {
        lemma_values_front(values, v, k - 1);
        assert(values.push(v)[k - 1] == values[k - 1]);
    }
}

/// The text of an info filter has its values, each as a key, a sign of equality and the value,
/// with commas between them. Where values end with commas, these are left out at the end.
pub proof fn law_info_text(values: Seq<PairView>, v: PairView)
    ensures
        spec_text(FilterView::Info(values)) == trim_end(
            ":INFO="@ + values_text(values, values.len() as int),
            ',',
        ),
        values_text(values, 0) == Seq::<char>::empty(),
        values_text(values.push(v), values.len() as int + 1) == values_text(
            values,
            values.len() as int,
        ) + v.0 + "="@ + v.1 + ","@,
{
    lemma_values_front(values, v, values.len() as int);
    assert(values.push(v)[values.len() as int] == v);
}

proof fn lemma_combine_front(base: FilterView, ms: Seq<MountView>, m: MountView, k: int)
    requires
        0 <= k <= ms.len(),
    ensures
        combine_text(CombineView { base: Box::new(base), mounts: ms.push(m) }, k) == combine_text(
            CombineView { base: Box::new(base), mounts: ms },
            k,
        ),
    decreases k,
{
    let c = CombineView { base: Box::new(base), mounts: ms.push(m) };
    let w = CombineView { base: Box::new(base), mounts: ms };
    if k > 0 {
        lemma_combine_front(base, ms, m, k - 1);
        assert(c.mounts[k - 1] == w.mounts[k - 1]);
    } else {
        assert(combine_text(c, 0) == "/ = "@ + spec_text(base));
        assert(combine_text(w, 0) == "/ = "@ + spec_text(base));
    }
}

/// The text of a combination has its base on the first line, and each mount on a line of its
/// own, with the path and the text of the filter.
pub proof fn law_combine_text(base: FilterView, ms: Seq<MountView>, m: MountView)
    ensures
        spec_text(combined(base, Seq::empty())) == "/ = "@ + spec_text(base),
        spec_text(combined(base, ms.push(m))) == spec_text(combined(base, ms)) + "\n"@ + (m.prefix
            + " = "@ + spec_text(m.filter)),
{
    let none = Seq::<MountView>::empty();
    let e = CombineView { base: Box::new(base), mounts: none };
    let c = CombineView { base: Box::new(base), mounts: ms.push(m) };
    let w = CombineView { base: Box::new(base), mounts: ms };
    let len = ms.len() as int;
    assert(spec_text(FilterView::Combine(e)) == combine_text(e, 0));
    lemma_combine_front(base, ms, m, len);
    assert(c.mounts[len] == m);
    assert(spec_text(FilterView::Combine(c)) == combine_text(c, len + 1));
    assert(spec_text(FilterView::Combine(w)) == combine_text(w, len));
    assert(mount_text(m) == m.prefix + " = "@ + spec_text(m.filter));
}

proof fn lemma_table_front(ms: Seq<MountView>, m: MountView, k: int)
    requires
        0 <= k <= ms.len(),
    ensures
        mounts_table(ms.push(m), k) == mounts_table(ms, k),
        sorted(mounts_table(ms, k)),
    decreases k,
{
    if k > 0 {
        lemma_table_front(ms, m, k - 1);
        assert(ms.push(m)[k - 1] == ms[k - 1]);
        lemma_with_pair_sorted(
            mounts_table(ms, k - 1),
            ms[k - 1].prefix,
            spec_text(ms[k - 1].filter),
        );
    }
}

/// The table of the mounts of a combination has the text of each mount under its path; of
/// mounts at the same path the last counts. It is in the order of the paths. Filters of other
/// kinds have none.
pub proof fn law_prefix_table(
    base: FilterView,
    ms: Seq<MountView>,
    m: MountView,
    k: Seq<char>,
    f: FilterView,
)
    ensures
        prefix_table(combined(base, Seq::empty())).len() == 0,
        sorted(prefix_table(combined(base, ms))),
        value_of(prefix_table(combined(base, ms.push(m))), k) == (if k == m.prefix {
            Some(spec_text(m.filter))
        } else {
            value_of(prefix_table(combined(base, ms)), k)
        }),
        !(f is Combine) ==> prefix_table(f).len() == 0,
{
    let len = ms.len() as int;
    lemma_table_front(ms, m, len);
    assert(ms.push(m)[len] == m);
    law_set_then_get(mounts_table(ms, len), m.prefix, spec_text(m.filter), k);
}

/// The names that take no argument.
pub open spec fn stands_alone(name: Seq<char>) -> bool {
    name == "empty"@ || name == "nop"@ || name == "DIRS"@ || name == "FOLD"@
}

/// The names that take one argument.
pub open spec fn takes_one(name: Seq<char>) -> bool {
    ||| name == ""@ || name == "prefix"@ || name == "+"@ || name == "hide"@
    ||| name == "glob"@ || name == "~glob"@ || name == "workspace"@ || name == "CUTOFF"@
}

proof fn lemma_first_letters()
    ensures
        ""@.len() == 0,
        "empty"@.len() == 5 && "empty"@[0] == 'e',
        "nop"@.len() == 3 && "nop"@[0] == 'n',
        "DIRS"@.len() == 4 && "DIRS"@[0] == 'D',
        "FOLD"@.len() == 4 && "FOLD"@[0] == 'F',
        "prefix"@.len() == 6 && "prefix"@[0] == 'p',
        "+"@.len() == 1 && "+"@[0] == '+',
        "hide"@.len() == 4 && "hide"@[0] == 'h',
        "glob"@.len() == 4 && "glob"@[0] == 'g',
        "~glob"@.len() == 5 && "~glob"@[0] == '~',
        "workspace"@.len() == 9 && "workspace"@[0] == 'w',
        "CUTOFF"@.len() == 6 && "CUTOFF"@[0] == 'C',
        "INFO"@.len() == 4 && "INFO"@[0] == 'I',
{
    reveal_strlit("");
    reveal_strlit("empty");
    reveal_strlit("nop");
    reveal_strlit("DIRS");
    reveal_strlit("FOLD");
    reveal_strlit("prefix");
    reveal_strlit("+");
    reveal_strlit("hide");
    reveal_strlit("glob");
    reveal_strlit("~glob");
    reveal_strlit("workspace");
    reveal_strlit("CUTOFF");
    reveal_strlit("INFO");
}

/// Which filter a name and its arguments make. The names `prefix` and `+` mean the same.
pub proof fn law_made(x: Seq<char>, args: Seq<Seq<char>>)
    ensures
        made(seq!["empty"@]) == FilterView::Empty,
        made(seq!["nop"@]) == FilterView::Nop,
        made(seq!["DIRS"@]) == FilterView::Dirs,
        made(seq!["FOLD"@]) == FilterView::Fold,
        made(seq![""@, x]) == subdir_filter(x),
        made(seq!["prefix"@, x]) == FilterView::Prefix(x),
        made(seq!["+"@, x]) == FilterView::Prefix(x),
        made(seq!["hide"@, x]) == FilterView::Hide(x),
        made(seq!["glob"@, x]) == (FilterView::Glob { pattern: x, invert: false }),
        made(seq!["~glob"@, x]) == (FilterView::Glob { pattern: x, invert: true }),
        made(seq!["workspace"@, x]) == FilterView::Workspace(x),
        made(seq!["CUTOFF"@, x]) == FilterView::Cutoff(x),
        made(seq!["INFO"@] + args) == FilterView::Info(arguments(args)),
{
    lemma_first_letters();
    let all = seq!["INFO"@] + args;
    assert(all[0] == "INFO"@);
    assert(all.skip(1) =~= args);
}

/// A name that is not known, or has another number of arguments than it takes, makes the
/// filter that keeps nothing.
pub proof fn law_made_unknown(args: Seq<Seq<char>>)
    requires
        args.len() > 0 ==> args[0] != "INFO"@,
        args.len() == 1 ==> !stands_alone(args[0]),
        args.len() == 2 ==> !takes_one(args[0]),
    ensures
        made(args) == FilterView::Empty,
{
}

proof fn lemma_subdirs_same(cs: Seq<ComponentView>, ds: Seq<ComponentView>, k: int)
    requires
        0 <= k <= cs.len(),
        k <= ds.len(),
        forall|i: int| 0 <= i < k ==> (#[trigger] cs[i]).text == ds[i].text,
    ensures
        subdirs(cs, k) == subdirs(ds, k),
    decreases k,
{
    if k > 0 {
        assert(cs[0].text == ds[0].text);
        assert(cs[k - 1].text == ds[k - 1].text);
        if k > 1 {
            lemma_subdirs_same(cs, ds, k - 1);
        }
    }
}

/// The filter for the directory at a path goes by the components of the path: without any it
/// keeps everything, with one it is that for the directory of that name, and one more
/// component adds the filter for a directory of that name behind.
pub proof fn law_subdir_names(p: Seq<char>, q: Seq<char>, x: Seq<char>)
    ensures
        component_names(p).len() == 0 ==> subdir_filter(p) == FilterView::Nop,
        component_names(p) == seq![x] ==> subdir_filter(p) == FilterView::Subdir(x),
        component_names(p).len() > 0 && component_names(q) == component_names(p).push(x)
            ==> subdir_filter(q) == FilterView::Chain(
            Box::new(subdir_filter(p)),
            Box::new(FilterView::Subdir(x)),
        ),
{
    let cs = components(p);
    let ds = components(q);
    assert(component_names(p).len() == cs.len());
    assert(component_names(q).len() == ds.len());
    if component_names(p) == seq![x] {
        assert(component_names(p)[0] == cs[0].text);
    }
    if cs.len() > 0 && component_names(q) == component_names(p).push(x) {
        let n = cs.len() as int;
        assert(ds.len() == n + 1);
        assert(component_names(q)[n] == ds[n].text);
        assert forall|i: int| 0 <= i < n implies (#[trigger] ds[i]).text == cs[i].text by {
            assert(component_names(q)[i] == component_names(p)[i]);
        }
        lemma_subdirs_same(ds, cs, n);
    }
}

/// Without arguments nothing is set, and the values of arguments stand in the order of their
/// keys.
pub proof fn law_arguments(args: Seq<Seq<char>>)
    ensures
        arguments(Seq::empty()) == Seq::<PairView>::empty(),
        sorted(arguments(args)),
{
    lemma_arguments_sorted(args);
}

/// Keys stand in the order of their bytes.
pub proof fn law_key_order(a: Seq<char>, b: Seq<char>)
    ensures
        before(a, b) <==> lt(encode_utf8(a), encode_utf8(b)),
{
}

/// A value is found exactly where it stands in a table in order.
pub proof fn law_value_found(s: Seq<PairView>, i: int, k: Seq<char>)
    requires
        sorted(s),
    ensures
        0 <= i < s.len() ==> value_of(s, s[i].0) == Some(s[i].1),
        value_of(s, k) matches Some(v) ==> s.contains((k, v)),
{
    if 0 <= i < s.len() {
        lemma_place(s, i);
    }
    let p = place_from(s, k, 0);
    if has_at(s, k, p) {
        assert(s[p] == (k, s[p].1));
    }
}

} // verus!
