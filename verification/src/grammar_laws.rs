//! What holds of texts that stand for filters: reading the text of a filter gives the filter.

use crate::apply::{apply_tree, unapply_tree};
use crate::commits::lines_text;
use crate::error::ErrorView;
use crate::filter::{
    made, mount_text, pattern_ok, spec_text, subdir_filter, values_text, FilterView, MountView,
};
use crate::grammar::{
    arguments_at, chained, file_ok, in_class, item_at, items_end, items_from, line_ok,
    line_patterns_ok, mount_at, mount_of, mount_on, mounts_on, parsed, parsed_chain, parsed_mounts,
    patterns_ok, row_ok, run_end, trim_blank, trimmed, Class, MountText, Read,
};
use crate::laws::{law_chain_associative, law_chain_nop, lemma_chain};
use crate::node::{Dir, Rules};
use crate::pattern::glob_is_valid;
use crate::text::{
    find_from, lemma_find_from, next, occurs_at, remove_first, split, split_from, trim_end,
};
use crate::values::{arguments, before, place_from, sorted, with_pair, PairView};
use vstd::prelude::*;

verus! {

/// All characters of a text belong to a class.
pub open spec fn all_in(t: Seq<char>, class: Class) -> bool {
    forall|i: int| 0 <= i < t.len() ==> in_class(#[trigger] t[i], class)
}

/// The arguments with commas between them.
pub open spec fn arguments_text(args: Seq<Seq<char>>) -> Seq<char>
    decreases args.len(),
{
    if args.len() == 0 {
        Seq::empty()
    } else if args.len() == 1 {
        args[0]
    } else {
        args[0] + ","@ + arguments_text(args.skip(1))
    }
}

/// An item as it is written.
pub open spec fn item_text(args: Seq<Seq<char>>) -> Seq<char> {
    if args.len() == 2 && args[0] == ""@ {
        ":/"@ + args[1]
    } else if args.len() == 1 {
        ":"@ + args[0]
    } else {
        ":"@ + args[0] + "="@ + arguments_text(args.skip(1))
    }
}

/// The item can be written.
pub open spec fn item_wf(args: Seq<Seq<char>>) -> bool {
    &&& args.len() > 0
    &&& forall|i: int| 0 < i < args.len() ==> all_in(#[trigger] args[i], Class::Argument)
    &&& (args[0].len() > 0 && all_in(args[0], Class::Name)) || (args.len() == 2 && args[0] == ""@)
}

/// The first `k` items as they are written.
pub open spec fn row_text(items: Seq<Seq<Seq<char>>>, k: int) -> Seq<char>
    decreases k,
{
    if k <= 0 {
        Seq::empty()
    } else {
        row_text(items, k - 1) + item_text(items[k - 1])
    }
}

/// The text `p` stands in `t` at `k`.
spec fn stands_at(t: Seq<char>, p: Seq<char>, k: int) -> bool {
    0 <= k && k + p.len() <= t.len() && forall|i: int|
        0 <= i < p.len() ==> t[k + i] == #[trigger] p[i]
}

/// The text ends at `k`, or an item starts there.
spec fn stops_at(t: Seq<char>, k: int) -> bool {
    k == t.len() || (0 <= k < t.len() && t[k] == ':')
}

pub proof fn lemma_run_end_is(t: Seq<char>, k: int, e: int, class: Class)
    requires
        0 <= k <= e <= t.len(),
        forall|i: int| k <= i < e ==> in_class(#[trigger] t[i], class),
        e < t.len() ==> !in_class(t[e], class),
    ensures
        run_end(t, k, class) == e,
    decreases e - k,
{
    if k < e {
        lemma_run_end_is(t, k + 1, e, class);
    }
}

proof fn lemma_stands_split(t: Seq<char>, p: Seq<char>, q: Seq<char>, k: int)
    requires
        stands_at(t, p + q, k),
    ensures
        stands_at(t, p, k),
        stands_at(t, q, k + p.len()),
{
    assert forall|i: int| 0 <= i < p.len() implies t[k + i] == #[trigger] p[i] by {
        assert((p + q)[i] == p[i]);
    }
    assert forall|i: int| 0 <= i < q.len() implies t[k + p.len() + i] == #[trigger] q[i] by {
        assert((p + q)[p.len() + i] == q[i]);
        assert(t[k + (p.len() + i)] == (p + q)[p.len() + i]);
    }
}

proof fn lemma_arguments_at(t: Seq<char>, k: int, args: Seq<Seq<char>>)
    requires
        args.len() > 0,
        forall|i: int| 0 <= i < args.len() ==> all_in(#[trigger] args[i], Class::Argument),
        stands_at(t, arguments_text(args), k),
        stops_at(t, k + arguments_text(args).len()),
    ensures
        arguments_at(t, k) == (Read { args, end: k + arguments_text(args).len() }),
    decreases args.len(),
{
    let first = args[0];
    let e = k + first.len();
    assert(all_in(first, Class::Argument));
    reveal_strlit(",");
    if args.len() == 1 {
        assert forall|i: int| k <= i < e implies in_class(#[trigger] t[i], Class::Argument) by {
            assert(t[k + (i - k)] == first[i - k]);
        }
        lemma_run_end_is(t, k, e, Class::Argument);
        assert(t.subrange(k, e) =~= first);
        assert(seq![first] =~= args);
    } else {
        let rest = args.skip(1);
        let tail = arguments_text(rest);
        lemma_stands_split(t, first + ","@, tail, k);
        lemma_stands_split(t, first, ","@, k);
        assert(","@[0] == ',');
        assert(t[e] == ',') by {
            assert(t[e + 0] == ","@[0]);
        }
        assert forall|i: int| k <= i < e implies in_class(#[trigger] t[i], Class::Argument) by {
            assert(t[k + (i - k)] == first[i - k]);
        }
        lemma_run_end_is(t, k, e, Class::Argument);
        assert(t.subrange(k, e) =~= first);
        assert forall|i: int| 0 <= i < rest.len() implies all_in(
            #[trigger] rest[i],
            Class::Argument,
        ) by {
            assert(rest[i] == args[i + 1]);
        }
        lemma_arguments_at(t, e + 1, rest);
        assert(seq![first] + rest =~= args);
    }
}

/// An item is read where it is written.
proof fn lemma_item_at(t: Seq<char>, k: int, args: Seq<Seq<char>>)
    requires
        item_wf(args),
        stands_at(t, item_text(args), k),
        stops_at(t, k + item_text(args).len()),
    ensures
        item_text(args).len() > 0,
        item_text(args)[0] == ':',
        item_at(t, k) == Some(Read { args, end: k + item_text(args).len() }),
{
    reveal_strlit(":");
    reveal_strlit("=");
    reveal_strlit(":/");
    reveal_strlit("");
    let text = item_text(args);
    let end = k + text.len();
    let name = args[0];
    assert(""@.len() == 0);
    if args.len() == 2 && name == ""@ {
        let arg = args[1];
        let rest = seq![arg];
        assert(all_in(arg, Class::Argument));
        lemma_stands_split(t, ":/"@, arg, k);
        assert(t[k + 0] == ":/"@[0]);
        assert(t[k + 1] == ":/"@[1]);
        lemma_run_end_is(t, k + 1, k + 1, Class::Name);
        assert(t.subrange(k + 1, k + 1) =~= ""@);
        assert(arguments_text(rest) == arg);
        lemma_arguments_at(t, k + 2, rest);
        assert(seq![""@] + rest =~= args);
    } else if args.len() == 1 {
        lemma_stands_split(t, ":"@, name, k);
        assert(t[k + 0] == ":"@[0]);
        assert(t[k + 1 + 0] == name[0]);
        assert(in_class(name[0], Class::Name));
        assert forall|i: int| k + 1 <= i < end implies in_class(#[trigger] t[i], Class::Name) by {
            assert(t[k + 1 + (i - k - 1)] == name[i - k - 1]);
        }
        lemma_run_end_is(t, k + 1, end, Class::Name);
        assert(t.subrange(k + 1, end) =~= name);
        assert(seq![name] =~= args);
    } else {
        let rest = args.skip(1);
        let tail = arguments_text(rest);
        let e = k + 1 + name.len();
        lemma_stands_split(t, ":"@ + name + "="@, tail, k);
        lemma_stands_split(t, ":"@ + name, "="@, k);
        lemma_stands_split(t, ":"@, name, k);
        assert(t[k + 0] == ":"@[0]);
        assert(t[k + 1 + 0] == name[0]);
        assert(in_class(name[0], Class::Name));
        assert(t[e + 0] == "="@[0]);
        assert forall|i: int| k + 1 <= i < e implies in_class(#[trigger] t[i], Class::Name) by {
            assert(t[k + 1 + (i - k - 1)] == name[i - k - 1]);
        }
        lemma_run_end_is(t, k + 1, e, Class::Name);
        assert(t.subrange(k + 1, e) =~= name);
        assert forall|i: int| 0 <= i < rest.len() implies all_in(
            #[trigger] rest[i],
            Class::Argument,
        ) by {
            assert(rest[i] == args[i + 1]);
        }
        lemma_arguments_at(t, e + 1, rest);
        assert(seq![name] + rest =~= args);
    }
}

/// All items can be written.
pub open spec fn row_wf(items: Seq<Seq<Seq<char>>>) -> bool {
    forall|i: int| 0 <= i < items.len() ==> item_wf(#[trigger] items[i])
}

proof fn lemma_row_prefix(items: Seq<Seq<Seq<char>>>, i: int, k: int)
    requires
        0 <= i <= k <= items.len(),
    ensures
        row_text(items, i).len() <= row_text(items, k).len(),
        i < k ==> stands_at(
            row_text(items, k),
            item_text(items[i]),
            row_text(items, i).len() as int,
        ),
        i < k ==> row_text(items, i + 1).len() == row_text(items, i).len() + item_text(
            items[i],
        ).len(),
    decreases k - i,
{
    if i < k {
        lemma_row_prefix(items, i, k - 1);
        let whole = row_text(items, k);
        let front = row_text(items, k - 1);
        let last = item_text(items[k - 1]);
        if i < k - 1 {
            assert forall|j: int| 0 <= j < item_text(items[i]).len() implies whole[row_text(
                items,
                i,
            ).len() + j] == #[trigger] item_text(items[i])[j] by {
                assert(front[row_text(items, i).len() + j] == item_text(items[i])[j]);
            }
        } else {
            assert forall|j: int| 0 <= j < last.len() implies whole[front.len() + j]
                == #[trigger] last[j] by {}
        }
    }
}

/// The items that stand from `b` on are read one after the other.
proof fn lemma_row_at(t: Seq<char>, b: int, items: Seq<Seq<Seq<char>>>, i: int)
    requires
        row_wf(items),
        0 <= b <= t.len(),
        t.skip(b) == row_text(items, items.len() as int),
        0 <= i <= items.len(),
    ensures
        items_from(t, b + row_text(items, i).len()) == items.skip(i),
        items_end(t, b + row_text(items, i).len()) == t.len(),
    decreases items.len() - i,
{
    let n = items.len() as int;
    let whole = row_text(items, n);
    let k = b + row_text(items, i).len();
    lemma_row_prefix(items, i, n);
    if i < n {
        let text = item_text(items[i]);
        let end = k + text.len();
        lemma_row_prefix(items, i + 1, n);
        assert(item_wf(items[i]));
        assert(stands_at(t, text, k)) by {
            assert forall|j: int| 0 <= j < text.len() implies t[k + j] == #[trigger] text[j] by {
                assert(whole[row_text(items, i).len() + j] == text[j]);
                assert(t.skip(b)[row_text(items, i).len() + j] == t[k + j]);
            }
        }
        assert(stops_at(t, end)) by {
            if i + 1 < n {
                let following = item_text(items[i + 1]);
                assert(item_wf(items[i + 1]));
                lemma_item_starts(items[i + 1]);
                assert(whole[row_text(items, i + 1).len() + 0int] == following[0]);
                assert(t.skip(b)[row_text(items, i + 1).len() as int] == t[end]);
            } else {
                assert(row_text(items, i + 1) == whole);
            }
        }
        lemma_item_at(t, k, items[i]);
        lemma_row_at(t, b, items, i + 1);
        assert(seq![items[i]] + items.skip(i + 1) =~= items.skip(i));
    } else {
        assert(k == t.len());
        assert(items.skip(i) =~= Seq::<Seq<Seq<char>>>::empty());
    }
}

proof fn lemma_item_starts(args: Seq<Seq<char>>)
    requires
        item_wf(args),
    ensures
        item_text(args).len() > 0,
        item_text(args)[0] == ':',
{
    reveal_strlit(":");
    reveal_strlit(":/");
    assert(":"@[0] == ':');
    assert(":/"@[0] == ':');
}

/// A row of items is read as it was written.
pub proof fn law_row_round_trip(items: Seq<Seq<Seq<char>>>)
    requires
        row_wf(items),
    ensures
        items_from(row_text(items, items.len() as int), 0) == items,
        items_end(row_text(items, items.len() as int), 0) == row_text(
            items,
            items.len() as int,
        ).len(),
{
    let t = row_text(items, items.len() as int);
    assert(t.skip(0) =~= t);
    lemma_row_at(t, 0, items, 0);
    assert(items.skip(0) =~= items);
}

/// Values that can stand in the text of an info filter.
pub open spec fn values_wf(values: Seq<PairView>) -> bool {
    &&& values.len() > 0
    &&& sorted(values)
    &&& forall|i: int|
        0 <= i < values.len() ==> {
            &&& all_in((#[trigger] values[i]).0, Class::Path)
            &&& all_in(values[i].1, Class::Path)
        }
}

/// The values as arguments.
pub open spec fn value_arguments(values: Seq<PairView>) -> Seq<Seq<char>> {
    Seq::new(values.len(), |i: int| values[i].0 + "="@ + values[i].1)
}

proof fn lemma_arguments_text_push(args: Seq<Seq<char>>, x: Seq<char>)
    requires
        args.len() > 0,
    ensures
        arguments_text(args.push(x)) == arguments_text(args) + ","@ + x,
    decreases args.len(),
{
    let more = args.push(x);
    assert(more.skip(1) =~= args.skip(1).push(x));
    if args.len() == 1 {
        assert(more.skip(1) =~= seq![x]);
        assert(arguments_text(more.skip(1)) == x);
        assert(arguments_text(more) =~= arguments_text(args) + ","@ + x);
    } else {
        lemma_arguments_text_push(args.skip(1), x);
        assert(arguments_text(more) =~= arguments_text(args) + ","@ + x);
    }
}

proof fn lemma_values_text(values: Seq<PairView>, k: int)
    requires
        1 <= k <= values.len(),
    ensures
        values_text(values, k) == arguments_text(value_arguments(values).take(k)) + ","@,
    decreases k,
{
    let args = value_arguments(values);
    let here = values[k - 1].0 + "="@ + values[k - 1].1;
    if k == 1 {
        assert(args.take(1) =~= seq![here]);
        assert(values_text(values, 0) =~= Seq::<char>::empty());
        assert(values_text(values, 1) =~= here + ","@);
    } else {
        lemma_values_text(values, k - 1);
        assert(args.take(k) =~= args.take(k - 1).push(here));
        lemma_arguments_text_push(args.take(k - 1), here);
        assert(values_text(values, k) =~= arguments_text(args.take(k)) + ","@);
    }
}

/// The last character of arguments that are made of keys and values is no comma.
proof fn lemma_arguments_last(values: Seq<PairView>, k: int)
    requires
        values_wf(values),
        1 <= k <= values.len(),
    ensures
        arguments_text(value_arguments(values).take(k)).len() > 0,
        arguments_text(value_arguments(values).take(k)).last() != ',',
{
    let args = value_arguments(values);
    let v = values[k - 1];
    let here = v.0 + "="@ + v.1;
    reveal_strlit("=");
    assert(all_in(v.1, Class::Path));
    assert(here.last() != ',') by {
        if v.1.len() > 0 {
            assert(here.last() == v.1.last());
            assert(in_class(v.1[v.1.len() - 1], Class::Path));
        } else {
            assert(here.last() == "="@[0]);
        }
    }
    if k == 1 {
        assert(args.take(1) =~= seq![here]);
    } else {
        assert(args.take(k) =~= args.take(k - 1).push(here));
        lemma_arguments_text_push(args.take(k - 1), here);
    }
}

proof fn lemma_next_is(t: Seq<char>, c: char, k: int, e: int)
    requires
        0 <= k <= e <= t.len(),
        forall|i: int| k <= i < e ==> #[trigger] t[i] != c,
        e < t.len() ==> t[e] == c,
    ensures
        next(t, c, k) == e,
    decreases e - k,
{
    if k < e {
        lemma_next_is(t, c, k + 1, e);
    }
}

/// A key and a value are found again in the argument that they make.
proof fn lemma_split_pair(key: Seq<char>, value: Seq<char>)
    requires
        all_in(key, Class::Path),
        all_in(value, Class::Path),
    ensures
        split(key + "="@ + value, '=') == seq![key, value],
{
    reveal_strlit("=");
    let t = key + "="@ + value;
    let e = key.len() as int;
    assert forall|i: int| 0 <= i < e implies #[trigger] t[i] != '=' by {
        assert(in_class(key[i], Class::Path));
    }
    assert(t[e] == "="@[0]);
    lemma_next_is(t, '=', 0, e);
    assert forall|i: int| e + 1 <= i < t.len() implies #[trigger] t[i] != '=' by {
        assert(in_class(value[i - e - 1], Class::Path));
    }
    lemma_next_is(t, '=', e + 1, t.len() as int);
    assert(t.subrange(0, e) =~= key);
    assert(t.skip(e + 1) =~= value);
    assert(split_from(t, '=', e + 1) =~= seq![value]);
    assert(split(t, '=') =~= seq![key, value]);
}

proof fn lemma_place_last(s: Seq<PairView>, k: Seq<char>, i: int)
    requires
        0 <= i <= s.len(),
        forall|j: int| i <= j < s.len() ==> before((#[trigger] s[j]).0, k),
    ensures
        place_from(s, k, i) == s.len(),
    decreases s.len() - i,
{
    if i < s.len() {
        assert(before(s[i].0, k));
        lemma_place_last(s, k, i + 1);
    }
}

/// Values are read as they were written.
proof fn lemma_value_arguments(values: Seq<PairView>, k: int)
    requires
        values_wf(values),
        0 <= k <= values.len(),
    ensures
        arguments(value_arguments(values).take(k)) == values.take(k),
    decreases k,
{
    let args = value_arguments(values);
    if k == 0 {
        assert(args.take(0) =~= Seq::<Seq<char>>::empty());
        assert(values.take(0) =~= Seq::<PairView>::empty());
    } else {
        let v = values[k - 1];
        lemma_value_arguments(values, k - 1);
        assert(args.take(k).drop_last() =~= args.take(k - 1));
        assert(args.take(k).last() == v.0 + "="@ + v.1);
        assert(all_in(v.0, Class::Path) && all_in(v.1, Class::Path));
        lemma_split_pair(v.0, v.1);
        let s = values.take(k - 1);
        assert forall|j: int| 0 <= j < s.len() implies before((#[trigger] s[j]).0, v.0) by {
            assert(before(values[j].0, values[k - 1].0));
        }
        lemma_place_last(s, v.0, 0);
        assert(with_pair(s, v.0, v.1) =~= values.take(k));
    }
}

/// A filter that is one item.
pub open spec fn is_item(f: FilterView) -> bool {
    match f {
        FilterView::Dirs => true,
        FilterView::Fold => true,
        FilterView::Empty => true,
        FilterView::Cutoff(x) => all_in(x, Class::Argument),
        FilterView::Subdir(x) => all_in(x, Class::Argument) && subdir_filter(x)
            == FilterView::Subdir(x),
        FilterView::Prefix(x) => all_in(x, Class::Argument),
        FilterView::Hide(x) => all_in(x, Class::Argument),
        FilterView::Glob { pattern, .. } => all_in(pattern, Class::Argument) && glob_is_valid(
            pattern,
        ),
        FilterView::Info(values) => values_wf(values),
        FilterView::Workspace(x) => all_in(x, Class::Argument),
        _ => false,
    }
}

/// The item that stands for a filter.
pub open spec fn item_of(f: FilterView) -> Seq<Seq<char>> {
    match f {
        FilterView::Dirs => seq!["DIRS"@],
        FilterView::Fold => seq!["FOLD"@],
        FilterView::Cutoff(x) => seq!["CUTOFF"@, x],
        FilterView::Subdir(x) => seq![""@, x],
        FilterView::Prefix(x) => seq!["prefix"@, x],
        FilterView::Hide(x) => seq!["hide"@, x],
        FilterView::Glob { pattern, invert } => seq![
            if invert {
                "~glob"@
            } else {
                "glob"@
            },
            pattern,
        ],
        FilterView::Info(values) => seq!["INFO"@] + value_arguments(values),
        FilterView::Workspace(x) => seq!["workspace"@, x],
        _ => seq!["empty"@],
    }
}

/// The names of filters are what they are.
proof fn lemma_names()
    ensures
        all_in("DIRS"@, Class::Name) && "DIRS"@.len() > 0 && "DIRS"@[0] == 'D',
        all_in("FOLD"@, Class::Name) && "FOLD"@.len() > 0 && "FOLD"@[0] == 'F',
        all_in("CUTOFF"@, Class::Name) && "CUTOFF"@.len() > 0 && "CUTOFF"@[0] == 'C',
        all_in("prefix"@, Class::Name) && "prefix"@.len() > 0 && "prefix"@[0] == 'p',
        all_in("hide"@, Class::Name) && "hide"@.len() > 0 && "hide"@[0] == 'h',
        all_in("~glob"@, Class::Name) && "~glob"@.len() > 0 && "~glob"@[0] == '~',
        all_in("glob"@, Class::Name) && "glob"@.len() > 0 && "glob"@[0] == 'g',
        all_in("INFO"@, Class::Name) && "INFO"@.len() > 0 && "INFO"@[0] == 'I',
        all_in("workspace"@, Class::Name) && "workspace"@.len() > 0 && "workspace"@[0] == 'w',
        all_in("empty"@, Class::Name) && "empty"@.len() > 0 && "empty"@[0] == 'e',
        "nop"@.len() > 0 && "nop"@[0] == 'n',
        "+"@.len() > 0 && "+"@[0] == '+',
        ""@.len() == 0,
{
    reveal_strlit("DIRS");
    reveal_strlit("FOLD");
    reveal_strlit("CUTOFF");
    reveal_strlit("prefix");
    reveal_strlit("hide");
    reveal_strlit("~glob");
    reveal_strlit("glob");
    reveal_strlit("INFO");
    reveal_strlit("workspace");
    reveal_strlit("empty");
    reveal_strlit("nop");
    reveal_strlit("+");
    reveal_strlit("");
}

/// The text of a filter that is one item is the item as it is written.
proof fn lemma_item_spec(f: FilterView)
    requires
        is_item(f),
    ensures
        spec_text(f) == item_text(item_of(f)),
{
    lemma_names();
    reveal_strlit(":");
    reveal_strlit("=");
    let args = item_of(f);
    let text = item_text(args);
    match f {
        FilterView::Dirs => {
            reveal_strlit(":DIRS");
            reveal_strlit("DIRS");
            assert(":DIRS"@ =~= text);
        },
        FilterView::Fold => {
            reveal_strlit(":FOLD");
            reveal_strlit("FOLD");
            assert(":FOLD"@ =~= text);
        },
        FilterView::Empty => {
            reveal_strlit(":empty");
            reveal_strlit("empty");
            assert(":empty"@ =~= text);
        },
        FilterView::Cutoff(x) => {
            reveal_strlit(":CUTOFF=");
            reveal_strlit("CUTOFF");
            assert(args.skip(1) =~= seq![x]);
            assert(":CUTOFF="@ + x =~= text);
        },
        FilterView::Subdir(x) => {},
        FilterView::Prefix(x) => {
            reveal_strlit(":prefix=");
            reveal_strlit("prefix");
            assert(args.skip(1) =~= seq![x]);
            assert(":prefix="@ + x =~= text);
        },
        FilterView::Hide(x) => {
            reveal_strlit(":hide=");
            reveal_strlit("hide");
            assert(args.skip(1) =~= seq![x]);
            assert(":hide="@ + x =~= text);
        },
        FilterView::Glob { pattern, invert } => {
            reveal_strlit(":glob=");
            reveal_strlit("glob");
            reveal_strlit(":~glob=");
            reveal_strlit("~glob");
            assert(args.skip(1) =~= seq![pattern]);
            assert(spec_text(f) =~= text);
        },
        FilterView::Info(values) => {
            reveal_strlit(":INFO=");
            reveal_strlit("INFO");
            reveal_strlit(",");
            let n = values.len() as int;
            let vs = value_arguments(values);
            assert(args.skip(1) =~= vs);
            assert(vs.take(n) =~= vs);
            lemma_values_text(values, n);
            lemma_arguments_last(values, n);
            let whole = ":INFO="@ + values_text(values, n);
            assert(text =~= ":INFO="@ + arguments_text(vs));
            assert(whole =~= text.push(','));
            assert(whole.drop_last() =~= text);
            assert(text.last() == arguments_text(vs).last());
            assert(trim_end(text, ',') == text);
        },
        FilterView::Workspace(x) => {
            reveal_strlit(":workspace=");
            reveal_strlit("workspace");
            assert(args.skip(1) =~= seq![x]);
            assert(":workspace="@ + x =~= text);
        },
        _ => {},
    }
}

/// The item for a filter stands for that filter.
proof fn lemma_item_made(f: FilterView)
    requires
        is_item(f),
    ensures
        made(item_of(f)) == f,
        pattern_ok(item_of(f)),
        item_wf(item_of(f)),
{
    lemma_names();
    let args = item_of(f);
    if let FilterView::Info(values) = f {
        let vs = value_arguments(values);
        let n = values.len() as int;
        assert(args.skip(1) =~= vs);
        assert(vs.take(n) =~= vs);
        assert(values.take(n) =~= values);
        lemma_value_arguments(values, n);
        assert forall|i: int| 0 < i < args.len() implies all_in(
            #[trigger] args[i],
            Class::Argument,
        ) by {
            reveal_strlit("=");
            let v = values[i - 1];
            assert(args[i] == v.0 + "="@ + v.1);
            assert(all_in(v.0, Class::Path) && all_in(v.1, Class::Path));
            assert forall|j: int| 0 <= j < args[i].len() implies in_class(
                #[trigger] args[i][j],
                Class::Argument,
            ) by {
                if j < v.0.len() {
                    assert(in_class(v.0[j], Class::Path));
                } else if j > v.0.len() {
                    assert(in_class(v.1[j - v.0.len() - 1], Class::Path));
                }
            }
        }
    }
}

/// Only the first character of an item is a colon, and its name does not start as that of
/// the filter that keeps everything.
proof fn lemma_item_colon(f: FilterView)
    requires
        is_item(f),
    ensures
        ({
            let t = item_text(item_of(f));
            &&& t.len() >= 2
            &&& t[0] == ':'
            &&& t[1] != 'n'
            &&& forall|i: int| 0 < i < t.len() ==> #[trigger] t[i] != ':'
        }),
{
    lemma_names();
    lemma_item_made(f);
    reveal_strlit(":");
    reveal_strlit("=");
    reveal_strlit(":/");
    reveal_strlit(",");
    let args = item_of(f);
    let t = item_text(args);
    let name = args[0];
    if args.len() == 2 && name == ""@ {
        assert(all_in(args[1], Class::Argument));
        assert forall|i: int| 0 < i < t.len() implies #[trigger] t[i] != ':' by {
            if i >= 2 {
                assert(in_class(args[1][i - 2], Class::Argument));
            }
        }
    } else if args.len() == 1 {
        assert forall|i: int| 0 < i < t.len() implies #[trigger] t[i] != ':' by {
            assert(in_class(name[i - 1], Class::Name));
        }
    } else {
        let rest = args.skip(1);
        let tail = arguments_text(rest);
        assert forall|i: int| 0 <= i < rest.len() implies all_in(
            #[trigger] rest[i],
            Class::Argument,
        ) by {
            assert(rest[i] == args[i + 1]);
        }
        lemma_arguments_colon(rest);
        assert forall|i: int| 0 < i < t.len() implies #[trigger] t[i] != ':' by {
            if i <= name.len() {
                assert(t[i] == name[i - 1]);
                assert(in_class(name[i - 1], Class::Name));
            } else if i == name.len() + 1 {
                assert(t[i] == "="@[0]);
            } else {
                assert(t[i] == tail[i - name.len() - 2]);
            }
        }
    }
}

proof fn lemma_arguments_colon(args: Seq<Seq<char>>)
    requires
        forall|i: int| 0 <= i < args.len() ==> all_in(#[trigger] args[i], Class::Argument),
    ensures
        forall|i: int|
            0 <= i < arguments_text(args).len() ==> #[trigger] arguments_text(args)[i] != ':',
    decreases args.len(),
{
    reveal_strlit(",");
    let t = arguments_text(args);
    if args.len() > 0 {
        assert(all_in(args[0], Class::Argument));
        if args.len() == 1 {
            assert forall|i: int| 0 <= i < t.len() implies #[trigger] t[i] != ':' by {
                assert(in_class(args[0][i], Class::Argument));
            }
        } else {
            let rest = args.skip(1);
            assert forall|i: int| 0 <= i < rest.len() implies all_in(
                #[trigger] rest[i],
                Class::Argument,
            ) by {
                assert(rest[i] == args[i + 1]);
            }
            lemma_arguments_colon(rest);
            assert forall|i: int| 0 <= i < t.len() implies #[trigger] t[i] != ':' by {
                if i < args[0].len() {
                    assert(in_class(args[0][i], Class::Argument));
                } else if i == args[0].len() {
                    assert(t[i] == ","@[0]);
                } else {
                    assert(t[i] == arguments_text(rest)[i - args[0].len() - 1]);
                }
            }
        }
    }
}

/// A filter that is a row of items, one after the other.
pub open spec fn is_row(f: FilterView) -> bool
    decreases f,
{
    match f {
        FilterView::Chain(a, b) => is_row(*a) && is_item(*b),
        _ => is_item(f),
    }
}

/// The items of a row.
pub open spec fn row_of(f: FilterView) -> Seq<Seq<Seq<char>>>
    decreases f,
{
    match f {
        FilterView::Chain(a, b) => row_of(*a).push(item_of(*b)),
        _ => seq![item_of(f)],
    }
}

proof fn lemma_row_text_push(items: Seq<Seq<Seq<char>>>, x: Seq<Seq<char>>, k: int)
    requires
        0 <= k <= items.len(),
    ensures
        row_text(items.push(x), k) == row_text(items, k),
    decreases k,
{
    if k > 0 {
        lemma_row_text_push(items, x, k - 1);
    }
}

proof fn lemma_chained_push(items: Seq<Seq<Seq<char>>>, x: Seq<Seq<char>>, k: int)
    requires
        0 <= k <= items.len(),
    ensures
        chained(items.push(x), k) == chained(items, k),
    decreases k,
{
    if k > 1 {
        lemma_chained_push(items, x, k - 1);
    }
}

/// The text of the filter that keeps everything does not stand in the text.
spec fn has_no_nop(t: Seq<char>) -> bool {
    forall|i: int| !#[trigger] occurs_at(t, ":nop"@, i)
}

proof fn lemma_find_none(t: Seq<char>, p: Seq<char>, i: int)
    requires
        0 <= i,
        forall|j: int| !#[trigger] occurs_at(t, p, j),
    ensures
        find_from(t, p, i) is None,
{
    lemma_find_from(t, p, i);
}

proof fn lemma_no_nop_push(s: Seq<char>, f: FilterView)
    requires
        has_no_nop(s),
        is_item(f),
    ensures
        has_no_nop(s + item_text(item_of(f))),
{
    reveal_strlit(":nop");
    lemma_item_colon(f);
    let nop = ":nop"@;
    let t = item_text(item_of(f));
    let w = s + t;
    assert forall|i: int| !#[trigger] occurs_at(w, nop, i) by {
        if occurs_at(w, nop, i) {
            let part = w.subrange(i, i + 4);
            assert(part == nop);
            assert(part[0] == ':' && part[1] == 'n' && part[2] == 'o' && part[3] == 'p');
            assert(w[i] == ':' && w[i + 1] == 'n' && w[i + 2] == 'o' && w[i + 3] == 'p');
            if i + 4 <= s.len() {
                assert(s.subrange(i, i + 4) =~= nop);
                assert(occurs_at(s, nop, i));
            } else if i < s.len() {
                assert(w[s.len() as int] == t[0]);
            } else if i == s.len() {
                assert(w[i + 1] == t[1]);
            } else {
                assert(w[i] == t[i - s.len()]);
            }
        }
    }
}

proof fn lemma_row(f: FilterView)
    requires
        is_row(f),
    ensures
        row_wf(row_of(f)),
        row_of(f).len() > 0,
        spec_text(f) == row_text(row_of(f), row_of(f).len() as int),
        chained(row_of(f), row_of(f).len() as int) == f,
        forall|i: int| 0 <= i < row_of(f).len() ==> pattern_ok(#[trigger] row_of(f)[i]),
        has_no_nop(spec_text(f)),
    decreases f,
{
    let items = row_of(f);
    reveal_strlit(":nop");
    match f {
        FilterView::Chain(a, b) => {
            lemma_row(*a);
            lemma_item_made(*b);
            lemma_item_spec(*b);
            let front = row_of(*a);
            let n = front.len() as int;
            lemma_row_text_push(front, item_of(*b), n);
            lemma_chained_push(front, item_of(*b), n);
            lemma_no_nop_push(spec_text(*a), *b);
            assert forall|i: int| 0 <= i < items.len() implies item_wf(#[trigger] items[i])
                && pattern_ok(items[i]) by {
                if i < n {
                    assert(items[i] == front[i]);
                }
            }
            let whole = spec_text(*a) + spec_text(*b);
            lemma_find_none(whole, ":nop"@, 0);
            assert(remove_first(whole, ":nop"@) == whole);
        },
        _ => {
            lemma_item_made(f);
            lemma_item_spec(f);
            let none = Seq::<char>::empty();
            assert(has_no_nop(none)) by {
                assert forall|i: int| !#[trigger] occurs_at(none, ":nop"@, i) by {}
            }
            lemma_no_nop_push(none, f);
            assert(none + spec_text(f) =~= spec_text(f));
            assert(row_text(items, 0) =~= none);
            assert(row_text(items, 1) =~= spec_text(f));
        },
    }
}

/// Reading the text of a filter that is a row of items gives the filter. All patterns in
/// the text are well formed.
pub proof fn law_parse_round_trip(f: FilterView)
    requires
        is_row(f),
    ensures
        parsed(spec_text(f)) == Ok::<FilterView, ErrorView>(f),
        parsed_chain(spec_text(f)) == f,
        patterns_ok(spec_text(f)),
        row_ok(spec_text(f)),
{
    let items = row_of(f);
    let t = spec_text(f);
    lemma_row(f);
    law_row_round_trip(items);
    lemma_row_starts(f);
}

proof fn lemma_row_starts(f: FilterView)
    requires
        is_row(f),
    ensures
        spec_text(f).len() >= 2,
        spec_text(f)[0] == ':',
{
    let items = row_of(f);
    let n = items.len() as int;
    lemma_row(f);
    lemma_row_prefix(items, 0, n);
    lemma_row_prefix(items, 1, n);
    assert(item_wf(items[0]));
    lemma_item_starts(items[0]);
    let first = item_text(items[0]);
    assert(row_text(items, 0) =~= Seq::<char>::empty());
    assert(spec_text(f)[row_text(items, 0).len() + 0int] == first[0]);
    lemma_item_long(items[0]);
    assert(row_text(items, 1) =~= first);
}

proof fn lemma_item_long(args: Seq<Seq<char>>)
    requires
        item_wf(args),
    ensures
        item_text(args).len() >= 2,
{
    reveal_strlit(":/");
    reveal_strlit(":");
    reveal_strlit("=");
}

/// The text of the filter that keeps everything stands for it, and so does no text.
pub proof fn law_parse_nop()
    ensures
        parsed(spec_text(FilterView::Nop)) == Ok::<FilterView, ErrorView>(FilterView::Nop),
        parsed(Seq::empty()) == Ok::<FilterView, ErrorView>(FilterView::Nop),
        patterns_ok(spec_text(FilterView::Nop)),
        patterns_ok(Seq::empty()),
{
    reveal_strlit(":nop");
    reveal_strlit(":");
    reveal_strlit("nop");
    lemma_names();
    let items = seq![seq!["nop"@]];
    assert(item_wf(items[0]));
    assert(row_text(items, 0) =~= Seq::<char>::empty());
    assert(row_text(items, 1) =~= ":nop"@);
    law_row_round_trip(items);
    assert(chained(items, 1) == made(items[0]));
}

/// No blank, and no end of a line, stands in the text.
spec fn is_solid(t: Seq<char>) -> bool {
    forall|i: int| 0 <= i < t.len() ==> !in_class(#[trigger] t[i], Class::Blank) && t[i] != '\n'
}

proof fn lemma_solid_join(s: Seq<char>, t: Seq<char>)
    requires
        is_solid(s),
        is_solid(t),
    ensures
        is_solid(s + t),
{
    let w = s + t;
    assert forall|i: int| 0 <= i < w.len() implies !in_class(#[trigger] w[i], Class::Blank) && w[i]
        != '\n' by {
        if i < s.len() {
            assert(w[i] == s[i]);
        } else {
            assert(w[i] == t[i - s.len()]);
        }
    }
}

proof fn lemma_solid_class(t: Seq<char>, class: Class)
    requires
        all_in(t, class),
        class == Class::Name || class == Class::Argument || class == Class::Path,
    ensures
        is_solid(t),
{
    assert forall|i: int| 0 <= i < t.len() implies !in_class(#[trigger] t[i], Class::Blank) && t[i]
        != '\n' by {
        assert(in_class(t[i], class));
    }
}

proof fn lemma_solid_arguments(args: Seq<Seq<char>>)
    requires
        forall|i: int| 0 <= i < args.len() ==> all_in(#[trigger] args[i], Class::Argument),
    ensures
        is_solid(arguments_text(args)),
    decreases args.len(),
{
    if args.len() > 0 {
        assert(all_in(args[0], Class::Argument));
        lemma_solid_class(args[0], Class::Argument);
        if args.len() > 1 {
            reveal_strlit(",");
            assert(is_solid(","@));
            let rest = args.skip(1);
            assert forall|i: int| 0 <= i < rest.len() implies all_in(
                #[trigger] rest[i],
                Class::Argument,
            ) by {
                assert(rest[i] == args[i + 1]);
            }
            lemma_solid_arguments(rest);
            lemma_solid_join(args[0], ","@);
            lemma_solid_join(args[0] + ","@, arguments_text(rest));
        }
    }
}

proof fn lemma_solid_item(args: Seq<Seq<char>>)
    requires
        item_wf(args),
    ensures
        is_solid(item_text(args)),
{
    reveal_strlit(":");
    reveal_strlit("=");
    reveal_strlit(":/");
    reveal_strlit("");
    assert(is_solid(":"@) && is_solid("="@) && is_solid(":/"@));
    if args.len() == 2 && args[0] == ""@ {
        assert(all_in(args[1], Class::Argument));
        lemma_solid_class(args[1], Class::Argument);
        lemma_solid_join(":/"@, args[1]);
    } else {
        lemma_solid_class(args[0], Class::Name);
        lemma_solid_join(":"@, args[0]);
        if args.len() > 1 {
            let rest = args.skip(1);
            assert forall|i: int| 0 <= i < rest.len() implies all_in(
                #[trigger] rest[i],
                Class::Argument,
            ) by {
                assert(rest[i] == args[i + 1]);
            }
            lemma_solid_arguments(rest);
            lemma_solid_join(":"@ + args[0], "="@);
            lemma_solid_join(":"@ + args[0] + "="@, arguments_text(rest));
        }
    }
}

proof fn lemma_solid_row(items: Seq<Seq<Seq<char>>>, k: int)
    requires
        row_wf(items),
        0 <= k <= items.len(),
    ensures
        is_solid(row_text(items, k)),
    decreases k,
{
    if k > 0 {
        lemma_solid_row(items, k - 1);
        assert(item_wf(items[k - 1]));
        lemma_solid_item(items[k - 1]);
        lemma_solid_join(row_text(items, k - 1), item_text(items[k - 1]));
    }
}

/// A mount that can be written on a line.
pub open spec fn mount_wf(m: MountView) -> bool {
    m.prefix.len() > 0 && all_in(m.prefix, Class::Path) && is_row(m.filter)
}

/// A mount is read from the line that is its text.
pub proof fn lemma_mount_line(m: MountView)
    requires
        mount_wf(m),
    ensures
        mount_text(m).len() > 0,
        forall|i: int| 0 <= i < mount_text(m).len() ==> #[trigger] mount_text(m)[i] != '\n',
        trimmed(mount_text(m)) == mount_text(m),
        mount_on(mount_text(m)) == Some(
            MountText { path: m.prefix, filter: Some(spec_text(m.filter)) },
        ),
        mount_of(mount_on(mount_text(m))->0) == Ok::<MountView, ErrorView>(m),
        mount_at(mount_text(m)) == m,
        line_patterns_ok(mount_text(m)),
{
    reveal_strlit(" = ");
    let line = mount_text(m);
    let text = spec_text(m.filter);
    let p = m.prefix.len() as int;
    let items = row_of(m.filter);
    let n = items.len() as int;
    lemma_row(m.filter);
    lemma_row_starts(m.filter);
    lemma_solid_row(items, n);
    lemma_solid_class(m.prefix, Class::Path);
    assert(line =~= m.prefix + " = "@ + text);
    assert forall|i: int| 0 <= i < line.len() implies #[trigger] line[i] != '\n' by {
        if i < p {
            assert(line[i] == m.prefix[i]);
        } else if i < p + 3 {
            assert(line[i] == " = "@[i - p]);
        } else {
            assert(line[i] == text[i - p - 3]);
        }
    }
    assert(line[0] == m.prefix[0]);
    assert(!in_class(line[0], Class::Blank));
    assert(run_end(line, 0, Class::Blank) == 0);
    assert(line.skip(0) =~= line);
    assert(line.last() == text[text.len() - 1]);
    assert(trim_blank(line) == line);
    assert forall|i: int| 0 <= i < p implies in_class(#[trigger] line[i], Class::Path) by {
        assert(line[i] == m.prefix[i]);
    }
    assert(line[p] == " = "@[0]);
    assert(line[p + 1] == " = "@[1]);
    assert(line[p + 2] == " = "@[2]);
    assert(line[p + 3] == text[0]);
    lemma_run_end_is(line, 0, p, Class::Path);
    lemma_run_end_is(line, p, p + 1, Class::Blank);
    lemma_run_end_is(line, p + 2, p + 3, Class::Blank);
    assert(line.skip(p + 3) =~= text);
    assert(line.take(p) =~= m.prefix);
    assert(row_text(items, 0) =~= Seq::<char>::empty());
    lemma_row_at(line, p + 3, items, 0);
    law_parse_round_trip(m.filter);
}

proof fn lemma_lines_prefix(ts: Seq<Seq<char>>, i: int, k: int)
    requires
        0 <= i <= k <= ts.len(),
    ensures
        lines_text(ts, i).len() <= lines_text(ts, k).len(),
        i < k ==> stands_at(lines_text(ts, k), ts[i] + "\n"@, lines_text(ts, i).len() as int),
        i < k ==> lines_text(ts, i + 1).len() == lines_text(ts, i).len() + ts[i].len() + 1,
    decreases k - i,
{
    reveal_strlit("\n");
    if i < k {
        lemma_lines_prefix(ts, i, k - 1);
        let whole = lines_text(ts, k);
        let front = lines_text(ts, k - 1);
        let here = ts[i] + "\n"@;
        if i < k - 1 {
            assert forall|j: int| 0 <= j < here.len() implies whole[lines_text(ts, i).len() + j]
                == #[trigger] here[j] by {
                assert(front[lines_text(ts, i).len() + j] == here[j]);
            }
        } else {
            assert(whole =~= front + here);
            assert forall|j: int| 0 <= j < here.len() implies whole[front.len() + j]
                == #[trigger] here[j] by {}
        }
    }
}

/// Lines are found again in the text that they make.
proof fn lemma_split_lines(ts: Seq<Seq<char>>, i: int)
    requires
        forall|j: int, k: int|
            0 <= j < ts.len() && 0 <= k < ts[j].len() ==> #[trigger] ts[j][k] != '\n',
        0 <= i <= ts.len(),
    ensures
        split_from(
            lines_text(ts, ts.len() as int),
            '\n',
            lines_text(ts, i).len() as int,
        ) == ts.skip(
            i,
        ).push(Seq::empty()),
    decreases ts.len() - i,
{
    reveal_strlit("\n");
    let n = ts.len() as int;
    let t = lines_text(ts, n);
    let b = lines_text(ts, i).len() as int;
    lemma_lines_prefix(ts, i, n);
    if i < n {
        let here = ts[i] + "\n"@;
        let e = b + ts[i].len();
        lemma_lines_prefix(ts, i + 1, n);
        assert forall|j: int| b <= j < e implies #[trigger] t[j] != '\n' by {
            assert(t[b + (j - b)] == here[j - b]);
            assert(here[j - b] == ts[i][j - b]);
        }
        assert(t[b + (e - b)] == here[e - b]);
        assert(here[e - b] == "\n"@[0]);
        lemma_next_is(t, '\n', b, e);
        assert(t.subrange(b, e) =~= ts[i]) by {
            assert forall|j: int| 0 <= j < ts[i].len() implies t.subrange(b, e)[j] == ts[i][j] by {
                assert(t[b + j] == here[j]);
            }
        }
        lemma_split_lines(ts, i + 1);
        assert(seq![ts[i]] + ts.skip(i + 1).push(Seq::empty()) =~= ts.skip(i).push(Seq::empty()));
    } else {
        assert(b == t.len());
        lemma_next_is(t, '\n', b, b);
        assert(t.skip(b) =~= Seq::<char>::empty());
        assert(ts.skip(i).push(Seq::empty()) =~= seq![Seq::<char>::empty()]);
    }
}

/// The texts of mounts.
pub open spec fn texts_of(ms: Seq<MountView>) -> Seq<Seq<char>> {
    Seq::new(ms.len(), |i: int| mount_text(ms[i]))
}

proof fn lemma_mounts_on(ms: Seq<MountView>, lines: Seq<Seq<char>>, k: int)
    requires
        forall|i: int| 0 <= i < ms.len() ==> mount_wf(#[trigger] ms[i]),
        lines == texts_of(ms).push(Seq::empty()),
        0 <= k <= ms.len(),
    ensures
        mounts_on(lines, k) == ms.take(k),
    decreases k,
{
    if k == 0 {
        assert(ms.take(0) =~= Seq::<MountView>::empty());
    } else {
        lemma_mounts_on(ms, lines, k - 1);
        assert(mount_wf(ms[k - 1]));
        assert(lines[k - 1] == mount_text(ms[k - 1]));
        lemma_mount_line(ms[k - 1]);
        assert(ms.take(k) =~= ms.take(k - 1).push(ms[k - 1]));
    }
}

/// Reading a workspace file that has the texts of mounts on its lines gives the mounts.
pub proof fn law_mounts_round_trip(ms: Seq<MountView>)
    requires
        forall|i: int| 0 <= i < ms.len() ==> mount_wf(#[trigger] ms[i]),
    ensures
        parsed_mounts(lines_text(texts_of(ms), ms.len() as int)) == Ok::<Seq<MountView>, ErrorView>(
            ms,
        ),
        file_ok(lines_text(texts_of(ms), ms.len() as int)),
{
    let ts = texts_of(ms);
    let n = ms.len() as int;
    let t = lines_text(ts, n);
    assert forall|j: int, k: int|
        0 <= j < ts.len() && 0 <= k < ts[j].len() implies #[trigger] ts[j][k] != '\n' by {
        assert(mount_wf(ms[j]));
        lemma_mount_line(ms[j]);
    }
    assert(lines_text(ts, 0) =~= Seq::<char>::empty());
    lemma_split_lines(ts, 0);
    assert(ts.skip(0) =~= ts);
    let lines = split(t, '\n');
    assert(lines == ts.push(Seq::empty()));
    let none = Seq::<char>::empty();
    assert(trimmed(none) == none) by {
        assert(run_end(none, 0, Class::Blank) == 0);
        assert(none.skip(0) =~= none);
    }
    assert forall|i: int| 0 <= i < lines.len() implies line_ok(#[trigger] lines[i])
        && line_patterns_ok(lines[i]) by {
        if i < n {
            assert(mount_wf(ms[i]));
            lemma_mount_line(ms[i]);
            assert(lines[i] == mount_text(ms[i]));
        } else {
            assert(lines[i] == none);
        }
    }
    lemma_mounts_on(ms, lines, n);
    assert(ms.take(n) =~= ms);
    assert(lines[n] == none);
}

/// The two filters do the same to all trees, in both directions.
pub open spec fn same_effect(rules: Rules, f: FilterView, g: FilterView) -> bool {
    forall|t: Dir, parent: Dir, n: nat|
        #![trigger unapply_tree(rules, f, t, parent, n)]
        #![trigger unapply_tree(rules, g, t, parent, n)]
        apply_tree(rules, f, t, n) == apply_tree(rules, g, t, n) && unapply_tree(
            rules,
            f,
            t,
            parent,
            n,
        ) == unapply_tree(
            rules,
            g,
            t,
            parent,
            n,
        )
}

proof fn lemma_same_apply(rules: Rules, f: FilterView, g: FilterView, t: Dir, n: nat)
    requires
        same_effect(rules, f, g),
    ensures
        apply_tree(rules, f, t, n) == apply_tree(rules, g, t, n),
{
    assert(unapply_tree(rules, f, t, t, n) == unapply_tree(rules, g, t, t, n));
}

/// What comes before another filter in a chain may be replaced by what does the same.
proof fn lemma_chain_first(rules: Rules, f: FilterView, g: FilterView, x: FilterView)
    requires
        same_effect(rules, f, g),
    ensures
        same_effect(
            rules,
            FilterView::Chain(Box::new(f), Box::new(x)),
            FilterView::Chain(Box::new(g), Box::new(x)),
        ),
{
    let fx = FilterView::Chain(Box::new(f), Box::new(x));
    let gx = FilterView::Chain(Box::new(g), Box::new(x));
    assert forall|t: Dir, parent: Dir, n: nat|
        #![trigger unapply_tree(rules, fx, t, parent, n)]
        #![trigger unapply_tree(rules, gx, t, parent, n)]
        apply_tree(rules, fx, t, n) == apply_tree(rules, gx, t, n) && unapply_tree(
            rules,
            fx,
            t,
            parent,
            n,
        )
            == unapply_tree(rules, gx, t, parent, n) by {
        lemma_chain(rules, f, x, t, parent, n);
        lemma_chain(rules, g, x, t, parent, n);
        lemma_same_apply(rules, f, g, t, n);
        lemma_same_apply(rules, f, g, parent, n);
        if let Ok(p) = apply_tree(rules, f, parent, n) {
            if let Ok(y) = unapply_tree(rules, x, t, p, n) {
                assert(
                    unapply_tree(rules, f, y, parent, n) == unapply_tree(rules, g, y, parent, n)
                );
            }
        }
    }
}

proof fn lemma_chained_front(a: Seq<Seq<Seq<char>>>, b: Seq<Seq<Seq<char>>>, k: int)
    requires
        0 <= k <= a.len(),
    ensures
        chained(a + b, k) == chained(a, k),
    decreases k,
{
    if k > 1 {
        lemma_chained_front(a, b, k - 1);
    }
}

/// A row of items does what a chain of its two parts does.
proof fn lemma_chained_parts(rules: Rules, a: Seq<Seq<Seq<char>>>, b: Seq<Seq<Seq<char>>>, k: int)
    requires
        1 <= k <= b.len(),
    ensures
        same_effect(
            rules,
            chained(a + b, a.len() + k),
            FilterView::Chain(
                Box::new(chained(a, a.len() as int)),
                Box::new(chained(b, k)),
            ),
        ),
    decreases k,
{
    let la = a.len() as int;
    let all = a + b;
    let first = chained(a, la);
    let second = chained(b, k);
    let whole = chained(all, la + k);
    let chain = FilterView::Chain(Box::new(first), Box::new(second));
    lemma_chained_front(a, b, la);
    assert(all[la + k - 1] == b[k - 1]);
    let x = made(b[k - 1]);
    if k == 1 {
        if la == 0 {
            assert(whole == x);
            assert forall|t: Dir, parent: Dir, n: nat|
                #![trigger unapply_tree(rules, whole, t, parent, n)]
                #![trigger unapply_tree(rules, chain, t, parent, n)]
                apply_tree(rules, whole, t, n) == apply_tree(rules, chain, t, n) && unapply_tree(
                    rules,
                    whole,
                    t,
                    parent,
                    n,
                ) == unapply_tree(rules, chain, t, parent, n) by {
                law_chain_nop(rules, x, t, parent, n);
            }
        } else {
            assert(whole == chain);
        }
    } else {
        lemma_chained_parts(rules, a, b, k - 1);
        let front = chained(b, k - 1);
        let mid = FilterView::Chain(Box::new(first), Box::new(front));
        let before = chained(all, la + k - 1);
        lemma_chain_first(rules, before, mid, x);
        let outer = FilterView::Chain(Box::new(mid), Box::new(x));
        assert(whole == FilterView::Chain(Box::new(before), Box::new(x)));
        assert(second == FilterView::Chain(Box::new(front), Box::new(x)));
        assert forall|t: Dir, parent: Dir, n: nat|
            #![trigger unapply_tree(rules, whole, t, parent, n)]
            #![trigger unapply_tree(rules, chain, t, parent, n)]
            apply_tree(rules, whole, t, n) == apply_tree(rules, chain, t, n) && unapply_tree(
                rules,
                whole,
                t,
                parent,
                n,
            )
                == unapply_tree(rules, chain, t, parent, n) by {
            law_chain_associative(rules, first, front, x, t, parent, n);
            lemma_same_apply(rules, whole, outer, t, n);
            assert(
                unapply_tree(rules, whole, t, parent, n) == unapply_tree(rules, outer, t, parent, n)
            );
        }
    }
}

/// A text made of two rows of items, whose items are those of the one and then those of the
/// other, stands for a filter that does what a chain of the two filters does, in both
/// directions. Where the second row has no items, this holds in the first direction: the way
/// back through a chain fails where the way there does.
pub proof fn law_rows_chain(rules: Rules, s: Seq<char>, t: Seq<char>)
    requires
        s.len() > 0 && (s[0] == ':' || s[0] == '!'),
        t.len() > 0 && (t[0] == ':' || t[0] == '!'),
        items_from(s + t, 0) == items_from(s, 0) + items_from(t, 0),
    ensures
        parsed(s + t) matches Ok(w) && parsed(s) matches Ok(a) && parsed(t) matches Ok(b) && {
            let chain = FilterView::Chain(Box::new(a), Box::new(b));
            &&& forall|d: Dir, n: nat| #[trigger] apply_tree(rules, w, d, n) == apply_tree(
                rules,
                chain,
                d,
                n,
            )
            &&& items_from(t, 0).len() > 0 ==> same_effect(rules, w, chain)
        },
        patterns_ok(s + t) <==> patterns_ok(s) && patterns_ok(t),
{
    let a = items_from(s, 0);
    let b = items_from(t, 0);
    let all = items_from(s + t, 0);
    assert((s + t)[0] == s[0]);
    let w = chained(all, all.len() as int);
    let first = chained(a, a.len() as int);
    let chain = FilterView::Chain(Box::new(first), Box::new(chained(b, b.len() as int)));
    if b.len() > 0 {
        lemma_chained_parts(rules, a, b, b.len() as int);
    } else {
        assert(all =~= a);
    }
    assert forall|d: Dir, n: nat| #[trigger] apply_tree(rules, w, d, n) == apply_tree(
        rules,
        chain,
        d,
        n,
    ) by {
        if b.len() > 0 {
            lemma_same_apply(rules, w, chain, d, n);
        } else {
            law_chain_nop(rules, first, d, d, n);
        }
    }
    if row_ok(s + t) {
        assert forall|i: int| 0 <= i < a.len() implies pattern_ok(#[trigger] a[i]) by {
            assert(all[i] == a[i]);
        }
        assert forall|i: int| 0 <= i < b.len() implies pattern_ok(#[trigger] b[i]) by {
            assert(all[a.len() + i] == b[i]);
        }
    }
}

} // verus!
