//! How filters and workspace files are read, part by part.

use crate::error::ErrorView;
use crate::filter::{made, pattern_ok, CombineView, FilterView, MountView};
use crate::grammar::{
    arguments_at, chained, checked_combine, file_ok, filter_text, in_class, item_at, items_end,
    items_from, lemma_item_at, line_ok, line_patterns_ok, lines_ok, mount_at, mount_on, mounts_on,
    parsed, parsed_chain, parsed_mounts, patterns_ok, row_ok, trim_blank, trimmed, Class, MountText,
    Read,
};
use crate::grammar_laws::{all_in, lemma_run_end_is};
use crate::pattern::glob_is_valid;
use crate::text::split;
use crate::text_laws::law_split;
use vstd::prelude::*;

verus! {

/// Which characters may stand in names of filters, in arguments, in paths of mounts, and
/// round the parts of a line.
pub proof fn law_classes(c: char)
    ensures
        in_class(c, Class::Name) <==> ('a' <= c && c <= 'z') || ('A' <= c && c <= 'Z') || c == '+'
            || c == '~',
        in_class(c, Class::Blank) <==> c == ' ' || c == '\t' || c == '\r',
        in_class(c, Class::Argument) <==> c != ' ' && c != '\t' && c != '\r' && c != '\n' && c
            != ':' && c != '!' && c != ',',
        in_class(c, Class::Path) <==> in_class(c, Class::Argument) && c != '=',
{
}

/// The arguments that start after `pre`: the first is as long as its characters may stand in
/// one, and others follow after a comma.
pub proof fn law_read_arguments(pre: Seq<char>, a: Seq<char>, rest: Seq<char>)
    requires
        all_in(a, Class::Argument),
        rest.len() > 0 ==> !in_class(rest[0], Class::Argument),
    ensures
        ({
            let t = pre + a + rest;
            let k = pre.len() as int;
            let e = k + a.len();
            &&& rest.len() > 0 && rest[0] == ',' ==> arguments_at(t, k) == (Read {
                args: seq![a] + arguments_at(t, e + 1).args,
                end: arguments_at(t, e + 1).end,
            })
            &&& rest.len() == 0 || rest[0] != ',' ==> arguments_at(t, k) == (Read {
                args: seq![a],
                end: e,
            })
        }),
{
    let t = pre + a + rest;
    let k = pre.len() as int;
    let e = k + a.len();
    assert forall|i: int| k <= i < e implies in_class(#[trigger] t[i], Class::Argument) by {
        assert(t[i] == a[i - k]);
    }
    if rest.len() > 0 {
        assert(t[e] == rest[0]);
    }
    lemma_run_end_is(t, k, e, Class::Argument);
    assert(t.subrange(k, e) =~= a);
}

/// The item that starts after `pre` with the character `c`. It starts with a colon or an
/// exclamation mark, and has a name. Arguments follow after a sign of equality or a slash,
/// and before these the name may be empty.
pub proof fn law_read_item(pre: Seq<char>, c: char, name: Seq<char>, rest: Seq<char>)
    requires
        all_in(name, Class::Name),
        rest.len() > 0 ==> !in_class(rest[0], Class::Name),
    ensures
        ({
            let t = pre + seq![c] + name + rest;
            let k = pre.len() as int;
            let e = k + 1 + name.len();
            let more = rest.len() > 0 && (rest[0] == '=' || rest[0] == '/');
            &&& c != ':' && c != '!' ==> item_at(t, k) is None
            &&& (c == ':' || c == '!') && more ==> item_at(t, k) == Some(
                Read {
                    args: seq![name] + arguments_at(t, e + 1).args,
                    end: arguments_at(t, e + 1).end,
                },
            )
            &&& (c == ':' || c == '!') && !more && name.len() > 0 ==> item_at(t, k) == Some(
                Read { args: seq![name], end: e },
            )
            &&& !more && name.len() == 0 ==> item_at(t, k) is None
        }),
{
    let t = pre + seq![c] + name + rest;
    let k = pre.len() as int;
    let e = k + 1 + name.len();
    assert(t[k] == c);
    assert forall|i: int| k + 1 <= i < e implies in_class(#[trigger] t[i], Class::Name) by {
        assert(t[i] == name[i - k - 1]);
    }
    if rest.len() > 0 {
        assert(t[e] == rest[0]);
    }
    lemma_run_end_is(t, k + 1, e, Class::Name);
    assert(t.subrange(k + 1, e) =~= name);
}

/// The items of a row are read one after the other, up to the first place where none starts.
pub proof fn law_read_items(t: Seq<char>, k: int)
    requires
        0 <= k <= t.len(),
    ensures
        match item_at(t, k) {
            None => items_from(t, k).len() == 0 && items_end(t, k) == k,
            Some(item) => {
                &&& k < item.end <= t.len()
                &&& items_from(t, k) == seq![item.args] + items_from(t, item.end)
                &&& items_end(t, k) == items_end(t, item.end)
            },
        },
        item_at(t, t.len() as int) is None,
{
    lemma_item_at(t, k);
}

proof fn lemma_chained_front(items: Seq<Seq<Seq<char>>>, x: Seq<Seq<char>>, n: int)
    requires
        0 <= n <= items.len(),
    ensures
        chained(items.push(x), n) == chained(items, n),
    decreases n,
{
    if n > 0 {
        assert(items.push(x)[n - 1] == items[n - 1]);
        assert(items.push(x)[0] == items[0]);
        if n > 1 {
            lemma_chained_front(items, x, n - 1);
        }
    }
}

/// A row of items stands for their filters one after the other; without items for the filter
/// that keeps everything.
pub proof fn law_chained(items: Seq<Seq<Seq<char>>>, x: Seq<Seq<char>>)
    ensures
        chained(Seq::empty(), 0) == FilterView::Nop,
        chained(seq![x], 1) == made(x),
        items.len() > 0 ==> chained(items.push(x), items.len() as int + 1) == FilterView::Chain(
            Box::new(chained(items, items.len() as int)),
            Box::new(made(x)),
        ),
{
    lemma_chained_front(items, x, items.len() as int);
    assert(items.push(x)[items.len() as int] == x);
    assert(seq![x][0] == x);
}

/// A text that starts like an item is a row of items, and any other, but for none at all, is
/// a workspace file over nothing.
pub proof fn law_parsed(t: Seq<char>)
    requires
        t.len() > 0,
    ensures
        t[0] == ':' || t[0] == '!' ==> {
            let items = items_from(t, 0);
            parsed(t) == Ok::<FilterView, ErrorView>(chained(items, items.len() as int))
        },
        t[0] != ':' && t[0] != '!' ==> match parsed_mounts(t) {
            Ok(mounts) => parsed(t) == Ok::<FilterView, ErrorView>(
                FilterView::Combine(CombineView { base: Box::new(FilterView::Empty), mounts }),
            ),
            Err(e) => parsed(t) == Err::<FilterView, ErrorView>(e),
        },
{
}

/// The patterns in a text are in order if those of all its filters by pattern are.
pub proof fn law_patterns(t: Seq<char>)
    ensures
        t.len() > 0 && (t[0] == ':' || t[0] == '!') ==> (patterns_ok(t) <==> {
            let items = items_from(t, 0);
            forall|i: int|
                0 <= i < items.len() ==> (((#[trigger] items[i]).len() == 2 && (items[i][0]
                    == "glob"@ || items[i][0] == "~glob"@)) ==> glob_is_valid(items[i][1]))
        }),
        t.len() > 0 && t[0] != ':' && t[0] != '!' ==> patterns_ok(t) == file_ok(t),
        patterns_ok(Seq::empty()),
{
    let items = items_from(t, 0);
    if row_ok(t) {
        assert forall|i: int|
            0 <= i < items.len() && (#[trigger] items[i]).len() == 2 && (items[i][0] == "glob"@
                || items[i][0] == "~glob"@) implies glob_is_valid(items[i][1]) by {
            assert(pattern_ok(items[i]));
        }
    }
}

proof fn lemma_trim_blank(t: Seq<char>, b: Seq<char>)
    requires
        all_in(b, Class::Blank),
        t.len() > 0 ==> !in_class(t.last(), Class::Blank),
    ensures
        trim_blank(t + b) == t,
    decreases b.len(),
{
    let w = t + b;
    if b.len() == 0 {
        assert(w =~= t);
    } else {
        let less = b.drop_last();
        assert(w.last() == b[b.len() - 1]);
        assert forall|i: int| 0 <= i < less.len() implies in_class(
            #[trigger] less[i],
            Class::Blank,
        ) by {
            assert(less[i] == b[i]);
        }
        lemma_trim_blank(t, less);
        assert(w.drop_last() =~= t + less);
    }
}

/// The blanks round a line are left out, and nothing else is.
pub proof fn law_trimmed(a: Seq<char>, t: Seq<char>, b: Seq<char>)
    requires
        all_in(a, Class::Blank),
        all_in(b, Class::Blank),
        t.len() > 0 ==> !in_class(t[0], Class::Blank) && !in_class(t.last(), Class::Blank),
    ensures
        trimmed(a + t + b) == t,
{
    let w = a + t + b;
    let k = a.len() as int;
    if t.len() > 0 {
        assert(w[k] == t[0]);
        assert forall|i: int| 0 <= i < k implies in_class(#[trigger] w[i], Class::Blank) by {
            assert(w[i] == a[i]);
        }
        lemma_run_end_is(w, 0, k, Class::Blank);
        assert(w.skip(k) =~= t + b);
        lemma_trim_blank(t, b);
    } else {
        assert forall|i: int| 0 <= i < w.len() implies in_class(#[trigger] w[i], Class::Blank) by {
            if i < k {
                assert(w[i] == a[i]);
            } else {
                assert(w[i] == b[i - k]);
            }
        }
        lemma_run_end_is(w, 0, w.len() as int, Class::Blank);
        assert(w.skip(w.len() as int) =~= t);
    }
}

/// A mount without a filter is a path, and stands for the directory at that path.
pub proof fn law_bare_mount(path: Seq<char>)
    requires
        all_in(path, Class::Path),
        path.len() > 0,
    ensures
        mount_on(path) == Some(MountText { path, filter: None }),
        filter_text(MountText { path, filter: None }) == ":/"@ + path,
{
    lemma_run_end_is(path, 0, path.len() as int, Class::Path);
}

/// A mount with a filter is a path, a sign of equality and a row of items, with blanks round
/// the sign. It is none where anything follows the items.
pub proof fn law_full_mount(path: Seq<char>, a: Seq<char>, b: Seq<char>, row: Seq<char>)
    requires
        all_in(path, Class::Path),
        path.len() > 0,
        all_in(a, Class::Blank),
        all_in(b, Class::Blank),
        row.len() > 0 ==> !in_class(row[0], Class::Blank),
    ensures
        ({
            let t = path + a + seq!['='] + b + row;
            mount_on(t) == (if items_end(t, t.len() - row.len()) == t.len() {
                Some(MountText { path, filter: Some(row) })
            } else {
                None
            })
        }),
        filter_text(MountText { path, filter: Some(row) }) == row,
{
    let t = path + a + seq!['='] + b + row;
    let p = path.len() as int;
    let q = p + a.len();
    let k = q + 1 + b.len();
    assert forall|i: int| 0 <= i < p implies in_class(#[trigger] t[i], Class::Path) by {
        assert(t[i] == path[i]);
    }
    assert forall|i: int| p <= i < q implies in_class(#[trigger] t[i], Class::Blank) by {
        assert(t[i] == a[i - p]);
    }
    assert(t[q] == '=');
    assert forall|i: int| q + 1 <= i < k implies in_class(#[trigger] t[i], Class::Blank) by {
        assert(t[i] == b[i - q - 1]);
    }
    if row.len() > 0 {
        assert(t[k] == row[0]);
    }
    if a.len() > 0 {
        assert(in_class(t[p], Class::Blank));
    }
    lemma_run_end_is(t, 0, p, Class::Path);
    lemma_run_end_is(t, p, q, Class::Blank);
    lemma_run_end_is(t, q + 1, k, Class::Blank);
    assert(t.take(p) =~= path);
    assert(t.skip(k) =~= row);
}

/// A line that does not start with a path, or on which something other than a sign of
/// equality follows the path, is no mount.
pub proof fn law_no_mount(path: Seq<char>, a: Seq<char>, rest: Seq<char>)
    requires
        all_in(path, Class::Path),
        all_in(a, Class::Blank),
        rest.len() > 0,
        rest[0] != '=',
        !in_class(rest[0], Class::Blank),
        a.len() == 0 ==> !in_class(rest[0], Class::Path),
    ensures
        mount_on(path + a + rest) is None,
{
    let t = path + a + rest;
    let p = path.len() as int;
    let q = p + a.len();
    assert forall|i: int| 0 <= i < p implies in_class(#[trigger] t[i], Class::Path) by {
        assert(t[i] == path[i]);
    }
    assert forall|i: int| p <= i < q implies in_class(#[trigger] t[i], Class::Blank) by {
        assert(t[i] == a[i - p]);
    }
    assert(t[q] == rest[0]);
    if a.len() > 0 {
        assert(in_class(t[p], Class::Blank));
    }
    lemma_run_end_is(t, 0, p, Class::Path);
    lemma_run_end_is(t, p, q, Class::Blank);
}

proof fn lemma_mounts_shift(lines: Seq<Seq<char>>, line: Seq<char>, n: int)
    requires
        0 <= n <= lines.len(),
    ensures
        mounts_on(seq![line] + lines, n + 1) == mounts_on(seq![line], 1) + mounts_on(lines, n),
    decreases n,
{
    let all = seq![line] + lines;
    if n > 0 {
        lemma_mounts_shift(lines, line, n - 1);
        assert(all[n] == lines[n - 1]);
        assert(mounts_on(all, n + 1) =~= mounts_on(seq![line], 1) + mounts_on(lines, n));
    } else {
        assert(all[0] == line && seq![line][0] == line);
        assert(mounts_on(all, 0) =~= mounts_on(seq![line], 0));
        assert(mounts_on(all, 1) =~= mounts_on(seq![line], 1) + mounts_on(lines, 0));
    }
}

/// The mounts of a workspace file of one line: none where there are only blanks, or the one
/// that is written there.
pub proof fn law_one_line(line: Seq<char>)
    requires
        forall|i: int| 0 <= i < line.len() ==> #[trigger] line[i] != '\n',
    ensures
        trimmed(line).len() == 0 ==> parsed_mounts(line) == Ok::<Seq<MountView>, ErrorView>(
            Seq::empty(),
        ),
        trimmed(line).len() > 0 ==> match mount_on(trimmed(line)) {
            None => parsed_mounts(line) == Err::<Seq<MountView>, ErrorView>(
                ErrorView::InvalidWorkspace(line),
            ),
            Some(m) => parsed_mounts(line) == Ok::<Seq<MountView>, ErrorView>(
                seq![MountView { prefix: m.path, filter: parsed_chain(filter_text(m)) }],
            ),
        },
{
    law_split(line, '\n', line);
    let lines = seq![line];
    assert(lines[0] == line);
    assert(lines_ok(line) <==> line_ok(line)) by {
        if line_ok(line) {
            assert forall|i: int| 0 <= i < lines.len() implies line_ok(#[trigger] lines[i]) by {}
        }
        if lines_ok(line) {
            assert(line_ok(lines[0]));
        }
    }
    assert(mounts_on(lines, 0) =~= Seq::<MountView>::empty());
    if trimmed(line).len() > 0 {
        assert(mounts_on(lines, 1) =~= seq![mount_at(line)]);
    }
}

/// A workspace file is read line by line: the mounts on the first line come before those on
/// the others. Where one line is no mount, the whole file is none, and the error has all its
/// text.
pub proof fn law_more_lines(line: Seq<char>, rest: Seq<char>)
    requires
        forall|i: int| 0 <= i < line.len() ==> #[trigger] line[i] != '\n',
    ensures
        parsed_mounts(line.push('\n') + rest) == match (parsed_mounts(line), parsed_mounts(rest)) {
            (Ok(a), Ok(b)) => Ok::<Seq<MountView>, ErrorView>(a + b),
            _ => Err(ErrorView::InvalidWorkspace(line.push('\n') + rest)),
        },
        parsed_mounts(
            line.push('\n') + rest,
        ) is Ok ==> (file_ok(line.push('\n') + rest) <==> file_ok(
            line,
        ) && file_ok(rest)),
        parsed_mounts(line.push('\n') + rest) is Err ==> file_ok(line.push('\n') + rest),
{
    let t = line.push('\n') + rest;
    law_split(line, '\n', rest);
    let ls = split(rest, '\n');
    let one = seq![line];
    let all = one + ls;
    assert(split(t, '\n') == all);
    assert(all[0] == line && one[0] == line);
    assert(lines_ok(t) <==> lines_ok(line) && lines_ok(rest)) by {
        if lines_ok(line) && lines_ok(rest) {
            assert forall|i: int| 0 <= i < all.len() implies line_ok(#[trigger] all[i]) by {
                if i == 0 {
                    assert(line_ok(one[0]));
                } else {
                    assert(all[i] == ls[i - 1]);
                }
            }
        }
        if lines_ok(t) {
            assert(line_ok(all[0]));
            assert forall|i: int| 0 <= i < ls.len() implies line_ok(#[trigger] ls[i]) by {
                assert(all[i + 1] == ls[i]);
            }
        }
    }
    lemma_mounts_shift(ls, line, ls.len() as int);
    if lines_ok(t) {
        if file_ok(line) && file_ok(rest) {
            assert forall|i: int| 0 <= i < all.len() implies line_patterns_ok(
                #[trigger] all[i],
            ) by {
                if i == 0 {
                    assert(line_patterns_ok(one[0]));
                } else {
                    assert(all[i] == ls[i - 1]);
                }
            }
        }
        if file_ok(t) {
            assert(line_patterns_ok(all[0]));
            assert forall|i: int| 0 <= i < ls.len() implies line_patterns_ok(#[trigger] ls[i]) by {
                assert(all[i + 1] == ls[i]);
            }
        }
    }
}

/// The patterns on a line are in order if those in the filter of its mount are.
pub proof fn law_line_patterns(line: Seq<char>)
    requires
        forall|i: int| 0 <= i < line.len() ==> #[trigger] line[i] != '\n',
    ensures
        trimmed(line).len() == 0 ==> file_ok(line),
        trimmed(line).len() > 0 ==> match mount_on(trimmed(line)) {
            None => file_ok(line),
            Some(m) => file_ok(line) == row_ok(filter_text(m)),
        },
{
    law_split(line, '\n', line);
    let lines = seq![line];
    assert(lines[0] == line);
    if lines_ok(line) {
        assert(line_ok(lines[0]));
    } else {
        assert(!line_ok(line));
    }
    if file_ok(line) && lines_ok(line) {
        assert(line_patterns_ok(lines[0]));
    }
    if line_ok(line) {
        assert(lines_ok(line)) by {
            assert forall|i: int| 0 <= i < lines.len() implies line_ok(#[trigger] lines[i]) by {}
        }
    }
}

/// The combination that a workspace file describes has the base that is given, and the
/// mounts in the file. A pattern that is not well formed is an error before all others.
pub proof fn law_checked_combine(t: Seq<char>, base: FilterView)
    ensures
        !file_ok(t) ==> checked_combine(t, base) == Err::<CombineView, ErrorView>(
            ErrorView::InvalidPattern,
        ),
        file_ok(t) ==> match parsed_mounts(t) {
            Ok(mounts) => checked_combine(t, base) == Ok::<CombineView, ErrorView>(
                CombineView { base: Box::new(base), mounts },
            ),
            Err(e) => checked_combine(t, base) == Err::<CombineView, ErrorView>(e),
        },
{
}

} // verus!
