//! Reading filters and workspace files.
//!
//! A filter is written as a row of items. An item starts with `:` or `!`; after that stands a
//! name, and maybe `=` or `/` and arguments between which stand commas. Before these the name
//! may be empty. A workspace file has one mount on a line: a path, and maybe `=` and a filter.

use crate::error::{Error, ErrorView};
use crate::filter::{
    build_chain, has_good_pattern, lemma_combine_view, made, make_filter, mount_views, pattern_ok,
    Combine, CombineView, Filter, FilterView, Mount, MountView,
};
use crate::text::{chars_of, pieces, split, texts};
use crate::values::strs;
use vstd::prelude::*;

verus! {

/// A class of characters.
#[derive(Clone, Copy, PartialEq, Eq, Structural)]
pub enum Class {
    /// The name of a filter.
    Name,
    /// An argument.
    Argument,
    /// The path of a mount.
    Path,
    /// What may stand round the parts of a mount.
    Blank,
}

/// Whether a character belongs to a class.
pub open spec fn in_class(c: char, class: Class) -> bool {
    let blank = c == ' ' || c == '\t' || c == '\r';
    let argument = !blank && c != '\n' && c != ':' && c != '!' && c != ',';
    match class {
        Class::Name => ('a' <= c && c <= 'z') || ('A' <= c && c <= 'Z') || c == '+' || c == '~',
        Class::Argument => argument,
        Class::Path => argument && c != '=',
        Class::Blank => blank,
    }
}

/// The end of the run of characters of a class that starts at `k`.
pub open spec fn run_end(t: Seq<char>, k: int, class: Class) -> int
    decreases t.len() - k,
{
    if 0 <= k < t.len() && in_class(t[k], class) {
        run_end(t, k + 1, class)
    } else {
        k
    }
}

/// What was read, and where the rest starts.
pub struct Read {
    pub args: Seq<Seq<char>>,
    pub end: int,
}

/// The arguments that start at `k`.
pub open spec fn arguments_at(t: Seq<char>, k: int) -> Read
    decreases t.len() - k,
{
    let e = run_end(t, k, Class::Argument);
    if 0 <= k <= e < t.len() && t[e] == ',' {
        let rest = arguments_at(t, e + 1);
        Read { args: seq![t.subrange(k, e)] + rest.args, end: rest.end }
    } else {
        Read { args: seq![t.subrange(k, e)], end: e }
    }
}

/// The item that starts at `k`: its name and arguments.
pub open spec fn item_at(t: Seq<char>, k: int) -> Option<Read> {
    let e = run_end(t, k + 1, Class::Name);
    if !(0 <= k < t.len() && (t[k] == ':' || t[k] == '!')) {
        None
    } else if e < t.len() && (t[e] == '=' || t[e] == '/') {
        let rest = arguments_at(t, e + 1);
        Some(Read { args: seq![t.subrange(k + 1, e)] + rest.args, end: rest.end })
    } else if e > k + 1 {
        Some(Read { args: seq![t.subrange(k + 1, e)], end: e })
    } else {
        None
    }
}

/// The items from `k` on, as far as there are any.
pub open spec fn items_from(t: Seq<char>, k: int) -> Seq<Seq<Seq<char>>>
    decreases t.len() - k,
{
    match item_at(t, k) {
        Some(item) => if k < item.end <= t.len() {
            seq![item.args] + items_from(t, item.end)
        } else {
            Seq::empty()
        },
        None => Seq::empty(),
    }
}

/// Where the items from `k` on end.
pub open spec fn items_end(t: Seq<char>, k: int) -> int
    decreases t.len() - k,
{
    match item_at(t, k) {
        Some(item) => if k < item.end <= t.len() {
            items_end(t, item.end)
        } else {
            k
        },
        None => k,
    }
}

/// The filter that applies the first `n` items one after the other.
pub open spec fn chained(items: Seq<Seq<Seq<char>>>, n: int) -> FilterView
    decreases n,
{
    if n <= 0 {
        FilterView::Nop
    } else if n == 1 {
        made(items[0])
    } else {
        FilterView::Chain(Box::new(chained(items, n - 1)), Box::new(made(items[n - 1])))
    }
}

/// The filter that a row of items stands for. What follows the last item is not read.
pub open spec fn parsed_chain(t: Seq<char>) -> FilterView {
    let items = items_from(t, 0);
    chained(items, items.len() as int)
}

/// The patterns in a row of items are well formed.
pub open spec fn row_ok(t: Seq<char>) -> bool {
    let items = items_from(t, 0);
    forall|i: int| 0 <= i < items.len() ==> pattern_ok(#[trigger] items[i])
}

/// A mount as it is written: a path, and maybe a filter.
pub struct MountText {
    pub path: Seq<char>,
    pub filter: Option<Seq<char>>,
}

/// The text without blanks at its end.
pub open spec fn trim_blank(t: Seq<char>) -> Seq<char>
    decreases t.len(),
{
    if t.len() > 0 && in_class(t.last(), Class::Blank) {
        trim_blank(t.drop_last())
    } else {
        t
    }
}

/// The mount on a line that neither starts nor ends with a blank.
pub open spec fn mount_on(t: Seq<char>) -> Option<MountText> {
    let p = run_end(t, 0, Class::Path);
    let q = run_end(t, p, Class::Blank);
    let k = run_end(t, q + 1, Class::Blank);
    if p == 0 {
        None
    } else if p == t.len() {
        Some(MountText { path: t, filter: None })
    } else if q < t.len() && t[q] == '=' && items_end(t, k) == t.len() {
        Some(MountText { path: t.take(p), filter: Some(t.skip(k)) })
    } else {
        None
    }
}

/// A line without the blanks round it.
pub open spec fn trimmed(line: Seq<char>) -> Seq<char> {
    trim_blank(line.skip(run_end(line, 0, Class::Blank)))
}

/// The text of the filter of a mount. Where none is written, it is that for the directory
/// at the path.
pub open spec fn filter_text(m: MountText) -> Seq<char> {
    match m.filter {
        Some(t) => t,
        None => ":/"@ + m.path,
    }
}

/// Whether the line is a mount, or has nothing but blanks.
pub open spec fn line_ok(line: Seq<char>) -> bool {
    trimmed(line).len() == 0 || mount_on(trimmed(line)) is Some
}

/// The mount on a line, blanks round which are left out. The filter is a row of items.
pub open spec fn mount_at(line: Seq<char>) -> MountView {
    let m = mount_on(trimmed(line))->0;
    MountView { prefix: m.path, filter: parsed_chain(filter_text(m)) }
}

/// The mounts on the first `n` lines.
pub open spec fn mounts_on(lines: Seq<Seq<char>>, n: int) -> Seq<MountView>
    decreases n,
{
    if n <= 0 {
        Seq::empty()
    } else if trimmed(lines[n - 1]).len() == 0 {
        mounts_on(lines, n - 1)
    } else {
        mounts_on(lines, n - 1).push(mount_at(lines[n - 1]))
    }
}

/// Every line of a workspace file is a mount, or has nothing but blanks.
pub open spec fn lines_ok(t: Seq<char>) -> bool {
    let lines = split(t, '\n');
    forall|i: int| 0 <= i < lines.len() ==> line_ok(#[trigger] lines[i])
}

/// The mounts that a workspace file describes.
pub open spec fn parsed_mounts(t: Seq<char>) -> Result<Seq<MountView>, ErrorView> {
    let lines = split(t, '\n');
    if lines_ok(t) {
        Ok(mounts_on(lines, lines.len() as int))
    } else {
        Err(ErrorView::InvalidWorkspace(t))
    }
}

/// The patterns in the filter on a line are well formed.
pub open spec fn line_patterns_ok(line: Seq<char>) -> bool {
    trimmed(line).len() > 0 ==> row_ok(filter_text(mount_on(trimmed(line))->0))
}

/// The patterns in a workspace file are well formed. All lines are read before any filter,
/// so that a file with a line that is not a mount has no patterns.
pub open spec fn file_ok(t: Seq<char>) -> bool {
    let lines = split(t, '\n');
    lines_ok(t) ==> forall|i: int| 0 <= i < lines.len() ==> line_patterns_ok(#[trigger] lines[i])
}

/// The combination that a workspace file describes, over `base`.
pub open spec fn parsed_combine(t: Seq<char>, base: FilterView) -> Result<CombineView, ErrorView> {
    match parsed_mounts(t) {
        Ok(mounts) => Ok(CombineView { base: Box::new(base), mounts }),
        Err(e) => Err(e),
    }
}

/// The filter that a text stands for: a row of items, or a workspace file over nothing.
pub open spec fn parsed(t: Seq<char>) -> Result<FilterView, ErrorView> {
    if t.len() == 0 {
        Ok(FilterView::Nop)
    } else if t[0] == '!' || t[0] == ':' {
        Ok(parsed_chain(t))
    } else {
        match parsed_combine(t, FilterView::Empty) {
            Ok(c) => Ok(FilterView::Combine(c)),
            Err(e) => Err(e),
        }
    }
}

/// The patterns in a text are well formed, as far as it is read.
pub open spec fn patterns_ok(t: Seq<char>) -> bool {
    if t.len() == 0 {
        true
    } else if t[0] == '!' || t[0] == ':' {
        row_ok(t)
    } else {
        file_ok(t)
    }
}

/// The combination that a workspace file describes, over `base`, where the patterns in it
/// are well formed.
pub open spec fn checked_combine(t: Seq<char>, base: FilterView) -> Result<CombineView, ErrorView> {
    if file_ok(t) {
        parsed_combine(t, base)
    } else {
        Err(ErrorView::InvalidPattern)
    }
}

/// How deep the lists of mounts in a text go: a row of items has none.
pub open spec fn levels(t: Seq<char>) -> nat {
    if t.len() == 0 || t[0] == '!' || t[0] == ':' {
        0
    } else {
        1
    }
}

/// The mount that a mount as it is written stands for.
pub open spec fn mount_of(m: MountText) -> Result<MountView, ErrorView> {
    match parsed(filter_text(m)) {
        Ok(filter) => Ok(MountView { prefix: m.path, filter }),
        Err(e) => Err(e),
    }
}

pub proof fn lemma_run_end(t: Seq<char>, k: int, class: Class)
    requires
        0 <= k <= t.len(),
    ensures
        k <= run_end(t, k, class) <= t.len(),
    decreases t.len() - k,
{
    if k < t.len() && in_class(t[k], class) {
        lemma_run_end(t, k + 1, class);
    }
}

pub proof fn lemma_arguments_at(t: Seq<char>, k: int)
    requires
        0 <= k <= t.len(),
    ensures
        k <= arguments_at(t, k).end <= t.len(),
    decreases t.len() - k,
{
    lemma_run_end(t, k, Class::Argument);
    let e = run_end(t, k, Class::Argument);
    if e < t.len() && t[e] == ',' {
        lemma_arguments_at(t, e + 1);
    }
}

/// An item ends after the place where it starts.
pub proof fn lemma_item_at(t: Seq<char>, k: int)
    requires
        0 <= k <= t.len(),
    ensures
        item_at(t, k) matches Some(item) ==> k < item.end <= t.len(),
{
    if k < t.len() {
        lemma_run_end(t, k + 1, Class::Name);
        let e = run_end(t, k + 1, Class::Name);
        if e < t.len() {
            lemma_arguments_at(t, e + 1);
        }
    }
}

/// A mount of a workspace file is read as its filter would be if it stood alone: as a row
/// of items.
pub proof fn law_mount_filter(line: Seq<char>)
    requires
        mount_on(line) is Some,
    ensures
        ({
            let m = mount_on(line)->0;
            let text = filter_text(m);
            &&& parsed(text) == Ok::<FilterView, ErrorView>(parsed_chain(text))
            &&& patterns_ok(text) == row_ok(text)
            &&& levels(text) == 0
            &&& mount_of(m) == Ok::<MountView, ErrorView>(
                MountView { prefix: m.path, filter: parsed_chain(text) },
            )
        }),
{
    let p = run_end(line, 0, Class::Path);
    let q = run_end(line, p, Class::Blank);
    let k = run_end(line, q + 1, Class::Blank);
    lemma_run_end(line, 0, Class::Path);
    let m = mount_on(line)->0;
    let text = filter_text(m);
    match m.filter {
        Some(_) => {
            lemma_run_end(line, p, Class::Blank);
            lemma_run_end(line, q + 1, Class::Blank);
            if text.len() > 0 {
                assert(item_at(line, k) is Some);
                assert(text[0] == line[k]);
            } else {
                assert(item_at(text, 0) is None);
                assert(items_from(text, 0).len() == 0);
            }
        },
        None => {
            reveal_strlit(":/");
            assert(text[0] == ':');
        },
    }
}

fn is_in_class(c: char, class: Class) -> (r: bool)
    ensures
        r == in_class(c, class),
{
    let blank: bool = c == ' ' || c == '\t' || c == '\r';
    let argument: bool = !blank && c != '\n' && c != ':' && c != '!' && c != ',';
    match class {
        Class::Name => ('a' <= c && c <= 'z') || ('A' <= c && c <= 'Z') || c == '+' || c == '~',
        Class::Argument => argument,
        Class::Path => argument && c != '=',
        Class::Blank => blank,
    }
}

fn run_end_of(t: &Vec<char>, k: usize, class: Class) -> (r: usize)
    requires
        k <= t@.len(),
    ensures
        r == run_end(t@, k as int, class),
        k <= r <= t@.len(),
{
    let mut i: usize = k;
    while i < t.len() && is_in_class(t[i], class)
        invariant
            k <= i <= t@.len(),
            run_end(t@, k as int, class) == run_end(t@, i as int, class),
        decreases t@.len() - i,
    {
        i += 1;
    }
    i
}

/// A text between two places.
fn between(s: &str, i: usize, j: usize) -> (r: String)
    requires
        i <= j <= s@.len(),
    ensures
        r@ == s@.subrange(i as int, j as int),
{
    s.substring_char(i, j).to_owned()
}

/// An item as it is written: its name and arguments.
pub struct Item {
    pub args: Vec<String>,
}

/// Lists of items as values.
pub open spec fn item_views(v: Seq<Item>) -> Seq<Seq<Seq<char>>> {
    Seq::new(v.len(), |i: int| texts(v[i].args@))
}

fn read_arguments(s: &str, t: &Vec<char>, k: usize, args: &mut Vec<String>) -> (r: usize)
    requires
        t@ == s@,
        k <= t@.len(),
    ensures
        r == arguments_at(s@, k as int).end,
        k <= r <= s@.len(),
        texts(final(args)@) == texts(old(args)@) + arguments_at(s@, k as int).args,
{
    let mut i: usize = k;
    let ghost start = texts(args@);
    loop
        invariant
            t@ == s@,
            start == texts(old(args)@),
            k <= i <= t@.len(),
            arguments_at(s@, k as int).end == arguments_at(s@, i as int).end,
            texts(args@) + arguments_at(s@, i as int).args == start + arguments_at(
                s@,
                k as int,
            ).args,
        decreases t@.len() - i,
    {
        let e: usize = run_end_of(t, i, Class::Argument);
        let ghost was = texts(args@);
        let ghost here = s@.subrange(i as int, e as int);
        let arg: String = between(s, i, e);
        args.push(arg);
        assert(texts(args@) =~= was.push(here));
        if e < t.len() && t[e] == ',' {
            assert(texts(args@) + arguments_at(s@, e + 1).args =~= was + arguments_at(
                s@,
                i as int,
            ).args);
            i = e + 1;
        } else {
            assert(texts(args@) =~= was + arguments_at(s@, i as int).args);
            return e;
        }
    }
}

/// Reads the item that starts at `k`, and tells where it ends.
fn read_item(s: &str, t: &Vec<char>, k: usize) -> (r: Option<(Item, usize)>)
    requires
        t@ == s@,
        k <= t@.len(),
    ensures
        match r {
            Some((item, end)) => k < end <= s@.len() && item_at(s@, k as int) == Some(
                Read { args: texts(item.args@), end: end as int },
            ),
            None => item_at(s@, k as int) is None,
        },
{
    let n: usize = t.len();
    if !(k < n && (t[k] == ':' || t[k] == '!')) {
        return None;
    }
    proof {
        lemma_item_at(s@, k as int);
    }
    let mut args: Vec<String> = Vec::new();
    let e: usize = run_end_of(t, k + 1, Class::Name);
    let name: String = between(s, k + 1, e);
    args.push(name);
    assert(texts(args@) =~= seq![s@.subrange(k + 1, e as int)]);
    if e < n && (t[e] == '=' || t[e] == '/') {
        let end: usize = read_arguments(s, t, e + 1, &mut args);
        Some((Item { args }, end))
    } else if e > k + 1 {
        Some((Item { args }, e))
    } else {
        None
    }
}

/// Reads the items from `k` on, and tells where they end.
fn read_items(s: &str, k: usize) -> (r: (Vec<Item>, usize))
    requires
        k <= s@.len(),
    ensures
        item_views(r.0@) == items_from(s@, k as int),
        r.1 == items_end(s@, k as int),
{
    let t = chars_of(s);
    let mut items: Vec<Item> = Vec::new();
    let mut i: usize = k;
    assert(item_views(items@) + items_from(s@, k as int) =~= items_from(s@, k as int));
    loop
        invariant
            t@ == s@,
            k <= i <= t@.len(),
            item_views(items@) + items_from(s@, i as int) == items_from(s@, k as int),
            items_end(s@, i as int) == items_end(s@, k as int),
        decreases t@.len() - i,
    {
        match read_item(s, &t, i) {
            None => {
                assert(item_views(items@) =~= items_from(s@, k as int));
                return (items, i);
            },
            Some((item, end)) => {
                let ghost was = item_views(items@);
                let ghost here = texts(item.args@);
                items.push(item);
                assert(item_views(items@) =~= was.push(here));
                assert(item_views(items@) + items_from(s@, end as int) =~= was + items_from(
                    s@,
                    i as int,
                ));
                i = end;
            },
        }
    }
}

/// The name and the arguments of an item.
fn item_args(item: &Item) -> (args: Vec<&str>)
    ensures
        strs(args@) == texts(item.args@),
{
    let mut args: Vec<&str> = Vec::new();
    let mut i: usize = 0;
    while i < item.args.len()
        invariant
            i <= item.args@.len(),
            args@.len() == i,
            forall|j: int| 0 <= j < i ==> (#[trigger] args@[j])@ == item.args@[j]@,
        decreases item.args@.len() - i,
    {
        args.push(item.args[i].as_str());
        i += 1;
    }
    assert(strs(args@) =~= texts(item.args@));
    args
}

/// The filter that an item stands for. A pattern has to be well formed.
pub fn parse_item(item: &Item) -> (r: Box<Filter>)
    requires
        pattern_ok(texts(item.args@)),
    ensures
        r.view() == made(texts(item.args@)),
{
    let args = item_args(item);
    make_filter(args.as_slice())
}

/// The filter that a row of items stands for.
fn read_row(s: &str) -> (r: Box<Filter>)
    requires
        row_ok(s@),
    ensures
        r.view() == parsed_chain(s@),
{
    let (items, _) = read_items(s, 0);
    let ghost iv = item_views(items@);
    if items.len() == 0 {
        return Box::new(Filter::Nop);
    }
    assert(iv[0] == texts(items@[0].args@));
    let mut chain = parse_item(&items[0]);
    let mut i: usize = 1;
    while i < items.len()
        invariant
            iv == item_views(items@),
            iv == items_from(s@, 0),
            row_ok(s@),
            1 <= i <= items@.len(),
            chain.view() == chained(iv, i as int),
        decreases items@.len() - i,
    {
        assert(iv[i as int] == texts(items@[i as int].args@));
        let next = parse_item(&items[i]);
        chain = build_chain(chain, next);
        i += 1;
    }
    chain
}

/// Whether the patterns in a row of items are well formed.
fn row_is_good(s: &str) -> (r: bool)
    ensures
        r == row_ok(s@),
{
    let (items, _) = read_items(s, 0);
    let ghost iv = item_views(items@);
    let mut i: usize = 0;
    while i < items.len()
        invariant
            iv == item_views(items@),
            iv == items_from(s@, 0),
            i <= items@.len(),
            forall|j: int| 0 <= j < i ==> pattern_ok(#[trigger] iv[j]),
        decreases items@.len() - i,
    {
        assert(iv[i as int] == texts(items@[i as int].args@));
        let args = item_args(&items[i]);
        if !has_good_pattern(args.as_slice()) {
            return false;
        }
        i += 1;
    }
    true
}

/// A mount as it is written.
pub struct MountLine {
    pub path: String,
    pub filter: Option<String>,
}

impl View for MountLine {
    type V = MountText;

    open spec fn view(&self) -> MountText {
        MountText {
            path: self.path@,
            filter: match self.filter {
                Some(t) => Some(t@),
                None => None,
            },
        }
    }
}

/// Reads the mount on a line that neither starts nor ends with a blank.
fn read_mount(s: &str) -> (r: Option<MountLine>)
    ensures
        match r {
            Some(m) => mount_on(s@) == Some(m@),
            None => mount_on(s@) is None,
        },
{
    let t = chars_of(s);
    let n: usize = t.len();
    let p: usize = run_end_of(&t, 0, Class::Path);
    if p == 0 {
        return None;
    }
    if p == n {
        return Some(MountLine { path: s.to_owned(), filter: None });
    }
    let q: usize = run_end_of(&t, p, Class::Blank);
    if !(q < n && t[q] == '=') {
        return None;
    }
    let k: usize = run_end_of(&t, q + 1, Class::Blank);
    let (_, end) = read_items(s, k);
    if end != n {
        return None;
    }
    let path: String = between(s, 0, p);
    let filter: String = between(s, k, n);
    assert(s@.subrange(0, p as int) =~= s@.take(p as int));
    assert(s@.subrange(k as int, n as int) =~= s@.skip(k as int));
    Some(MountLine { path, filter: Some(filter) })
}

/// A line without the blanks round it.
fn trimmed_line(s: &str) -> (r: String)
    ensures
        r@ == trimmed(s@),
{
    let t = chars_of(s);
    let k: usize = run_end_of(&t, 0, Class::Blank);
    let mut n: usize = t.len();
    let ghost rest = s@.skip(k as int);
    assert(s@.subrange(k as int, n as int) =~= rest);
    while k < n && is_in_class(t[n - 1], Class::Blank)
        invariant
            t@ == s@,
            k <= n <= t@.len(),
            trim_blank(rest) == trim_blank(s@.subrange(k as int, n as int)),
        decreases n,
    {
        let ghost here = s@.subrange(k as int, n as int);
        assert(here.last() == t@[n - 1]);
        assert(here.drop_last() =~= s@.subrange(k as int, n - 1));
        n -= 1;
    }
    let ghost here = s@.subrange(k as int, n as int);
    if k < n {
        assert(here.last() == t@[n - 1]);
    }
    between(s, k, n)
}

fn filter_text_of(entry: &MountLine) -> (r: String)
    ensures
        r@ == filter_text(entry@),
{
    match &entry.filter {
        Some(t) => t.as_str().to_owned(),
        None => {
            let mut t: String = ":/".to_owned();
            t.append(entry.path.as_str());
            t
        },
    }
}

/// Adds the mount that a line describes to a combination. Patterns have to be well formed.
pub fn parse_file_entry(entry: &MountLine, combine_filter: &mut Combine) -> (r: Result<(), Error>)
    requires
        patterns_ok(filter_text(entry@)),
    ensures
        match r {
            Ok(()) => final(combine_filter).base == old(combine_filter).base && mount_of(
                entry@,
            ) is Ok
                && final(combine_filter).view().mounts == old(combine_filter).view().mounts.push(
                mount_of(entry@)->Ok_0,
            ),
            Err(e) => *final(combine_filter) == *old(combine_filter) && mount_of(entry@) == Err::<
                MountView,
                ErrorView,
            >(e@),
        },
    decreases levels(filter_text(entry@)), 1int,
{
    let text: String = filter_text_of(entry);
    match parse(text.as_str()) {
        Ok(f) => {
            proof {
                lemma_combine_view(*combine_filter);
            }
            combine_filter.mounts.push(Mount { prefix: entry.path.as_str().to_owned(), filter: *f });
            proof {
                lemma_combine_view(*combine_filter);
                assert(mount_views(combine_filter.mounts@) =~= mount_views(
                    old(combine_filter).mounts@,
                ).push(mount_of(entry@)->Ok_0));
            }
            Ok(())
        },
        Err(e) => Err(e),
    }
}

/// The mounts as they are written, one for each line; a line of blanks has none.
fn read_lines(s: &str) -> (r: Result<Vec<Option<MountLine>>, Error>)
    ensures
        ({
            let lines = split(s@, '\n');
            match r {
                Ok(v) => {
                    &&& v@.len() == lines.len()
                    &&& forall|i: int|
                        0 <= i < lines.len() ==> line_ok(#[trigger] lines[i]) && match v@[i] {
                            Some(m) => trimmed(lines[i]).len() > 0 && mount_on(trimmed(lines[i]))
                                == Some(m@),
                            None => trimmed(lines[i]).len() == 0,
                        }
                },
                Err(e) => e@ == ErrorView::InvalidWorkspace(s@) && !forall|i: int|
                    0 <= i < lines.len() ==> line_ok(#[trigger] lines[i]),
            }
        }),
{
    let ls = pieces(s, '\n');
    let ghost lines = split(s@, '\n');
    let mut v: Vec<Option<MountLine>> = Vec::new();
    let mut i: usize = 0;
    while i < ls.len()
        invariant
            lines == split(s@, '\n'),
            texts(ls@) == lines,
            i <= ls@.len(),
            v@.len() == i,
            forall|j: int|
                0 <= j < i ==> line_ok(#[trigger] lines[j]) && match v@[j] {
                    Some(m) => trimmed(lines[j]).len() > 0 && mount_on(trimmed(lines[j])) == Some(
                        m@,
                    ),
                    None => trimmed(lines[j]).len() == 0,
                },
        decreases ls@.len() - i,
    {
        assert(lines[i as int] == ls@[i as int]@);
        let line = trimmed_line(ls[i].as_str());
        if chars_of(line.as_str()).len() == 0 {
            v.push(None);
        } else {
            match read_mount(line.as_str()) {
                Some(m) => {
                    v.push(Some(m));
                },
                None => {
                    assert(!line_ok(lines[i as int]));
                    return Err(Error::InvalidWorkspace(s.to_owned()));
                },
            }
        }
        i += 1;
    }
    Ok(v)
}

/// The combination that a workspace file describes, over `base`. Patterns have to be well
/// formed.
pub fn build_combine_filter(filter_spec: &str, base: Box<Filter>) -> (r: Result<Combine, Error>)
    requires
        file_ok(filter_spec@),
    ensures
        match r {
            Ok(c) => parsed_combine(filter_spec@, base.view()) == Ok::<CombineView, ErrorView>(
                c.view(),
            ),
            Err(e) => parsed_combine(filter_spec@, base.view()) == Err::<CombineView, ErrorView>(
                e@,
            ),
        },
    decreases 0nat, 2int,
{
    let ghost lines = split(filter_spec@, '\n');
    let ghost bv = base.view();
    let entries = match read_lines(filter_spec) {
        Ok(v) => v,
        Err(e) => {
            return Err(e);
        },
    };
    let mut combine_filter = Combine { base, mounts: Vec::new() };
    proof {
        lemma_combine_view(combine_filter);
        assert(combine_filter.view().mounts =~= Seq::<MountView>::empty());
    }
    let mut i: usize = 0;
    while i < entries.len()
        invariant
            lines == split(filter_spec@, '\n'),
            entries@.len() == lines.len(),
            forall|i: int| 0 <= i < lines.len() ==> line_patterns_ok(#[trigger] lines[i]),
            forall|i: int|
                0 <= i < lines.len() ==> line_ok(#[trigger] lines[i]) && match entries@[i] {
                    Some(m) => trimmed(lines[i]).len() > 0 && mount_on(trimmed(lines[i])) == Some(
                        m@,
                    ),
                    None => trimmed(lines[i]).len() == 0,
                },
            i <= entries@.len(),
            combine_filter.base == base,
            bv == base.view(),
            combine_filter.view().mounts == mounts_on(lines, i as int),
        decreases entries@.len() - i,
    {
        assert(line_ok(lines[i as int]));
        assert(line_patterns_ok(lines[i as int]));
        if let Some(entry) = &entries[i] {
            proof {
                law_mount_filter(trimmed(lines[i as int]));
            }
            if let Err(e) = parse_file_entry(entry, &mut combine_filter) {
                return Err(e);
            }
        }
        i += 1;
    }
    proof {
        lemma_combine_view(combine_filter);
    }
    Ok(combine_filter)
}

/// Whether the patterns in a workspace file are well formed, as far as it is read.
pub fn has_good_mounts(filter_spec: &str) -> (r: bool)
    ensures
        r == file_ok(filter_spec@),
{
    let ghost lines = split(filter_spec@, '\n');
    let entries = match read_lines(filter_spec) {
        Ok(v) => v,
        Err(_) => {
            return true;
        },
    };
    let mut i: usize = 0;
    while i < entries.len()
        invariant
            lines == split(filter_spec@, '\n'),
            entries@.len() == lines.len(),
            forall|i: int|
                0 <= i < lines.len() ==> line_ok(#[trigger] lines[i]) && match entries@[i] {
                    Some(m) => trimmed(lines[i]).len() > 0 && mount_on(trimmed(lines[i])) == Some(
                        m@,
                    ),
                    None => trimmed(lines[i]).len() == 0,
                },
            i <= entries@.len(),
            forall|j: int| 0 <= j < i ==> line_patterns_ok(#[trigger] lines[j]),
        decreases entries@.len() - i,
    {
        assert(line_ok(lines[i as int]));
        if let Some(entry) = &entries[i] {
            let text = filter_text_of(entry);
            if !row_is_good(text.as_str()) {
                assert(!line_patterns_ok(lines[i as int]));
                return false;
            }
        }
        i += 1;
    }
    true
}

/// The combination that a workspace file describes, over `base`, where the patterns in it
/// are well formed.
pub fn try_build_combine_filter(filter_spec: &str, base: Box<Filter>) -> (r: Result<Combine, Error>)
    ensures
        match r {
            Ok(c) => checked_combine(filter_spec@, base.view()) == Ok::<CombineView, ErrorView>(
                c.view(),
            ),
            Err(e) => checked_combine(filter_spec@, base.view()) == Err::<CombineView, ErrorView>(
                e@,
            ),
        },
{
    if has_good_mounts(filter_spec) {
        build_combine_filter(filter_spec, base)
    } else {
        Err(Error::InvalidPattern)
    }
}

/// Whether the patterns in a text are well formed, as far as the text is read.
pub fn has_good_patterns(filter_spec: &str) -> (r: bool)
    ensures
        r == patterns_ok(filter_spec@),
{
    let t = chars_of(filter_spec);
    if t.len() == 0 {
        true
    } else if t[0] == '!' || t[0] == ':' {
        row_is_good(filter_spec)
    } else {
        has_good_mounts(filter_spec)
    }
}

/// The filter that a text stands for. Its patterns have to be well formed.
pub fn parse(filter_spec: &str) -> (r: Result<Box<Filter>, Error>)
    requires
        patterns_ok(filter_spec@),
    ensures
        match r {
            Ok(f) => parsed(filter_spec@) == Ok::<FilterView, ErrorView>(f.view()),
            Err(e) => parsed(filter_spec@) == Err::<FilterView, ErrorView>(e@),
        },
    decreases levels(filter_spec@), 0int,
{
    let t = chars_of(filter_spec);
    if t.len() == 0 {
        return Ok(Box::new(Filter::Nop));
    }
    if t[0] == '!' || t[0] == ':' {
        return Ok(read_row(filter_spec));
    }
    match build_combine_filter(filter_spec, Box::new(Filter::Empty)) {
        Ok(c) => Ok(Box::new(Filter::Combine(c))),
        Err(e) => Err(e),
    }
}

/// The filter that a text stands for, where its patterns are well formed.
pub fn try_parse(filter_spec: &str) -> (r: Result<Box<Filter>, Error>)
    ensures
        patterns_ok(filter_spec@) ==> match r {
            Ok(f) => parsed(filter_spec@) == Ok::<FilterView, ErrorView>(f.view()),
            Err(e) => parsed(filter_spec@) == Err::<FilterView, ErrorView>(e@),
        },
        !patterns_ok(filter_spec@) ==> (r matches Err(e) && e@ == ErrorView::InvalidPattern),
{
    if has_good_patterns(filter_spec) {
        parse(filter_spec)
    } else {
        Err(Error::InvalidPattern)
    }
}

} // verus!
