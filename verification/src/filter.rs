//! Filters, what they are called, and how they are made.

use crate::path::{component_views, components, components_of, ComponentView};
use crate::pattern::{glob_is_valid, is_valid, Pattern};
use crate::text::{remove_first, same_text, trim_end, trimmed_end, without_first};
use crate::values::{arguments, kvargs, strs, with_pair, PairView, Values};
use vstd::prelude::*;
use vstd::slice::slice_subrange;

verus! {

/// A filter as a value.
pub enum FilterView {
    /// Keeps everything.
    Nop,
    /// Keeps the workspace files, and records where each directory stood.
    Dirs,
    /// Joins what the history held to each commit.
    Fold,
    /// Keeps nothing.
    Empty,
    /// Cuts the history off, under a name.
    Cutoff(Seq<char>),
    /// One filter after another.
    Chain(Box<FilterView>, Box<FilterView>),
    /// The directory at a path.
    Subdir(Seq<char>),
    /// Everything, below a path.
    Prefix(Seq<char>),
    /// Everything but what stands at a path.
    Hide(Seq<char>),
    /// The files whose paths match a pattern, or do not match it.
    Glob { pattern: Seq<char>, invert: bool },
    /// Everything, and a file that holds the values.
    Info(Seq<PairView>),
    /// What several filters give, each at a path of its own.
    Combine(CombineView),
    /// The combination that the workspace file at a path describes.
    Workspace(Seq<char>),
}

/// A filter, and filters whose results are mounted over what it gives.
pub struct CombineView {
    pub base: Box<FilterView>,
    pub mounts: Seq<MountView>,
}

/// A filter, and the path at which its result is mounted.
pub struct MountView {
    pub prefix: Seq<char>,
    pub filter: FilterView,
}

/// A filter.
pub enum Filter {
    Nop,
    Dirs,
    Fold,
    Empty,
    Cutoff(String),
    Chain(Box<Filter>, Box<Filter>),
    Subdir(String),
    Prefix(String),
    Hide(String),
    Glob { pattern: Pattern, invert: bool },
    Info(Values),
    Combine(Combine),
    Workspace(String),
}

/// A filter, and filters whose results are mounted over what it gives.
pub struct Combine {
    pub base: Box<Filter>,
    pub mounts: Vec<Mount>,
}

/// A filter, and the path at which its result is mounted.
pub struct Mount {
    pub prefix: String,
    pub filter: Filter,
}

impl Filter {
    pub open spec fn view(&self) -> FilterView
        decreases self,
    {
        match self {
            Filter::Nop => FilterView::Nop,
            Filter::Dirs => FilterView::Dirs,
            Filter::Fold => FilterView::Fold,
            Filter::Empty => FilterView::Empty,
            Filter::Cutoff(name) => FilterView::Cutoff(name@),
            Filter::Chain(a, b) => FilterView::Chain(Box::new((*a).view()), Box::new((*b).view())),
            Filter::Subdir(path) => FilterView::Subdir(path@),
            Filter::Prefix(path) => FilterView::Prefix(path@),
            Filter::Hide(path) => FilterView::Hide(path@),
            Filter::Glob { pattern, invert } => FilterView::Glob {
                pattern: pattern@,
                invert: *invert,
            },
            Filter::Info(values) => FilterView::Info(values@),
            Filter::Combine(c) => FilterView::Combine((*c).view()),
            Filter::Workspace(path) => FilterView::Workspace(path@),
        }
    }
}

impl Combine {
    pub open spec fn view(&self) -> CombineView
        decreases self,
    {
        CombineView {
            base: Box::new((*self.base).view()),
            mounts: Seq::new(
                self.mounts@.len(),
                |i: int|
                    if 0 <= i < self.mounts@.len() {
                        self.mounts@[i].view()
                    } else {
                        arbitrary()
                    },
            ),
        }
    }
}

impl Mount {
    pub open spec fn view(&self) -> MountView
        decreases self,
    {
        MountView { prefix: self.prefix@, filter: self.filter.view() }
    }
}

/// A list of mounts as a value.
pub open spec fn mount_views(v: Seq<Mount>) -> Seq<MountView> {
    Seq::new(v.len(), |i: int| v[i].view())
}

/// The mounts of a combination.
pub proof fn lemma_combine_view(c: Combine)
    ensures
        c.view().mounts == mount_views(c.mounts@),
        *c.view().base == (*c.base).view(),
{
    assert(c.view().mounts =~= mount_views(c.mounts@));
}

/// The first `k` values of an info filter as they stand in its text.
pub open spec fn values_text(values: Seq<PairView>, k: int) -> Seq<char>
    decreases k,
{
    if k <= 0 {
        Seq::empty()
    } else {
        values_text(values, k - 1) + values[k - 1].0 + "="@ + values[k - 1].1 + ","@
    }
}

/// The text that stands for a filter.
pub open spec fn spec_text(f: FilterView) -> Seq<char>
    decreases f, 0int,
{
    match f {
        FilterView::Nop => ":nop"@,
        FilterView::Dirs => ":DIRS"@,
        FilterView::Fold => ":FOLD"@,
        FilterView::Empty => ":empty"@,
        FilterView::Cutoff(name) => ":CUTOFF="@ + name,
        FilterView::Chain(a, b) => remove_first(spec_text(*a) + spec_text(*b), ":nop"@),
        FilterView::Subdir(path) => ":/"@ + path,
        FilterView::Prefix(path) => ":prefix="@ + path,
        FilterView::Hide(path) => ":hide="@ + path,
        FilterView::Glob { pattern, invert } => if invert {
            ":~glob="@ + pattern
        } else {
            ":glob="@ + pattern
        },
        FilterView::Info(values) => trim_end(
            ":INFO="@ + values_text(values, values.len() as int),
            ',',
        ),
        FilterView::Combine(c) => combine_text(c, c.mounts.len() as int),
        FilterView::Workspace(path) => ":workspace="@ + path,
    }
}

/// The text that stands for a combination of the first `k` mounts.
pub open spec fn combine_text(c: CombineView, k: int) -> Seq<char>
    decreases c, k,
{
    if k <= 0 || k > c.mounts.len() {
        "/ = "@ + spec_text(*c.base)
    } else {
        combine_text(c, k - 1) + "\n"@ + mount_text(c.mounts[k - 1])
    }
}

/// The text that stands for a mount.
pub open spec fn mount_text(m: MountView) -> Seq<char>
    decreases m, 0int,
{
    m.prefix + " = "@ + spec_text(m.filter)
}

/// The texts of the first `k` mounts, by the paths at which they stand.
pub open spec fn mounts_table(mounts: Seq<MountView>, k: int) -> Seq<PairView>
    decreases k,
{
    if k <= 0 {
        Seq::empty()
    } else {
        with_pair(
            mounts_table(mounts, k - 1),
            mounts[k - 1].prefix,
            spec_text(mounts[k - 1].filter),
        )
    }
}

/// The texts of the mounts of a filter, by the paths at which they stand.
pub open spec fn prefix_table(f: FilterView) -> Seq<PairView> {
    match f {
        FilterView::Combine(c) => mounts_table(c.mounts, c.mounts.len() as int),
        _ => Seq::empty(),
    }
}

/// The filter for the first `k` components of a path: the directory at each of them, one
/// after the other.
pub open spec fn subdirs(cs: Seq<ComponentView>, k: int) -> FilterView
    decreases k,
{
    if k <= 0 {
        FilterView::Nop
    } else if k == 1 {
        FilterView::Subdir(cs[0].text)
    } else {
        FilterView::Chain(
            Box::new(subdirs(cs, k - 1)),
            Box::new(FilterView::Subdir(cs[k - 1].text)),
        )
    }
}

/// The filter for the directory at a path.
pub open spec fn subdir_filter(path: Seq<char>) -> FilterView {
    subdirs(components(path), components(path).len() as int)
}

/// Whether a name and its arguments stand for a filter by a pattern.
pub open spec fn is_glob(args: Seq<Seq<char>>) -> bool {
    args.len() == 2 && (args[0] == "~glob"@ || args[0] == "glob"@)
}

/// Where a pattern is needed, it is well formed.
pub open spec fn pattern_ok(args: Seq<Seq<char>>) -> bool {
    is_glob(args) ==> glob_is_valid(args[1])
}

/// The filter that a name and its arguments stand for. Names that are not known, or have
/// another number of arguments than they need, stand for the filter that keeps nothing.
pub open spec fn made(args: Seq<Seq<char>>) -> FilterView {
    let n = args.len();
    if n == 2 && args[0] == ""@ {
        subdir_filter(args[1])
    } else if n == 1 && args[0] == "empty"@ {
        FilterView::Empty
    } else if n == 1 && args[0] == "nop"@ {
        FilterView::Nop
    } else if n == 2 && (args[0] == "prefix"@ || args[0] == "+"@) {
        FilterView::Prefix(args[1])
    } else if n == 2 && args[0] == "hide"@ {
        FilterView::Hide(args[1])
    } else if is_glob(args) {
        FilterView::Glob { pattern: args[1], invert: args[0] == "~glob"@ }
    } else if n == 2 && args[0] == "workspace"@ {
        FilterView::Workspace(args[1])
    } else if n >= 1 && args[0] == "INFO"@ {
        FilterView::Info(arguments(args.skip(1)))
    } else if n == 2 && args[0] == "CUTOFF"@ {
        FilterView::Cutoff(args[1])
    } else if n == 1 && args[0] == "DIRS"@ {
        FilterView::Dirs
    } else if n == 1 && args[0] == "FOLD"@ {
        FilterView::Fold
    } else {
        FilterView::Empty
    }
}

/// A text made of two.
fn concat(a: &str, b: &str) -> (r: String)
    ensures
        r@ == a@ + b@,
{
    let mut r: String = a.to_owned();
    r.append(b);
    r
}

impl Mount {
    /// The text that stands for the mount.
    pub fn text(&self) -> (r: String)
        ensures
            r@ == mount_text(self.view()),
        decreases self, 0int,
    {
        let mut r: String = concat(self.prefix.as_str(), " = ");
        let spec = self.filter.filter_spec();
        r.append(spec.as_str());
        r
    }
}

impl Combine {
    /// The text that stands for the combination.
    pub fn text(&self) -> (r: String)
        ensures
            r@ == combine_text(self.view(), self.view().mounts.len() as int),
        decreases self, 0int,
    {
        let ghost c = self.view();
        proof {
            lemma_combine_view(*self);
        }
        let base = self.base.filter_spec();
        let mut r: String = concat("/ = ", base.as_str());
        let mut i: usize = 0;
        while i < self.mounts.len()
            invariant
                decreases_to!(self => self.mounts@),
                c == self.view(),
                c.mounts == mount_views(self.mounts@),
                i <= self.mounts.len(),
                r@ == combine_text(c, i as int),
            decreases self.mounts.len() - i,
        {
            r.append("\n");
            assert(decreases_to!(self.mounts@ => self.mounts@[i as int]));
            let line = self.mounts[i].text();
            r.append(line.as_str());
            i += 1;
        }
        r
    }
}

impl Filter {
    /// The text that stands for the filter.
    pub fn filter_spec(&self) -> (r: String)
        ensures
            r@ == spec_text(self.view()),
        decreases self, 0int,
    {
        match self {
            Filter::Nop => ":nop".to_owned(),
            Filter::Dirs => ":DIRS".to_owned(),
            Filter::Fold => ":FOLD".to_owned(),
            Filter::Empty => ":empty".to_owned(),
            Filter::Cutoff(name) => concat(":CUTOFF=", name.as_str()),
            Filter::Chain(a, b) => {
                let first = a.filter_spec();
                let second = b.filter_spec();
                without_first(concat(first.as_str(), second.as_str()).as_str(), ":nop")
            },
            Filter::Subdir(path) => concat(":/", path.as_str()),
            Filter::Prefix(path) => concat(":prefix=", path.as_str()),
            Filter::Hide(path) => concat(":hide=", path.as_str()),
            Filter::Glob { pattern, invert } => if *invert {
                concat(":~glob=", pattern.as_str())
            } else {
                concat(":glob=", pattern.as_str())
            },
            Filter::Info(values) => {
                let mut r: String = ":INFO=".to_owned();
                let mut i: usize = 0;
                assert(r@ =~= ":INFO="@ + values_text(values@, 0));
                while i < values.len()
                    invariant
                        i <= values@.len(),
                        r@ == ":INFO="@ + values_text(values@, i as int),
                    decreases values@.len() - i,
                {
                    let pair = values.pair(i);
                    let ghost was = r@;
                    r.append(pair.key.as_str());
                    r.append("=");
                    r.append(pair.value.as_str());
                    r.append(",");
                    assert(r@ =~= ":INFO="@ + values_text(values@, i + 1));
                    i += 1;
                }
                trimmed_end(r.as_str(), ',')
            },
            Filter::Combine(c) => c.text(),
            Filter::Workspace(path) => concat(":workspace=", path.as_str()),
        }
    }

    /// The texts of the mounts, by the paths at which they stand.
    pub fn prefixes(&self) -> (r: Values)
        ensures
            r@ == prefix_table(self.view()),
    {
        let mut r = Values::new();
        if let Filter::Combine(c) = self {
            let ghost ms = c.view().mounts;
            proof {
                lemma_combine_view(*c);
            }
            let mut i: usize = 0;
            while i < c.mounts.len()
                invariant
                    ms == mount_views(c.mounts@),
                    i <= c.mounts.len(),
                    r@ == mounts_table(ms, i as int),
                decreases c.mounts.len() - i,
            {
                let spec = c.mounts[i].filter.filter_spec();
                assert(ms[i as int] == c.mounts@[i as int].view());
                r.insert(c.mounts[i].prefix.as_str(), spec.as_str());
                i += 1;
            }
        }
        r
    }
}

/// The filter that applies `first` and then `second`.
pub fn build_chain(first: Box<Filter>, second: Box<Filter>) -> (r: Box<Filter>)
    ensures
        r.view() == FilterView::Chain(Box::new(first.view()), Box::new(second.view())),
{
    Box::new(Filter::Chain(first, second))
}

/// The filter for the directory at a path.
pub fn subdir_filter_of(path: &str) -> (r: Box<Filter>)
    ensures
        r.view() == subdir_filter(path@),
{
    let cs = components_of(path);
    let ghost cv = component_views(cs@);
    if cs.len() == 0 {
        return Box::new(Filter::Nop);
    }
    assert(cv[0].text == cs@[0].text@);
    let mut chain = Box::new(Filter::Subdir(cs[0].text.as_str().to_owned()));
    let mut i: usize = 1;
    while i < cs.len()
        invariant
            cv == component_views(cs@),
            1 <= i <= cs.len(),
            chain.view() == subdirs(cv, i as int),
        decreases cs.len() - i,
    {
        assert(cv[i as int].text == cs@[i as int].text@);
        let next = Box::new(Filter::Subdir(cs[i].text.as_str().to_owned()));
        chain = build_chain(chain, next);
        i += 1;
    }
    chain
}

/// Whether a pattern, where one is needed, is well formed.
pub fn has_good_pattern(args: &[&str]) -> (r: bool)
    ensures
        r == pattern_ok(strs(args@)),
{
    let ghost a = strs(args@);
    if args.len() != 2 {
        return true;
    }
    assert(a[0] == args@[0]@);
    assert(a[1] == args@[1]@);
    if same_text(args[0], "~glob") || same_text(args[0], "glob") {
        is_valid(args[1])
    } else {
        true
    }
}

/// The filter that a name and its arguments stand for. A pattern has to be well formed.
pub fn make_filter(args: &[&str]) -> (r: Box<Filter>)
    requires
        pattern_ok(strs(args@)),
    ensures
        r.view() == made(strs(args@)),
{
    let ghost a = strs(args@);
    let n: usize = args.len();
    if n == 0 {
        return Box::new(Filter::Empty);
    }
    assert(a[0] == args@[0]@);
    let name: &str = args[0];
    let first: &str = if n == 2 {
        assert(a[1] == args@[1]@);
        args[1]
    } else {
        ""
    };
    if n == 2 && same_text(name, "") {
        subdir_filter_of(first)
    } else if n == 1 && same_text(name, "empty") {
        Box::new(Filter::Empty)
    } else if n == 1 && same_text(name, "nop") {
        Box::new(Filter::Nop)
    } else if n == 2 && (same_text(name, "prefix") || same_text(name, "+")) {
        Box::new(Filter::Prefix(first.to_owned()))
    } else if n == 2 && same_text(name, "hide") {
        Box::new(Filter::Hide(first.to_owned()))
    } else if n == 2 && (same_text(name, "~glob") || same_text(name, "glob")) {
        Box::new(Filter::Glob { pattern: Pattern::of(first), invert: same_text(name, "~glob") })
    } else if n == 2 && same_text(name, "workspace") {
        Box::new(Filter::Workspace(first.to_owned()))
    } else if same_text(name, "INFO") {
        let rest: &[&str] = slice_subrange(args, 1, n);
        assert(strs(rest@) =~= a.skip(1));
        Box::new(Filter::Info(kvargs(rest)))
    } else if n == 2 && same_text(name, "CUTOFF") {
        Box::new(Filter::Cutoff(first.to_owned()))
    } else if n == 1 && same_text(name, "DIRS") {
        Box::new(Filter::Dirs)
    } else if n == 1 && same_text(name, "FOLD") {
        Box::new(Filter::Fold)
    } else {
        Box::new(Filter::Empty)
    }
}

} // verus!
