//! A repository in memory: blobs, trees and commits that are added and never change.
//! Equal objects get the same id, and different ones different ids.

use crate::arena::{
    arena_wf, at, commit, dir, entries_wf, entry_wf, extends, has_name, is_blob, is_commit,
    is_object, is_tree, lemma_arena_push, lemma_commit_stable, lemma_dir_listed, lemma_dir_stable,
    lemma_listed_stable, listed, mode_fits, node, object_wf, Arena, CommitView, EntryView,
    ObjectView, Oid,
};
use crate::bytes::{copied, same};
use crate::entries::{in_order, lemma_listed_replaced, with_entry};
use crate::error::{Error, ErrorView};
use crate::memo::{lemma_memo_stable, memo_values, Memo};
use crate::node::{empty_dir, is_name_storable, name_storable, Dir, LINK_MODE, Rules, TREE_MODE};
use crate::strip::right;
use crate::text::same_text;
use std::collections::HashMap;
use vstd::prelude::*;

verus! {

/// One entry of a tree.
pub struct Entry {
    pub name: Vec<u8>,
    pub mode: u32,
    pub oid: Oid,
}

impl View for Entry {
    type V = EntryView;

    open spec fn view(&self) -> EntryView {
        EntryView { name: self.name@, mode: self.mode, oid: self.oid }
    }
}

/// A commit: its tree, the commits it follows, and all else that it records.
pub struct Commit {
    pub tree: Oid,
    pub parents: Vec<Oid>,
    pub meta: Vec<u8>,
}

/// An object of a repository.
pub enum Object {
    Blob(Vec<u8>),
    Link(Vec<u8>),
    Tree(Vec<Entry>),
    Commit(Commit),
}

/// The entries of a list as values.
pub open spec fn entry_views(es: Seq<Entry>) -> Seq<EntryView> {
    Seq::new(es.len(), |i: int| es[i]@)
}

impl View for Object {
    type V = ObjectView;

    open spec fn view(&self) -> ObjectView {
        match self {
            Object::Blob(data) => ObjectView::Blob(data@),
            Object::Link(id) => ObjectView::Link(id@),
            Object::Tree(es) => ObjectView::Tree(entry_views(es@)),
            Object::Commit(c) => ObjectView::Commit {
                tree: c.tree,
                parents: c.parents@,
                meta: c.meta@,
            },
        }
    }
}

/// A number for an object, by which it is found again.
spec fn mix(h: u64, w: u64) -> u64 {
    h.wrapping_mul(1099511628211).wrapping_add(w)
}

spec fn mix_bytes(h: u64, s: Seq<u8>) -> u64
    decreases s.len(),
{
    if s.len() == 0 {
        h
    } else {
        mix(mix_bytes(h, s.drop_last()), s.last() as u64)
    }
}

spec fn mix_oid(h: u64, o: Oid) -> u64 {
    match o {
        Oid::Zero => mix(h, 0),
        Oid::Object(k) => mix(h, k as u64),
    }
}

spec fn mix_oids(h: u64, s: Seq<Oid>) -> u64
    decreases s.len(),
{
    if s.len() == 0 {
        h
    } else {
        mix_oid(mix_oids(h, s.drop_last()), s.last())
    }
}

spec fn mix_entries(h: u64, s: Seq<EntryView>) -> u64
    decreases s.len(),
{
    if s.len() == 0 {
        h
    } else {
        let e = s.last();
        mix_oid(mix(mix_bytes(mix_entries(h, s.drop_last()), e.name), e.mode as u64), e.oid)
    }
}

#[verifier::opaque]
spec fn digest(o: ObjectView) -> u64 {
    match o {
        ObjectView::Blob(data) => mix_bytes(1, data),
        ObjectView::Link(id) => mix_bytes(2, id),
        ObjectView::Tree(es) => mix_entries(3, es),
        ObjectView::Commit { tree, parents, meta } => mix_bytes(
            mix_oids(mix_oid(4, tree), parents),
            meta,
        ),
    }
}

fn mixed(h: u64, w: u64) -> (r: u64)
    ensures
        r == mix(h, w),
{
    h.wrapping_mul(1099511628211).wrapping_add(w)
}

fn mixed_bytes(h: u64, s: &Vec<u8>) -> (r: u64)
    ensures
        r == mix_bytes(h, s@),
{
    let mut r: u64 = h;
    let mut i: usize = 0;
    while i < s.len()
        invariant
            i <= s.len(),
            r == mix_bytes(h, s@.take(i as int)),
        decreases s.len() - i,
    {
        assert(s@.take(i + 1).drop_last() =~= s@.take(i as int));
        r = mixed(r, s[i] as u64);
        i += 1;
    }
    assert(s@.take(s@.len() as int) =~= s@);
    r
}

fn mixed_oid(h: u64, o: Oid) -> (r: u64)
    ensures
        r == mix_oid(h, o),
{
    match o {
        Oid::Zero => mixed(h, 0),
        Oid::Object(k) => mixed(h, k as u64),
    }
}

fn mixed_oids(h: u64, s: &Vec<Oid>) -> (r: u64)
    ensures
        r == mix_oids(h, s@),
{
    let mut r: u64 = h;
    let mut i: usize = 0;
    while i < s.len()
        invariant
            i <= s.len(),
            r == mix_oids(h, s@.take(i as int)),
        decreases s.len() - i,
    {
        assert(s@.take(i + 1).drop_last() =~= s@.take(i as int));
        r = mixed_oid(r, s[i]);
        i += 1;
    }
    assert(s@.take(s@.len() as int) =~= s@);
    r
}

fn mixed_entries(h: u64, s: &Vec<Entry>) -> (r: u64)
    ensures
        r == mix_entries(h, entry_views(s@)),
{
    let mut r: u64 = h;
    let mut i: usize = 0;
    let ghost es = entry_views(s@);
    while i < s.len()
        invariant
            i <= s.len(),
            es == entry_views(s@),
            r == mix_entries(h, es.take(i as int)),
        decreases s.len() - i,
    {
        assert(es.take(i + 1).drop_last() =~= es.take(i as int));
        let e = &s[i];
        r = mixed_oid(mixed(mixed_bytes(r, &e.name), e.mode as u64), e.oid);
        i += 1;
    }
    assert(es.take(es.len() as int) =~= es);
    r
}

fn digest_of(o: &Object) -> (r: u64)
    ensures
        r == digest(o@),
{
    proof {
        reveal(digest);
    }
    match o {
        Object::Blob(data) => mixed_bytes(1, data),
        Object::Link(id) => mixed_bytes(2, id),
        Object::Tree(es) => mixed_entries(3, es),
        Object::Commit(c) => {
            let h: u64 = mixed_oids(mixed_oid(4, c.tree), &c.parents);
            mixed_bytes(h, &c.meta)
        },
    }
}

fn same_oids(a: &Vec<Oid>, b: &Vec<Oid>) -> (r: bool)
    ensures
        r == (a@ == b@),
{
    if a.len() != b.len() {
        return false;
    }
    let mut i: usize = 0;
    while i < a.len()
        invariant
            a.len() == b.len(),
            i <= a.len(),
            forall|k: int| 0 <= k < i ==> a@[k] == b@[k],
        decreases a.len() - i,
    {
        if a[i] != b[i] {
            return false;
        }
        i += 1;
    }
    assert(a@ =~= b@);
    true
}

fn same_entries(a: &Vec<Entry>, b: &Vec<Entry>) -> (r: bool)
    ensures
        r == (entry_views(a@) == entry_views(b@)),
{
    if a.len() != b.len() {
        assert(entry_views(a@).len() != entry_views(b@).len());
        return false;
    }
    let mut i: usize = 0;
    while i < a.len()
        invariant
            a.len() == b.len(),
            i <= a.len(),
            forall|k: int| 0 <= k < i ==> (#[trigger] a@[k])@ == b@[k]@,
        decreases a.len() - i,
    {
        let x = &a[i];
        let y = &b[i];
        if x.oid != y.oid || x.mode != y.mode || !same(x.name.as_slice(), y.name.as_slice()) {
            assert(entry_views(a@)[i as int] != entry_views(b@)[i as int]);
            return false;
        }
        i += 1;
    }
    assert(entry_views(a@) =~= entry_views(b@));
    true
}

fn same_object(a: &Object, b: &Object) -> (r: bool)
    ensures
        r == (a@ == b@),
{
    match (a, b) {
        (Object::Blob(x), Object::Blob(y)) => same(x.as_slice(), y.as_slice()),
        (Object::Link(x), Object::Link(y)) => same(x.as_slice(), y.as_slice()),
        (Object::Tree(x), Object::Tree(y)) => same_entries(x, y),
        (Object::Commit(x), Object::Commit(y)) => {
            x.tree == y.tree && same_oids(&x.parents, &y.parents) && same(
                x.meta.as_slice(),
                y.meta.as_slice(),
            )
        },
        _ => false,
    }
}

/// A copy of an entry.
pub fn copied_entry(e: &Entry) -> (r: Entry)
    ensures
        r@ == e@,
{
    Entry { name: copied(e.name.as_slice()), mode: e.mode, oid: e.oid }
}

/// A copy of a list of ids.
pub fn copied_oids(s: &Vec<Oid>) -> (r: Vec<Oid>)
    ensures
        r@ == s@,
{
    let mut r: Vec<Oid> = Vec::new();
    let mut i: usize = 0;
    while i < s.len()
        invariant
            i <= s.len(),
            r@ == s@.take(i as int),
        decreases s.len() - i,
    {
        r.push(s[i]);
        assert(s@.take(i + 1) =~= s@.take(i as int).push(s@[i as int]));
        i += 1;
    }
    assert(s@.take(s@.len() as int) =~= s@);
    r
}

/// The entry can stand in a tree: its name is in order, and it names an object of the
/// kind that its mode says.
pub open spec fn entry_fits(a: Arena, e: EntryView) -> bool {
    name_storable(e.name) && is_object(a, e.oid) && mode_fits(e.mode, a[at(e.oid)])
}

/// The directory made of the entries, of which later ones replace earlier ones.
pub open spec fn gathered(a: Arena, es: Seq<EntryView>) -> Dir
    decreases es.len(),
{
    if es.len() == 0 {
        empty_dir()
    } else {
        gathered(a, es.drop_last()).insert(
            es.last().name,
            node(a, at(es.last().oid), es.last().mode),
        )
    }
}

/// The commits that the ids name.
pub open spec fn commits(a: Arena, os: Seq<Oid>) -> Seq<CommitView> {
    Seq::new(os.len(), |i: int| commit(a, os[i]))
}

/// What is known of trees of which one pattern selected files.
struct MemoLine {
    pattern: String,
    invert: bool,
    dirs: bool,
    memo: Memo,
}

/// What is known is right.
spec fn line_right(rules: Rules, a: Arena, l: MemoLine) -> bool {
    l.memo.wf(a) && right(rules, memo_values(a, l.memo@), l.pattern@, l.invert, l.dirs)
}

/// A repository in memory, and what is known of the files that patterns selected in it.
pub struct Repo {
    objects: Vec<Object>,
    table: HashMap<u64, Vec<usize>>,
    memos: Vec<MemoLine>,
    rules: Rules,
}

impl Repo {
    /// The objects of the repository.
    pub closed spec fn view(&self) -> Arena {
        Seq::new(self.objects@.len(), |i: int| self.objects@[i]@)
    }

    /// The settings that decide which names entries may have.
    pub closed spec fn rules(&self) -> Rules {
        self.rules
    }

    /// Every object is found by its number.
    pub closed spec fn indexed(&self) -> bool {
        &&& forall|i: int|
            0 <= i < self@.len() ==> {
                let h = digest(#[trigger] self@[i]);
                self.table@.dom().contains(h) && self.table@[h]@.contains(i as usize)
            }
        &&& forall|h: u64, k: int|
            self.table@.dom().contains(h) && 0 <= k < self.table@[h]@.len()
                ==> #[trigger] self.table@[h]@[k] < self.objects@.len()
    }

    /// What is known of the files that patterns selected is right.
    pub closed spec fn remembers(&self) -> bool {
        forall|i: int| 0 <= i < self.memos@.len() ==> line_right(
            self.rules(),
            self@,
            #[trigger] self.memos@[i],
        )
    }

    /// The repository is in order.
    pub open spec fn wf(&self) -> bool {
        arena_wf(self@) && self.indexed() && self.remembers()
    }

    /// The repository is in order, holds at least what it held before, and has the same
    /// settings.
    pub open spec fn grown_from(&self, before: Repo) -> bool {
        self.wf() && extends(before@, self@) && self.rules() == before.rules()
    }

    /// A repository without objects, with the settings that repositories have by default.
    pub fn new() -> (r: Repo)
        ensures
            r.wf(),
            r@ == Seq::<ObjectView>::empty(),
            r.rules() == (Rules { protect_ntfs: true, protect_hfs: false }),
    {
        Repo::with_rules(Rules { protect_ntfs: true, protect_hfs: false })
    }

    /// A repository without objects, with the given settings.
    pub fn with_rules(rules: Rules) -> (r: Repo)
        ensures
            r.wf(),
            r@ == Seq::<ObjectView>::empty(),
            r.rules() == rules,
    {
        let r = Repo { objects: Vec::new(), table: HashMap::new(), memos: Vec::new(), rules };
        assert(r@ =~= Seq::<ObjectView>::empty());
        r
    }

    /// The settings that decide which names entries may have.
    pub fn name_rules(&self) -> (r: Rules)
        ensures
            r == self.rules(),
    {
        self.rules
    }

    /// How many objects there are.
    pub fn count(&self) -> (r: usize)
        ensures
            r == self@.len(),
    {
        self.objects.len()
    }

    /// The object that an id names.
    pub fn object(&self, o: Oid) -> (r: Option<&Object>)
        ensures
            r is Some <==> is_object(self@, o),
            r matches Some(x) ==> x@ == self@[at(o)],
    {
        match o {
            Oid::Zero => None,
            Oid::Object(k) => if k < self.objects.len() {
                Some(&self.objects[k])
            } else {
                None
            },
        }
    }

    /// An object that its bucket does not hold is not there.
    proof fn lemma_absent(&self, h: u64, o: ObjectView)
        requires
            self.indexed(),
            self@.len() <= usize::MAX,
            h == digest(o),
            self.table@.dom().contains(h) ==> forall|k: int|
                0 <= k < self.table@[h]@.len() ==> self@[#[trigger] self.table@[h]@[k] as int] != o,
        ensures
            forall|j: int| 0 <= j < self@.len() ==> #[trigger] self@[j] != o,
    {
        assert forall|j: int| 0 <= j < self@.len() implies #[trigger] self@[j] != o by {
            if self@[j] == o {
                let b = self.table@[h]@;
                assert(b.contains(j as usize));
                let k = choose|k: int| 0 <= k < b.len() && b[k] == j as usize;
                assert(self@[self.table@[h]@[k] as int] != o);
            }
        }
    }

    /// The id of an object that is there.
    fn find(&self, h: u64, o: &Object) -> (r: Option<usize>)
        requires
            self.indexed(),
            h == digest(o@),
        ensures
            match r {
                Some(k) => k < self@.len() && self@[k as int] == o@,
                None => forall|j: int| 0 <= j < self@.len() ==> #[trigger] self@[j] != o@,
            },
    {
        broadcast use vstd::std_specs::hash::group_hash_axioms;

        if let Some(bucket) = self.table.get(&h) {
            let mut i: usize = 0;
            while i < bucket.len()
                invariant
                    self.indexed(),
                    i <= bucket.len(),
                    self.table@.dom().contains(h),
                    bucket == self.table@[h],
                    self@.len() == self.objects@.len(),
                    forall|k: int| 0 <= k < i ==> self@[#[trigger] bucket@[k] as int] != o@,
                decreases bucket.len() - i,
            {
                let k: usize = bucket[i];
                assert(self.table@[h]@[i as int] < self.objects@.len());
                if same_object(&self.objects[k], o) {
                    return Some(k);
                }
                i += 1;
            }
        }
        let n: usize = self.objects.len();
        proof {
            assert(self@.len() == n);
            self.lemma_absent(h, o@);
        }
        None
    }

    /// The table still finds every object once one was appended.
    proof fn lemma_indexed(
        before: Repo,
        after: Repo,
        o: ObjectView,
        n: usize,
        old_bucket: Seq<usize>,
        new_bucket: Vec<usize>,
    )
        requires
            before.indexed(),
            after@ == before@.push(o),
            before@.len() == before.objects@.len(),
            after@.len() == after.objects@.len(),
            n == before@.len(),
            old_bucket == (if before.table@.dom().contains(digest(o)) {
                before.table@[digest(o)]@
            } else {
                Seq::empty()
            }),
            new_bucket@ == old_bucket.push(n),
            after.table@ == before.table@.insert(digest(o), new_bucket),
        ensures
            after.indexed(),
    {
        let h = digest(o);
        let a = before@;
        let b = after@;
        assert forall|i: int| 0 <= i < b.len() implies {
            let g = digest(#[trigger] b[i]);
            after.table@.dom().contains(g) && after.table@[g]@.contains(i as usize)
        } by {
            let g = digest(b[i]);
            if i < a.len() {
                assert(a[i] == b[i]);
                assert(before.table@.dom().contains(g));
                if g == h {
                    let k = old_bucket.index_of(i as usize);
                    assert(new_bucket@[k] == i as usize);
                }
            } else {
                assert(new_bucket@[old_bucket.len() as int] == n);
            }
        }
        assert forall|g: u64, k: int|
            after.table@.dom().contains(
                g,
            ) && 0 <= k < after.table@[g]@.len() implies #[trigger] after.table@[g]@[k]
            < after.objects@.len() by {
            if g == h {
                if k < old_bucket.len() {
                    assert(before.table@[h]@[k] < before.objects@.len());
                }
            } else {
                assert(before.table@[g]@[k] < before.objects@.len());
            }
        }
    }

    /// Adds an object, unless it is there.
    fn intern(&mut self, o: Object) -> (r: Oid)
        requires
            old(self).wf(),
            object_wf(old(self)@, old(self)@.len() as int, o@),
        ensures
            final(self).grown_from(*old(self)),
            is_object(final(self)@, r),
            final(self)@[at(r)] == o@,
    {
        let ghost rules = self.rules();
        broadcast use vstd::std_specs::hash::group_hash_axioms;

        let h: u64 = digest_of(&o);
        if let Some(k) = self.find(h, &o) {
            return Oid::Object(k);
        }
        let ghost before = *self;
        let ghost ov = o@;
        let n: usize = self.objects.len();
        let mut bucket = match self.table.remove(&h) {
            Some(b) => b,
            None => Vec::new(),
        };
        let ghost old_bucket = bucket@;
        bucket.push(n);
        let ghost new_bucket = bucket;
        self.table.insert(h, bucket);
        self.objects.push(o);
        proof {
            assert(self@ =~= before@.push(ov));
            lemma_arena_push(before@, ov);
            assert(self.table@ =~= before.table@.insert(h, new_bucket));
            Self::lemma_indexed(before, *self, ov, n, old_bucket, new_bucket);
            assert forall|i: int| 0 <= i < self.memos@.len() implies line_right(
                rules,
                self@,
                #[trigger] self.memos@[i],
            ) by {
                assert(line_right(rules, before@, before.memos@[i]));
                lemma_memo_stable(before@, self@, self.memos@[i].memo@);
            }
        }
        Oid::Object(n)
    }

    /// Hands out what is known of the files that a pattern selected.
    pub(crate) fn take_memo(&mut self, pattern: &str, invert: bool, dirs: bool) -> (r: Memo)
        requires
            old(self).wf(),
        ensures
            final(self).wf(),
            final(self)@ == old(self)@,
            final(self).rules() == old(self).rules(),
            r.wf(final(self)@),
            right(old(self).rules(), memo_values(final(self)@, r@), pattern@, invert, dirs),
    {
        let ghost rules = self.rules();
        let ghost before = *self;
        let mut i: usize = 0;
        while i < self.memos.len()
            invariant
                rules == self.rules(),
                rules == old(self).rules(),
                before == *old(self),
                *self == before,
                before.wf(),
                i <= self.memos@.len(),
            decreases self.memos@.len() - i,
        {
            let line = &self.memos[i];
            if line.invert == invert && line.dirs == dirs && same_text(
                line.pattern.as_str(),
                pattern,
            ) {
                let found = self.memos.remove(i);
                proof {
                    assert(self@ =~= before@);
                    assert(line_right(rules, before@, before.memos@[i as int]));
                    assert forall|j: int| 0 <= j < self.memos@.len() implies line_right(
                        rules,
                        self@,
                        #[trigger] self.memos@[j],
                    ) by {
                        if j < i {
                            assert(self.memos@[j] == before.memos@[j]);
                        } else {
                            assert(self.memos@[j] == before.memos@[j + 1]);
                        }
                    }
                }
                return found.memo;
            }
            i += 1;
        }
        let r = Memo::new();
        assert(memo_values(self@, r@) =~= Map::empty());
        r
    }

    /// Takes back what is known of the files that a pattern selected.
    pub(crate) fn keep_memo(&mut self, pattern: &str, invert: bool, dirs: bool, memo: Memo)
        requires
            old(self).wf(),
            memo.wf(old(self)@),
            right(old(self).rules(), memo_values(old(self)@, memo@), pattern@, invert, dirs),
        ensures
            final(self).wf(),
            final(self)@ == old(self)@,
            final(self).rules() == old(self).rules(),
    {
        let ghost rules = self.rules();
        let ghost before = *self;
        self.memos.push(MemoLine { pattern: pattern.to_owned(), invert, dirs, memo });
        proof {
            assert(self@ =~= before@);
            assert forall|j: int| 0 <= j < self.memos@.len() implies line_right(
                rules,
                self@,
                #[trigger] self.memos@[j],
            ) by {
                if j < before.memos@.len() {
                    assert(self.memos@[j] == before.memos@[j]);
                }
            }
        }
    }

    /// Adds the contents of a file.
    pub fn add_blob(&mut self, data: Vec<u8>) -> (r: Oid)
        requires
            old(self).wf(),
        ensures
            final(self).grown_from(*old(self)),
            is_object(final(self)@, r),
            final(self)@[at(r)] == ObjectView::Blob(data@),
    {
        self.intern(Object::Blob(data))
    }

    /// Adds the id of a commit of another repository.
    pub fn add_link(&mut self, id: Vec<u8>) -> (r: Result<Oid, Error>)
        requires
            old(self).wf(),
        ensures
            final(self).grown_from(*old(self)),
            r is Ok <==> id@.len() == 20,
            match r {
                Ok(o) => is_object(final(self)@, o) && final(self)@[at(o)] == ObjectView::Link(id@),
                Err(e) => e@ == ErrorView::InvalidEntry && *final(self) == *old(self),
            },
    {
        if id.len() == 20 {
            Ok(self.intern(Object::Link(id)))
        } else {
            Err(Error::InvalidEntry)
        }
    }

    /// Adds a tree whose entries are in order.
    pub(crate) fn put_tree(&mut self, es: Vec<Entry>) -> (r: Oid)
        requires
            old(self).wf(),
            entries_wf(old(self)@, old(self)@.len() as int, entry_views(es@)),
        ensures
            final(self).grown_from(*old(self)),
            is_tree(final(self)@, r),
            dir(final(self)@, r) == listed(old(self)@, entry_views(es@)),
    {
        let ghost ev = entry_views(es@);
        let ghost before = self@;
        let r = self.intern(Object::Tree(es));
        proof {
            lemma_dir_listed(self@, r);
            lemma_listed_stable(before, self@, ev);
        }
        r
    }

    /// Adds the tree without entries.
    pub fn empty_tree(&mut self) -> (r: Oid)
        requires
            old(self).wf(),
        ensures
            final(self).grown_from(*old(self)),
            is_tree(final(self)@, r),
            dir(final(self)@, r) == empty_dir(),
    {
        let es: Vec<Entry> = Vec::new();
        let r = self.put_tree(es);
        assert(dir(self@, r) =~= empty_dir());
        r
    }

    /// Adds a tree. Of entries with the same name the last one counts.
    pub fn add_tree(&mut self, entries: Vec<Entry>) -> (r: Result<Oid, Error>)
        requires
            old(self).wf(),
        ensures
            final(self).grown_from(*old(self)),
            r is Ok <==> forall|i: int|
                0 <= i < entries@.len() ==> entry_fits(
                    old(self)@,
                    #[trigger] entry_views(entries@)[i],
                ),
            match r {
                Ok(o) => is_tree(final(self)@, o) && dir(final(self)@, o) == gathered(
                    old(self)@,
                    entry_views(entries@),
                ),
                Err(e) => e@ == ErrorView::InvalidEntry && *final(self) == *old(self),
            },
    {
        let mut es: Vec<Entry> = Vec::new();
        let mut i: usize = 0;
        let ghost given = entry_views(entries@);
        let ghost a = self@;
        let ghost before = *self;
        assert(listed(a, entry_views(es@)) =~= gathered(a, given.take(0)));
        while i < entries.len()
            invariant
                before == *old(self),
                *self == before,
                before.wf(),
                a == before@,
                i <= entries.len(),
                given == entry_views(entries@),
                in_order(entry_views(es@)),
                forall|j: int| 0 <= j < i ==> entry_fits(a, #[trigger] given[j]),
                forall|j: int|
                    0 <= j < es@.len() ==> entry_fits(a, #[trigger] entry_views(es@)[j]),
                listed(a, entry_views(es@)) == gathered(a, given.take(i as int)),
            decreases entries.len() - i,
        {
            let e = &entries[i];
            if !self.fits(e) {
                assert(!entry_fits(a, given[i as int]));
                return Err(Error::InvalidEntry);
            }
            let ghost ev = entry_views(es@);
            let x = copied_entry(e);
            let ghost xv = x@;
            es = with_entry(&es, e.name.as_slice(), Some(x));
            proof {
                let nv = entry_views(es@);
                assert(given.take(i + 1).drop_last() =~= given.take(i as int));
                lemma_listed_replaced(a, nv, ev, xv.name, Some(xv));
                assert forall|j: int| 0 <= j < nv.len() implies entry_fits(a, #[trigger] nv[j]) by {
                    assert(nv.contains(nv[j]));
                    if ev.contains(nv[j]) {
                        assert(entry_fits(a, ev[ev.index_of(nv[j])]));
                    }
                }
            }
            i += 1;
        }
        assert(given.take(given.len() as int) =~= given);
        proof {
            let ev = entry_views(es@);
            assert forall|j: int| 0 <= j < ev.len() implies entry_wf(
                a,
                a.len() as int,
                #[trigger] ev[j],
            ) by {
                assert(entry_fits(a, ev[j]));
            }
        }
        Ok(self.put_tree(es))
    }

    /// Whether the entry can stand in a tree of the repository.
    pub fn fits(&self, e: &Entry) -> (r: bool)
        ensures
            r == entry_fits(self@, e@),
    {
        if !is_name_storable(e.name.as_slice()) {
            return false;
        }
        match self.object(e.oid) {
            Some(Object::Tree(_)) => e.mode == TREE_MODE,
            Some(Object::Link(_)) => e.mode == LINK_MODE,
            Some(Object::Blob(_)) => e.mode != TREE_MODE && e.mode != LINK_MODE,
            _ => false,
        }
    }

    /// Adds a commit.
    pub fn add_commit(&mut self, tree: Oid, parents: Vec<Oid>, meta: Vec<u8>) -> (r: Result<
        Oid,
        Error,
    >)
        requires
            old(self).wf(),
        ensures
            final(self).grown_from(*old(self)),
            r is Ok <==> is_tree(old(self)@, tree) && forall|i: int|
                0 <= i < parents@.len() ==> is_commit(old(self)@, #[trigger] parents@[i]),
            match r {
                Ok(o) => is_commit(final(self)@, o) && commit(final(self)@, o) == (CommitView {
                    tree: dir(old(self)@, tree),
                    parents: commits(old(self)@, parents@),
                    meta: meta@,
                }),
                Err(e) => e@ == ErrorView::NotFound && *final(self) == *old(self),
            },
    {
        if !self.is_tree(tree) {
            return Err(Error::NotFound);
        }
        let mut i: usize = 0;
        while i < parents.len()
            invariant
                *self == *old(self),
                self.wf(),
                i <= parents.len(),
                forall|j: int| 0 <= j < i ==> is_commit(self@, #[trigger] parents@[j]),
            decreases parents.len() - i,
        {
            if !self.is_commit(parents[i]) {
                return Err(Error::NotFound);
            }
            i += 1;
        }
        let ghost a = self@;
        let ghost ps = parents@;
        let r = self.intern(Object::Commit(Commit { tree, parents, meta }));
        proof {
            lemma_dir_stable(a, self@, tree);
            let c = commit(self@, r);
            assert(object_wf(self@, at(r), self@[at(r)]));
            assert forall|j: int| 0 <= j < ps.len() implies c.parents[j] == commits(a, ps)[j] by {
                lemma_commit_stable(a, self@, ps[j]);
            }
            assert(c.parents =~= commits(a, ps));
        }
        Ok(r)
    }

    pub fn is_tree(&self, o: Oid) -> (r: bool)
        ensures
            r == is_tree(self@, o),
    {
        matches!(self.object(o), Some(Object::Tree(_)))
    }

    pub fn is_blob(&self, o: Oid) -> (r: bool)
        ensures
            r == is_blob(self@, o),
    {
        matches!(self.object(o), Some(Object::Blob(_)))
    }

    pub fn is_commit(&self, o: Oid) -> (r: bool)
        ensures
            r == is_commit(self@, o),
    {
        matches!(self.object(o), Some(Object::Commit(_)))
    }

    /// Whether the id names the tree without entries.
    pub fn is_empty_tree(&self, o: Oid) -> (r: bool)
        requires
            self.wf(),
        ensures
            r == (is_tree(self@, o) && dir(self@, o) == empty_dir()),
    {
        match self.object(o) {
            Some(Object::Tree(es)) => {
                proof {
                    lemma_dir_listed(self@, o);
                    let ev = self@[at(o)]->Tree_0;
                    if ev.len() == 0 {
                        assert(dir(self@, o) =~= empty_dir());
                    } else {
                        assert(has_name(ev, ev[0].name));
                        assert(dir(self@, o).dom().contains(ev[0].name));
                    }
                }
                es.len() == 0
            },
            _ => false,
        }
    }

    /// The entries of a tree.
    pub fn entries(&self, o: Oid) -> (r: Vec<Entry>)
        requires
            self.wf(),
            is_tree(self@, o),
        ensures
            entry_views(r@) == self@[at(o)]->Tree_0,
            in_order(entry_views(r@)),
    {
        assert(object_wf(self@, at(o), self@[at(o)]));
        let mut r: Vec<Entry> = Vec::new();
        match self.object(o) {
            Some(Object::Tree(es)) => {
                let ghost ev = entry_views(es@);
                let mut i: usize = 0;
                while i < es.len()
                    invariant
                        i <= es.len(),
                        ev == entry_views(es@),
                        entry_views(r@) == ev.take(i as int),
                    decreases es.len() - i,
                {
                    let e = copied_entry(&es[i]);
                    let ghost rv = entry_views(r@);
                    r.push(e);
                    assert(entry_views(r@) =~= rv.push(ev[i as int]));
                    assert(ev.take(i + 1) =~= ev.take(i as int).push(ev[i as int]));
                    i += 1;
                }
                assert(ev.take(ev.len() as int) =~= ev);
                proof {
                    assert forall|k: int| 0 <= k < ev.len() implies name_storable(
                        (#[trigger] ev[k]).name,
                    ) by {
                        assert(entry_wf(self@, at(o), ev[k]));
                    }
                }
            },
            _ => {},
        }
        r
    }

    /// The tree of a commit.
    pub fn tree_of(&self, o: Oid) -> (r: Oid)
        requires
            self.wf(),
            is_commit(self@, o),
        ensures
            is_tree(self@, r),
            dir(self@, r) == commit(self@, o).tree,
    {
        assert(object_wf(self@, at(o), self@[at(o)]));
        match self.object(o) {
            Some(Object::Commit(c)) => c.tree,
            _ => Oid::Zero,
        }
    }

    /// The commits that a commit follows.
    pub fn parents_of(&self, o: Oid) -> (r: Vec<Oid>)
        requires
            self.wf(),
            is_commit(self@, o),
        ensures
            commits(self@, r@) == commit(self@, o).parents,
            forall|i: int|
                0 <= i < r@.len() ==> is_commit(self@, #[trigger] r@[i]) && at(r@[i]) < at(o),
    {
        assert(object_wf(self@, at(o), self@[at(o)]));
        match self.object(o) {
            Some(Object::Commit(c)) => {
                let r = copied_oids(&c.parents);
                assert(commits(self@, r@) =~= commit(self@, o).parents);
                r
            },
            _ => Vec::new(),
        }
    }

    /// What a commit records besides its tree and the commits it follows.
    pub fn meta_of(&self, o: Oid) -> (r: Vec<u8>)
        requires
            self.wf(),
            is_commit(self@, o),
        ensures
            r@ == commit(self@, o).meta,
    {
        match self.object(o) {
            Some(Object::Commit(c)) => copied(c.meta.as_slice()),
            _ => Vec::new(),
        }
    }
}

} // verus!
