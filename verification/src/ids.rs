//! The ids that git gives to files and directories.

use crate::arena::{
    arena_wf, at, dir, entry_wf, is_item, is_tree, key, keys, lemma_dir_entry, lemma_dir_listed,
    lemma_has_pos, lemma_node_mode, node, object_wf, Arena, EntryView, Oid,
};
use crate::bytes::{ascending, lemma_ascending_unique};
use crate::error::{Error, ErrorView};
use crate::node::{name_storable, plain, BLOB_MODE, Dir, LINK_MODE, Node, TREE_MODE};
use crate::repo::{entry_views, Object, Repo};
use vstd::prelude::*;

verus! {

/// What `git2::Oid::hash_object` computes for the content of a tree or of a blob: the
/// twenty bytes of its id, or nothing where it fails.
pub uninterp spec fn object_id(tree: bool, content: Seq<u8>) -> Option<Seq<u8>>;

/// The kind of an object that has an id.
#[derive(Clone, Copy, PartialEq, Eq, Structural)]
pub enum Kind {
    Blob,
    Tree,
}

/// A list of bytes as a value, where there is one.
pub open spec fn bytes_opt(r: Option<Vec<u8>>) -> Option<Seq<u8>> {
    match r {
        Some(v) => Some(v@),
        None => None,
    }
}

/// Computes the id of a tree or a blob with `git2::Oid::hash_object`. The id has twenty
/// bytes and depends on the kind and the content alone.
#[verifier::external_body]
fn hash_object(kind: Kind, content: &[u8]) -> (r: Option<Vec<u8>>)
    ensures
        bytes_opt(r) == object_id(kind == Kind::Tree, content@),
        r matches Some(v) ==> v@.len() == 20,
{
    let kind = match kind {
        Kind::Blob => git2::ObjectType::Blob,
        Kind::Tree => git2::ObjectType::Tree,
    };
    git2::Oid::hash_object(kind, content).ok().map(|id| id.as_bytes().to_vec())
}

/// A number in base eight.
pub open spec fn octal(n: u32) -> Seq<u8>
    decreases n,
{
    if n < 8 {
        seq![(48 + n) as u8]
    } else {
        octal(n / 8).push((48 + n % 8) as u8)
    }
}

fn push_octal(n: u32, r: &mut Vec<u8>)
    ensures
        final(r)@ == old(r)@ + octal(n),
    decreases n,
{
    if n >= 8 {
        push_octal(n / 8, r);
    }
    let d: u8 = 48 + (n % 8) as u8;
    r.push(d);
    assert(r@ =~= old(r)@ + octal(n));
}

/// The mode of the entry that names a node.
pub open spec fn mode_of(n: Node) -> u32 {
    match n {
        Node::Blob { mode, .. } => mode,
        Node::Link { .. } => LINK_MODE,
        Node::Dir(_) => TREE_MODE,
    }
}

/// The string by which an entry has its place in a directory.
pub open spec fn place_key(d: Dir, name: Seq<u8>) -> Seq<u8> {
    if d[name] is Dir {
        name.push(47u8)
    } else {
        name
    }
}

/// `names` are the names in `d`, each once, in their places.
pub open spec fn lists(d: Dir, names: Seq<Seq<u8>>) -> bool {
    &&& ascending(Seq::new(names.len(), |i: int| place_key(d, names[i])))
    &&& forall|n: Seq<u8>| #[trigger] names.contains(n) <==> d.dom().contains(n)
}

/// The names in `d`, in their places.
pub open spec fn listing(d: Dir) -> Seq<Seq<u8>> {
    choose|names: Seq<Seq<u8>>| lists(d, names)
}

/// The record of one entry: its mode, its name and the id that it names.
pub open spec fn record(mode: u32, name: Seq<u8>, id: Seq<u8>) -> Seq<u8> {
    octal(mode).push(32u8) + name.push(0u8) + id
}

/// The records of the first `k` of the names in the directory `n`, where there is an id
/// for each.
pub open spec fn records(n: Node, names: Seq<Seq<u8>>, k: int) -> Option<Seq<u8>>
    decreases n, 0int, k,
{
    if k <= 0 {
        Some(Seq::empty())
    } else {
        match n {
            Node::Dir(m) => if m.dom().contains(names[k - 1]) {
                let last = m[names[k - 1]];
                match (records(n, names, k - 1), git_id(last)) {
                    (Some(content), Some(id)) => Some(
                        content + record(mode_of(last), names[k - 1], id),
                    ),
                    _ => None,
                }
            } else {
                None
            },
            _ => None,
        }
    }
}

/// The id of a node: that of its content, where a directory consists of one record for
/// each entry. There is none where one that is needed cannot be computed.
pub open spec fn git_id(n: Node) -> Option<Seq<u8>>
    decreases n, 1int, 0int,
{
    match n {
        Node::Blob { data, .. } => object_id(false, data),
        Node::Link { id } => Some(id),
        Node::Dir(m) => match records(n, listing(m), listing(m).len() as int) {
            Some(content) => object_id(true, content),
            None => None,
        },
    }
}

/// Where the records of some names cannot be had, those of more names cannot.
proof fn lemma_records_fail(n: Node, names: Seq<Seq<u8>>, j: int, k: int)
    requires
        records(n, names, j) is None,
        j <= k,
    ensures
        records(n, names, k) is None,
    decreases k - j,
{
    if j < k {
        lemma_records_fail(n, names, j, k - 1);
    }
}

/// There is one list of the names in a directory.
pub proof fn lemma_lists_unique(d: Dir, x: Seq<Seq<u8>>, y: Seq<Seq<u8>>)
    requires
        lists(d, x),
        lists(d, y),
        forall|n: Seq<u8>| #[trigger] d.dom().contains(n) ==> name_storable(n),
    ensures
        x == y,
{
    let kx = Seq::new(x.len(), |i: int| place_key(d, x[i]));
    let ky = Seq::new(y.len(), |i: int| place_key(d, y[i]));
    assert forall|k: Seq<u8>| kx.contains(k) <==> ky.contains(k) by {
        if kx.contains(k) {
            let i = kx.index_of(k);
            assert(x.contains(x[i]));
            assert(d.dom().contains(x[i]));
            let j = y.index_of(x[i]);
            assert(y.contains(x[i]));
            assert(ky[j] == k);
        }
        if ky.contains(k) {
            let i = ky.index_of(k);
            assert(y.contains(y[i]));
            assert(d.dom().contains(y[i]));
            let j = x.index_of(y[i]);
            assert(x.contains(y[i]));
            assert(kx[j] == k);
        }
    }
    lemma_ascending_unique(kx, ky);
    assert(kx.len() == x.len() && ky.len() == y.len());
    assert forall|i: int| 0 <= i < x.len() implies x[i] == y[i] by {
        assert(kx[i] == ky[i]);
        assert(x.contains(x[i]));
        assert(y.contains(y[i]));
        assert(d.dom().contains(x[i]));
        assert(d.dom().contains(y[i]));
        let p = x[i];
        let q = y[i];
        assert(place_key(d, p) == place_key(d, q));
        if d[p] is Dir && d[q] is Dir {
            assert(p.push(47u8).drop_last() =~= p);
            assert(q.push(47u8).drop_last() =~= q);
        } else if d[p] is Dir {
            assert(q[p.len() as int] == 47);
        } else if d[q] is Dir {
            assert(p[q.len() as int] == 47);
        }
    }
    assert(x =~= y);
}

/// The names of the entries of a list.
pub open spec fn names_of(es: Seq<EntryView>) -> Seq<Seq<u8>> {
    Seq::new(es.len(), |i: int| es[i].name)
}

/// A stored tree has its entries in their places.
pub proof fn lemma_stored_listing(a: Arena, tree: Oid)
    requires
        arena_wf(a),
        is_tree(a, tree),
    ensures
        lists(dir(a, tree), listing(dir(a, tree))),
        listing(dir(a, tree)) == names_of(a[at(tree)]->Tree_0),
{
    let d = dir(a, tree);
    let es = a[at(tree)]->Tree_0;
    let names = names_of(es);
    lemma_dir_listed(a, tree);
    assert(object_wf(a, at(tree), a[at(tree)]));
    assert forall|n: Seq<u8>| #[trigger] d.dom().contains(n) implies name_storable(n)
        && names.contains(n) by {
        lemma_has_pos(es, n);
        let j = crate::arena::pos(es, n);
        assert(entry_wf(a, at(tree), es[j]));
        assert(names[j] == n);
    }
    assert forall|n: Seq<u8>| #[trigger] names.contains(n) implies d.dom().contains(n) by {
        let j = names.index_of(n);
        lemma_dir_entry(a, tree, j);
    }
    assert forall|j: int| 0 <= j < es.len() implies #[trigger] place_key(d, names[j]) == key(
        es[j],
    ) by {
        lemma_dir_entry(a, tree, j);
    }
    assert(Seq::new(names.len(), |i: int| place_key(d, names[i])) =~= keys(es));
    assert(lists(d, names));
    lemma_lists_unique(d, names, listing(d));
}

/// The content of a tree: one record for each entry.
pub fn tree_content(repo: &Repo, o: Oid) -> (r: Result<Vec<u8>, Error>)
    requires
        repo.wf(),
        is_tree(repo@, o),
    ensures
        ({
            let d = dir(repo@, o);
            let names = listing(d);
            let want = records(Node::Dir(d), names, names.len() as int);
            match r {
                Ok(v) => want == Some(v@),
                Err(e) => want is None && e@ == ErrorView::Unhashable,
            }
        }),
    decreases at(o), 0int,
{
    let ghost a = repo@;
    let ghost d = dir(a, o);
    let ghost names = listing(d);
    proof {
        lemma_dir_listed(a, o);
        lemma_stored_listing(a, o);
    }
    let es = repo.entries(o);
    let ghost ev = entry_views(es@);
    let mut content: Vec<u8> = Vec::new();
    let mut i: usize = 0;
    while i < es.len()
        invariant
            repo.wf(),
            a == repo@,
            is_tree(a, o),
            d == dir(a, o),
            ev == entry_views(es@),
            ev == a[at(o)]->Tree_0,
            names == listing(d),
            names == names_of(ev),
            i <= es.len(),
            records(Node::Dir(d), names, i as int) == Some(content@),
        decreases es.len() - i,
    {
        proof {
            lemma_dir_entry(a, o, i as int);
            lemma_node_mode(a, at(ev[i as int].oid), ev[i as int].mode, BLOB_MODE);
        }
        let ghost n = d[names[i as int]];
        assert(git_id(n) == git_id(plain(n)));
        assert(mode_of(n) == ev[i as int].mode);
        let id = match git_id_of(repo, es[i].oid) {
            Ok(id) => id,
            Err(e) => {
                proof {
                    lemma_records_fail(Node::Dir(d), names, i + 1, names.len() as int);
                }
                return Err(e);
            },
        };
        let ghost was = content@;
        push_octal(es[i].mode, &mut content);
        content.push(32);
        content.extend_from_slice(es[i].name.as_slice());
        content.push(0);
        content.extend_from_slice(id.as_slice());
        assert(content@ =~= was + record(mode_of(n), names[i as int], id@));
        i += 1;
    }
    Ok(content)
}

/// The id of a file, a directory or a commit of another repository.
pub fn git_id_of(repo: &Repo, o: Oid) -> (r: Result<Vec<u8>, Error>)
    requires
        repo.wf(),
        is_item(repo@, o),
    ensures
        match r {
            Ok(v) => git_id(node(repo@, at(o), BLOB_MODE)) == Some(v@) && v@.len() == 20,
            Err(e) => git_id(node(repo@, at(o), BLOB_MODE)) is None && e@ == ErrorView::Unhashable,
        },
    decreases at(o), 1int,
{
    let ghost a = repo@;
    assert(object_wf(a, at(o), a[at(o)]));
    match repo.object(o) {
        Some(Object::Blob(data)) => match hash_object(Kind::Blob, data.as_slice()) {
            Some(v) => Ok(v),
            None => Err(Error::Unhashable),
        },
        Some(Object::Link(id)) => Ok(crate::bytes::copied(id.as_slice())),
        Some(Object::Tree(_)) => {
            proof {
                lemma_dir_listed(a, o);
            }
            let content = match tree_content(repo, o) {
                Ok(content) => content,
                Err(e) => {
                    return Err(e);
                },
            };
            match hash_object(Kind::Tree, content.as_slice()) {
                Some(v) => Ok(v),
                None => Err(Error::Unhashable),
            }
        },
        _ => Err(Error::Unhashable),
    }
}

/// The digit for a number below sixteen.
pub open spec fn hex_digit(n: u8) -> char {
    "0123456789abcdef"@[n as int]
}

/// Bytes in base sixteen, two digits each.
pub open spec fn hex(b: Seq<u8>) -> Seq<char> {
    Seq::new(
        2 * b.len(),
        |i: int|
            if i % 2 == 0 {
                hex_digit(b[i / 2] / 16)
            } else {
                hex_digit(b[i / 2] % 16)
            },
    )
}

fn push_digit(n: u8, r: &mut String)
    requires
        n < 16,
    ensures
        final(r)@ == old(r)@.push(hex_digit(n)),
{
    proof {
        reveal_strlit("0123456789abcdef");
    }
    let k: usize = n as usize;
    r.append("0123456789abcdef".substring_char(k, k + 1));
    assert(r@ =~= old(r)@.push(hex_digit(n)));
}

/// Bytes in base sixteen.
pub fn hex_text(b: &[u8]) -> (r: String)
    ensures
        r@ == hex(b@),
{
    let mut r: String = String::new();
    let mut i: usize = 0;
    assert(r@ =~= hex(b@.take(0)));
    while i < b.len()
        invariant
            i <= b.len(),
            r@ == hex(b@.take(i as int)),
        decreases b.len() - i,
    {
        let ghost was = r@;
        push_digit(b[i] / 16, &mut r);
        push_digit(b[i] % 16, &mut r);
        let ghost h = hex(b@.take(i + 1));
        assert forall|j: int| 0 <= j < 2 * i implies #[trigger] h[j] == was[j] by {
            assert(b@.take(i + 1)[j / 2] == b@.take(i as int)[j / 2]);
        }
        assert((2 * i) / 2 == i && (2 * i + 1) / 2 == i);
        assert(r@ =~= h);
        i += 1;
    }
    assert(b@.take(i as int) =~= b@);
    r
}

} // verus!
