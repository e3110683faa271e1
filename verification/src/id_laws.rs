//! How the ids of files and directories are computed, and in which order names stand.

use crate::bytes::{lemma_lt_irreflexive, lt};
use crate::ids::{
    git_id, lemma_lists_unique, listing, lists, mode_of, object_id, octal, place_key, record,
    records,
};
use crate::node::{name_storable, Dir, Node};
use vstd::prelude::*;

verus! {

/// Of two byte strings the one comes first that has the smaller byte where they first
/// differ, or that is the start of the other.
pub proof fn law_order(p: Seq<u8>, x: u8, r: Seq<u8>, y: u8, s: Seq<u8>)
    ensures
        x != y ==> (lt(p.push(x) + r, p.push(y) + s) <==> x < y),
        lt(p, p.push(x) + r),
        !lt(p.push(x) + r, p),
        !lt(p, p),
    decreases p.len(),
{
    let a = p.push(x) + r;
    let b = p.push(y) + s;
    if p.len() > 0 {
        let q = p.skip(1);
        law_order(q, x, r, y, s);
        assert(a.skip(1) =~= q.push(x) + r);
        assert(b.skip(1) =~= q.push(y) + s);
    }
}

/// A number is written in base eight, the greatest digit first, without zeros before it.
pub proof fn law_octal(n: u32, d: u32)
    requires
        d < 8,
        8 * n + d <= u32::MAX,
    ensures
        n > 0 ==> octal((8 * n + d) as u32) == octal(n).push((48 + d) as u8),
        octal(d) == seq![(48 + d) as u8],
{
    let m = (8 * n + d) as u32;
    if n > 0 {
        assert(m / 8 == n && m % 8 == d);
    }
}

/// The id of a file is that of its content, whatever its mode is, and the id of an entry
/// that names a commit of another repository is that of the commit.
pub proof fn law_file_id(mode: u32, data: Seq<u8>, id: Seq<u8>)
    ensures
        git_id(Node::Blob { mode, data }) == object_id(false, data),
        git_id(Node::Link { id }) == Some(id),
{
}

/// Each name in a directory stands once in its list, and the names stand in the order of
/// byte strings, where those of directories count as if they ended with a separator.
pub proof fn law_listing(d: Dir, names: Seq<Seq<u8>>, i: int, j: int)
    requires
        lists(d, names),
        0 <= i < j < names.len(),
    ensures
        names[i] != names[j],
        d.dom().contains(names[i]),
        lt(
            if d[names[i]] is Dir {
                names[i].push(47)
            } else {
                names[i]
            },
            if d[names[j]] is Dir {
                names[j].push(47)
            } else {
                names[j]
            },
        ),
{
    let ks = Seq::new(names.len(), |k: int| place_key(d, names[k]));
    assert(lt(ks[i], ks[j]));
    lemma_lt_irreflexive(ks[i]);
    assert(names.contains(names[i]));
}

/// The id of a directory is that of the records of its entries, as they are listed.
pub proof fn law_tree_id(m: Dir, names: Seq<Seq<u8>>)
    requires
        lists(m, names),
        forall|n: Seq<u8>| #[trigger] m.dom().contains(n) ==> name_storable(n),
    ensures
        git_id(Node::Dir(m)) == match records(Node::Dir(m), names, names.len() as int) {
            Some(content) => object_id(true, content),
            None => None,
        },
        records(Node::Dir(m), names, 0) == Some(Seq::<u8>::empty()),
{
    lemma_lists_unique(m, names, listing(m));
}

/// The record of one more entry: the mode in base eight, a space, the name, a zero byte, and
/// the id of what stands under the name. Without one of the ids there are no records.
pub proof fn law_tree_record(m: Dir, names: Seq<Seq<u8>>, k: int)
    requires
        0 <= k < names.len(),
        m.dom().contains(names[k]),
    ensures
        ({
            let n = m[names[k]];
            let mode = match n {
                Node::Blob { mode, .. } => mode,
                Node::Link { .. } => 57344u32,
                Node::Dir(_) => 16384u32,
            };
            records(Node::Dir(m), names, k + 1) == match (
                records(Node::Dir(m), names, k),
                git_id(n),
            ) {
                (Some(c), Some(id)) => Some(
                    c + (octal(mode) + seq![32u8] + names[k] + seq![0u8] + id),
                ),
                _ => None,
            }
        }),
{
    let n = m[names[k]];
    let name = names[k];
    if let (Some(c), Some(id)) = (records(Node::Dir(m), names, k), git_id(n)) {
        let mode = mode_of(n);
        let r = record(mode, name, id);
        assert(r =~= octal(mode) + seq![32u8] + name + seq![0u8] + id);
    }
}

} // verus!
