//! Laying one file tree over another.

use crate::arena::{
    at, dir, is_item, is_tree, item, lemma_dir_entry, lemma_dir_injective, lemma_dir_listed,
    lemma_dir_stable, lemma_extends_transitive, lemma_has_pos, lemma_item_stable,
    lemma_node_injective, lemma_node_mode, node, Arena, Oid,
};
use crate::error::{Error, ErrorView};
use crate::node::{child, child_after, empty_dir, plain, BLOB_MODE, Dir, Node, Rules};
use crate::repo::{entry_views, Repo};
use crate::text::utf8_text;
use crate::tree::{child_of, replace_child};
use vstd::prelude::*;
use vstd::utf8::valid_utf8;

verus! {

/// The merge of `t1` and `t2`, or of `t2` and `t1` where `flip` says so.
pub open spec fn merge_flipped(rules: Rules, t1: Node, t2: Node, flip: bool) -> Node
    decreases t1,
{
    let a = if flip {
        t2
    } else {
        t1
    };
    let b = if flip {
        t1
    } else {
        t2
    };
    if plain(a) == plain(b) {
        plain(a)
    } else if a == Node::Dir(empty_dir()) {
        plain(b)
    } else if b == Node::Dir(empty_dir()) {
        plain(a)
    } else {
        match (t1, t2) {
            (Node::Dir(m1), Node::Dir(m2)) => {
                let ma = if flip {
                    m2
                } else {
                    m1
                };
                let mb = if flip {
                    m1
                } else {
                    m2
                };
                let after = |n: Seq<u8>|
                    if mb.dom().contains(n) {
                        let over = if m1.dom().contains(n) && m2.dom().contains(n) {
                            merge_flipped(rules, m1[n], m2[n], !flip)
                        } else {
                            plain(mb[n])
                        };
                        child_after(rules, child(ma, n), n, Some(over))
                    } else {
                        child(ma, n)
                    };
                Node::Dir(Map::new(|n: Seq<u8>| after(n) is Some, |n: Seq<u8>| after(n)->0))
            },
            _ => plain(a),
        }
    }
}

/// What `a` becomes once `b` was laid over it. Of two directories, an entry that only one
/// has stays, and entries that both have are merged in turn, the second with the first.
/// Of two files, or a file and a directory, the first stays.
pub open spec fn merge(rules: Rules, a: Node, b: Node) -> Node {
    merge_flipped(rules, a, b, false)
}

/// Whether all names that are read to merge `t1` and `t2` are text.
pub open spec fn mergeable_flipped(t1: Node, t2: Node, flip: bool) -> bool
    decreases t1,
{
    let a = if flip {
        t2
    } else {
        t1
    };
    let b = if flip {
        t1
    } else {
        t2
    };
    if plain(a) == plain(b) || a == Node::Dir(empty_dir()) || b == Node::Dir(empty_dir()) {
        true
    } else {
        match (t1, t2) {
            (Node::Dir(m1), Node::Dir(m2)) => forall|n: Seq<u8>|
                #![trigger m1.dom().contains(n)]
                #![trigger m2.dom().contains(n)]
                {
                    &&& flip && m1.dom().contains(n) ==> valid_utf8(n)
                    &&& !flip && m2.dom().contains(n) ==> valid_utf8(n)
                    &&& m1.dom().contains(n) && m2.dom().contains(n) ==> mergeable_flipped(
                        m1[n],
                        m2[n],
                        !flip,
                    )
                },
            _ => true,
        }
    }
}

/// Whether `b` can be laid over `a`: the names in `b` that are read are text.
pub open spec fn mergeable(a: Node, b: Node) -> bool {
    mergeable_flipped(a, b, false)
}

/// The order in which the trees are given makes no difference where it is told.
pub proof fn lemma_merge_flip(rules: Rules, x: Node, y: Node)
    ensures
        merge_flipped(rules, x, y, true) == merge_flipped(rules, y, x, false),
        mergeable_flipped(x, y, true) == mergeable_flipped(y, x, false),
        merge_flipped(rules, x, y, false) == merge_flipped(rules, y, x, true),
        mergeable_flipped(x, y, false) == mergeable_flipped(y, x, true),
    decreases x,
{
    if let (Node::Dir(m), Node::Dir(w)) = (x, y) {
        assert forall|n: Seq<u8>| #[trigger] m.dom().contains(n) && w.dom().contains(n) implies {
            &&& merge_flipped(rules, m[n], w[n], true) == merge_flipped(rules, w[n], m[n], false)
            &&& mergeable_flipped(m[n], w[n], true) == mergeable_flipped(w[n], m[n], false)
            &&& merge_flipped(rules, m[n], w[n], false) == merge_flipped(rules, w[n], m[n], true)
            &&& mergeable_flipped(m[n], w[n], false) == mergeable_flipped(w[n], m[n], true)
        } by {
            lemma_merge_flip(rules, m[n], w[n]);
        }
        let p = merge_flipped(rules, x, y, true);
        let q = merge_flipped(rules, y, x, false);
        if p is Dir && q is Dir {
            assert(p->Dir_0 =~= q->Dir_0);
        }
        let r = merge_flipped(rules, x, y, false);
        let s = merge_flipped(rules, y, x, true);
        if r is Dir && s is Dir {
            assert(r->Dir_0 =~= s->Dir_0);
        }
    }
}

/// What stands under `n` once the directory `mb` was laid over `ma`.
pub open spec fn merged_child(rules: Rules, ma: Dir, mb: Dir, n: Seq<u8>) -> Option<Node> {
    if mb.dom().contains(n) {
        let over = if ma.dom().contains(n) {
            merge(rules, mb[n], ma[n])
        } else {
            plain(mb[n])
        };
        child_after(rules, child(ma, n), n, Some(over))
    } else {
        child(ma, n)
    }
}

/// Two directories are merged name by name.
pub proof fn lemma_merge_dirs(rules: Rules, ma: Dir, mb: Dir)
    requires
        ma != mb,
        ma != empty_dir(),
        mb != empty_dir(),
    ensures
        merge(rules, Node::Dir(ma), Node::Dir(mb)) is Dir,
        forall|n: Seq<u8>|
            #[trigger] child(merge(rules, Node::Dir(ma), Node::Dir(mb))->Dir_0, n) == merged_child(
                rules,
                ma,
                mb,
                n,
            ),
        mergeable(Node::Dir(ma), Node::Dir(mb)) <==> forall|n: Seq<u8>| #[trigger]
            mb.dom().contains(n) ==> valid_utf8(
                n,
            ) && (ma.dom().contains(n) ==> mergeable(mb[n], ma[n])),
{
    assert forall|n: Seq<u8>| ma.dom().contains(n) && #[trigger] mb.dom().contains(n) implies {
        &&& merge_flipped(rules, ma[n], mb[n], true) == merge(rules, mb[n], ma[n])
        &&& mergeable_flipped(ma[n], mb[n], true) == mergeable(mb[n], ma[n])
    } by {
        lemma_merge_flip(rules, ma[n], mb[n]);
    }
}

/// The mode of the entries that name the two makes no difference.
pub proof fn lemma_merge_plain(rules: Rules, a: Node, b: Node)
    ensures
        merge(rules, plain(a), plain(b)) == merge(rules, a, b),
        mergeable(plain(a), plain(b)) == mergeable(a, b),
        plain(merge(rules, a, b)) == merge(rules, a, b),
{
}

/// The id names the tree without entries.
pub open spec fn is_empty_tree(a: Arena, o: Oid) -> bool {
    is_tree(a, o) && dir(a, o) == empty_dir()
}

/// The result of laying the tree or file `input2` over `input1`. Ids that name neither are
/// nothing to lay: then the first comes back, or the second where the first is the tree
/// without entries.
pub fn merged_tree(repo: &mut Repo, input1: Oid, input2: Oid) -> (r: Result<Oid, Error>)
    requires
        old(repo).wf(),
    ensures
        final(repo).grown_from(*old(repo)),
        input1 == input2 ==> (r matches Ok(o) && o == input1),
        is_empty_tree(old(repo)@, input1) ==> (r matches Ok(o) && o == input2),
        is_empty_tree(old(repo)@, input2) ==> (r matches Ok(o) && o == input1),
        !(is_item(old(repo)@, input1) && is_item(old(repo)@, input2)) ==> {
            &&& *final(repo) == *old(repo)
            &&& r matches Ok(o) && o == if is_empty_tree(old(repo)@, input1) {
                input2
            } else {
                input1
            }
        },
        is_item(old(repo)@, input1) && is_item(old(repo)@, input2) ==> ({
            let a = node(old(repo)@, at(input1), BLOB_MODE);
            let b = node(old(repo)@, at(input2), BLOB_MODE);
            match r {
                Ok(o) => is_item(final(repo)@, o) && mergeable(a, b) && item(
                    final(repo)@,
                    o,
                ) == Some(
                    merge(old(repo).rules(), a, b),
                ),
                Err(e) => !mergeable(a, b) && e@ == ErrorView::NoName,
            }
        }),
    decreases at(input1) + at(input2),
{
    let ghost rules = repo.rules();
    let ghost a0 = repo@;
    let ghost x = node(a0, at(input1), BLOB_MODE);
    let ghost y = node(a0, at(input2), BLOB_MODE);
    proof {
        if is_tree(a0, input1) {
            lemma_dir_listed(a0, input1);
        }
        if is_tree(a0, input2) {
            lemma_dir_listed(a0, input2);
        }
        if is_item(a0, input1) && is_item(a0, input2) && plain(x) == plain(y) {
            lemma_node_injective(a0, at(input1), at(input2), BLOB_MODE, BLOB_MODE);
        }
        if is_empty_tree(a0, input1) && is_empty_tree(a0, input2) {
            lemma_dir_injective(a0, input1, input2);
        }
    }
    if input1 == input2 {
        return Ok(input1);
    }
    if repo.is_empty_tree(input1) {
        return Ok(input2);
    }
    if repo.is_empty_tree(input2) {
        return Ok(input1);
    }
    if !(repo.is_tree(input1) && repo.is_tree(input2)) {
        return Ok(input1);
    }
    let ghost ma = dir(a0, input1);
    let ghost mb = dir(a0, input2);
    proof {
        lemma_merge_dirs(rules, ma, mb);
    }
    let es = repo.entries(input2);
    let ghost ev = entry_views(es@);
    let mut result: Oid = input1;
    let mut i: usize = 0;
    while i < es.len()
        invariant
            rules == repo.rules(),
            rules == old(repo).rules(),
            repo.grown_from(*old(repo)),
            a0 == old(repo)@,
            old(repo).wf(),
            is_tree(a0, input1),
            is_tree(a0, input2),
            x == node(a0, at(input1), BLOB_MODE),
            y == node(a0, at(input2), BLOB_MODE),
            x == Node::Dir(ma),
            y == Node::Dir(mb),
            ma == dir(a0, input1),
            mb == dir(a0, input2),
            ev == entry_views(es@),
            ev == a0[at(input2)]->Tree_0,
            mergeable(x, y) <==> forall|n: Seq<u8>| #[trigger]
                mb.dom().contains(n) ==> valid_utf8(n) && (ma.dom().contains(n) ==> mergeable(
                    mb[n],
                    ma[n],
                )),
            i <= es.len(),
            is_tree(repo@, result),
            forall|n: Seq<u8>|
                #[trigger] child(dir(repo@, result), n) == if exists|j: int|
                    0 <= j < i && (#[trigger] ev[j]).name == n {
                    merged_child(rules, ma, mb, n)
                } else {
                    child(ma, n)
                },
            forall|j: int|
                0 <= j < i ==> {
                    let n = (#[trigger] ev[j]).name;
                    valid_utf8(n) && (ma.dom().contains(n) ==> mergeable(mb[n], ma[n]))
                },
        decreases es.len() - i,
    {
        let ghost a1 = repo@;
        let ghost r1 = dir(a1, result);
        let ghost n = ev[i as int].name;
        let ghost oid = es@[i as int].oid;
        let name = es[i].name.as_slice();
        proof {
            lemma_dir_entry(a0, input2, i as int);
            lemma_dir_stable(a0, a1, input1);
            lemma_item_stable(a0, a1, oid);
            lemma_node_mode(a0, at(oid), ev[i as int].mode, BLOB_MODE);
        }
        if utf8_text(name).is_none() {
            return Err(Error::NoName);
        }
        let over: Oid = match child_of(repo, input1, name) {
            Some((e, mode)) => {
                proof {
                    lemma_node_mode(a1, at(e), mode, BLOB_MODE);
                    lemma_merge_plain(rules, mb[n], ma[n]);
                }
                match merged_tree(repo, es[i].oid, e) {
                    Ok(o) => o,
                    Err(e) => {
                        return Err(e);
                    },
                }
            },
            None => es[i].oid,
        };
        let ghost a2 = repo@;
        proof {
            lemma_extends_transitive(a0, a1, a2);
            lemma_dir_stable(a1, a2, result);
        }
        let next = replace_child(repo, name, over, result);
        proof {
            lemma_extends_transitive(a0, a2, repo@);
            let r2 = dir(repo@, next);
            assert forall|k: int| 0 <= k < i implies (#[trigger] ev[k]).name != n by {
                lemma_dir_entry(a0, input2, k);
                lemma_dir_listed(a0, input2);
            }
            assert(child(r1, n) == child(ma, n));
            assert(child(r2, n) == merged_child(rules, ma, mb, n));
            assert forall|m: Seq<u8>| #[trigger] child(r2, m) == if exists|j: int|
                0 <= j < i + 1 && (#[trigger] ev[j]).name == m {
                merged_child(rules, ma, mb, m)
            } else {
                child(ma, m)
            } by {
                if m == n {
                    assert(ev[i as int].name == m);
                } else {
                    assert(child(r2, m) == child(r1, m));
                    if exists|j: int| 0 <= j < i && (#[trigger] ev[j]).name == m {
                        let j = choose|j: int| 0 <= j < i && (#[trigger] ev[j]).name == m;
                        assert(ev[j].name == m);
                    }
                }
            }
        }
        result = next;
        i += 1;
    }
    proof {
        let r = dir(repo@, result);
        let want = merge(rules, x, y)->Dir_0;
        assert forall|n: Seq<u8>| #[trigger] mb.dom().contains(n) implies exists|j: int|
            0 <= j < ev.len() && (#[trigger] ev[j]).name == n by {
            lemma_dir_listed(a0, input2);
            lemma_has_pos(ev, n);
        }
        assert forall|n: Seq<u8>| child(r, n) == #[trigger] child(want, n) by {
            if mb.dom().contains(n) {
            }
        }
        assert forall|n: Seq<u8>| r.dom().contains(n) <==> want.dom().contains(n) by {
            assert(child(r, n) == child(want, n));
        }
        assert forall|n: Seq<u8>| #[trigger] r.dom().contains(n) implies r[n] == want[n] by {
            assert(child(r, n) == child(want, n));
        }
        assert(r =~= want);
        lemma_dir_listed(repo@, result);
    }
    Ok(result)
}

} // verus!
