//! Reading and replacing what stands in a stored tree.

use crate::arena::{
    at, dir, entry_wf, is_item, is_tree, item, lemma_dir_entry, lemma_dir_listed, lemma_dir_stable,
    lemma_extends_transitive, lemma_item_stable, lemma_node_mode, listed, node, object_wf,
    EntryView, Oid,
};
use crate::bytes::{copied, same};
use crate::entries::{lemma_listed_replaced, with_entry};
use crate::error::{Error, ErrorView};
use crate::node::{child, is_name_ok, plain, put_child, BLOB_MODE, Dir, Node, TREE_MODE};
use crate::path::{
    component_views, components_of, lemma_components, lookup, replace_at, subdir, walk,
};
use crate::repo::{entry_views, Entry, Object, Repo};
use crate::text::{chars_of, pieces, texts};
use vstd::prelude::*;
use vstd::utf8::encode_utf8;

verus! {

/// The id of the entry called `name`, and its mode.
pub fn child_of(repo: &Repo, tree: Oid, name: &[u8]) -> (r: Option<(Oid, u32)>)
    requires
        repo.wf(),
        is_tree(repo@, tree),
    ensures
        match r {
            Some((o, m)) => is_item(repo@, o) && at(o) < at(tree) && child(dir(repo@, tree), name@)
                == Some(node(repo@, at(o), m)),
            None => child(dir(repo@, tree), name@) is None,
        },
{
    proof {
        lemma_dir_listed(repo@, tree);
    }
    match repo.object(tree) {
        Some(Object::Tree(es)) => {
            let ghost ev = entry_views(es@);
            let mut i: usize = 0;
            while i < es.len()
                invariant
                    repo.wf(),
                    is_tree(repo@, tree),
                    ev == entry_views(es@),
                    ev == repo@[at(tree)]->Tree_0,
                    i <= es.len(),
                    forall|j: int| 0 <= j < i ==> (#[trigger] ev[j]).name != name@,
                decreases es.len() - i,
            {
                if same(es[i].name.as_slice(), name) {
                    proof {
                        lemma_dir_entry(repo@, tree, i as int);
                        assert(ev[i as int].name == name@);
                    }
                    return Some((es[i].oid, es[i].mode));
                }
                i += 1;
            }
            None
        },
        _ => None,
    }
}

/// The id of what stands at a path.
pub fn get_path(repo: &Repo, tree: Oid, path: &str) -> (r: Option<Oid>)
    requires
        repo.wf(),
        is_tree(repo@, tree),
    ensures
        match r {
            Some(o) => is_item(repo@, o) && lookup(dir(repo@, tree), path@) is Some && item(
                repo@,
                o,
            )
                == Some(plain(lookup(dir(repo@, tree), path@)->0)),
            None => lookup(dir(repo@, tree), path@) is None,
        },
{
    let names = pieces(path, '/');
    let ghost ns = texts(names@);
    let ghost d = dir(repo@, tree);
    if names.len() == 0 {
        return None;
    }
    let first = chars_of(names[0].as_str());
    assert(ns[0] == names@[0]@);
    if first.len() == 1 && first[0] == '.' {
        assert(ns[0] =~= seq!['.']);
        return None;
    }
    if first.len() == 2 && first[0] == '.' && first[1] == '.' {
        assert(ns[0] =~= seq!['.', '.']);
        return None;
    }
    let mut at_tree: Oid = tree;
    let mut i: usize = 0;
    assert(ns.skip(0) =~= ns);
    assert(lookup(d, path@) == walk(d, ns));
    while i < names.len()
        invariant
            repo.wf(),
            d == dir(repo@, tree),
            is_tree(repo@, at_tree),
            ns == texts(names@),
            i <= names.len(),
            lookup(d, path@) == walk(dir(repo@, at_tree), ns.skip(i as int)),
        decreases names.len() - i,
    {
        let ghost rest = ns.skip(i as int);
        assert(rest[0] == names@[i as int]@);
        let name = names[i].as_str();
        if chars_of(name).len() == 0 {
            return None;
        }
        match child_of(repo, at_tree, name.as_bytes()) {
            None => {
                return None;
            },
            Some((o, m)) => {
                proof {
                    lemma_node_mode(repo@, at(o), m, BLOB_MODE);
                }
                if i + 1 == names.len() {
                    return Some(o);
                }
                if !repo.is_tree(o) {
                    return None;
                }
                proof {
                    lemma_dir_listed(repo@, o);
                    assert(node(repo@, at(o), m) == Node::Dir(dir(repo@, o)));
                    assert(rest[1] == names@[i + 1]@);
                    assert(rest.skip(1) =~= ns.skip(i + 1));
                }
                if i + 2 == names.len() && chars_of(names[i + 1].as_str()).len() == 0 {
                    return Some(o);
                }
                at_tree = o;
            },
        }
        i += 1;
    }
    None
}

/// The tree of a repository that stands for the directory at a path, or for the empty one.
pub fn subtree_or_empty(repo: &mut Repo, tree: Oid, path: &str) -> (r: Oid)
    requires
        old(repo).wf(),
        is_tree(old(repo)@, tree),
    ensures
        final(repo).grown_from(*old(repo)),
        is_tree(final(repo)@, r),
        dir(final(repo)@, r) == subdir(dir(old(repo)@, tree), path@),
{
    match get_path(repo, tree, path) {
        Some(o) => {
            proof {
                if is_tree(repo@, o) {
                    lemma_dir_listed(repo@, o);
                }
            }
            if repo.is_tree(o) {
                return o;
            }
        },
        None => {},
    }
    repo.empty_tree()
}

/// The tree with `oid` as its entry called `name`. The id that names nothing, or the empty
/// tree, takes the entry away; a commit, or an id of no object, is not put.
pub fn replace_child(repo: &mut Repo, name: &[u8], oid: Oid, full_tree: Oid) -> (r: Oid)
    requires
        old(repo).wf(),
        is_tree(old(repo)@, full_tree),
    ensures
        final(repo).grown_from(*old(repo)),
        is_tree(final(repo)@, r),
        dir(final(repo)@, r) == put_child(
            old(repo).rules(),
            dir(old(repo)@, full_tree),
            name@,
            item(old(repo)@, oid),
        ),
{
    let ghost rules = repo.rules();
    let ghost a = repo@;
    let ghost d = dir(a, full_tree);
    proof {
        lemma_dir_listed(a, full_tree);
        if is_tree(a, oid) {
            lemma_dir_listed(a, oid);
        }
    }
    let remove: bool = oid == Oid::Zero || repo.is_empty_tree(oid);
    let tree: bool = repo.is_tree(oid);
    let blob: bool = repo.is_blob(oid);
    if !remove && (!(tree || blob) || !is_name_ok(repo.name_rules(), name)) {
        assert(put_child(rules, d, name@, item(a, oid)) =~= d);
        return full_tree;
    }
    let es = repo.entries(full_tree);
    let ghost ev = entry_views(es@);
    let e: Option<Entry> = if remove {
        None
    } else {
        Some(Entry { name: copied(name), mode: if tree { TREE_MODE } else { BLOB_MODE }, oid })
    };
    let ghost ee: Option<EntryView> = if remove {
        None
    } else {
        Some(e->0@)
    };
    let r = with_entry(&es, name, e);
    proof {
        let rv = entry_views(r@);
        lemma_listed_replaced(a, rv, ev, name@, ee);
        assert(object_wf(a, at(full_tree), a[at(full_tree)]));
        assert forall|j: int| 0 <= j < rv.len() implies entry_wf(
            a,
            a.len() as int,
            #[trigger] rv[j],
        ) by {
            assert(rv.contains(rv[j]));
            if ev.contains(rv[j]) {
                let k = ev.index_of(rv[j]);
                assert(entry_wf(a, at(full_tree), ev[k]));
            }
        }
        assert(listed(a, rv) =~= put_child(rules, d, name@, item(a, oid)));
    }
    repo.put_tree(r)
}

/// The tree with `oid` at a path; directories on the way are made where there are none.
pub fn replace_subtree(repo: &mut Repo, path: &str, oid: Oid, full_tree: Oid) -> (r: Result<
    Oid,
    Error,
>)
    requires
        old(repo).wf(),
        is_tree(old(repo)@, full_tree),
    ensures
        final(repo).grown_from(*old(repo)),
        match r {
            Ok(o) => is_tree(final(repo)@, o) && replace_at(
                old(repo).rules(),
                dir(old(repo)@, full_tree),
                path@,
                item(old(repo)@, oid),
            ) == Ok::<Dir, ErrorView>(dir(final(repo)@, o)),
            Err(e) => replace_at(
                old(repo).rules(),
                dir(old(repo)@, full_tree),
                path@,
                item(old(repo)@, oid),
            ) == Err::<
                Dir,
                ErrorView,
            >(e@),
        },
    decreases path@.len(),
{
    let ghost rules = repo.rules();
    let cs = components_of(path);
    let n: usize = cs.len();
    let ghost cv = component_views(cs@);
    proof {
        lemma_components(path@);
    }
    if n == 1 {
        return Ok(replace_child(repo, path.as_bytes(), oid, full_tree));
    }
    if n == 0 {
        return Err(Error::FileName);
    }
    let name = cs[n - 1].text.as_str();
    let nc = chars_of(name);
    assert(cv[n - 1].text == name@);
    if nc.len() == 2 && nc[0] == '.' && nc[1] == '.' {
        assert(name@ =~= seq!['.', '.']);
        return Err(Error::FileName);
    }
    assert(cv[n - 2].end < cv[n - 1].end);
    let end: usize = cs[n - 2].end;
    assert(cv[n - 2].end == end);
    let parent = path.substring_char(0, end);
    assert(parent@ =~= path@.take(end as int));
    let ghost a = repo@;
    let unknown: bool = oid != Oid::Zero && repo.object(oid).is_none();
    let st = subtree_or_empty(repo, full_tree, parent);
    let ghost b = repo@;
    proof {
        if !unknown {
            lemma_item_stable(a, b, oid);
        }
        lemma_dir_stable(a, b, full_tree);
    }
    let tree = if unknown {
        assert(put_child(rules, dir(b, st), encode_utf8(name@), item(a, oid)) =~= dir(b, st));
        st
    } else {
        replace_child(repo, name.as_bytes(), oid, st)
    };
    let ghost c = repo@;
    proof {
        lemma_extends_transitive(a, b, c);
        lemma_dir_stable(b, c, full_tree);
        lemma_dir_listed(c, tree);
    }
    let r = replace_subtree(repo, parent, tree, full_tree);
    proof {
        lemma_extends_transitive(a, c, repo@);
    }
    r
}

} // verus!
