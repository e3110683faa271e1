use josh_filters::arena::Oid;
use josh_filters::cache::FilterCache;
use josh_filters::error::Error;
use josh_filters::filter::{build_chain, Filter};
use josh_filters::grammar::parse;
use josh_filters::history::{
    apply_filter_cached, create_filtered_commit, rewrite, select_parent_commits,
};
use josh_filters::repo::{Object, Repo};
use josh_filters::tree::{get_path, replace_subtree};
use josh_filters::walk::revwalk;

fn tree_with(repo: &mut Repo, files: &[(&str, &str)]) -> Oid {
    let mut tree = repo.empty_tree();
    for (path, content) in files {
        let blob = repo.add_blob(content.as_bytes().to_vec());
        tree = replace_subtree(repo, path, blob, tree).unwrap();
    }
    tree
}

fn commit_of(repo: &mut Repo, name: &str, files: &[(&str, &str)], parents: &[Oid]) -> Oid {
    let tree = tree_with(repo, files);
    repo.add_commit(tree, parents.to_vec(), name.as_bytes().to_vec()).unwrap()
}

fn name_of(repo: &Repo, c: Oid) -> String {
    String::from_utf8(repo.meta_of(c)).unwrap()
}

struct World {
    repo: Repo,
    forward: FilterCache,
    backward: FilterCache,
}

fn world() -> World {
    World { repo: Repo::new(), forward: FilterCache::new(), backward: FilterCache::new() }
}

fn filtered(w: &mut World, f: &Filter, c: Oid) -> Oid {
    apply_filter_cached(&mut w.repo, f, c, &mut w.forward, &mut w.backward).unwrap()
}

#[test]
fn commits_are_added() {
    let mut repo = Repo::new();
    let a = commit_of(&mut repo, "a", &[("x", "1")], &[]);
    let b = commit_of(&mut repo, "b", &[("x", "2")], &[a]);
    assert_ne!(a, b);
    assert_eq!(repo.parents_of(b), vec![a]);
    assert_eq!(name_of(&repo, b), "b");
    assert!(repo.is_commit(b) && repo.is_tree(repo.tree_of(b)));
    assert_eq!(commit_of(&mut repo, "a", &[("x", "1")], &[]), a);
    let t = repo.tree_of(a);
    assert!(matches!(repo.add_commit(a, vec![], vec![]), Err(Error::NotFound)));
    assert!(matches!(repo.add_commit(t, vec![t], vec![]), Err(Error::NotFound)));
    assert!(matches!(repo.object(b), Some(Object::Commit(_))));
}

#[test]
fn history_is_walked_oldest_first() {
    let mut repo = Repo::new();
    let r = commit_of(&mut repo, "r", &[("x", "1")], &[]);
    let a = commit_of(&mut repo, "a", &[("x", "2")], &[r]);
    let b = commit_of(&mut repo, "b", &[("x", "3")], &[r]);
    let c = commit_of(&mut repo, "c", &[("x", "4")], &[b]);
    let m = commit_of(&mut repo, "m", &[("x", "5")], &[a, c]);
    assert_eq!(revwalk(&repo, m), vec![r, a, b, c, m]);
    let n = commit_of(&mut repo, "n", &[("x", "5")], &[c, a]);
    assert_eq!(revwalk(&repo, n), vec![r, b, c, a, n]);
    assert_eq!(revwalk(&repo, r), vec![r]);
}

#[test]
fn a_long_history_is_walked() {
    let mut repo = Repo::new();
    let mut c = commit_of(&mut repo, "0", &[("x", "0")], &[]);
    for i in 1..2000 {
        c = commit_of(&mut repo, &i.to_string(), &[("x", "0")], &[c]);
    }
    assert_eq!(revwalk(&repo, c).len(), 2000);
}

#[test]
fn what_is_known_is_found() {
    let mut cache = FilterCache::new();
    assert!(!cache.has(":nop", Oid::Zero));
    assert_eq!(cache.get(":nop", Oid::Object(3)), Oid::Zero);
    cache.set(":nop", Oid::Object(3), Oid::Object(4));
    cache.set(":nop", Oid::Zero, Oid::Object(5));
    cache.set(":/a", Oid::Object(3), Oid::Zero);
    assert_eq!(cache.get(":nop", Oid::Object(3)), Oid::Object(4));
    assert_eq!(cache.get(":nop", Oid::Zero), Oid::Object(5));
    assert!(cache.has(":/a", Oid::Object(3)));
    assert_eq!(cache.get(":/a", Oid::Object(3)), Oid::Zero);
    cache.set(":nop", Oid::Object(3), Oid::Object(9));
    assert_eq!(cache.get(":nop", Oid::Object(3)), Oid::Object(9));
    assert!(!cache.has(":/b", Oid::Object(3)));
}

#[test]
fn parents_are_selected() {
    let mut repo = Repo::new();
    let a = commit_of(&mut repo, "a", &[("x", "1")], &[]);
    let b = commit_of(&mut repo, "b", &[("x", "2")], &[a]);
    let same = commit_of(&mut repo, "s", &[("x", "2")], &[b]);
    let ta = repo.tree_of(a);
    let tb = repo.tree_of(b);
    assert_eq!(select_parent_commits(&repo, b, tb, &vec![a]), vec![a]);
    assert_eq!(select_parent_commits(&repo, b, ta, &vec![a]), vec![]);
    assert_eq!(select_parent_commits(&repo, same, ta, &vec![a]), vec![a]);
    assert_eq!(select_parent_commits(&repo, a, ta, &vec![]), vec![]);
}

#[test]
fn filtered_commits_are_created() {
    let mut repo = Repo::new();
    let a = commit_of(&mut repo, "a", &[("x", "1")], &[]);
    let b = commit_of(&mut repo, "b", &[("x", "2")], &[a]);
    let ta = repo.tree_of(a);
    let empty = repo.empty_tree();
    let n = repo.count();
    assert_eq!(create_filtered_commit(&mut repo, b, vec![a, Oid::Zero], ta).unwrap(), a);
    assert_eq!(create_filtered_commit(&mut repo, a, vec![Oid::Zero], empty).unwrap(), Oid::Zero);
    assert_eq!(repo.count(), n);
    let c = create_filtered_commit(&mut repo, b, vec![a], empty).unwrap();
    assert_eq!(repo.parents_of(c), vec![a]);
    assert_eq!(repo.tree_of(c), empty);
    assert_eq!(name_of(&repo, c), "b");
    assert!(matches!(
        create_filtered_commit(&mut repo, b, vec![ta], ta),
        Err(Error::NotFound)
    ));
    let r = rewrite(&mut repo, b, vec![], ta).unwrap();
    assert_eq!((name_of(&repo, r), repo.tree_of(r)), ("b".to_string(), ta));
}

#[test]
fn commits_that_change_nothing_are_left_out() {
    let mut w = world();
    let a = commit_of(&mut w.repo, "a", &[("d/x", "1")], &[]);
    let b = commit_of(&mut w.repo, "b", &[("d/x", "1"), ("e", "2")], &[a]);
    let c = commit_of(&mut w.repo, "c", &[("d/x", "3"), ("e", "2")], &[b]);
    let f = parse(":/d").unwrap();
    let r = filtered(&mut w, &f, c);
    assert_eq!(name_of(&w.repo, r), "c");
    let parents = w.repo.parents_of(r);
    assert_eq!(parents.len(), 1);
    assert_eq!(name_of(&w.repo, parents[0]), "a");
    assert!(w.repo.parents_of(parents[0]).is_empty());
    assert!(get_path(&w.repo, w.repo.tree_of(r), "x").is_some());
    assert_eq!(w.forward.get(":/d", b), parents[0]);
    assert_eq!(w.backward.get(":/d", parents[0]), b);
    assert_eq!(w.backward.get(":/d", r), c);
}

#[test]
fn first_commits_without_files_are_left_out() {
    let mut w = world();
    let a = commit_of(&mut w.repo, "a", &[("e", "1")], &[]);
    let b = commit_of(&mut w.repo, "b", &[("e", "1"), ("d/x", "2")], &[a]);
    let f = parse(":/d").unwrap();
    assert_eq!(filtered(&mut w, &f, a), Oid::Zero);
    let r = filtered(&mut w, &f, b);
    assert!(w.repo.parents_of(r).is_empty());
    assert_eq!(w.backward.get(":/d", Oid::Zero), a);
}

#[test]
fn asking_again_gives_the_same_commit() {
    let mut w = world();
    let a = commit_of(&mut w.repo, "a", &[("d/x", "1")], &[]);
    let b = commit_of(&mut w.repo, "b", &[("d/x", "2")], &[a]);
    let f = parse(":/d").unwrap();
    let r = filtered(&mut w, &f, b);
    let n = w.repo.count();
    assert_eq!(filtered(&mut w, &f, b), r);
    assert_eq!(w.repo.count(), n);
    assert_eq!(f.apply_to_commit(&mut w.repo, b, &mut w.forward, &mut w.backward).unwrap(), r);
    assert_eq!(w.repo.count(), n);
    for c in revwalk(&w.repo, b) {
        assert!(w.forward.has(":/d", c));
    }
}

#[test]
fn what_is_known_is_believed() {
    let mut w = world();
    let a = commit_of(&mut w.repo, "a", &[("d/x", "1")], &[]);
    let other = commit_of(&mut w.repo, "o", &[("q", "1")], &[]);
    w.forward.set(":/d", a, other);
    let f = parse(":/d").unwrap();
    assert_eq!(filtered(&mut w, &f, a), other);
    let b = commit_of(&mut w.repo, "b", &[("d/x", "2")], &[a]);
    let r = filtered(&mut w, &f, b);
    assert_eq!(w.repo.parents_of(r), vec![other]);
}

#[test]
fn ids_of_no_commit_are_refused() {
    let mut w = world();
    let f = parse(":/d").unwrap();
    let t = w.repo.empty_tree();
    for o in [Oid::Zero, t, Oid::Object(99)] {
        assert!(matches!(
            apply_filter_cached(&mut w.repo, &f, o, &mut w.forward, &mut w.backward),
            Err(Error::NotFound)
        ));
    }
    w.forward.set(":/d", Oid::Zero, Oid::Zero);
    assert_eq!(filtered(&mut w, &f, Oid::Zero), Oid::Zero);
}

#[test]
fn keeping_everything_keeps_history() {
    let mut w = world();
    let a = commit_of(&mut w.repo, "a", &[("x", "1")], &[]);
    let b = commit_of(&mut w.repo, "b", &[("x", "2")], &[a]);
    let s = commit_of(&mut w.repo, "s", &[("x", "1")], &[a]);
    let m = commit_of(&mut w.repo, "m", &[("x", "2")], &[b, s]);
    let f = parse(":nop").unwrap();
    assert_eq!(filtered(&mut w, &f, m), m);
    let g = parse(":empty").unwrap();
    assert_eq!(filtered(&mut w, &g, m), Oid::Zero);
    let h = parse(":FOLD").unwrap();
    assert_eq!(filtered(&mut w, &h, a), a);
    let none = commit_of(&mut w.repo, "n", &[], &[]);
    assert_eq!(filtered(&mut w, &f, none), Oid::Zero);
}

#[test]
fn history_is_cut_off() {
    let mut w = world();
    let a = commit_of(&mut w.repo, "a", &[("x", "1")], &[]);
    let b = commit_of(&mut w.repo, "b", &[("x", "2")], &[a]);
    let f = parse(":CUTOFF=v").unwrap();
    let r = f.apply_to_commit(&mut w.repo, b, &mut w.forward, &mut w.backward).unwrap();
    assert!(w.repo.parents_of(r).is_empty());
    assert_eq!(w.repo.tree_of(r), w.repo.tree_of(b));
    assert_eq!(name_of(&w.repo, r), "b");
    assert_eq!(filtered(&mut w, &f, b), r);
}

#[test]
fn history_is_folded() {
    let mut w = world();
    let a = commit_of(&mut w.repo, "a", &[("x", "1")], &[]);
    let b = commit_of(&mut w.repo, "b", &[("y", "2")], &[a]);
    let c = commit_of(&mut w.repo, "c", &[("z", "3")], &[b]);
    let f = parse(":FOLD").unwrap();
    let r = filtered(&mut w, &f, c);
    let t = w.repo.tree_of(r);
    for p in ["x", "y", "z"] {
        assert!(get_path(&w.repo, t, p).is_some());
    }
    let none = commit_of(&mut w.repo, "n", &[], &[]);
    let d = commit_of(&mut w.repo, "d", &[("z", "3")], &[none]);
    assert!(matches!(
        f.apply_to_commit(&mut w.repo, d, &mut w.forward, &mut w.backward),
        Err(Error::NotFound)
    ));
    assert_eq!(filtered(&mut w, &f, d), Oid::Zero);
}

#[test]
fn chains_filter_history_in_turn() {
    let mut w = world();
    let a = commit_of(&mut w.repo, "a", &[("d/e/x", "1"), ("y", "0")], &[]);
    let b = commit_of(&mut w.repo, "b", &[("d/e/x", "2")], &[a]);
    let f = parse(":/d:/e").unwrap();
    let r = f.apply_to_commit(&mut w.repo, b, &mut w.forward, &mut w.backward).unwrap();
    assert!(get_path(&w.repo, w.repo.tree_of(r), "x").is_some());
    assert_eq!(w.repo.parents_of(r).len(), 1);
    let g = parse(":/none:prefix=q").unwrap();
    let r = g.apply_to_commit(&mut w.repo, a, &mut w.forward, &mut w.backward).unwrap();
    assert_eq!(r, Oid::Zero);
    let bad = parse(":prefix=:/d").unwrap();
    assert!(matches!(
        bad.apply_to_commit(&mut w.repo, a, &mut w.forward, &mut w.backward),
        Err(Error::FileName)
    ));
}

#[test]
fn a_commit_that_cannot_be_filtered_is_left_out() {
    let mut w = world();
    let a = commit_of(&mut w.repo, "a", &[("x", "1")], &[]);
    let f = parse(":prefix=").unwrap();
    assert_eq!(filtered(&mut w, &f, a), Oid::Zero);
    assert_eq!(w.backward.get(":prefix=", Oid::Zero), a);
}

#[test]
fn a_new_mount_brings_its_history() {
    let mut w = world();
    let a = commit_of(&mut w.repo, "a", &[("lib/f", "1"), ("ws/own", "0")], &[]);
    let b = commit_of(
        &mut w.repo,
        "b",
        &[("lib/f", "1"), ("ws/own", "0"), ("ws/workspace.josh", "l = :/lib\n")],
        &[a],
    );
    let f = parse(":workspace=ws").unwrap();
    let r = filtered(&mut w, &f, b);
    let t = w.repo.tree_of(r);
    assert!(get_path(&w.repo, t, "l/f").is_some());
    assert!(get_path(&w.repo, t, "own").is_some());
    let parents = w.repo.parents_of(r);
    assert_eq!(parents.len(), 2);
    assert!(get_path(&w.repo, w.repo.tree_of(parents[0]), "own").is_some());
    assert!(get_path(&w.repo, w.repo.tree_of(parents[1]), "l/f").is_some());
    let c = commit_of(
        &mut w.repo,
        "c",
        &[("lib/f", "2"), ("ws/own", "0"), ("ws/workspace.josh", "l = :/lib\n")],
        &[b],
    );
    let r2 = filtered(&mut w, &f, c);
    assert_eq!(w.repo.parents_of(r2), vec![r]);
}

#[test]
fn filtered_history_is_no_longer() {
    let mut w = world();
    let mut c = commit_of(&mut w.repo, "0", &[("d/x", "0")], &[]);
    for i in 1..10 {
        let n = i.to_string();
        c = commit_of(&mut w.repo, &n, &[("d/x", "0"), ("e", &n)], &[c]);
    }
    let f = parse(":/d").unwrap();
    let r = filtered(&mut w, &f, c);
    assert_eq!(revwalk(&w.repo, r).len(), 1);
    let g = parse(":/e").unwrap();
    assert_eq!(filtered(&mut w, &g, c), Oid::Zero);
}

#[test]
fn both_ways_stay_in_step_for_every_filter() {
    for text in [":/d", ":/d:/e", ":FOLD", ":CUTOFF=x", ":workspace=d", ":prefix=:/d", "a = :/d\n"] {
        let mut w = world();
        let a = commit_of(&mut w.repo, "a", &[("y", "0")], &[]);
        let b = commit_of(&mut w.repo, "b", &[("d/e/x", "1"), ("y", "0")], &[a]);
        let c = commit_of(&mut w.repo, "c", &[("d/e/x", "1"), ("y", "1")], &[b]);
        let m = commit_of(&mut w.repo, "m", &[("d/workspace.josh", "l = :/y\n")], &[c, a]);
        let f = parse(text).unwrap();
        let spec = f.filter_spec();
        let r = filtered(&mut w, &f, m);
        let walk = revwalk(&w.repo, m);
        for x in &walk {
            assert!(w.forward.has(&spec, *x), "{}", text);
            let v = w.forward.get(&spec, *x);
            let y = w.backward.get(&spec, v);
            assert!(walk.contains(&y), "{}", text);
            assert_eq!(w.forward.get(&spec, y), v, "{}", text);
        }
        assert_eq!(filtered(&mut w, &f, m), r);
    }
}

#[test]
fn both_ways_stay_in_step_for_padded_chains() {
    for text in [":/d", ":INFO=prefix=q", ":FOLD", ":workspace=d", ":prefix=p", ":nop", "a = :/d\n"] {
        for pads in 0..4 {
            let mut w = world();
            let z = commit_of(&mut w.repo, "z", &[], &[]);
            let a = commit_of(&mut w.repo, "a", &[("d/e/x", "0")], &[z]);
            let o = commit_of(&mut w.repo, "a", &[("d/e/x", "0")], &[]);
            let b = commit_of(&mut w.repo, "b", &[("d/e/x", "1"), ("y", "0")], &[a, o]);
            let c = commit_of(&mut w.repo, "c", &[("d/e/x", "1"), ("y", "1")], &[b]);
            let m = commit_of(&mut w.repo, "m", &[("d/workspace.josh", "l = :/y\n")], &[c, a, z]);
            let mut f = parse(text).unwrap();
            let spec = f.filter_spec();
            filtered(&mut w, &Filter::Nop, b);
            filtered(&mut w, &f, o);
            if pads % 2 == 1 {
                f = build_chain(f, Box::new(Filter::Nop));
            }
            if pads > 1 {
                f = build_chain(Box::new(Filter::Nop), f);
            }
            assert_eq!(f.filter_spec(), spec);
            let r = filtered(&mut w, &f, m);
            for x in revwalk(&w.repo, m) {
                assert!(w.forward.has(&spec, x), "{} {}", text, pads);
                let v = w.forward.get(&spec, x);
                let y = w.backward.get(&spec, v);
                assert_ne!(y, Oid::Zero, "{} {}", text, pads);
                assert_eq!(w.forward.get(&spec, y), v, "{} {}", text, pads);
            }
            assert_eq!(filtered(&mut w, &f, m), r);
        }
    }
}

#[test]
fn folding_loses_no_path() {
    let mut w = world();
    let a = commit_of(&mut w.repo, "a", &[("d/x", "1")], &[]);
    let b = commit_of(&mut w.repo, "b", &[("d/y", "2")], &[]);
    let m = commit_of(&mut w.repo, "m", &[("d/x", "3"), ("z", "4")], &[a, b]);
    let f = parse(":FOLD").unwrap();
    let r = filtered(&mut w, &f, m);
    let t = w.repo.tree_of(r);
    for p in ["d/x", "d/y", "z"] {
        assert!(get_path(&w.repo, t, p).is_some());
    }
    assert_eq!(w.repo.entries(t).len(), 2);
}

#[test]
fn the_tree_of_a_workspace_commit_is_the_filtered_tree() {
    let mut w = world();
    let ws = "l = :/lib\n";
    let a = commit_of(&mut w.repo, "a", &[("lib/f", "1")], &[]);
    let b = commit_of(&mut w.repo, "b", &[("lib/f", "1"), ("ws/workspace.josh", ws)], &[a]);
    let f = parse(":workspace=ws").unwrap();
    let (t, parents) = f
        .ws_apply_to_tree_and_parents("ws", &mut w.repo, b, &mut w.forward, &mut w.backward)
        .unwrap();
    let tree = w.repo.tree_of(b);
    assert_eq!(f.apply_to_tree(&mut w.repo, tree).unwrap(), t);
    assert_eq!(parents.len(), 1);
    let bad = commit_of(&mut w.repo, "c", &[("ws/workspace.josh", "no list")], &[]);
    let (t, parents) = f
        .ws_apply_to_tree_and_parents("ws", &mut w.repo, bad, &mut w.forward, &mut w.backward)
        .unwrap();
    assert!(get_path(&w.repo, t, "workspace.josh").is_some());
    assert!(parents.is_empty());
}
