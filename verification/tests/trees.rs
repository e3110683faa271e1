use josh_filters::arena::Oid;
use josh_filters::bytes::{less, same};
use josh_filters::entries::with_entry;
use josh_filters::error::Error;
use josh_filters::ids::{git_id_of, hex_text, tree_content};
use josh_filters::memo::Memo;
use josh_filters::merge::merged_tree;
use josh_filters::node::{is_name_ok, is_name_storable, Rules, BLOB_MODE, LINK_MODE, TREE_MODE};
use josh_filters::path::{components_of, joined};
use josh_filters::pattern::Pattern;
use josh_filters::repo::{Entry, Object, Repo};
use josh_filters::strip::striped_tree;
use josh_filters::text::{chars_of, pieces, replaced_all, same_text, trimmed_end, without_first};
use josh_filters::tree::{child_of, get_path, replace_child, replace_subtree, subtree_or_empty};

fn tree_with(repo: &mut Repo, files: &[(&str, &str)]) -> Oid {
    let mut tree = repo.empty_tree();
    for (path, content) in files {
        let blob = repo.add_blob(content.as_bytes().to_vec());
        tree = replace_subtree(repo, path, blob, tree).unwrap();
    }
    tree
}

fn stripped(repo: &mut Repo, root: &str, t: Oid, p: &Pattern, invert: bool, dirs: bool) -> Result<Oid, Error> {
    striped_tree(repo, root, t, p, invert, dirs, &mut Memo::new())
}

fn files_below(repo: &Repo, tree: Oid, root: &str, out: &mut Vec<String>) {
    for e in repo.entries(tree) {
        let name = String::from_utf8_lossy(&e.name).to_string();
        let path = if root.is_empty() { name } else { format!("{}/{}", root, name) };
        match repo.object(e.oid) {
            Some(Object::Tree(_)) => files_below(repo, e.oid, &path, out),
            Some(Object::Blob(data)) => {
                out.push(format!("{}:{}", path, String::from_utf8_lossy(data)))
            }
            _ => out.push(format!("{}@", path)),
        }
    }
}

fn files(repo: &Repo, tree: Oid) -> Vec<String> {
    let mut out = vec![];
    files_below(repo, tree, "", &mut out);
    out
}

#[test]
fn equal_objects_have_one_id() {
    let mut repo = Repo::new();
    let a = repo.add_blob(b"x".to_vec());
    let b = repo.add_blob(b"y".to_vec());
    assert_eq!(a, repo.add_blob(b"x".to_vec()));
    assert_ne!(a, b);
    assert_eq!(repo.count(), 2);
    let t = tree_with(&mut repo, &[("a", "x")]);
    let n = repo.count();
    assert_eq!(t, tree_with(&mut repo, &[("a", "x")]));
    assert_eq!(n, repo.count());
}

#[test]
fn the_empty_tree_is_one() {
    let mut repo = Repo::new();
    let e = repo.empty_tree();
    assert_eq!(e, repo.empty_tree());
    assert!(repo.is_tree(e));
    assert!(repo.is_empty_tree(e));
    assert!(!repo.is_blob(e));
    assert!(!repo.is_commit(e));
    assert!(!repo.is_empty_tree(Oid::Zero));
    assert!(repo.object(Oid::Zero).is_none());
    assert!(repo.object(Oid::Object(7)).is_none());
}

#[test]
fn entries_are_put_in_order() {
    let mut repo = Repo::new();
    let x = repo.add_blob(b"x".to_vec());
    let d = tree_with(&mut repo, &[("f", "1")]);
    let t = repo
        .add_tree(vec![
            Entry { name: b"a.c".to_vec(), mode: BLOB_MODE, oid: x },
            Entry { name: b"a".to_vec(), mode: TREE_MODE, oid: d },
            Entry { name: b"a-b".to_vec(), mode: 33261, oid: x },
        ])
        .unwrap();
    let names: Vec<Vec<u8>> = repo.entries(t).into_iter().map(|e| e.name).collect();
    assert_eq!(names, vec![b"a-b".to_vec(), b"a.c".to_vec(), b"a".to_vec()]);
}

#[test]
fn entries_that_do_not_fit_are_refused() {
    let mut repo = Repo::new();
    let x = repo.add_blob(b"x".to_vec());
    let bad = |repo: &mut Repo, name: &[u8], mode: u32, oid: Oid| {
        matches!(
            repo.add_tree(vec![Entry { name: name.to_vec(), mode, oid }]),
            Err(Error::InvalidEntry)
        )
    };
    assert!(bad(&mut repo, b"", BLOB_MODE, x));
    assert!(bad(&mut repo, b"a/b", BLOB_MODE, x));
    assert!(bad(&mut repo, b"a", TREE_MODE, x));
    assert!(bad(&mut repo, b"a", BLOB_MODE, Oid::Zero));
    assert!(repo.add_link(vec![0; 19]).is_err());
    let link = repo.add_link(vec![7; 20]).unwrap();
    assert!(bad(&mut repo, b"a", BLOB_MODE, link));
    assert!(repo.fits(&Entry { name: b"a".to_vec(), mode: LINK_MODE, oid: link }));
    assert!(!repo.fits(&Entry { name: b"a".to_vec(), mode: LINK_MODE, oid: x }));
}

#[test]
fn names_that_may_be_stored() {
    assert!(is_name_storable(b".git"));
    assert!(is_name_storable(b"."));
    assert!(!is_name_storable(b""));
    assert!(!is_name_storable(b"a/b"));
    assert!(!is_name_storable(b"a\0b"));
}

#[test]
fn names_that_may_be_added() {
    let rules = Repo::new().name_rules();
    assert_eq!(rules, Rules { protect_ntfs: true, protect_hfs: false });
    for name in ["a", ".gitx", "git", "git~2", ".gitignore", "..a", "a.", "JOSH_ORIG_PATH_a%2Fb"] {
        assert!(is_name_ok(rules, name.as_bytes()), "{}", name);
    }
    for name in ["", ".", "..", ".git", ".GIT", ".gIt. .", ".git\\x", ".git:x", "git~1", "GIT~1 ", "a/b"] {
        assert!(!is_name_ok(rules, name.as_bytes()), "{}", name);
    }
}

#[test]
fn names_go_by_the_settings() {
    let all = [(false, false), (true, false), (false, true), (true, true)];
    for (protect_ntfs, protect_hfs) in all {
        let rules = Rules { protect_ntfs, protect_hfs };
        for name in ["", ".", "..", ".git", ".GiT", "a/b"] {
            assert!(!is_name_ok(rules, name.as_bytes()), "{:?} {}", rules, name);
        }
        for name in ["a", ".gitx", "git", ".gi", "x\u{200c}", "..."] {
            assert!(is_name_ok(rules, name.as_bytes()), "{:?} {}", rules, name);
        }
        for name in ["git~1", ".git ", ".git.", ".git:x"] {
            assert_eq!(is_name_ok(rules, name.as_bytes()), !protect_ntfs, "{:?} {}", rules, name);
        }
        for name in [".g\u{200c}it", "\u{feff}.GIT\u{206f}", ".\u{167}it", ".git\u{202e}"] {
            assert_eq!(is_name_ok(rules, name.as_bytes()), !protect_hfs, "{:?} {}", rules, name);
        }
        assert!(is_name_ok(rules, b".g\xffit"));
        assert!(is_name_ok(rules, b".g\xe2\x80it"));
    }
}

#[test]
fn a_repository_keeps_its_settings() {
    let rules = Rules { protect_ntfs: false, protect_hfs: true };
    let mut repo = Repo::with_rules(rules);
    let t = tree_with(&mut repo, &[("git~1/a", "1"), (".g\u{200d}it", "2"), ("b", "3")]);
    assert_eq!(files(&repo, t), vec!["b:3", "git~1/a:1"]);
    assert_eq!(repo.name_rules(), rules);
    let mut repo = Repo::new();
    let t = tree_with(&mut repo, &[("git~1/a", "1"), (".g\u{200d}it", "2"), ("b", "3")]);
    assert_eq!(files(&repo, t), vec![".g\u{200d}it:2", "b:3"]);
}

#[test]
fn ids_of_no_object_are_not_put() {
    let mut repo = Repo::new();
    let t = tree_with(&mut repo, &[("a", "1"), ("d/x", "2")]);
    for k in 0..9 {
        let o = Oid::Object(repo.count() + k);
        assert_eq!(replace_child(&mut repo, b"a", o, t), t);
        let o = Oid::Object(repo.count() + k);
        assert_eq!(replace_subtree(&mut repo, "d/x", o, t).unwrap(), t);
        let o = Oid::Object(repo.count() + k);
        assert_eq!(replace_subtree(&mut repo, "e/f/g", o, t).unwrap(), t);
    }
}

#[test]
fn a_child_is_replaced() {
    let mut repo = Repo::new();
    let t = tree_with(&mut repo, &[("a", "1"), ("b", "2")]);
    let x = repo.add_blob(b"3".to_vec());
    let r = replace_child(&mut repo, b"b", x, t);
    assert_eq!(files(&repo, r), vec!["a:1", "b:3"]);
    let r = replace_child(&mut repo, b"c", x, t);
    assert_eq!(files(&repo, r), vec!["a:1", "b:2", "c:3"]);
    let r = replace_child(&mut repo, b"a", Oid::Zero, t);
    assert_eq!(files(&repo, r), vec!["b:2"]);
    let e = repo.empty_tree();
    assert_eq!(replace_child(&mut repo, b"a", e, t), r);
    assert_eq!(replace_child(&mut repo, b"zzz", e, t), t);
}

#[test]
fn a_child_that_cannot_be_added_is_left_out() {
    let mut repo = Repo::new();
    let t = tree_with(&mut repo, &[("a", "1")]);
    let x = repo.add_blob(b"3".to_vec());
    assert_eq!(replace_child(&mut repo, b".git", x, t), t);
    assert_eq!(replace_child(&mut repo, b"a/b", x, t), t);
    let link = repo.add_link(vec![1; 20]).unwrap();
    assert_eq!(replace_child(&mut repo, b"a", link, t), t);
}

#[test]
fn replacing_gives_a_file_the_ordinary_mode() {
    let mut repo = Repo::new();
    let x = repo.add_blob(b"#!".to_vec());
    let t = repo.add_tree(vec![Entry { name: b"run".to_vec(), mode: 33261, oid: x }]).unwrap();
    assert_eq!(child_of(&repo, t, b"run"), Some((x, 33261)));
    let r = replace_child(&mut repo, b"run", x, t);
    assert_eq!(child_of(&repo, r, b"run"), Some((x, BLOB_MODE)));
    assert_eq!(child_of(&repo, r, b"no"), None);
}

#[test]
fn paths_are_followed() {
    let mut repo = Repo::new();
    let t = tree_with(&mut repo, &[("a/b/c", "1"), ("d", "2")]);
    let one = repo.add_blob(b"1".to_vec());
    let two = repo.add_blob(b"2".to_vec());
    assert_eq!(get_path(&repo, t, "a/b/c"), Some(one));
    assert_eq!(get_path(&repo, t, "d"), Some(two));
    let b = get_path(&repo, t, "a/b").unwrap();
    assert!(repo.is_tree(b));
    assert_eq!(get_path(&repo, t, "a/b/"), Some(b));
    for p in ["", "/", "/a", "./a", "..", "a//b", "a/b//", "a/x", "d/", "d/x", "a/./b"] {
        assert_eq!(get_path(&repo, t, p), None, "{}", p);
    }
    let e = repo.empty_tree();
    assert_eq!(subtree_or_empty(&mut repo, t, "a/b"), b);
    assert_eq!(subtree_or_empty(&mut repo, t, "d"), e);
    assert_eq!(subtree_or_empty(&mut repo, t, "x"), e);
}

#[test]
fn components_of_paths() {
    let texts = |p: &str| -> Vec<String> { components_of(p).into_iter().map(|c| c.text).collect() };
    assert_eq!(texts("a/b"), vec!["a", "b"]);
    assert_eq!(texts("/a//b/"), vec!["/", "a", "b"]);
    assert_eq!(texts("./a/./b"), vec![".", "a", "b"]);
    assert_eq!(texts("a/.."), vec!["a", ".."]);
    assert!(texts("").is_empty());
    let ends: Vec<usize> = components_of("/a//b/").into_iter().map(|c| c.end).collect();
    assert_eq!(ends, vec![1, 2, 5]);
    assert_eq!(joined("", "x"), "x");
    assert_eq!(joined("a", "x"), "a/x");
    assert_eq!(joined("a/", "x"), "a/x");
}

#[test]
fn a_subtree_is_replaced() {
    let mut repo = Repo::new();
    let t = tree_with(&mut repo, &[("a/b/c", "1"), ("d", "2")]);
    let x = repo.add_blob(b"3".to_vec());
    let r = replace_subtree(&mut repo, "a/b/e", x, t).unwrap();
    assert_eq!(files(&repo, r), vec!["a/b/c:1", "a/b/e:3", "d:2"]);
    let r = replace_subtree(&mut repo, "x/y/z", x, t).unwrap();
    assert_eq!(files(&repo, r), vec!["a/b/c:1", "d:2", "x/y/z:3"]);
    let r = replace_subtree(&mut repo, "a/b/c", Oid::Zero, t).unwrap();
    assert_eq!(files(&repo, r), vec!["d:2"]);
    let r = replace_subtree(&mut repo, "d/e", x, t).unwrap();
    assert_eq!(files(&repo, r), vec!["a/b/c:1", "d/e:3"]);
}

#[test]
fn paths_that_end_in_no_name_are_refused() {
    let mut repo = Repo::new();
    let t = tree_with(&mut repo, &[("a", "1")]);
    let x = repo.add_blob(b"3".to_vec());
    assert!(matches!(replace_subtree(&mut repo, "", x, t), Err(Error::FileName)));
    assert!(matches!(replace_subtree(&mut repo, "a/..", x, t), Err(Error::FileName)));
    assert_eq!(replace_subtree(&mut repo, "b/", x, t).unwrap(), t);
    assert_eq!(replace_subtree(&mut repo, "..", x, t).unwrap(), t);
}

#[test]
fn what_was_put_is_found_and_the_rest_stays() {
    let mut repo = Repo::new();
    let t = tree_with(&mut repo, &[("a/b", "1"), ("a/c", "2"), ("d", "3")]);
    let x = repo.add_blob(b"9".to_vec());
    let r = replace_subtree(&mut repo, "a/b", x, t).unwrap();
    assert_eq!(get_path(&repo, r, "a/b"), Some(x));
    assert_eq!(get_path(&repo, r, "a/c"), get_path(&repo, t, "a/c"));
    assert_eq!(get_path(&repo, r, "d"), get_path(&repo, t, "d"));
    let old = get_path(&repo, t, "a/b").unwrap();
    assert_eq!(replace_subtree(&mut repo, "a/b", old, r).unwrap(), t);
    assert_eq!(replace_subtree(&mut repo, "a/b", old, t).unwrap(), t);
    assert_eq!(replace_subtree(&mut repo, "a/x/y", Oid::Zero, t).unwrap(), t);
}

#[test]
fn what_was_put_leaves_odd_paths_alone() {
    let mut repo = Repo::new();
    let x = repo.add_blob(b"x".to_vec());
    let git = repo.add_tree(vec![Entry { name: b"c".to_vec(), mode: BLOB_MODE, oid: x }]).unwrap();
    let t = repo
        .add_tree(vec![
            Entry { name: b".git".to_vec(), mode: TREE_MODE, oid: git },
            Entry { name: b"a".to_vec(), mode: TREE_MODE, oid: git },
        ])
        .unwrap();
    let y = repo.add_blob(b"y".to_vec());
    let r = replace_subtree(&mut repo, "a/b", y, t).unwrap();
    for path in [".git/c", ".git/", "a/c", "a/c/", ".git//c", "..", "./a"] {
        assert_eq!(get_path(&repo, r, path), get_path(&repo, t, path), "{}", path);
    }
    assert_eq!(get_path(&repo, r, ".git/"), Some(git));
    let r = replace_subtree(&mut repo, ".git/b", y, t).unwrap();
    assert_eq!(r, t);
    assert_eq!(get_path(&repo, r, ".git/b"), None);
}

#[test]
fn a_file_in_the_way_is_taken_away() {
    let mut repo = Repo::new();
    let t = tree_with(&mut repo, &[("a", "1"), ("d", "3")]);
    let r = replace_subtree(&mut repo, "a/b", Oid::Zero, t).unwrap();
    assert_eq!(files(&repo, r), vec!["d:3"]);
}

#[test]
fn trees_are_merged() {
    let mut repo = Repo::new();
    let a = tree_with(&mut repo, &[("x", "1"), ("d/p", "2"), ("d/q", "3")]);
    let b = tree_with(&mut repo, &[("y", "4"), ("d/q", "5"), ("d/r", "6")]);
    let m = merged_tree(&mut repo, a, b).unwrap();
    assert_eq!(files(&repo, m), vec!["d/p:2", "d/q:3", "d/r:6", "x:1", "y:4"]);
    let m = merged_tree(&mut repo, b, a).unwrap();
    assert_eq!(files(&repo, m), vec!["d/p:2", "d/q:5", "d/r:6", "x:1", "y:4"]);
}

#[test]
fn a_conflict_at_the_top_goes_to_the_second() {
    let mut repo = Repo::new();
    let a = tree_with(&mut repo, &[("x", "1")]);
    let b = tree_with(&mut repo, &[("x", "2")]);
    let m = merged_tree(&mut repo, a, b).unwrap();
    assert_eq!(files(&repo, m), vec!["x:2"]);
    let x = get_path(&repo, a, "x").unwrap();
    assert_eq!(merged_tree(&mut repo, x, b).unwrap(), x);
    assert_eq!(merged_tree(&mut repo, b, x).unwrap(), b);
}

#[test]
fn nothing_is_the_unit_of_merging() {
    let mut repo = Repo::new();
    let a = tree_with(&mut repo, &[("x", "1")]);
    let e = repo.empty_tree();
    assert_eq!(merged_tree(&mut repo, a, a).unwrap(), a);
    assert_eq!(merged_tree(&mut repo, a, e).unwrap(), a);
    assert_eq!(merged_tree(&mut repo, e, a).unwrap(), a);
}

#[test]
fn names_that_are_no_text_stop_merging_and_selecting() {
    let mut repo = Repo::new();
    let x = repo.add_blob(b"x".to_vec());
    let bad = repo.add_tree(vec![Entry { name: vec![255, 1], mode: BLOB_MODE, oid: x }]).unwrap();
    let good = tree_with(&mut repo, &[("a", "1")]);
    assert!(matches!(merged_tree(&mut repo, good, bad), Err(Error::NoName)));
    assert!(merged_tree(&mut repo, bad, good).is_ok());
    let p = Pattern::new("*").unwrap();
    assert!(matches!(stripped(&mut repo, "", bad, &p, false, false), Err(Error::InvalidFilename)));
    let outer = repo.add_tree(vec![Entry { name: vec![255], mode: TREE_MODE, oid: good }]).unwrap();
    assert!(matches!(stripped(&mut repo, "", outer, &p, false, false), Err(Error::NoName)));
}

#[test]
fn the_first_name_that_is_no_text_is_told() {
    let mut repo = Repo::new();
    let x = repo.add_blob(b"x".to_vec());
    let good = tree_with(&mut repo, &[("a", "1")]);
    let p = Pattern::new("*").unwrap();
    let file = |name: Vec<u8>| Entry { name, mode: BLOB_MODE, oid: x };
    let dir = |name: Vec<u8>| Entry { name, mode: TREE_MODE, oid: good };
    let t = repo.add_tree(vec![dir(vec![254]), file(vec![255])]).unwrap();
    assert!(matches!(stripped(&mut repo, "", t, &p, false, false), Err(Error::NoName)));
    let t = repo.add_tree(vec![dir(vec![255]), file(vec![254])]).unwrap();
    assert!(matches!(stripped(&mut repo, "", t, &p, false, false), Err(Error::InvalidFilename)));
    let inner = repo.add_tree(vec![file(vec![255])]).unwrap();
    let t = repo
        .add_tree(vec![
            Entry { name: b"d".to_vec(), mode: TREE_MODE, oid: inner },
            Entry { name: vec![255], mode: TREE_MODE, oid: good },
        ])
        .unwrap();
    assert!(matches!(stripped(&mut repo, "", t, &p, false, false), Err(Error::InvalidFilename)));
    let link = repo.add_link(vec![1; 20]).unwrap();
    let t = repo.add_tree(vec![Entry { name: vec![255], mode: LINK_MODE, oid: link }]).unwrap();
    assert!(stripped(&mut repo, "", t, &p, false, false).is_ok());
}

#[test]
fn what_was_selected_is_remembered() {
    let mut repo = Repo::new();
    let t = tree_with(&mut repo, &[("a.rs", "1"), ("d/b.rs", "2"), ("d/c.txt", "3")]);
    let d = get_path(&repo, t, "d").unwrap();
    let p = Pattern::new("**/*.rs").unwrap();
    let mut memo = Memo::new();
    let r = striped_tree(&mut repo, "", t, &p, false, false, &mut memo).unwrap();
    assert_eq!(memo.get("", t), Some(r));
    let inner = memo.get("d", d).unwrap();
    assert_eq!(files(&repo, inner), vec!["b.rs:2"]);
    assert_eq!(memo.get("", d), None);
    let n = repo.count();
    let all = Pattern::new("*").unwrap();
    assert_eq!(striped_tree(&mut repo, "", t, &all, true, true, &mut memo).unwrap(), r);
    assert_eq!(repo.count(), n);
    let other = tree_with(&mut repo, &[("x", "9")]);
    let mut fresh = Memo::new();
    fresh.set("d", d, other);
    let r = striped_tree(&mut repo, "", t, &p, false, false, &mut fresh).unwrap();
    assert_eq!(files(&repo, r), vec!["a.rs:1", "d/x:9"]);
    assert_eq!(fresh.get("d", d), Some(other));
}

#[test]
fn only_trees_are_stripped() {
    let mut repo = Repo::new();
    let x = repo.add_blob(b"x".to_vec());
    let p = Pattern::new("*").unwrap();
    for o in [x, Oid::Zero, Oid::Object(99)] {
        assert!(matches!(stripped(&mut repo, "", o, &p, false, false), Err(Error::NotFound)));
    }
}

#[test]
fn ids_that_name_no_tree_are_not_merged() {
    let mut repo = Repo::new();
    let t = tree_with(&mut repo, &[("a", "1")]);
    let c = repo.add_commit(t, vec![], vec![]).unwrap();
    let e = repo.empty_tree();
    for o in [Oid::Zero, c, Oid::Object(99)] {
        assert_eq!(merged_tree(&mut repo, o, o).unwrap(), o);
        assert_eq!(merged_tree(&mut repo, o, e).unwrap(), o);
        assert_eq!(merged_tree(&mut repo, e, o).unwrap(), o);
        assert_eq!(merged_tree(&mut repo, o, t).unwrap(), o);
        assert_eq!(merged_tree(&mut repo, t, o).unwrap(), t);
    }
}

#[test]
fn commits_are_not_put_into_trees() {
    let mut repo = Repo::new();
    let t = tree_with(&mut repo, &[("a", "1"), ("d/b", "2")]);
    let c = repo.add_commit(t, vec![], vec![]).unwrap();
    assert_eq!(replace_child(&mut repo, b"a", c, t), t);
    assert_eq!(replace_child(&mut repo, b"new", c, t), t);
    assert_eq!(replace_subtree(&mut repo, "d/b", c, t).unwrap(), t);
    assert_eq!(replace_subtree(&mut repo, "x/y", c, t).unwrap(), t);
    let r = replace_subtree(&mut repo, "a/b", c, t).unwrap();
    assert_eq!(files(&repo, r), vec!["d/b:2"]);
}

#[test]
fn the_halves_of_a_tree_merge_to_it() {
    let mut repo = Repo::new();
    let t = tree_with(&mut repo, &[("a.rs", "1"), ("d/b.rs", "2"), ("d/c.txt", "3"), ("e/f.txt", "4")]);
    for (root, pattern) in [("", "**/*.rs"), ("d", "d/*.txt"), ("x/y", "x/y/d/*")] {
        let p = Pattern::new(pattern).unwrap();
        let k = stripped(&mut repo, root, t, &p, false, false).unwrap();
        let r = stripped(&mut repo, root, t, &p, true, false).unwrap();
        assert_eq!(merged_tree(&mut repo, k, r).unwrap(), t);
        assert_eq!(merged_tree(&mut repo, r, k).unwrap(), t);
        assert_eq!(files(&repo, k).len() + files(&repo, r).len(), 4);
    }
}

#[test]
fn trees_that_agree_are_merged_in_either_order() {
    let mut repo = Repo::new();
    let a = tree_with(&mut repo, &[("x", "1"), ("d/p", "2"), ("d/q/r", "3")]);
    let b = tree_with(&mut repo, &[("y", "4"), ("d/p", "2"), ("d/q/s", "5")]);
    let m = merged_tree(&mut repo, a, b).unwrap();
    assert_eq!(merged_tree(&mut repo, b, a).unwrap(), m);
    assert_eq!(files(&repo, m), vec!["d/p:2", "d/q/r:3", "d/q/s:5", "x:1", "y:4"]);
}

#[test]
fn files_are_selected_by_pattern() {
    let mut repo = Repo::new();
    let t = tree_with(&mut repo, &[("a.rs", "1"), ("b.txt", "2"), ("d/c.rs", "3"), ("d/e/f.rs", "4"), (".h.rs", "5")]);
    let top = Pattern::new("*.rs").unwrap();
    let r = stripped(&mut repo, "", t, &top, false, false).unwrap();
    assert_eq!(files(&repo, r), vec!["a.rs:1"]);
    let all = Pattern::new("**/*.rs").unwrap();
    let r = stripped(&mut repo, "", t, &all, false, false).unwrap();
    assert_eq!(files(&repo, r), vec!["a.rs:1", "d/c.rs:3", "d/e/f.rs:4"]);
    let rest = stripped(&mut repo, "", t, &all, true, false).unwrap();
    assert_eq!(files(&repo, rest), vec![".h.rs:5", "b.txt:2"]);
    assert_eq!(stripped(&mut repo, "", r, &all, false, false).unwrap(), r);
    let below = stripped(&mut repo, "d", t, &Pattern::new("d/*.rs").unwrap(), false, false).unwrap();
    assert_eq!(files(&repo, below), vec!["a.rs:1"]);
}

#[test]
fn directories_are_recorded() {
    let mut repo = Repo::new();
    let t = tree_with(&mut repo, &[("a/b/workspace.josh", "x"), ("c/y", "z")]);
    let p = Pattern::new("**/workspace.josh").unwrap();
    let r = stripped(&mut repo, "", t, &p, false, true).unwrap();
    assert_eq!(
        files(&repo, r),
        vec![
            "a/JOSH_ORIG_PATH_a:",
            "a/b/JOSH_ORIG_PATH_a%2Fb:",
            "a/b/workspace.josh:x",
            "c/JOSH_ORIG_PATH_c:"
        ]
    );
}

#[test]
fn links_are_left_out_of_a_selection() {
    let mut repo = Repo::new();
    let link = repo.add_link(vec![9; 20]).unwrap();
    let t = repo.add_tree(vec![Entry { name: b"sub".to_vec(), mode: LINK_MODE, oid: link }]).unwrap();
    let p = Pattern::new("*").unwrap();
    let r = stripped(&mut repo, "", t, &p, false, false).unwrap();
    assert!(repo.is_empty_tree(r));
}

#[test]
fn ids_are_those_of_git() {
    let mut repo = Repo::new();
    let hex = |repo: &Repo, o: Oid| hex_text(&git_id_of(repo, o).unwrap());
    let e = repo.empty_tree();
    assert_eq!(hex(&repo, e), "4b825dc642cb6eb9a060e54bf8d69288fbee4904");
    let b = repo.add_blob(vec![]);
    assert_eq!(hex(&repo, b), "e69de29bb2d1d6434b8b29ae775ad8c2e48c5391");
    let h = repo.add_blob(b"hello\n".to_vec());
    assert_eq!(hex(&repo, h), "ce013625030ba8dba906f756967f9e9ca394464a");
    let l = repo.add_link(vec![0xab; 20]).unwrap();
    assert_eq!(hex(&repo, l), "ab".repeat(20));
    assert_eq!(hex_text(&[0x0f, 0xa0]), "0fa0");
}

#[test]
fn the_id_of_a_tree_is_that_of_its_records() {
    let mut repo = Repo::new();
    let t = tree_with(&mut repo, &[("a", "1"), ("d/b", "2")]);
    let id = |kind: git2::ObjectType, data: &[u8]| git2::Oid::hash_object(kind, data).unwrap();
    let blob = git2::ObjectType::Blob;
    let tree = git2::ObjectType::Tree;
    let mut inner = b"100644 b\0".to_vec();
    inner.extend_from_slice(id(blob, b"2").as_bytes());
    let mut outer = b"100644 a\0".to_vec();
    outer.extend_from_slice(id(blob, b"1").as_bytes());
    outer.extend_from_slice(b"40000 d\0");
    outer.extend_from_slice(id(tree, &inner).as_bytes());
    assert_eq!(git_id_of(&repo, t).unwrap(), id(tree, &outer).as_bytes().to_vec());
    assert_eq!(tree_content(&repo, t).unwrap(), outer);
    let e = repo.empty_tree();
    assert!(tree_content(&repo, e).unwrap().is_empty());
}

#[test]
fn patterns_that_are_not_well_formed_are_refused() {
    assert!(matches!(Pattern::new("[a"), Err(Error::InvalidPattern)));
    assert!(matches!(Pattern::new("a**"), Err(Error::InvalidPattern)));
    let p = Pattern::new("a/*.x").unwrap();
    assert_eq!(p.as_str(), "a/*.x");
    assert!(p.hits("a/b.x"));
    assert!(!p.hits("a/b/c.x"));
    assert!(!p.hits("A/b.x"));
    assert!(p.hits("a/.x"));
    assert!(!Pattern::new("a/*").unwrap().hits("a/.x"));
}

#[test]
fn texts_are_searched_and_split() {
    assert_eq!(chars_of("a\u{e9}"), vec!['a', '\u{e9}']);
    assert_eq!(without_first("a:nop:nop", ":nop"), "a:nop");
    assert_eq!(without_first("abc", "x"), "abc");
    assert_eq!(replaced_all("a<colon>b<colon>", "<colon>", ":"), "a:b:");
    assert_eq!(trimmed_end("a,,", ','), "a");
    assert_eq!(trimmed_end(",,", ','), "");
    assert_eq!(pieces("a=b=c", '='), vec!["a", "b", "c"]);
    assert_eq!(pieces("", '='), vec![""]);
    assert!(same_text("x", "x") && !same_text("x", "y"));
    assert!(less(b"a", b"b") && less(b"a", b"aa") && !less(b"b", b"aa"));
    assert!(same(b"a", b"a") && !same(b"a", b"ab"));
}

#[test]
fn an_entry_is_replaced_in_a_list() {
    let e = |name: &[u8]| Entry { name: name.to_vec(), mode: BLOB_MODE, oid: Oid::Object(0) };
    let es = vec![e(b"a"), e(b"c")];
    let names = |v: Vec<Entry>| -> Vec<Vec<u8>> { v.into_iter().map(|e| e.name).collect() };
    assert_eq!(names(with_entry(&es, b"b", Some(e(b"b")))), vec![b"a", b"b", b"c"]);
    assert_eq!(names(with_entry(&es, b"a", None)), vec![b"c"]);
    assert_eq!(names(with_entry(&es, b"x", None)), vec![b"a", b"c"]);
}

#[test]
fn items_at_paths_that_part_are_put_in_either_order() {
    let mut repo = Repo::new();
    let t = tree_with(&mut repo, &[("a/b", "1")]);
    let x = repo.add_blob(b"x".to_vec());
    let l = replace_subtree(&mut repo, "a/c", x, t).unwrap();
    let l = replace_subtree(&mut repo, "a/b", Oid::Zero, l).unwrap();
    let r = replace_subtree(&mut repo, "a/b", Oid::Zero, t).unwrap();
    let r = replace_subtree(&mut repo, "a/c", x, r).unwrap();
    assert_eq!(l, r);
    assert_eq!(files(&repo, l), vec!["a/c:x"]);
}
