use josh_filters::apply::{combine_filter_from_ws, id_text_at, workspace_filter};
use josh_filters::arena::Oid;
use josh_filters::error::Error;
use josh_filters::filter::{build_chain, has_good_pattern, make_filter, subdir_filter_of, Filter};
use josh_filters::grammar::{
    build_combine_filter, has_good_mounts, has_good_patterns, parse, parse_file_entry, parse_item,
    try_build_combine_filter, try_parse, Item, MountLine,
};
use josh_filters::node::{BLOB_MODE, TREE_MODE};
use josh_filters::repo::{Entry, Object, Repo};
use josh_filters::tree::{get_path, replace_subtree};
use josh_filters::values::{kvargs, Values};

fn tree_with(repo: &mut Repo, files: &[(&str, &str)]) -> Oid {
    let mut tree = repo.empty_tree();
    for (path, content) in files {
        let blob = repo.add_blob(content.as_bytes().to_vec());
        tree = replace_subtree(repo, path, blob, tree).unwrap();
    }
    tree
}

fn files_below(repo: &Repo, tree: Oid, root: &str, out: &mut Vec<String>) {
    for e in repo.entries(tree) {
        let name = String::from_utf8_lossy(&e.name).to_string();
        let path = if root.is_empty() { name } else { format!("{}/{}", root, name) };
        match repo.object(e.oid) {
            Some(Object::Tree(_)) => files_below(repo, e.oid, &path, out),
            Some(Object::Blob(data)) => {
                out.push(format!("{}:{}", path, String::from_utf8_lossy(data)))
            }
            _ => out.push(format!("{}@", path)),
        }
    }
}

fn files(repo: &Repo, tree: Oid) -> Vec<String> {
    let mut out = vec![];
    files_below(repo, tree, "", &mut out);
    out
}

fn applied(text: &str, given: &[(&str, &str)]) -> Vec<String> {
    let mut repo = Repo::new();
    let t = tree_with(&mut repo, given);
    let r = parse(text).unwrap().apply_to_tree(&mut repo, t).unwrap();
    files(&repo, r)
}

fn unapplied(text: &str, tree: &[(&str, &str)], parent: &[(&str, &str)]) -> Vec<String> {
    let mut repo = Repo::new();
    let t = tree_with(&mut repo, tree);
    let p = tree_with(&mut repo, parent);
    let r = parse(text).unwrap().unapply(&mut repo, t, p).unwrap();
    files(&repo, r)
}

fn pairs(values: &Values) -> Vec<(String, String)> {
    (0..values.len())
        .map(|i| (values.pair(i).key.clone(), values.pair(i).value.clone()))
        .collect()
}

fn owned(pairs: &[(&str, &str)]) -> Vec<(String, String)> {
    pairs.iter().map(|(k, v)| (k.to_string(), v.to_string())).collect()
}

#[test]
fn arguments_make_a_table() {
    assert_eq!(pairs(&kvargs(&[])), owned(&[]));
    assert_eq!(pairs(&kvargs(&["b=2", "a=1"])), owned(&[("a", "1"), ("b", "2")]));
    assert_eq!(pairs(&kvargs(&["a=1", "a=2"])), owned(&[("a", "2")]));
    assert_eq!(pairs(&kvargs(&["x/y"])), owned(&[("prefix", "x/y")]));
    assert_eq!(pairs(&kvargs(&["a=b=c", "="])), owned(&[("", "")]));
    assert_eq!(pairs(&kvargs(&[""])), owned(&[("prefix", "")]));
}

#[test]
fn a_table_keeps_its_order() {
    let mut v = Values::new();
    v.insert("m", "1");
    v.insert("z", "2");
    v.insert("a", "3");
    v.insert("m", "4");
    assert_eq!(pairs(&v), owned(&[("a", "3"), ("m", "4"), ("z", "2")]));
    assert_eq!(v.get("m"), Some("4"));
    assert_eq!(v.get("q"), None);
}

#[test]
fn texts_of_filters_are_read_as_they_are_written() {
    for text in [
        ":nop", ":empty", ":DIRS", ":FOLD", ":/a", ":/a:/b", ":prefix=x/y", ":hide=a/b", ":glob=*.rs",
        ":~glob=**/*.rs", ":workspace=ws", ":CUTOFF=v1", ":INFO=a=1,prefix=x", ":/a:prefix=b:hide=c",
    ] {
        assert_eq!(parse(text).unwrap().filter_spec(), text);
    }
}

#[test]
fn other_ways_to_write_filters() {
    assert_eq!(parse("").unwrap().filter_spec(), ":nop");
    assert_eq!(parse(":/a/b").unwrap().filter_spec(), ":/a:/b");
    assert_eq!(parse("!/a").unwrap().filter_spec(), ":/a");
    assert_eq!(parse(":+=x").unwrap().filter_spec(), ":prefix=x");
    assert_eq!(parse("!+/x/y").unwrap().filter_spec(), ":prefix=x/y");
    assert_eq!(parse(":=a").unwrap().filter_spec(), ":/a");
    assert_eq!(parse(":/a,b").unwrap().filter_spec(), ":empty");
    assert_eq!(parse(":nop:/a").unwrap().filter_spec(), ":/a");
    assert_eq!(parse(":unknown").unwrap().filter_spec(), ":empty");
    assert_eq!(parse(":prefix=a,b").unwrap().filter_spec(), ":empty");
    assert_eq!(parse(":").unwrap().filter_spec(), ":nop");
    assert_eq!(parse(":/a b").unwrap().filter_spec(), ":/a");
    assert_eq!(parse(":/").unwrap().filter_spec(), ":nop");
    assert_eq!(parse(":INFO").unwrap().filter_spec(), ":INFO=");
}

#[test]
fn a_filter_is_made_of_a_name_and_arguments() {
    let text = |args: &[&str]| make_filter(args).filter_spec();
    assert_eq!(text(&["", "a/b"]), ":/a:/b");
    assert_eq!(text(&["", ""]), ":nop");
    assert_eq!(text(&["empty"]), ":empty");
    assert_eq!(text(&["nop"]), ":nop");
    assert_eq!(text(&["prefix", "p"]), ":prefix=p");
    assert_eq!(text(&["+", "p"]), ":prefix=p");
    assert_eq!(text(&["hide", "p"]), ":hide=p");
    assert_eq!(text(&["~glob", "*"]), ":~glob=*");
    assert_eq!(text(&["glob", "*"]), ":glob=*");
    assert_eq!(text(&["workspace", "w"]), ":workspace=w");
    assert_eq!(text(&["INFO", "b=2", "a=1"]), ":INFO=a=1,b=2");
    assert_eq!(text(&["CUTOFF", "n"]), ":CUTOFF=n");
    assert_eq!(text(&["DIRS"]), ":DIRS");
    assert_eq!(text(&["FOLD"]), ":FOLD");
    assert_eq!(text(&[]), ":empty");
    assert_eq!(text(&["hide"]), ":empty");
    assert!(!has_good_pattern(&["glob", "["]) && !has_good_pattern(&["~glob", "a**"]));
    assert!(has_good_pattern(&["glob", "*"]) && has_good_pattern(&["hide", "["]));
    assert!(has_good_pattern(&["glob", "[", "["]) && has_good_pattern(&[]));
    let item = Item { args: vec!["hide".to_string(), "x".to_string()] };
    assert_eq!(parse_item(&item).filter_spec(), ":hide=x");
}

#[test]
fn patterns_are_tested_before_a_text_is_read() {
    assert!(!has_good_patterns(":glob=["));
    assert!(!has_good_patterns("a = :glob=[\n"));
    assert!(has_good_patterns(":glob=*"));
    assert!(has_good_patterns("a = b"));
    assert!(matches!(try_parse(":/a:glob=["), Err(Error::InvalidPattern)));
    assert_eq!(try_parse(":/a:glob=*").unwrap().filter_spec(), ":/a:glob=*");
    assert!(has_good_patterns("a = :glob=[\nno mount"));
    assert!(!has_good_mounts("a = :glob=[\n"));
    assert!(has_good_mounts("") && has_good_mounts("a = :glob=*\nb"));
    let base = || Box::new(Filter::Nop);
    assert!(matches!(try_build_combine_filter("a = :glob=[", base()), Err(Error::InvalidPattern)));
    assert!(matches!(try_build_combine_filter("a b", base()), Err(Error::InvalidWorkspace(_))));
    assert_eq!(try_build_combine_filter("a", base()).unwrap().text(), "/ = :nop\na = :/a");
}

#[test]
fn a_list_of_mounts_is_a_combination() {
    let f = parse("a = :/x/y\n\n  b/c  \nd=\n").unwrap();
    assert_eq!(f.filter_spec(), "/ = :empty\na = :/x:/y\nb/c = :/b:/c\nd = :nop");
    let table = f.prefixes();
    assert_eq!(pairs(&table), owned(&[("a", ":/x:/y"), ("b/c", ":/b:/c"), ("d", ":nop")]));
    assert_eq!(pairs(&parse(":nop").unwrap().prefixes()), owned(&[]));
}

#[test]
fn texts_that_are_no_list_of_mounts_are_refused() {
    for text in ["a b", "a = b", "a = :/x y", "= :/x", "a :/x", "a = :/x\n, = :/y"] {
        match parse(text) {
            Err(Error::InvalidWorkspace(t)) => assert_eq!(t, text),
            _ => panic!("{}", text),
        }
    }
}

#[test]
fn mounts_are_added_to_a_combination() {
    let mut c = build_combine_filter("a = :/x\n", Box::new(Filter::Nop)).unwrap();
    let line = MountLine { path: "b".to_string(), filter: None };
    parse_file_entry(&line, &mut c).unwrap();
    assert_eq!(c.text(), "/ = :nop\na = :/x\nb = :/b");
    assert_eq!(c.mounts[0].text(), "a = :/x");
    let line = MountLine { path: "c".to_string(), filter: Some("=".to_string()) };
    match parse_file_entry(&line, &mut c) {
        Err(Error::InvalidWorkspace(t)) => assert_eq!(t, "="),
        _ => panic!("a mount that cannot be read"),
    }
    assert_eq!(c.mounts.len(), 2);
    let line = MountLine { path: "c".to_string(), filter: Some("d = :/e".to_string()) };
    parse_file_entry(&line, &mut c).unwrap();
    assert_eq!(c.mounts[2].text(), "c = / = :empty\nd = :/e");
    let line = MountLine { path: "c".to_string(), filter: Some("".to_string()) };
    parse_file_entry(&line, &mut c).unwrap();
    assert_eq!(c.mounts[3].text(), "c = :nop");
}

#[test]
fn chains_are_written_one_after_the_other() {
    let f = build_chain(parse(":/a").unwrap(), parse(":prefix=b").unwrap());
    assert_eq!(f.filter_spec(), ":/a:prefix=b");
    let f = build_chain(parse(":nop").unwrap(), parse(":/a").unwrap());
    assert_eq!(f.filter_spec(), ":/a");
    assert_eq!(subdir_filter_of("/a").filter_spec(), ":/" .to_string() + "/" + ":/a");
    assert_eq!(subdir_filter_of("").filter_spec(), ":nop");
}

#[test]
fn nothing_and_everything() {
    let given = [("a", "1"), ("d/b", "2")];
    assert_eq!(applied(":nop", &given), vec!["a:1", "d/b:2"]);
    assert!(applied(":empty", &given).is_empty());
    assert!(applied(":FOLD", &given).is_empty());
    assert_eq!(applied(":CUTOFF=x", &given), vec!["a:1", "d/b:2"]);
    assert_eq!(unapplied(":nop", &[("x", "1")], &given), vec!["x:1"]);
    assert_eq!(unapplied(":empty", &[("x", "1")], &given), vec!["a:1", "d/b:2"]);
}

#[test]
fn a_directory_is_taken_out_and_put_back() {
    let given = [("a/b/c", "1"), ("a/d", "2"), ("e", "3")];
    assert_eq!(applied(":/a", &given), vec!["b/c:1", "d:2"]);
    assert_eq!(applied(":/a/b", &given), vec!["c:1"]);
    assert!(applied(":/e", &given).is_empty());
    assert!(applied(":/x", &given).is_empty());
    assert_eq!(unapplied(":/a/b", &[("n", "9")], &given), vec!["a/b/n:9", "a/d:2", "e:3"]);
    assert_eq!(unapplied(":/x/y", &[("n", "9")], &given), vec!["a/b/c:1", "a/d:2", "e:3", "x/y/n:9"]);
    assert_eq!(unapplied(":/a", &[], &given), vec!["e:3"]);
}

/// A tree with an entry `.git`, which cannot be added, that holds `c`, and with `rest`.
fn tree_with_git(repo: &mut Repo, rest: &[(&str, &str)]) -> Oid {
    let inner = tree_with(repo, &[("c", "0")]);
    let t = tree_with(repo, rest);
    let mut entries = repo.entries(t);
    entries.push(Entry { name: b".git".to_vec(), mode: TREE_MODE, oid: inner });
    repo.add_tree(entries).unwrap()
}

#[test]
fn the_directory_at_a_path_goes_round_whatever_its_names() {
    let mut repo = Repo::new();
    let p = tree_with_git(&mut repo, &[("a/b/x", "1"), ("a/y", "2")]);
    let t = tree_with(&mut repo, &[("n", "9")]);
    for path in ["a", "a/b", "a/b/", "q", "q/r/", ".git", ".git/", ".git/e", "a/.git"] {
        let f = subdir_filter_of(path);
        let got = f.apply_to_tree(&mut repo, p).unwrap();
        let want = josh_filters::tree::subtree_or_empty(&mut repo, p, path);
        assert_eq!(got, want, "{}", path);
        let got = f.unapply(&mut repo, t, p).unwrap();
        let want = replace_subtree(&mut repo, path, t, p).unwrap();
        assert_eq!(got, want, "{}", path);
    }
    let f = subdir_filter_of("a/");
    let got = f.unapply(&mut repo, t, p).unwrap();
    assert_eq!(replace_subtree(&mut repo, "a/", t, p).unwrap(), p);
    assert_eq!(got, replace_subtree(&mut repo, "a", t, p).unwrap());
}

#[test]
fn a_prefix_is_added_and_taken_off() {
    let given = [("c", "1")];
    assert_eq!(applied(":prefix=a/b", &given), vec!["a/b/c:1"]);
    assert_eq!(applied(":prefix=a/b:/a/b", &given), vec!["c:1"]);
    assert_eq!(unapplied(":prefix=a/b", &[("a/b/c", "1"), ("x", "2")], &[("y", "3")]), vec!["c:1"]);
    assert!(applied(":prefix=.git", &given).is_empty());
    let mut repo = Repo::new();
    let t = tree_with(&mut repo, &given);
    assert!(matches!(parse(":prefix=").unwrap().apply_to_tree(&mut repo, t), Err(Error::FileName)));
}

#[test]
fn what_is_hidden_comes_back() {
    let given = [("a/b", "1"), ("a/c", "2"), ("d", "3")];
    assert_eq!(applied(":hide=a/b", &given), vec!["a/c:2", "d:3"]);
    assert_eq!(applied(":hide=a", &given), vec!["d:3"]);
    assert_eq!(unapplied(":hide=a/b", &[("a/c", "9")], &given), vec!["a/b:1", "a/c:9"]);
    assert_eq!(unapplied(":hide=x", &[("a/c", "9")], &given), vec!["a/c:9"]);
    assert_eq!(unapplied(":hide=a", &[("d", "3")], &given), vec!["a/b:1", "a/c:2", "d:3"]);
}

#[test]
fn what_is_hidden_comes_back_and_the_rest_stays() {
    let mut repo = Repo::new();
    let p = tree_with_git(&mut repo, &[("a/b", "1"), ("a/y", "2")]);
    let t = tree_with_git(&mut repo, &[("a/b", "7"), ("a/z", "3"), ("q", "4")]);
    let f = parse(":hide=a/b").unwrap();
    let r = f.unapply(&mut repo, t, p).unwrap();
    assert_eq!(files(&repo, r), vec![".git/c:0", "a/b:1", "a/z:3", "q:4"]);
    let g = f.apply_to_tree(&mut repo, p).unwrap();
    assert_eq!(files(&repo, g), vec![".git/c:0", "a/y:2"]);
    assert_eq!(f.unapply(&mut repo, g, p).unwrap(), p);
}

#[test]
fn a_selection_goes_round_where_the_rest_stays() {
    let mut repo = Repo::new();
    for text in [":glob=a", ":~glob=a", ":glob=d/*", ":glob=zzz"] {
        let p = tree_with_git(&mut repo, &[("a", "1"), ("b", "2"), ("d/e", "3")]);
        let f = parse(text).unwrap();
        let t = f.apply_to_tree(&mut repo, p).unwrap();
        assert_eq!(f.unapply(&mut repo, t, p).unwrap(), p, "{}", text);
    }
    let d = tree_with_git(&mut repo, &[("a", "1")]);
    let p = repo.add_tree(vec![Entry { name: b"d".to_vec(), mode: TREE_MODE, oid: d }]).unwrap();
    let f = parse(":glob=d/a").unwrap();
    let t = f.apply_to_tree(&mut repo, p).unwrap();
    let r = f.unapply(&mut repo, t, p).unwrap();
    assert_eq!(files(&repo, r), vec!["d/a:1"]);
    let f = parse(":glob=x").unwrap();
    let t = f.apply_to_tree(&mut repo, p).unwrap();
    assert_eq!(f.unapply(&mut repo, t, p).unwrap(), p);
}

#[test]
fn files_are_kept_by_pattern() {
    let given = [("a.rs", "1"), ("d/b.rs", "2"), ("d/c.txt", "3")];
    assert_eq!(applied(":glob=**/*.rs", &given), vec!["a.rs:1", "d/b.rs:2"]);
    assert_eq!(applied(":~glob=**/*.rs", &given), vec!["d/c.txt:3"]);
    assert_eq!(applied(":glob=**/*.rs:glob=**/*.rs", &given), vec!["a.rs:1", "d/b.rs:2"]);
    assert_eq!(
        unapplied(":glob=**/*.rs", &[("a.rs", "1"), ("d/b.rs", "2")], &given),
        vec!["a.rs:1", "d/b.rs:2", "d/c.txt:3"]
    );
    assert_eq!(
        unapplied(":glob=**/*.rs", &[("a.rs", "8"), ("n.rs", "9"), ("n.txt", "0")], &given),
        vec!["a.rs:8", "d/b.rs:2", "d/c.txt:3", "n.rs:9"]
    );
}

#[test]
fn workspace_files_and_places_are_kept() {
    let given = [("a/workspace.josh", "x"), ("b", "1")];
    assert_eq!(applied(":DIRS", &given), vec!["a/JOSH_ORIG_PATH_a:", "a/workspace.josh:x"]);
}

#[test]
fn some_filters_have_no_inverse() {
    let mut repo = Repo::new();
    let t = tree_with(&mut repo, &[("a", "1")]);
    for text in [":DIRS", ":FOLD", ":CUTOFF=x", ":INFO=prefix=a"] {
        match parse(text).unwrap().unapply(&mut repo, t, t) {
            Err(Error::NotReversible(s)) => assert_eq!(s, text),
            _ => panic!("{}", text),
        }
    }
    assert!(matches!(
        parse(":/a:FOLD").unwrap().unapply(&mut repo, t, t),
        Err(Error::NotReversible(_))
    ));
}

#[test]
fn an_info_file_is_written() {
    let given = [("a/b", "hello\n"), ("c", "1")];
    assert_eq!(
        applied(":INFO=prefix=a,commit=x<colon>y<comma>z,who=me", &given),
        vec!["a/.joshinfo:commit: x:y,z\nwho: me\n", "a/b:hello\n", "c:1"]
    );
    assert_eq!(
        applied(":INFO=prefix=a/b,id=#tree", &given)[0..1],
        vec!["a/b/.joshinfo:id: ce013625030ba8dba906f756967f9e9ca394464a\n"][..]
    );
    assert_eq!(
        applied(":INFO=prefix=n,id=#tree", &given)[2],
        format!("n/.joshinfo:id: {}\n", "0".repeat(40))
    );
    assert_eq!(applied(":INFO=a=1,", &given)[0], ".joshinfo:a: 1\n");
}

#[test]
fn an_info_file_needs_a_place() {
    let mut repo = Repo::new();
    let t = tree_with(&mut repo, &[("a", "1")]);
    for text in [":INFO=a=1", ":INFO=a=#tree", ":INFO"] {
        assert!(matches!(
            parse(text).unwrap().apply_to_tree(&mut repo, t),
            Err(Error::MissingPrefix)
        ));
    }
    assert_eq!(id_text_at(&repo, t, "a").unwrap(), "56a6051ca2b02b04ef92d5150c9ef600403cb1de");
}

#[test]
fn chains_work_from_left_to_right() {
    let given = [("a/b/c", "1"), ("a/d", "2")];
    assert_eq!(applied(":/a:/b:prefix=x", &given), vec!["x/c:1"]);
    assert_eq!(applied(":nop:/a", &given), applied(":/a", &given));
    assert_eq!(
        unapplied(":/a:/b:prefix=x", &[("x/c", "7")], &given),
        vec!["a/b/c:7", "a/d:2"]
    );
    let mut repo = Repo::new();
    let t = tree_with(&mut repo, &given);
    let left = build_chain(build_chain(parse(":/a").unwrap(), parse(":/b").unwrap()), parse(":prefix=x").unwrap());
    let right = build_chain(parse(":/a").unwrap(), build_chain(parse(":/b").unwrap(), parse(":prefix=x").unwrap()));
    assert_eq!(
        left.apply_to_tree(&mut repo, t).unwrap(),
        right.apply_to_tree(&mut repo, t).unwrap()
    );
    assert!(matches!(
        parse(":prefix=:/a").unwrap().apply_to_tree(&mut repo, t),
        Err(Error::FileName)
    ));
}

#[test]
fn a_combination_mounts_what_its_filters_give() {
    let given = [("x/f", "1"), ("y/g", "2"), ("z", "3")];
    assert_eq!(applied("a = :/x\nb/c = :/y\nd = :/none\n", &given), vec!["a/f:1", "b/c/g:2"]);
    assert_eq!(
        unapplied("a = :/x\nb/c = :/y\n", &[("a/f", "7"), ("b/c/n", "8"), ("lost", "9")], &given),
        vec!["x/f:7", "y/n:8", "z:3"]
    );
    let mut repo = Repo::new();
    let t = tree_with(&mut repo, &[("a", "file")]);
    assert!(matches!(
        parse("a = :/x\n").unwrap().unapply(&mut repo, t, t),
        Err(Error::NotFound)
    ));
}

#[test]
fn a_workspace_is_described_in_the_tree() {
    let given = [("ws/workspace.josh", "lib = :/x\n"), ("ws/own", "0"), ("x/f", "1"), ("y", "2")];
    assert_eq!(
        applied(":workspace=ws", &given),
        vec!["lib/f:1", "own:0", "workspace.josh:lib = :/x\n"]
    );
    assert_eq!(
        unapplied(
            ":workspace=ws",
            &[("workspace.josh", "lib = :/x\n"), ("own", "5"), ("lib/f", "6")],
            &given
        ),
        vec!["ws/own:5", "ws/workspace.josh:lib = :/x\n", "x/f:6", "y:2"]
    );
}

#[test]
fn a_workspace_without_a_file_is_a_directory() {
    assert_eq!(applied(":workspace=ws", &[("ws/a", "1"), ("b", "2")]), vec!["a:1"]);
    assert_eq!(
        applied(":workspace=ws", &[("ws/workspace.josh", "no list at all"), ("b", "2")]),
        vec!["workspace.josh:no list at all"]
    );
    let mut repo = Repo::new();
    let t = tree_with(&mut repo, &[("workspace.josh", "no list"), ("b", "2")]);
    assert!(matches!(
        parse(":workspace=ws").unwrap().unapply(&mut repo, t, t),
        Err(Error::InvalidWorkspace(_))
    ));
    let data = repo.add_blob(vec![255, 254]);
    let t = repo
        .add_tree(vec![Entry { name: b"workspace.josh".to_vec(), mode: BLOB_MODE, oid: data }])
        .unwrap();
    assert_eq!(combine_filter_from_ws(&repo, t, "").unwrap().text(), "/ = :nop");
}

#[test]
fn a_bad_pattern_in_a_workspace_is_an_error() {
    let mut repo = Repo::new();
    let t = tree_with(&mut repo, &[("workspace.josh", "a = :glob=[\n")]);
    assert!(matches!(workspace_filter(&repo, t, ""), Err(Error::InvalidPattern)));
    assert!(matches!(
        parse(":workspace=").unwrap().apply_to_tree(&mut repo, t),
        Err(Error::InvalidPattern)
    ));
}

#[test]
fn workspaces_in_workspaces_end() {
    let given = [("ws/workspace.josh", "again = :workspace=ws\n")];
    let mut repo = Repo::new();
    let t = tree_with(&mut repo, &given);
    let f = parse(":workspace=ws").unwrap();
    assert!(matches!(f.apply_within(&mut repo, t, 3), Err(Error::TooDeep)));
    assert!(matches!(f.unapply_within(&mut repo, t, t, 0), Err(Error::TooDeep)));
}

#[test]
fn a_deeper_limit_changes_nothing() {
    let mut repo = Repo::new();
    let t = tree_with(
        &mut repo,
        &[("ws/workspace.josh", "in = :workspace=v\n"), ("v/workspace.josh", "f = :/x\n"), ("x/y", "1")],
    );
    let f = parse(":workspace=ws").unwrap();
    assert!(matches!(f.apply_within(&mut repo, t, 1), Err(Error::TooDeep)));
    let r = f.apply_within(&mut repo, t, 2).unwrap();
    assert!(get_path(&repo, r, "in/f/y").is_some());
    assert_eq!(f.apply_within(&mut repo, t, 3).unwrap(), r);
    assert_eq!(f.apply_to_tree(&mut repo, t).unwrap(), r);
    let u = f.unapply_within(&mut repo, r, t, 2).unwrap();
    assert_eq!(f.unapply(&mut repo, r, t).unwrap(), u);
}

#[test]
fn a_change_in_a_workspace_without_a_file_goes_to_its_directory() {
    let parent = [("ws/a", "1"), ("b", "2")];
    assert_eq!(unapplied(":workspace=ws", &[("n", "9")], &parent), vec!["b:2", "ws/n:9"]);
    let mut repo = Repo::new();
    let p = tree_with(&mut repo, &parent);
    let t = tree_with(&mut repo, &[("n", "9")]);
    let f = parse(":workspace=ws").unwrap();
    let x = f.unapply(&mut repo, t, p).unwrap();
    assert_eq!(f.apply_to_tree(&mut repo, x).unwrap(), t);
}

#[test]
fn a_combination_over_nothing_goes_round() {
    let mut repo = Repo::new();
    let d = tree_with(&mut repo, &[("x/f.rs", "1"), ("x/g", "2"), ("y/h", "3")]);
    let f = parse("a = :/x:glob=*.rs\nb/c = :hide=x\nd = :/none\n").unwrap();
    let t = f.apply_to_tree(&mut repo, d).unwrap();
    assert_eq!(files(&repo, t), vec!["a/f.rs:1", "b/c/y/h:3"]);
    assert_eq!(f.unapply(&mut repo, t, d).unwrap(), d);
}

#[test]
fn a_combination_over_nothing_goes_round_past_refused_names() {
    let mut repo = Repo::new();
    let p = tree_with_git(&mut repo, &[("x/f", "1"), ("y/g", "2"), ("z", "3")]);
    let f = parse(".git = :/x\nq/.git = :/y\nm/n = :/y\no = :/.git\n").unwrap();
    let t = f.apply_to_tree(&mut repo, p).unwrap();
    assert_eq!(files(&repo, t), vec!["m/n/g:2", "o/c:0"]);
    let g = parse(".git = :/x\nm/n = :/y\n").unwrap();
    let t = g.apply_to_tree(&mut repo, p).unwrap();
    assert_eq!(files(&repo, t), vec!["m/n/g:2"]);
    assert_eq!(g.unapply(&mut repo, t, p).unwrap(), p);
    let h = parse("m/n/ = :/y\no/ = :/x\n").unwrap();
    let t = h.apply_to_tree(&mut repo, p).unwrap();
    assert_eq!(files(&repo, t), vec!["m/n/g:2"]);
    assert_eq!(h.unapply(&mut repo, t, p).unwrap(), p);
    let k = parse("m//n = :/y\no/./q = :/x\nr// = :/x\n").unwrap();
    let t = k.apply_to_tree(&mut repo, p).unwrap();
    assert_eq!(files(&repo, t), vec!["m/n/g:2", "o/q/f:1"]);
    assert_eq!(k.unapply(&mut repo, t, p).unwrap(), p);
}

#[test]
fn the_directory_at_a_path_is_found_by_its_components() {
    let mut repo = Repo::new();
    let p = tree_with(&mut repo, &[("a/b/c/x", "1"), ("a/b/y", "2"), ("z", "3")]);
    let t = tree_with(&mut repo, &[("n", "9")]);
    for path in ["a/b/c", "a//b/c", "a/b//c/", "a/./b/c", "a/b/c/."] {
        let f = subdir_filter_of(path);
        assert_eq!(f.filter_spec(), ":/a:/b:/c", "{}", path);
        let got = f.apply_to_tree(&mut repo, p).unwrap();
        assert_eq!(files(&repo, got), vec!["x:1"], "{}", path);
        let got = f.unapply(&mut repo, t, p).unwrap();
        assert_eq!(files(&repo, got), vec!["a/b/c/n:9", "a/b/y:2", "z:3"], "{}", path);
    }
    let r = replace_subtree(&mut repo, "a//b/c", t, p).unwrap();
    assert_eq!(files(&repo, r), vec!["a/b/c/n:9", "z:3"]);
}

#[test]
fn two_rows_do_what_a_chain_does() {
    let mut repo = Repo::new();
    let d = tree_with(&mut repo, &[("a/b/c", "1"), ("a/d", "2"), ("e", "3")]);
    let t = tree_with(&mut repo, &[("x/n", "9")]);
    for (s, u) in [(":/a", ":/b:prefix=x"), (":nop", ":prefix=x"), (":/a:hide=d", ":prefix=x")] {
        let whole = parse(&format!("{}{}", s, u)).unwrap();
        let chain = build_chain(parse(s).unwrap(), parse(u).unwrap());
        assert_eq!(
            whole.apply_to_tree(&mut repo, d).unwrap(),
            chain.apply_to_tree(&mut repo, d).unwrap()
        );
        assert_eq!(
            whole.unapply(&mut repo, t, d).unwrap(),
            chain.unapply(&mut repo, t, d).unwrap()
        );
    }
}

#[test]
fn a_pattern_selects_the_same_files_again() {
    let mut repo = Repo::new();
    let t = tree_with(&mut repo, &[("a.rs", "1"), ("d/b.rs", "2"), ("d/c.txt", "3")]);
    let f = parse(":glob=**/*.rs").unwrap();
    let g = parse(":~glob=**/*.rs").unwrap();
    let r = f.apply_to_tree(&mut repo, t).unwrap();
    let n = repo.count();
    assert_eq!(f.apply_to_tree(&mut repo, t).unwrap(), r);
    assert_eq!(repo.count(), n);
    let s = g.apply_to_tree(&mut repo, t).unwrap();
    assert_eq!(files(&repo, s), vec!["d/c.txt:3"]);
    let d = get_path(&repo, t, "d").unwrap();
    let r = f.apply_to_tree(&mut repo, d).unwrap();
    assert_eq!(files(&repo, r), vec!["b.rs:2"]);
}

#[test]
fn a_workspace_goes_round() {
    let ws = "lib = :/x\nmore/y = :/y\n";
    let mut repo = Repo::new();
    let d = tree_with(
        &mut repo,
        &[("ws/workspace.josh", ws), ("ws/own", "0"), ("x/f", "1"), ("y/g", "2"), ("z", "3")],
    );
    let f = parse(":workspace=ws").unwrap();
    let t = f.apply_to_tree(&mut repo, d).unwrap();
    assert_eq!(f.unapply(&mut repo, t, d).unwrap(), d);
    let changed = tree_with(
        &mut repo,
        &[("workspace.josh", ws), ("own", "7"), ("new", "8"), ("lib/f", "9"), ("more/y/h", "0")],
    );
    let x = f.unapply(&mut repo, changed, d).unwrap();
    assert_eq!(f.apply_to_tree(&mut repo, x).unwrap(), changed);
    assert!(get_path(&repo, x, "z").is_some());
}

#[test]
fn a_combination_goes_round() {
    let mut repo = Repo::new();
    let d = tree_with(&mut repo, &[("home/a", "1"), ("x/f", "2"), ("y/g", "3"), ("z", "4")]);
    let c = build_combine_filter("p = :/x\nq/r = :/y\n", parse(":/home").unwrap()).unwrap();
    let f = Filter::Combine(c);
    let t = f.apply_to_tree(&mut repo, d).unwrap();
    assert_eq!(files(&repo, t), vec!["a:1", "p/f:2", "q/r/g:3"]);
    assert_eq!(f.unapply(&mut repo, t, d).unwrap(), d);
    let changed = tree_with(&mut repo, &[("b", "5"), ("p/f", "6"), ("q/r/h", "7")]);
    let x = f.unapply(&mut repo, changed, d).unwrap();
    assert_eq!(files(&repo, x), vec!["home/b:5", "x/f:6", "y/h:7", "z:4"]);
    assert_eq!(f.apply_to_tree(&mut repo, x).unwrap(), changed);
}

#[test]
fn taking_back_what_was_given_changes_nothing() {
    let mut repo = Repo::new();
    let d = tree_with(&mut repo, &[("a/b/c.rs", "1"), ("a/d", "2"), ("e.rs", "3")]);
    for text in [":nop", ":/a", ":/a/b", ":/none/at/all", ":hide=a/b", ":hide=none", ":glob=**/*.rs", ":~glob=*", ":/a:hide=d"] {
        let f = parse(text).unwrap();
        let t = f.apply_to_tree(&mut repo, d).unwrap();
        assert_eq!(f.unapply(&mut repo, t, d).unwrap(), d, "{}", text);
    }
}

#[test]
fn giving_again_what_was_taken_back_changes_nothing() {
    let mut repo = Repo::new();
    let d = tree_with(&mut repo, &[("a/b/c", "1"), ("a/d", "2"), ("e", "3")]);
    let t = tree_with(&mut repo, &[("n/m", "7"), ("o", "8")]);
    for text in [":nop", ":/a", ":/a/b", ":/x/y/z", ":hide=e", ":/a:/b"] {
        let f = parse(text).unwrap();
        let x = f.unapply(&mut repo, t, d).unwrap();
        assert_eq!(f.apply_to_tree(&mut repo, x).unwrap(), t, "{}", text);
    }
    let f = parse(":prefix=a/b").unwrap();
    let moved = f.apply_to_tree(&mut repo, t).unwrap();
    assert_eq!(f.unapply(&mut repo, moved, d).unwrap(), t);
}

#[test]
fn the_mounts_of_a_combination_are_read_again() {
    let text = "a = :/x:hide=y\nb/c = :prefix=q\nd = :INFO=k=v,prefix=p\n";
    let c = build_combine_filter(text, Box::new(Filter::Empty)).unwrap();
    let lines: Vec<String> = c.mounts.iter().map(|m| m.text() + "\n").collect();
    assert_eq!(lines.concat(), text);
}
