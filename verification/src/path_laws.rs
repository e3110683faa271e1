//! What holds of reading and replacing what stands at a path.

use crate::error::ErrorView;
use crate::node::{
    child, dir_or_empty, dot_git, empty_dir, git_short, is_hfs_git, lemma_hfs_start, lower, name_ok,
    plain, put_child, starts_ignoring_case, BLOB_MODE, Dir, Node, Rules,
};
use crate::path::{
    components, components_from, join, lemma_components, lemma_components_from, lookup, replace_at,
    subdir, walk, ComponentView,
};
use crate::text::{lemma_next, next, split, split_from};
use vstd::prelude::*;
use vstd::utf8::{encode_utf8, encode_utf8_decode_utf8, is_ascii_chars, is_ascii_chars_encode_utf8};

verus! {

/// A text that an entry of a tree may be called.
pub open spec fn good_name(rules: Rules, name: Seq<char>) -> bool {
    name.len() > 0 && name != seq!['.'] && name != seq!['.', '.'] && name_ok(
        rules,
        encode_utf8(name),
    )
}

/// All names are good.
pub open spec fn good_names(rules: Rules, names: Seq<Seq<char>>) -> bool {
    names.len() > 0 && forall|i: int| 0 <= i < names.len() ==> good_name(rules, #[trigger] names[i])
}

/// A text that names something: neither nothing nor a way to where one is, or above it.
pub open spec fn normal_name(name: Seq<char>) -> bool {
    name.len() > 0 && name != seq!['.'] && name != seq!['.', '.']
}

/// All names are normal.
pub open spec fn normal_names(names: Seq<Seq<char>>) -> bool {
    names.len() > 0 && forall|i: int| 0 <= i < names.len() ==> normal_name(#[trigger] names[i])
}

/// The path is made of normal names with one separator between them. Entries of trees need
/// not be allowed to have these names.
pub open spec fn normal_path(p: Seq<char>) -> bool {
    normal_names(split(p, '/'))
}

/// The path is made of names that entries of trees may have.
pub open spec fn good_path(rules: Rules, p: Seq<char>) -> bool {
    good_names(rules, split(p, '/'))
}

/// `d` with `item` where the names lead.
pub open spec fn put_at(rules: Rules, d: Dir, names: Seq<Seq<char>>, item: Option<Node>) -> Dir
    decreases names.len(),
{
    if names.len() == 0 {
        d
    } else if names.len() == 1 {
        put_child(rules, d, encode_utf8(names[0]), item)
    } else {
        let name = encode_utf8(names[0]);
        let inner = put_at(rules, dir_or_empty(child(d, name)), names.skip(1), item);
        put_child(rules, d, name, Some(Node::Dir(inner)))
    }
}

proof fn lemma_next_prefix(p: Seq<char>, c: char, e: int, k: int)
    requires
        0 <= k <= e <= p.len(),
    ensures
        next(p.take(e), c, k) == (if next(p, c, k) < e {
            next(p, c, k)
        } else {
            e
        }),
    decreases e - k,
{
    if k < e {
        assert(p.take(e)[k] == p[k]);
        if p[k] != c {
            lemma_next_prefix(p, c, e, k + 1);
        }
    } else {
        lemma_next(p, c, k);
    }
}

/// The names are neither empty nor `.`.
spec fn plain_names(names: Seq<Seq<char>>) -> bool {
    forall|i: int|
        0 <= i < names.len() ==> (#[trigger] names[i]).len() > 0 && names[i] != seq!['.']
}

proof fn lemma_split_parts(p: Seq<char>, k: int)
    requires
        0 <= k <= p.len(),
    ensures
        split_from(p, '/', k).len() > 0,
        ({
            let e = next(p, '/', k);
            &&& k <= e <= p.len()
            &&& split_from(p, '/', k)[0] == p.subrange(k, e)
            &&& e < p.len() ==> split_from(p, '/', k) == seq![p.subrange(k, e)] + split_from(
                p,
                '/',
                e + 1,
            )
            &&& e == p.len() ==> split_from(p, '/', k) == seq![p.subrange(k, e)]
        }),
{
    lemma_next(p, '/', k);
    assert(p.subrange(k, p.len() as int) =~= p.skip(k));
}

/// The components of a path without empty names are its names.
proof fn lemma_components_split(p: Seq<char>, k: int)
    requires
        0 <= k <= p.len(),
        plain_names(split_from(p, '/', k)),
    ensures
        components_from(p, k).len() == split_from(p, '/', k).len(),
        forall|i: int|
            0 <= i < split_from(p, '/', k).len() ==> (#[trigger] components_from(p, k)[i]).text
                == split_from(p, '/', k)[i],
    decreases p.len() + 1 - k,
{
    lemma_split_parts(p, k);
    let e = next(p, '/', k);
    let names = split_from(p, '/', k);
    assert(names[0].len() > 0 && names[0] != seq!['.']);
    if e < p.len() {
        let rest = split_from(p, '/', e + 1);
        assert forall|i: int| 0 <= i < rest.len() implies (#[trigger] rest[i]).len() > 0 && rest[i]
            != seq!['.'] by {
            assert(names[i + 1] == rest[i]);
        }
        lemma_components_split(p, e + 1);
        let cs = components_from(p, k);
        let cr = components_from(p, e + 1);
        assert(cs =~= seq![cs[0]] + cr);
        assert forall|i: int| 0 <= i < names.len() implies (#[trigger] cs[i]).text == names[i] by {
            if i > 0 {
                assert(cs[i] == cr[i - 1]);
                assert(names[i] == rest[i - 1]);
            }
        }
    }
}

/// A path up to the end of a component has the names up to that component.
proof fn lemma_prefix_names(p: Seq<char>, k: int, i: int)
    requires
        0 <= k <= p.len(),
        plain_names(split_from(p, '/', k)),
        0 <= i < components_from(p, k).len(),
    ensures
        k < components_from(p, k)[i].end <= p.len(),
        split_from(p.take(components_from(p, k)[i].end), '/', k) == split_from(p, '/', k).take(
            i + 1,
        ),
    decreases p.len() + 1 - k,
{
    lemma_components_from(p, k);
    lemma_components_split(p, k);
    lemma_split_parts(p, k);
    let e = next(p, '/', k);
    let names = split_from(p, '/', k);
    let cs = components_from(p, k);
    let end = cs[i].end;
    let q = p.take(end);
    lemma_next_prefix(p, '/', end, k);
    lemma_split_parts(q, k);
    assert(names[0].len() > 0 && names[0] != seq!['.']);
    assert(cs[0].end == e);
    if i == 0 {
        assert(q.subrange(k, e) =~= p.subrange(k, e));
        assert(split_from(q, '/', k) =~= names.take(1));
    } else {
        assert(cs[0].end < cs[i].end);
        assert(e < p.len());
        let rest = split_from(p, '/', e + 1);
        let cr = components_from(p, e + 1);
        assert(cs =~= seq![cs[0]] + cr);
        assert forall|j: int| 0 <= j < rest.len() implies (#[trigger] rest[j]).len() > 0 && rest[j]
            != seq!['.'] by {
            assert(names[j + 1] == rest[j]);
        }
        assert(cr[i - 1] == cs[i]);
        lemma_prefix_names(p, e + 1, i - 1);
        assert(q.subrange(k, e) =~= p.subrange(k, e));
        assert(split_from(q, '/', k) =~= names.take(i + 1));
    }
}

/// What stands at the end of a normal path is found by its names.
pub proof fn lemma_lookup_names(d: Dir, p: Seq<char>)
    requires
        normal_path(p),
    ensures
        lookup(d, p) == walk(d, split(p, '/')),
{
    assert(normal_name(split(p, '/')[0]));
}

/// Replacing at the last of the names is replacing what holds the last.
pub proof fn lemma_put_at_last(rules: Rules, d: Dir, names: Seq<Seq<char>>, item: Option<Node>)
    requires
        names.len() >= 2,
        normal_names(names),
    ensures
        put_at(rules, d, names, item) == put_at(
            rules,
            d,
            names.drop_last(),
            Some(
                Node::Dir(
                    put_child(
                        rules,
                        dir_or_empty(walk(d, names.drop_last())),
                        encode_utf8(names.last()),
                        item,
                    ),
                ),
            ),
        ),
    decreases names.len(),
{
    let front = names.drop_last();
    let name = encode_utf8(names[0]);
    let rest = names.skip(1);
    let sub = dir_or_empty(child(d, name));
    assert(normal_name(names[0]));
    assert(normal_name(names[1]));
    assert(front[0] == names[0]);
    if names.len() == 2 {
        assert(rest[0] == names[1]);
        assert(names.last() == names[1]);
        assert(
            put_at(rules, sub, rest, item) == put_child(rules, sub, encode_utf8(names[1]), item)
        );
        assert(walk(d, front) == child(d, name));
    } else {
        assert(front[1] == names[1]);
        assert forall|i: int| 0 <= i < rest.len() implies normal_name(#[trigger] rest[i]) by {
            assert(normal_name(names[i + 1]));
        }
        lemma_put_at_last(rules, sub, rest, item);
        assert(front.skip(1) =~= rest.drop_last());
        assert(rest.last() == names.last());
        let x = Some(
            Node::Dir(
                put_child(
                    rules,
                    dir_or_empty(walk(d, front)),
                    encode_utf8(names.last()),
                    item,
                ),
            ),
        );
        lemma_walk_sub(d, front);
        assert(dir_or_empty(walk(d, front)) == dir_or_empty(walk(sub, front.skip(1))));
        assert(put_at(rules, d, front, x) == put_child(
            rules,
            d,
            name,
            Some(Node::Dir(put_at(rules, sub, front.skip(1), x))),
        ));
    }
}

/// What stands further down is found in the directory on the way, or nowhere.
proof fn lemma_walk_sub(d: Dir, names: Seq<Seq<char>>)
    requires
        names.len() >= 2,
        names[0].len() > 0,
        names.len() == 2 ==> names[1].len() > 0,
    ensures
        walk(d, names) == walk(dir_or_empty(child(d, encode_utf8(names[0]))), names.skip(1)),
{
    let rest = names.skip(1);
    assert(rest[0] == names[1]);
    match child(d, encode_utf8(names[0])) {
        Some(Node::Dir(m)) => {},
        _ => {
            assert(child(empty_dir(), encode_utf8(rest[0])) is None);
        },
    }
}

/// Replacing what stands at a normal path always succeeds, and goes down name by name.
pub proof fn lemma_replace_at_names(rules: Rules, d: Dir, p: Seq<char>, item: Option<Node>)
    requires
        normal_path(p),
    ensures
        replace_at(rules, d, p, item) == Ok::<Dir, ErrorView>(
            put_at(rules, d, split(p, '/'), item),
        ),
    decreases p.len(),
{
    let names = split(p, '/');
    lemma_split_parts(p, 0);
    assert(normal_name(names[0]));
    assert(plain_names(names)) by {
        assert forall|i: int| 0 <= i < names.len() implies (#[trigger] names[i]).len() > 0 && names[i]
            != seq!['.'] by {
            assert(normal_name(names[i]));
        }
    }
    lemma_components_split(p, 0);
    lemma_components(p);
    let e = next(p, '/', 0);
    assert(p[0] != '/') by {
        if p[0] == '/' {
            assert(e == 0);
            assert(names[0].len() == 0);
        }
    }
    let cs = components(p);
    let n = cs.len() as int;
    assert(cs == components_from(p, 0));
    if n == 1 {
        assert(e == p.len()) by {
            if e < p.len() {
                lemma_split_parts(p, e + 1);
            }
        }
        assert(p.subrange(0, e) =~= p);
    } else {
        assert(cs[n - 1].text == names[n - 1]);
        assert(normal_name(names[n - 1]));
        let end = cs[n - 2].end;
        assert(cs[n - 2].end < cs[n - 1].end);
        let parent = p.take(end);
        lemma_prefix_names(p, 0, n - 2);
        let front = names.drop_last();
        assert(names.take(n - 1) =~= front);
        assert(split(parent, '/') == front);
        assert forall|i: int| 0 <= i < front.len() implies normal_name(#[trigger] front[i]) by {
            assert(normal_name(names[i]));
        }
        lemma_lookup_names(d, parent);
        let inner = put_child(rules, subdir(d, parent), encode_utf8(cs[n - 1].text), item);
        lemma_replace_at_names(rules, d, parent, Some(Node::Dir(inner)));
        lemma_put_at_last(rules, d, names, item);
    }
}

proof fn lemma_pieces(p: Seq<char>, k: int, i: int, j: int)
    requires
        0 <= k <= p.len(),
        0 <= i < split_from(p, '/', k).len(),
        0 <= j < split_from(p, '/', k)[i].len(),
    ensures
        split_from(p, '/', k)[i][j] != '/',
    decreases p.len() + 1 - k,
{
    lemma_split_parts(p, k);
    lemma_next(p, '/', k);
    let e = next(p, '/', k);
    if i == 0 {
        assert(p.subrange(k, e)[j] == p[k + j]);
    } else {
        assert(split_from(p, '/', k)[i] == split_from(p, '/', e + 1)[i - 1]);
        lemma_pieces(p, e + 1, i - 1, j);
    }
}

/// A text without separators is one name.
pub proof fn lemma_one_name(name: Seq<char>)
    requires
        normal_name(name),
        forall|j: int| 0 <= j < name.len() ==> name[j] != '/',
    ensures
        split(name, '/') == seq![name],
        normal_path(name),
{
    lemma_next(name, '/', 0);
    lemma_split_parts(name, 0);
    assert(name.subrange(0, name.len() as int) =~= name);
}

/// The names that the components of a path are.
pub open spec fn component_names(p: Seq<char>) -> Seq<Seq<char>> {
    Seq::new(components(p).len(), |i: int| components(p)[i].text)
}

proof fn lemma_components_take_from(p: Seq<char>, k: int, i: int)
    requires
        0 <= k <= p.len(),
        0 <= i < components_from(p, k).len(),
    ensures
        k < components_from(p, k)[i].end <= p.len(),
        components_from(p.take(components_from(p, k)[i].end), k) == components_from(p, k).take(
            i + 1,
        ),
    decreases p.len() + 1 - k,
{
    let all = components_from(p, k);
    let end = all[i].end;
    let t = p.take(end);
    let e = next(p, '/', k);
    lemma_components_from(p, k);
    lemma_next(p, '/', k);
    let here = !(e == k || (p.subrange(k, e) == seq!['.'] && k != 0));
    let rest = if e < p.len() {
        components_from(p, e + 1)
    } else {
        Seq::empty()
    };
    assert(all == if here {
        seq![ComponentView { text: p.subrange(k, e), end: e }] + rest
    } else {
        rest
    });
    lemma_next_prefix(p, '/', end, k);
    lemma_next(t, '/', k);
    assert(forall|x: int| k <= x < end ==> t[x] == p[x]);
    if here && i == 0 {
        assert(end == e);
        assert(next(t, '/', k) == e);
        assert(t.subrange(k, e) =~= p.subrange(k, e));
        assert(components_from(t, k) =~= all.take(1));
    } else {
        let j = if here {
            i - 1
        } else {
            i
        };
        assert(rest[j] == all[i]);
        lemma_components_take_from(p, e + 1, j);
        assert(next(t, '/', k) == e);
        assert(t.subrange(k, e) =~= p.subrange(k, e));
        assert(components_from(t, k) =~= all.take(i + 1));
    }
}

/// The components of a path up to the end of one of them.
pub proof fn lemma_components_take(p: Seq<char>, i: int)
    requires
        p.len() > 0 && p[0] != '/',
        0 <= i < components(p).len(),
    ensures
        0 < components(p)[i].end <= p.len(),
        components(p.take(components(p)[i].end)) == components(p).take(i + 1),
        component_names(p.take(components(p)[i].end)) == component_names(p).take(i + 1),
{
    lemma_components_take_from(p, 0, i);
    let t = p.take(components(p)[i].end);
    assert(t[0] == p[0]);
    assert(component_names(t) =~= component_names(p).take(i + 1));
}

/// No component has a separator in it, but for the one that a separator at the start is.
pub proof fn lemma_component_text(p: Seq<char>, k: int)
    requires
        0 <= k <= p.len(),
    ensures
        forall|i: int, j: int|
            0 <= i < components_from(p, k).len() && 0 <= j < components_from(p, k)[i].text.len()
                ==> #[trigger] components_from(p, k)[i].text[j] != '/',
    decreases p.len() + 1 - k,
{
    lemma_next(p, '/', k);
    let e = next(p, '/', k);
    let all = components_from(p, k);
    if e < p.len() {
        lemma_component_text(p, e + 1);
        let rest = components_from(p, e + 1);
        if all.len() != rest.len() {
            assert(all =~= seq![all[0]] + rest);
            assert forall|i: int, j: int|
                0 <= i < all.len() && 0 <= j < all[i].text.len() implies #[trigger] all[i].text[j]
                != '/' by {
                if i > 0 {
                    assert(all[i] == rest[i - 1]);
                }
            }
        }
    }
}

/// The components of a normal path are its names.
pub proof fn lemma_good_components(p: Seq<char>)
    requires
        normal_path(p),
    ensures
        components(p).len() == split(p, '/').len(),
        forall|i: int|
            0 <= i < split(p, '/').len() ==> (#[trigger] components(p)[i]).text == split(p, '/')[i],
        component_names(p) == split(p, '/'),
        p.len() > 0 && p[0] != '/',
{
    let names = split(p, '/');
    lemma_split_parts(p, 0);
    assert(normal_name(names[0]));
    assert(plain_names(names)) by {
        assert forall|i: int| 0 <= i < names.len() implies (#[trigger] names[i]).len() > 0 && names[i]
            != seq!['.'] by {
            assert(normal_name(names[i]));
        }
    }
    lemma_components_split(p, 0);
    assert(p[0] != '/') by {
        if p[0] == '/' {
            assert(next(p, '/', 0) == 0);
        }
    }
    assert(component_names(p) =~= names);
}

/// What stands at the last of the names stands in what the others lead to.
pub proof fn lemma_walk_last(d: Dir, names: Seq<Seq<char>>)
    requires
        names.len() >= 2,
        normal_names(names),
    ensures
        walk(d, names) == child(
            dir_or_empty(walk(d, names.drop_last())),
            encode_utf8(names.last()),
        ),
    decreases names.len(),
{
    let front = names.drop_last();
    let rest = names.skip(1);
    let sub = dir_or_empty(child(d, encode_utf8(names[0])));
    assert(normal_name(names[0]));
    assert(normal_name(names[1]));
    lemma_walk_sub(d, names);
    assert(rest[0] == names[1]);
    assert(front[0] == names[0]);
    if names.len() == 2 {
        assert(names.last() == names[1]);
        assert(walk(d, front) == child(d, encode_utf8(names[0])));
        assert(walk(sub, rest) == child(sub, encode_utf8(names[1])));
    } else {
        assert forall|i: int| 0 <= i < rest.len() implies normal_name(#[trigger] rest[i]) by {
            assert(normal_name(names[i + 1]));
        }
        assert forall|i: int| 0 <= i < front.len() implies normal_name(#[trigger] front[i]) by {
            assert(normal_name(names[i]));
        }
        lemma_walk_last(sub, rest);
        lemma_walk_sub(d, front);
        assert(front.skip(1) =~= rest.drop_last());
        assert(rest.last() == names.last());
    }
}

/// What is found where an item was put: a file is an ordinary file, and a directory without
/// entries is not there.
pub open spec fn as_put(item: Option<Node>) -> Option<Node> {
    match item {
        None => None,
        Some(Node::Dir(m)) => if m == empty_dir() {
            None
        } else {
            item
        },
        Some(n) => Some(plain(n)),
    }
}

proof fn lemma_walk_put_at(rules: Rules, d: Dir, names: Seq<Seq<char>>, item: Option<Node>)
    requires
        good_names(rules, names),
        !(item matches Some(Node::Link { .. })),
    ensures
        walk(put_at(rules, d, names, item), names) == as_put(item),
    decreases names.len(),
{
    let name = encode_utf8(names[0]);
    assert(good_name(rules, names[0]));
    if names.len() > 1 {
        let sub = dir_or_empty(child(d, name));
        let rest = names.skip(1);
        assert forall|i: int| 0 <= i < rest.len() implies good_name(rules, #[trigger] rest[i]) by {
            assert(good_name(rules, names[i + 1]));
        }
        assert(good_name(rules, names[1]));
        lemma_walk_put_at(rules, sub, rest, item);
        let inner = put_at(rules, sub, rest, item);
        let r = put_at(rules, d, names, item);
        lemma_walk_sub(r, names);
        if inner == empty_dir() {
            assert(child(r, name) is None);
        } else {
            assert(child(r, name) == Some(Node::Dir(inner)));
        }
    }
}

/// What was put at a good path is found there.
pub proof fn law_put_then_get(rules: Rules, d: Dir, p: Seq<char>, item: Option<Node>)
    requires
        good_path(rules, p),
        !(item matches Some(Node::Link { .. })),
    ensures
        replace_at(rules, d, p, item) is Ok,
        lookup(replace_at(rules, d, p, item)->Ok_0, p) == as_put(item),
{
    lemma_replace_at_names(rules, d, p, item);
    lemma_walk_put_at(rules, d, split(p, '/'), item);
    lemma_lookup_names(put_at(rules, d, split(p, '/'), item), p);
}

/// A node that is put into a tree as it is.
pub open spec fn puttable(n: Node) -> bool {
    match n {
        Node::Blob { mode, .. } => mode == BLOB_MODE,
        Node::Link { .. } => false,
        Node::Dir(m) => m != empty_dir(),
    }
}

proof fn lemma_put_at_same(rules: Rules, d: Dir, names: Seq<Seq<char>>, n: Node)
    requires
        good_names(rules, names),
        walk(d, names) == Some(n),
        puttable(n),
    ensures
        put_at(rules, d, names, Some(n)) == d,
    decreases names.len(),
{
    let name = encode_utf8(names[0]);
    assert(good_name(rules, names[0]));
    if names.len() == 1 {
        assert(put_at(rules, d, names, Some(n)) =~= d);
    } else {
        let sub = dir_or_empty(child(d, name));
        let rest = names.skip(1);
        assert(good_name(rules, names[1]));
        assert forall|i: int| 0 <= i < rest.len() implies good_name(rules, #[trigger] rest[i]) by {
            assert(good_name(rules, names[i + 1]));
        }
        lemma_walk_sub(d, names);
        lemma_put_at_same(rules, sub, rest, n);
        assert(child(sub, encode_utf8(rest[0])) is Some);
        assert(sub != empty_dir());
        assert(put_at(rules, d, names, Some(n)) =~= d);
    }
}

/// Putting back what stands at a good path changes nothing.
pub proof fn law_get_then_put(rules: Rules, d: Dir, p: Seq<char>)
    requires
        good_path(rules, p),
        lookup(d, p) matches Some(n) && puttable(n),
    ensures
        replace_at(rules, d, p, lookup(d, p)) == Ok::<Dir, ErrorView>(d),
{
    lemma_lookup_names(d, p);
    lemma_replace_at_names(rules, d, p, lookup(d, p));
    lemma_put_at_same(rules, d, split(p, '/'), lookup(d, p)->0);
}

proof fn lemma_put_at_twice(
    rules: Rules,
    d: Dir,
    names: Seq<Seq<char>>,
    x: Option<Node>,
    y: Option<Node>,
)
    requires
        good_names(rules, names),
        !(x matches Some(Node::Link { .. })),
        !(y matches Some(Node::Link { .. })),
    ensures
        put_at(rules, put_at(rules, d, names, x), names, y) == put_at(rules, d, names, y),
    decreases names.len(),
{
    let name = encode_utf8(names[0]);
    assert(good_name(rules, names[0]));
    let r = put_at(rules, d, names, x);
    if names.len() == 1 {
        assert(put_at(rules, r, names, y) =~= put_at(rules, d, names, y));
    } else {
        let sub = dir_or_empty(child(d, name));
        let rest = names.skip(1);
        assert forall|i: int| 0 <= i < rest.len() implies good_name(rules, #[trigger] rest[i]) by {
            assert(good_name(rules, names[i + 1]));
        }
        lemma_put_at_twice(rules, sub, rest, x, y);
        let inner = put_at(rules, sub, rest, x);
        assert(dir_or_empty(child(r, name)) == inner);
        assert(put_at(rules, r, names, y) =~= put_at(rules, d, names, y));
    }
}

/// Of two items put at the same good path, the second stays.
pub proof fn law_put_twice(rules: Rules, d: Dir, p: Seq<char>, x: Option<Node>, y: Option<Node>)
    requires
        good_path(rules, p),
        !(x matches Some(Node::Link { .. })),
        !(y matches Some(Node::Link { .. })),
    ensures
        replace_at(rules, d, p, x) is Ok,
        replace_at(rules, replace_at(rules, d, p, x)->Ok_0, p, y) == replace_at(rules, d, p, y),
{
    lemma_replace_at_names(rules, d, p, x);
    lemma_replace_at_names(rules, d, p, y);
    lemma_replace_at_names(rules, put_at(rules, d, split(p, '/'), x), p, y);
    lemma_put_at_twice(rules, d, split(p, '/'), x, y);
}

/// Two rows of names part before either ends.
pub open spec fn part(p: Seq<Seq<char>>, q: Seq<Seq<char>>) -> bool {
    exists|j: int| parts_at(p, q, j)
}

/// Two rows of names part at the `j`th.
pub open spec fn parts_at(p: Seq<Seq<char>>, q: Seq<Seq<char>>, j: int) -> bool {
    &&& 0 <= j < p.len() && j < q.len()
    &&& p[j] != q[j]
    &&& p[j].len() > 0 && q[j].len() > 0
    &&& forall|i: int| 0 <= i < j ==> #[trigger] p[i] == q[i]
}

proof fn lemma_parts_rest(p: Seq<Seq<char>>, q: Seq<Seq<char>>, j: int)
    requires
        parts_at(p, q, j),
        j > 0,
    ensures
        parts_at(p.skip(1), q.skip(1), j - 1),
{
    let pr = p.skip(1);
    let qr = q.skip(1);
    assert forall|i: int| 0 <= i < j - 1 implies #[trigger] pr[i] == qr[i] by {
        assert(p[i + 1] == q[i + 1]);
    }
}

proof fn lemma_put_at_frame(
    rules: Rules,
    d: Dir,
    p: Seq<Seq<char>>,
    q: Seq<Seq<char>>,
    item: Option<Node>,
)
    requires
        normal_names(p),
        part(p, q),
    ensures
        walk(put_at(rules, d, p, item), q) == walk(d, q),
    decreases p.len(),
{
    let name = encode_utf8(p[0]);
    assert(normal_name(p[0]));
    encode_utf8_decode_utf8(p[0]);
    encode_utf8_decode_utf8(q[0]);
    let r = put_at(rules, d, p, item);
    let j = choose|j: int| parts_at(p, q, j);
    if j == 0 {
        assert(child(r, encode_utf8(q[0])) == child(d, encode_utf8(q[0])));
    } else {
        assert(p[0] == q[0]);
        let sub = dir_or_empty(child(d, name));
        let pr = p.skip(1);
        let qr = q.skip(1);
        assert forall|i: int| 0 <= i < pr.len() implies normal_name(#[trigger] pr[i]) by {
            assert(normal_name(p[i + 1]));
        }
        assert(part(pr, qr)) by {
            lemma_parts_rest(p, q, j);
        }
        lemma_put_at_frame(rules, sub, pr, qr, item);
        lemma_walk_sub(d, q);
        lemma_walk_sub(r, q);
        let inner = put_at(rules, sub, pr, item);
        if inner != empty_dir() && !name_ok(rules, name) {
            assert(child(r, name) == child(d, name));
        } else {
            assert(dir_or_empty(child(r, name)) == inner);
        }
    }
}

/// Replacing what stands at a normal path leaves alone what stands at any path that parts
/// from it.
pub proof fn law_put_elsewhere(rules: Rules, d: Dir, p: Seq<char>, q: Seq<char>, item: Option<Node>)
    requires
        normal_path(p),
        part(split(p, '/'), split(q, '/')),
    ensures
        replace_at(rules, d, p, item) is Ok,
        lookup(replace_at(rules, d, p, item)->Ok_0, q) == lookup(d, q),
{
    lemma_replace_at_names(rules, d, p, item);
    lemma_put_at_frame(rules, d, split(p, '/'), split(q, '/'), item);
}

proof fn lemma_walk_refused(rules: Rules, d: Dir, names: Seq<Seq<char>>, item: Option<Node>)
    requires
        normal_names(names),
        !good_names(rules, names),
        walk(d, names) is None,
    ensures
        walk(put_at(rules, d, names, item), names) is None,
    decreases names.len(),
{
    let name = encode_utf8(names[0]);
    assert(normal_name(names[0]));
    let r = put_at(rules, d, names, item);
    if names.len() == 1 {
        assert(!name_ok(rules, name)) by {
            if name_ok(rules, name) {
                assert(good_names(rules, names));
            }
        }
    } else {
        let sub = dir_or_empty(child(d, name));
        let rest = names.skip(1);
        assert(normal_name(names[1]));
        assert forall|i: int| 0 <= i < rest.len() implies normal_name(#[trigger] rest[i]) by {
            assert(normal_name(names[i + 1]));
        }
        lemma_walk_sub(d, names);
        lemma_walk_sub(r, names);
        let inner = put_at(rules, sub, rest, item);
        if inner == empty_dir() {
            assert(child(r, name) is None);
            assert(child(empty_dir(), encode_utf8(rest[0])) is None);
        } else if name_ok(rules, name) {
            assert(!good_names(rules, rest)) by {
                if good_names(rules, rest) {
                    assert forall|i: int| 0 <= i < names.len() implies good_name(
                        rules,
                        #[trigger] names[i],
                    ) by {
                        if i > 0 {
                            assert(names[i] == rest[i - 1]);
                        }
                    }
                }
            }
            lemma_walk_refused(rules, sub, rest, item);
        }
    }
}

/// Where entries refuse a name on the way, nothing comes to stand where nothing stood.
pub proof fn law_put_refused(rules: Rules, d: Dir, p: Seq<char>, item: Option<Node>)
    requires
        normal_path(p),
        !good_path(rules, p),
        lookup(d, p) is None,
    ensures
        replace_at(rules, d, p, item) is Ok,
        lookup(replace_at(rules, d, p, item)->Ok_0, p) is None,
{
    lemma_replace_at_names(rules, d, p, item);
    lemma_lookup_names(d, p);
    lemma_lookup_names(put_at(rules, d, split(p, '/'), item), p);
    lemma_walk_refused(rules, d, split(p, '/'), item);
}

/// The names lead from `d` through directories with entries, until there is nothing.
pub open spec fn clear_way(d: Dir, names: Seq<Seq<char>>) -> bool
    decreases names.len(),
{
    names.len() <= 1 || match child(d, encode_utf8(names[0])) {
        None => true,
        Some(Node::Dir(m)) => m != empty_dir() && clear_way(m, names.skip(1)),
        Some(_) => false,
    }
}

/// An item that puts nothing where nothing stands.
pub open spec fn puts_nothing(item: Option<Node>) -> bool {
    match item {
        None => true,
        Some(Node::Link { .. }) => true,
        Some(n) => n == Node::Dir(empty_dir()),
    }
}

proof fn lemma_put_nothing(rules: Rules, d: Dir, names: Seq<Seq<char>>, item: Option<Node>)
    requires
        good_names(rules, names),
        walk(d, names) is None,
        clear_way(d, names),
        puts_nothing(item),
    ensures
        put_at(rules, d, names, item) == d,
    decreases names.len(),
{
    let name = encode_utf8(names[0]);
    assert(good_name(rules, names[0]));
    if names.len() == 1 {
        assert(put_at(rules, d, names, item) =~= d);
    } else {
        let sub = dir_or_empty(child(d, name));
        let rest = names.skip(1);
        assert(good_name(rules, names[1]));
        assert forall|i: int| 0 <= i < rest.len() implies good_name(rules, #[trigger] rest[i]) by {
            assert(good_name(rules, names[i + 1]));
        }
        lemma_walk_sub(d, names);
        assert(rest[0] == names[1]);
        assert(clear_way(sub, rest)) by {
            if child(d, name) is None {
                assert(rest.len() <= 1 || child(sub, encode_utf8(rest[0])) is None);
            }
        }
        lemma_put_nothing(rules, sub, rest, item);
        assert(put_at(rules, d, names, item) =~= d);
    }
}

/// Putting nothing where nothing stands changes nothing, unless a file or a directory
/// without entries stands in the way.
pub proof fn law_put_nothing(rules: Rules, d: Dir, p: Seq<char>, item: Option<Node>)
    requires
        good_path(rules, p),
        lookup(d, p) is None,
        clear_way(d, split(p, '/')),
        puts_nothing(item),
    ensures
        replace_at(rules, d, p, item) == Ok::<Dir, ErrorView>(d),
{
    lemma_lookup_names(d, p);
    lemma_replace_at_names(rules, d, p, item);
    lemma_put_nothing(rules, d, split(p, '/'), item);
}

/// Nothing stands in a directory without entries.
pub proof fn lemma_lookup_empty(p: Seq<char>)
    ensures
        lookup(empty_dir(), p) is None,
{
    let names = split(p, '/');
    if names.len() > 0 {
        assert(child(empty_dir(), encode_utf8(names[0])) is None);
    }
}

/// A directory without entries that is put into one without entries leaves it so, at any
/// path.
pub proof fn law_nothing_in_nothing(rules: Rules, p: Seq<char>)
    ensures
        replace_at(rules, empty_dir(), p, Some(Node::Dir(empty_dir()))) matches Ok(
            t,
        ) ==> t == empty_dir(),
    decreases p.len(),
{
    let cs = components(p);
    let n = cs.len() as int;
    let nothing = Some(Node::Dir(empty_dir()));
    if n == 1 {
        assert(put_child(rules, empty_dir(), encode_utf8(p), nothing) =~= empty_dir());
    } else if n > 1 {
        let parent = p.take(cs[n - 2].end);
        if parent.len() < p.len() {
            lemma_lookup_empty(parent);
            assert(put_child(
                rules,
                subdir(empty_dir(), parent),
                encode_utf8(cs[n - 1].text),
                nothing,
            )
                =~= empty_dir());
            law_nothing_in_nothing(rules, parent);
        }
    }
}

proof fn lemma_split_append(p: Seq<char>, x: Seq<char>, k: int)
    requires
        0 <= k <= p.len(),
        forall|i: int| 0 <= i < x.len() ==> #[trigger] x[i] != '/',
    ensures
        split_from(p.push('/') + x, '/', k) == split_from(p, '/', k).push(x),
    decreases p.len() + 1 - k,
{
    let t = p.push('/') + x;
    let e = next(p, '/', k);
    lemma_split_parts(p, k);
    lemma_split_parts(t, k);
    lemma_next_prefix(t, '/', p.len() as int, k);
    lemma_next(t, '/', k);
    assert(t.take(p.len() as int) =~= p);
    assert(t[p.len() as int] == '/');
    assert(next(t, '/', k) == e);
    assert(t.subrange(k, e) =~= p.subrange(k, e));
    if e < p.len() {
        lemma_split_append(p, x, e + 1);
        assert(split_from(t, '/', k) =~= split_from(p, '/', k).push(x));
    } else {
        let b = p.len() + 1;
        lemma_split_parts(t, b as int);
        lemma_next(t, '/', b as int);
        let f = next(t, '/', b as int);
        if f < t.len() {
            assert(t[f] == x[f - b]);
        }
        assert(t.subrange(b as int, t.len() as int) =~= x);
        assert(split_from(t, '/', k) =~= split_from(p, '/', k).push(x));
    }
}

/// A name in the directory at a good path stands at a good path, and is found there.
pub proof fn lemma_join(rules: Rules, d: Dir, p: Seq<char>, x: Seq<char>)
    requires
        good_path(rules, p),
        good_path(rules, x),
        split(x, '/') == seq![x],
    ensures
        split(join(p, x), '/') == split(p, '/').push(x),
        good_path(rules, join(p, x)),
        lookup(d, join(p, x)) == lookup(subdir(d, p), x),
{
    let names = split(p, '/');
    let all = names.push(x);
    let last = names.last();
    assert(good_name(rules, last));
    lemma_split_parts(p, 0);
    assert forall|i: int| 0 <= i < x.len() implies #[trigger] x[i] != '/' by {
        lemma_pieces(x, 0, 0, i);
    }
    assert(p.len() > 0) by {
        assert(good_name(rules, names[0]));
    }
    lemma_last_char(p, 0);
    lemma_split_append(p, x, 0);
    assert(good_name(rules, x)) by {
        assert(good_name(rules, split(x, '/')[0]));
    }
    assert forall|i: int| 0 <= i < all.len() implies good_name(rules, #[trigger] all[i]) by {
        if i < names.len() {
            assert(good_name(rules, names[i]));
        }
    }
    lemma_lookup_names(d, join(p, x));
    lemma_lookup_names(d, p);
    lemma_lookup_names(subdir(d, p), x);
    lemma_walk_last(d, all);
    assert(all.drop_last() =~= names);
    assert(walk(subdir(d, p), seq![x]) == child(subdir(d, p), encode_utf8(x)));
}

proof fn lemma_components_push(p: Seq<char>, k: int)
    requires
        0 <= k <= p.len(),
    ensures
        components_from(p.push('/'), k) == components_from(p, k),
    decreases p.len() + 1 - k,
{
    let t = p.push('/');
    let e = next(p, '/', k);
    lemma_next(p, '/', k);
    lemma_next(t, '/', k);
    lemma_next_prefix(t, '/', p.len() as int, k);
    assert(t.take(p.len() as int) =~= p);
    assert(t[p.len() as int] == '/');
    assert(next(t, '/', k) == e);
    assert(t.subrange(k, e) =~= p.subrange(k, e));
    if e < p.len() {
        lemma_components_push(p, e + 1);
    } else {
        let none = t.subrange((p.len() + 1) as int, (p.len() + 1) as int);
        assert(next(t, '/', (p.len() + 1) as int) == p.len() + 1);
        assert(none.len() == 0);
        assert(components_from(t, (p.len() + 1) as int) =~= Seq::empty());
    }
}

/// What was found, where it is a directory.
pub open spec fn only_dir(n: Option<Node>) -> Option<Node> {
    match n {
        Some(Node::Dir(_)) => n,
        _ => None,
    }
}

proof fn lemma_walk_push(d: Dir, names: Seq<Seq<char>>)
    requires
        normal_names(names),
    ensures
        walk(d, names.push(Seq::empty())) == only_dir(walk(d, names)),
    decreases names.len(),
{
    let all = names.push(Seq::empty());
    assert(normal_name(names[0]));
    assert(all[0] == names[0]);
    if names.len() == 1 {
        assert(all[1].len() == 0);
    } else {
        let rest = names.skip(1);
        assert(normal_name(names[1]));
        assert forall|i: int| 0 <= i < rest.len() implies normal_name(#[trigger] rest[i]) by {
            assert(normal_name(names[i + 1]));
        }
        lemma_walk_sub(d, names);
        lemma_walk_sub(d, all);
        assert(all.skip(1) =~= rest.push(Seq::empty()));
        lemma_walk_push(dir_or_empty(child(d, encode_utf8(names[0]))), rest);
    }
}

/// A separator at the end of a normal path makes no difference to its components; only a
/// directory is found there. Where the path has more than one name, it makes none to what is
/// put there.
pub proof fn lemma_path_push(rules: Rules, d: Dir, p: Seq<char>, item: Option<Node>)
    requires
        normal_path(p),
    ensures
        components(p.push('/')) == components(p),
        split(p.push('/'), '/') == split(p, '/').push(Seq::empty()),
        lookup(d, p.push('/')) == only_dir(lookup(d, p)),
        split(p, '/').len() > 1 ==> replace_at(rules, d, p.push('/'), item) == replace_at(
            rules,
            d,
            p,
            item,
        ),
{
    let t = p.push('/');
    let names = split(p, '/');
    lemma_split_parts(p, 0);
    assert(normal_name(names[0]));
    assert(p.len() > 0);
    assert(p[0] != '/') by {
        if p[0] == '/' {
            assert(next(p, '/', 0) == 0);
        }
    }
    assert(t[0] == p[0]);
    lemma_components_push(p, 0);
    lemma_split_append(p, Seq::empty(), 0);
    assert(t + Seq::<char>::empty() =~= t);
    lemma_walk_push(d, names);
    assert(names.push(Seq::empty())[0] == names[0]);
    lemma_lookup_names(d, p);
    lemma_good_components(p);
    lemma_components(p);
    if names.len() > 1 {
        let cs = components(p);
        let n = cs.len() as int;
        let end = cs[n - 2].end;
        assert(cs[n - 2].end < cs[n - 1].end);
        assert(t.take(end) =~= p.take(end));
    }
}

/// The path without the one separator that may stand at its end.
pub open spec fn bare(p: Seq<char>) -> Seq<char> {
    if p.len() > 0 && p.last() == '/' {
        p.drop_last()
    } else {
        p
    }
}

/// A piece without text stands before the last one: nothing is found at a path with such
/// pieces.
pub open spec fn has_gap(pieces: Seq<Seq<char>>) -> bool {
    exists|i: int| 0 <= i < pieces.len() - 1 && (#[trigger] pieces[i]).len() == 0
}

/// After the first of the names a `.` stands among the pieces, before the names end.
pub open spec fn is_dotted(names: Seq<Seq<char>>, pieces: Seq<Seq<char>>) -> bool {
    exists|l: int|
        0 <= l < names.len() && l < pieces.len() && #[trigger] pieces[l] == seq!['.'] && forall|
            i: int,
        |
            0 <= i < l ==> #[trigger] pieces[i] == names[i]
}

/// A relative path whose components are normal names, with normal names in front of the last.
/// Separators may be doubled, and `.` may stand, before the last name; separators may stand
/// at the end.
pub open spec fn is_steady(p: Seq<char>) -> bool {
    let cs = components(p);
    &&& p.len() > 0 && p[0] != '/'
    &&& normal_names(component_names(p))
    &&& cs.len() > 1 ==> normal_path(p.take(cs[cs.len() - 2].end))
    &&& normal_path(bare(p)) || has_gap(split(p, '/')) || is_dotted(
        component_names(p),
        split(p, '/'),
    )
}

/// What is put at the path comes to stand where its components lead. It does not where a
/// separator stands behind a single name: the name is then taken with the separator in it.
pub open spec fn lands(p: Seq<char>) -> bool {
    components(p).len() > 1 || p == component_names(p)[0]
}

/// A path that is its only component has no separator, and one that is not has.
proof fn lemma_single(p: Seq<char>)
    requires
        p.len() > 0 && p[0] != '/',
        components(p).len() == 1,
        p != component_names(p)[0],
    ensures
        exists|i: int| 0 <= i < p.len() && p[i] == '/',
{
    lemma_next(p, '/', 0);
    let e = next(p, '/', 0);
    if e == p.len() {
        assert(p.subrange(0, e) =~= p);
        assert(components(p)[0].text == p);
    } else {
        assert(p[e] == '/');
    }
}

/// What putting something at a path does, where all but the last component is written with
/// normal names.
pub proof fn lemma_put_components(rules: Rules, d: Dir, p: Seq<char>, item: Option<Node>)
    requires
        normal_names(component_names(p)),
        p.len() > 0 && p[0] != '/',
        components(p).len() > 1 ==> normal_path(p.take(components(p)[components(p).len() - 2].end)),
    ensures
        lands(p) ==> replace_at(rules, d, p, item) == Ok::<Dir, ErrorView>(
            put_at(rules, d, component_names(p), item),
        ),
        !lands(p) ==> replace_at(rules, d, p, item) == Ok::<Dir, ErrorView>(
            put_child(rules, d, encode_utf8(p), item),
        ),
{
    let cs = components(p);
    let names = component_names(p);
    let len = names.len() as int;
    if len > 1 {
        let front = p.take(cs[len - 2].end);
        lemma_components(p);
        assert(cs[len - 2].end < cs[len - 1].end);
        lemma_components_take(p, len - 2);
        lemma_good_components(front);
        assert(names.take(len - 1) =~= names.drop_last());
        lemma_lookup_names(d, front);
        assert(normal_name(names[len - 1]));
        let last = encode_utf8(names[len - 1]);
        let inner = put_child(rules, subdir(d, front), last, item);
        lemma_replace_at_names(rules, d, front, Some(Node::Dir(inner)));
        lemma_put_at_last(rules, d, names, item);
    } else {
        assert(names.len() == 1);
    }
}

/// Putting something at a path leaves alone what stands at paths whose pieces part from its
/// components; at all paths, where it comes to stand nowhere.
pub proof fn lemma_put_past(
    rules: Rules,
    d: Dir,
    p: Seq<char>,
    q: Seq<char>,
    item: Option<Node>,
)
    requires
        is_steady(p),
        lands(p) ==> part(component_names(p), split(q, '/')),
    ensures
        replace_at(rules, d, p, item) is Ok,
        lookup(replace_at(rules, d, p, item)->Ok_0, q) == lookup(d, q),
{
    lemma_put_components(rules, d, p, item);
    let names = split(q, '/');
    if lands(p) {
        lemma_put_at_frame(rules, d, component_names(p), names, item);
    } else {
        lemma_single(p);
        let x = choose|i: int| 0 <= i < p.len() && p[i] == '/';
        let r = put_child(rules, d, encode_utf8(p), item);
        lemma_split_parts(q, 0);
        assert(names[0] != p) by {
            if names[0] == p {
                lemma_pieces(q, 0, 0, x);
            }
        }
        encode_utf8_decode_utf8(names[0]);
        encode_utf8_decode_utf8(p);
        assert(child(r, encode_utf8(names[0])) == child(d, encode_utf8(names[0])));
    }
}

/// Nothing is found past a piece without text.
proof fn lemma_walk_gap(d: Dir, pieces: Seq<Seq<char>>, i: int)
    requires
        0 <= i < pieces.len() - 1,
        pieces[i].len() == 0,
    ensures
        walk(d, pieces) is None,
    decreases pieces.len(),
{
    if i > 0 {
        let rest = pieces.skip(1);
        assert(rest[i - 1] == pieces[i]);
        if let Some(Node::Dir(m)) = child(d, encode_utf8(pieces[0])) {
            lemma_walk_gap(m, rest, i - 1);
        }
    }
}

/// Nothing is found at a path with a gap.
pub proof fn lemma_lookup_gap(d: Dir, p: Seq<char>)
    requires
        has_gap(split(p, '/')),
    ensures
        lookup(d, p) is None,
{
    let pieces = split(p, '/');
    let i = choose|i: int| 0 <= i < pieces.len() - 1 && (#[trigger] pieces[i]).len() == 0;
    lemma_walk_gap(d, pieces, i);
}

/// A `.` among the pieces of a path parts it from all normal names that part from its
/// components, and from these themselves.
pub proof fn lemma_dotted_parts(
    names: Seq<Seq<char>>,
    other: Seq<Seq<char>>,
    pieces: Seq<Seq<char>>,
)
    requires
        normal_names(names),
        normal_names(other),
        is_dotted(names, pieces),
        other == names || part(other, names),
    ensures
        part(other, pieces),
{
    let l = choose|l: int|
        0 <= l < names.len() && l < pieces.len() && #[trigger] pieces[l] == seq!['.'] && forall|
            i: int,
        |
            0 <= i < l ==> #[trigger] pieces[i] == names[i];
    assert(seq!['.'].len() == 1);
    if other == names {
        assert(normal_name(names[l]));
        assert(parts_at(other, pieces, l));
    } else {
        let m = choose|m: int| parts_at(other, names, m);
        if m < l {
            assert(pieces[m] == names[m]);
            assert forall|i: int| 0 <= i < m implies #[trigger] other[i] == pieces[i] by {
                assert(pieces[i] == names[i]);
            }
            assert(parts_at(other, pieces, m));
        } else {
            assert(normal_name(other[l]));
            assert forall|i: int| 0 <= i < l implies #[trigger] other[i] == pieces[i] by {
                assert(pieces[i] == names[i]);
            }
            assert(parts_at(other, pieces, l));
        }
    }
}

/// The components of a normal path at whose end a separator may stand, and what is found
/// there.
pub proof fn lemma_bare(rules: Rules, d: Dir, p: Seq<char>)
    requires
        normal_path(bare(p)),
    ensures
        component_names(p) == split(bare(p), '/'),
        p == bare(p) || lookup(d, p) == only_dir(lookup(d, bare(p))),
{
    let b = bare(p);
    lemma_good_components(b);
    if p != b {
        assert(p =~= b.push('/'));
        lemma_path_push(rules, d, b, None);
        assert(component_names(p) =~= component_names(b));
    }
}

/// The last character of a path is that of its last name, if that has any.
proof fn lemma_last_char(p: Seq<char>, k: int)
    requires
        0 <= k <= p.len(),
        split_from(p, '/', k).last().len() > 0,
    ensures
        k < p.len(),
        p.last() != '/',
    decreases p.len() + 1 - k,
{
    let e = next(p, '/', k);
    lemma_split_parts(p, k);
    lemma_next(p, '/', k);
    if e < p.len() {
        lemma_split_parts(p, e + 1);
        assert(split_from(p, '/', k).last() == split_from(p, '/', e + 1).last());
        lemma_last_char(p, e + 1);
    } else {
        assert(split_from(p, '/', k).last() == p.subrange(k, e));
    }
}

/// The names of the files that filters look for, or write, are good.
pub proof fn lemma_file_names(rules: Rules)
    ensures
        good_path(rules, "workspace.josh"@),
        split("workspace.josh"@, '/') == seq!["workspace.josh"@],
        good_path(rules, ".joshinfo"@),
        split(".joshinfo"@, '/') == seq![".joshinfo"@],
{
    reveal_strlit("workspace.josh");
    reveal_strlit(".joshinfo");
    lemma_plain_file(rules, "workspace.josh"@);
    lemma_plain_file(rules, ".joshinfo"@);
}

proof fn lemma_plain_file(rules: Rules, x: Seq<char>)
    requires
        x.len() > 2,
        is_ascii_chars(x),
        forall|i: int| 0 <= i < x.len() ==> #[trigger] x[i] != '/' && x[i] != '\0',
        x[0] == 'w' || (x[0] == '.' && x[1] == 'j'),
    ensures
        good_path(rules, x),
        split(x, '/') == seq![x],
{
    let b = encode_utf8(x);
    is_ascii_chars_encode_utf8(x);
    assert forall|i: int| 0 <= i < b.len() implies #[trigger] b[i] != 47 && b[i] != 0 by {
        assert(x[i] as u8 == b[i]);
    }
    assert(x[0] as u8 == b[0]);
    assert(x[1] as u8 == b[1]);
    assert(!starts_ignoring_case(b, dot_git())) by {
        if starts_ignoring_case(b, dot_git()) {
            assert(lower(b[0]) == dot_git()[0]);
            assert(lower(b[1]) == dot_git()[1]);
        }
    }
    assert(!starts_ignoring_case(b, git_short())) by {
        if starts_ignoring_case(b, git_short()) {
            assert(lower(b[0]) == git_short()[0]);
        }
    }
    assert(!is_hfs_git(b)) by {
        encode_utf8_decode_utf8(x);
        lemma_hfs_start(x, x.len() as int, 2);
    }
    lemma_next(x, '/', 0);
    lemma_split_parts(x, 0);
    assert(x.subrange(0, x.len() as int) =~= x);
    assert(split(x, '/') =~= seq![x]);
    assert(good_name(rules, x));
}

proof fn lemma_put_at_empty(rules: Rules, d: Dir, names: Seq<Seq<char>>)
    requires
        normal_names(names),
    ensures
        put_at(rules, d, names, Some(Node::Dir(empty_dir()))) == put_at(rules, d, names, None),
    decreases names.len(),
{
    if names.len() > 1 {
        let rest = names.skip(1);
        assert forall|i: int| 0 <= i < rest.len() implies normal_name(#[trigger] rest[i]) by {
            assert(normal_name(names[i + 1]));
        }
        lemma_put_at_empty(rules, dir_or_empty(child(d, encode_utf8(names[0]))), rest);
    }
}

/// Putting a directory without entries is taking away.
pub proof fn law_put_empty(rules: Rules, d: Dir, p: Seq<char>)
    requires
        normal_path(p),
    ensures
        replace_at(rules, d, p, Some(Node::Dir(empty_dir()))) == replace_at(rules, d, p, None),
{
    lemma_replace_at_names(rules, d, p, Some(Node::Dir(empty_dir())));
    lemma_replace_at_names(rules, d, p, None);
    lemma_put_at_empty(rules, d, split(p, '/'));
}

proof fn lemma_put_at_commutes(
    rules: Rules,
    d: Dir,
    p: Seq<Seq<char>>,
    q: Seq<Seq<char>>,
    x: Option<Node>,
    y: Option<Node>,
)
    requires
        good_names(rules, p),
        good_names(rules, q),
        part(p, q),
        !(x matches Some(Node::Link { .. })),
        !(y matches Some(Node::Link { .. })),
    ensures
        put_at(rules, put_at(rules, d, p, x), q, y) == put_at(rules, put_at(rules, d, q, y), p, x),
    decreases p.len(),
{
    let a = encode_utf8(p[0]);
    let b = encode_utf8(q[0]);
    assert(good_name(rules, p[0]));
    assert(good_name(rules, q[0]));
    encode_utf8_decode_utf8(p[0]);
    encode_utf8_decode_utf8(q[0]);
    let dp = put_at(rules, d, p, x);
    let dq = put_at(rules, d, q, y);
    let j = choose|j: int| parts_at(p, q, j);
    if j == 0 {
        assert(child(dp, b) == child(d, b));
        assert(child(dq, a) == child(d, a));
        assert(put_at(rules, dp, q, y) =~= put_at(rules, dq, p, x));
    } else {
        assert(p[0] == q[0]);
        let sub = dir_or_empty(child(d, a));
        let pr = p.skip(1);
        let qr = q.skip(1);
        assert forall|i: int| 0 <= i < pr.len() implies good_name(rules, #[trigger] pr[i]) by {
            assert(good_name(rules, p[i + 1]));
        }
        assert forall|i: int| 0 <= i < qr.len() implies good_name(rules, #[trigger] qr[i]) by {
            assert(good_name(rules, q[i + 1]));
        }
        assert(part(pr, qr)) by {
            lemma_parts_rest(p, q, j);
        }
        lemma_put_at_commutes(rules, sub, pr, qr, x, y);
        let ip = put_at(rules, sub, pr, x);
        let iq = put_at(rules, sub, qr, y);
        assert(dir_or_empty(child(dp, a)) == ip);
        assert(dir_or_empty(child(dq, a)) == iq);
        assert(put_at(rules, dp, q, y) =~= put_at(rules, dq, p, x));
    }
}

/// Items that are put at paths that part may be put in either order.
pub proof fn law_puts_commute(
    rules: Rules,
    d: Dir,
    p: Seq<char>,
    q: Seq<char>,
    x: Option<Node>,
    y: Option<Node>,
)
    requires
        good_path(rules, p),
        good_path(rules, q),
        part(split(p, '/'), split(q, '/')),
        !(x matches Some(Node::Link { .. })),
        !(y matches Some(Node::Link { .. })),
    ensures
        replace_at(rules, d, p, x) is Ok,
        replace_at(rules, d, q, y) is Ok,
        replace_at(rules, replace_at(rules, d, p, x)->Ok_0, q, y) == replace_at(
            rules,
            replace_at(rules, d, q, y)->Ok_0,
            p,
            x,
        ),
{
    lemma_replace_at_names(rules, d, p, x);
    lemma_replace_at_names(rules, d, q, y);
    lemma_replace_at_names(rules, put_at(rules, d, split(p, '/'), x), q, y);
    lemma_replace_at_names(rules, put_at(rules, d, split(q, '/'), y), p, x);
    lemma_put_at_commutes(rules, d, split(p, '/'), split(q, '/'), x, y);
}

} // verus!
