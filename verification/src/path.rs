//! Paths in a file tree, written with `/` between names.

use crate::error::ErrorView;
use crate::node::{child, dir_or_empty, put_child, Dir, Node, Rules};
use crate::text::{chars_of, lemma_next, next, split};
use vstd::prelude::*;
use vstd::utf8::encode_utf8;

verus! {

/// A component of a path, and where in the path it ends.
pub struct ComponentView {
    pub text: Seq<char>,
    pub end: int,
}

/// The components of `p` from place `k` on. Empty names, and names `.` but at the very
/// start, are no components.
pub open spec fn components_from(p: Seq<char>, k: int) -> Seq<ComponentView>
    decreases p.len() + 1 - k,
{
    let e = next(p, '/', k);
    if k < 0 || e < k {
        Seq::empty()
    } else {
        let text = p.subrange(k, e);
        let rest = if e < p.len() {
            components_from(p, e + 1)
        } else {
            Seq::empty()
        };
        if text.len() == 0 || (text == seq!['.'] && k != 0) {
            rest
        } else {
            seq![ComponentView { text, end: e }] + rest
        }
    }
}

/// The components of a path. A separator at the start is a component of its own.
pub open spec fn components(p: Seq<char>) -> Seq<ComponentView> {
    if p.len() > 0 && p[0] == '/' {
        seq![ComponentView { text: seq!['/'], end: 1 }] + components_from(p, 1)
    } else {
        components_from(p, 0)
    }
}

/// What stands in `d` where the names lead. One empty name at the end, after a directory,
/// leads to that directory.
pub open spec fn walk(d: Dir, names: Seq<Seq<char>>) -> Option<Node>
    decreases names.len(),
{
    if names.len() == 0 || names[0].len() == 0 {
        None
    } else {
        match child(d, encode_utf8(names[0])) {
            None => None,
            Some(n) => if names.len() == 1 {
                Some(n)
            } else {
                match n {
                    Node::Dir(m) => if names.len() == 2 && names[1].len() == 0 {
                        Some(n)
                    } else {
                        walk(m, names.skip(1))
                    },
                    _ => None,
                }
            },
        }
    }
}

/// What stands in `d` at the path `p`. A path that is empty, or starts with a separator,
/// `.` or `..`, leads nowhere.
pub open spec fn lookup(d: Dir, p: Seq<char>) -> Option<Node> {
    let names = split(p, '/');
    if names[0] == seq!['.'] || names[0] == seq!['.', '.'] {
        None
    } else {
        walk(d, names)
    }
}

/// The directory of `d` at the path `p`, or the empty one.
pub open spec fn subdir(d: Dir, p: Seq<char>) -> Dir {
    dir_or_empty(lookup(d, p))
}

/// `d` with `item` at the path `p`; directories on the way are made where there are none.
pub open spec fn replace_at(
    rules: Rules,
    d: Dir,
    p: Seq<char>,
    item: Option<Node>,
) -> Result<Dir, ErrorView>
    decreases p.len(),
{
    let cs = components(p);
    let n = cs.len();
    if n == 1 {
        Ok(put_child(rules, d, encode_utf8(p), item))
    } else if n == 0 || cs[n - 1].text == seq!['.', '.'] {
        Err(ErrorView::FileName)
    } else {
        let parent = p.take(cs[n - 2].end);
        if parent.len() < p.len() {
            let inner = put_child(rules, subdir(d, parent), encode_utf8(cs[n - 1].text), item);
            replace_at(rules, d, parent, Some(Node::Dir(inner)))
        } else {
            Err(ErrorView::FileName)
        }
    }
}

/// The path that leads from `p` to `name`.
pub open spec fn join(p: Seq<char>, name: Seq<char>) -> Seq<char> {
    if p.len() == 0 {
        name
    } else if p.last() == '/' {
        p + name
    } else {
        p.push('/') + name
    }
}

pub proof fn lemma_components_from(p: Seq<char>, k: int)
    requires
        0 <= k <= p.len(),
    ensures
        forall|i: int|
            0 <= i < components_from(p, k).len() ==> k < (#[trigger] components_from(
                p,
                k,
            )[i]).end <= p.len(),
        forall|i: int, j: int|
            0 <= i < j < components_from(
                p,
                k,
            ).len() ==> (#[trigger] components_from(p, k)[i]).end < (
            #[trigger] components_from(p, k)[j]).end,
    decreases p.len() + 1 - k,
{
    lemma_next(p, '/', k);
    let e = next(p, '/', k);
    let all = components_from(p, k);
    if e < p.len() {
        lemma_components_from(p, e + 1);
        let rest = components_from(p, e + 1);
        if all.len() != rest.len() {
            assert(all =~= seq![all[0]] + rest);
            assert forall|i: int| 0 < i < all.len() implies #[trigger] all[i] == rest[i - 1] by {}
        }
    }
}

/// Each component of a path ends after the one before it, and within the path.
pub proof fn lemma_components(p: Seq<char>)
    ensures
        forall|i: int|
            0 <= i < components(p).len() ==> 0 < (#[trigger] components(p)[i]).end <= p.len(),
        forall|i: int, j: int|
            0 <= i < j < components(p).len() ==> (#[trigger] components(p)[i]).end < (
            #[trigger] components(p)[j]).end,
{
    if p.len() > 0 && p[0] == '/' {
        lemma_components_from(p, 1);
    } else {
        lemma_components_from(p, 0);
    }
}

/// A component of a path.
pub struct Component {
    pub text: String,
    pub end: usize,
}

impl View for Component {
    type V = ComponentView;

    open spec fn view(&self) -> ComponentView {
        ComponentView { text: self.text@, end: self.end as int }
    }
}

pub open spec fn component_views(v: Seq<Component>) -> Seq<ComponentView> {
    Seq::new(v.len(), |i: int| v[i]@)
}

/// The components of a path.
pub fn components_of(p: &str) -> (r: Vec<Component>)
    ensures
        component_views(r@) == components(p@),
{
    let t = chars_of(p);
    let n: usize = t.len();
    let mut r: Vec<Component> = Vec::new();
    let mut k: usize = 0;
    if n > 0 && t[0] == '/' {
        let root: String = p.substring_char(0, 1).to_owned();
        assert(root@ =~= seq!['/']);
        r.push(Component { text: root, end: 1 });
        k = 1;
    }
    assert(component_views(r@) + components_from(p@, k as int) =~= components(p@));
    loop
        invariant
            t@ == p@,
            n == t@.len(),
            k <= n,
            component_views(r@) + components_from(p@, k as int) == components(p@),
        decreases n - k,
    {
        let mut e: usize = k;
        while e < n && t[e] != '/'
            invariant
                t@ == p@,
                n == t@.len(),
                k <= e <= n,
                next(p@, '/', k as int) == next(p@, '/', e as int),
            decreases n - e,
        {
            e += 1;
        }
        let ghost before = component_views(r@);
        let ghost text = p@.subrange(k as int, e as int);
        let dot: bool = e - k == 1 && t[k] == '.';
        assert(dot == (text == seq!['.'])) by {
            if dot {
                assert(text =~= seq!['.']);
            } else if text == seq!['.'] {
                assert(text.len() == 1);
                assert(text[0] == '.');
            }
        }
        if e > k && !(dot && k != 0) {
            let c: String = p.substring_char(k, e).to_owned();
            r.push(Component { text: c, end: e });
            assert(component_views(r@) =~= before.push(ComponentView { text, end: e as int }));
        }
        if e == n {
            assert(component_views(r@) =~= before + components_from(p@, k as int));
            return r;
        }
        assert(component_views(r@) + components_from(p@, e + 1) =~= before + components_from(
            p@,
            k as int,
        ));
        k = e + 1;
    }
}

/// The path that leads from `p` to `name`.
pub fn joined(p: &str, name: &str) -> (r: String)
    ensures
        r@ == join(p@, name@),
{
    let t = chars_of(p);
    let n: usize = t.len();
    let mut r: String = p.to_owned();
    if n > 0 && t[n - 1] != '/' {
        let ghost before = r@;
        r.append("/");
        proof {
            reveal_strlit("/");
            assert(r@ =~= before.push('/'));
        }
    }
    r.append(name);
    assert(r@ =~= join(p@, name@));
    r
}

} // verus!
