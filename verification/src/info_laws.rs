//! What an info file says of a tree.

use crate::apply::{apply_tree, id_at, info_lines, unescaped};
use crate::error::ErrorView;
use crate::filter::FilterView;
use crate::ids::{git_id, hex, hex_digit};
use crate::node::{BLOB_MODE, Dir, Node, Rules};
use crate::path::{join, lookup, replace_at};
use crate::text::replace_all;
use crate::text_laws::{
    law_replace_after, law_replace_first, law_replace_nothing, lemma_first_copy, none_before,
};
use crate::values::{value_of, PairView};
use vstd::prelude::*;
use vstd::utf8::encode_utf8;

verus! {

/// The value of a digit in base sixteen, which is written in small letters.
pub open spec fn digit_value(c: char) -> int {
    if c as int >= 97 {
        c as int - 87
    } else {
        c as int - 48
    }
}

/// Each byte is written with two digits, the greater first.
pub proof fn law_hex(b: Seq<u8>, i: int)
    requires
        0 <= i < b.len(),
    ensures
        hex(b).len() == 2 * b.len(),
        digit_value(hex(b)[2 * i]) * 16 + digit_value(hex(b)[2 * i + 1]) == b[i],
        forall|j: int|
            0 <= j < hex(b).len() ==> ('0' <= #[trigger] hex(b)[j] && hex(b)[j] <= '9') || ('a'
                <= hex(b)[j] && hex(b)[j] <= 'f'),
{
    reveal_strlit("0123456789abcdef");
    assert((2 * i) / 2 == i && (2 * i + 1) / 2 == i);
    assert forall|j: int| 0 <= j < hex(b).len() implies ('0' <= #[trigger] hex(b)[j] && hex(b)[j]
        <= '9') || ('a' <= hex(b)[j] && hex(b)[j] <= 'f') by {
        assert(b[j / 2] / 16 < 16 && b[j / 2] % 16 < 16);
    }
    assert(hex(b)[2 * i] == hex_digit(b[i] / 16));
    assert(hex(b)[2 * i + 1] == hex_digit(b[i] % 16));
    assert(b[i] == (b[i] / 16) * 16 + b[i] % 16);
}

/// The id at a path is that of what stands there, be it a file, a directory or a commit of
/// another repository. It is made of zeros only where nothing stands.
pub proof fn law_id_at(d: Dir, path: Seq<char>)
    ensures
        match lookup(d, path) {
            Some(x) => match git_id(x) {
                Some(id) => id_at(d, path) == Ok::<Seq<char>, ErrorView>(hex(id)),
                None => id_at(d, path) == Err::<Seq<char>, ErrorView>(ErrorView::Unhashable),
            },
            None => id_at(d, path) == Ok::<Seq<char>, ErrorView>(Seq::new(40, |i: int| '0')),
        },
{
    reveal_strlit("0123456789abcdef");
    assert(hex(Seq::new(20, |i: int| 0u8)) =~= Seq::new(40, |i: int| '0'));
}

/// The lines of an info file. There is none for no values. One more value adds its line at
/// the end: the key, and what the value stands for. The value `#tree` stands for the id of
/// what stands at the prefix, whatever that is, or for zeros where nothing does. The prefix
/// itself has no line.
pub proof fn law_info_line(values: Seq<PairView>, d: Dir, k: int)
    requires
        0 <= k < values.len(),
    ensures
        info_lines(values, d, 0) == Ok::<Seq<char>, ErrorView>(Seq::empty()),
        info_lines(values, d, k) matches Err(e) ==> info_lines(values, d, k + 1) == Err::<
            Seq<char>,
            ErrorView,
        >(e),
        info_lines(values, d, k) matches Ok(s) ==> {
            let key = values[k].0;
            let value = unescaped(values[k].1);
            let all = info_lines(values, d, k + 1);
            let prefix = value_of(values, "prefix"@);
            &&& key == "prefix"@ ==> all == Ok::<Seq<char>, ErrorView>(s)
            &&& key != "prefix"@ && value != "#tree"@ ==> all == Ok::<Seq<char>, ErrorView>(
                s + key + ": "@ + value + "\n"@,
            )
            &&& key != "prefix"@ && value == "#tree"@ ==> match prefix {
                None => all == Err::<Seq<char>, ErrorView>(ErrorView::MissingPrefix),
                Some(p) => match lookup(d, p) {
                    None => all == Ok::<Seq<char>, ErrorView>(
                        s + key + ": "@ + Seq::new(40, |i: int| '0') + "\n"@,
                    ),
                    Some(x) => match git_id(x) {
                        Some(id) => all == Ok::<Seq<char>, ErrorView>(
                            s + key + ": "@ + hex(id) + "\n"@,
                        ),
                        None => all == Err::<Seq<char>, ErrorView>(ErrorView::Unhashable),
                    },
                },
            }
        },
{
    if let Some(p) = value_of(values, "prefix"@) {
        law_id_at(d, p);
    }
}

/// The info file is written at the prefix, with its lines as text, in the mode of an
/// ordinary file. Without a prefix, or where a line cannot be written, there is none.
pub proof fn law_info(rules: Rules, values: Seq<PairView>, d: Dir, n: nat)
    ensures
        apply_tree(rules, FilterView::Info(values), d, n) == match (
            info_lines(values, d, values.len() as int),
            value_of(values, "prefix"@),
        ) {
            (Err(e), _) => Err(e),
            (Ok(_), None) => Err(ErrorView::MissingPrefix),
            (Ok(s), Some(p)) => replace_at(
                rules,
                d,
                join(p, ".joshinfo"@),
                Some(Node::Blob { mode: BLOB_MODE, data: encode_utf8(s) }),
            ),
        },
{
}

proof fn lemma_no_copy(t: Seq<char>, p: Seq<char>, k: int)
    requires
        p.len() > 0,
        p[0] == '<',
        0 <= k <= t.len(),
        forall|i: int| 0 <= i < k ==> #[trigger] t[i] != '<',
    ensures
        none_before(t, p, k),
{
    assert forall|i: int| 0 <= i < k && i + p.len() <= t.len() implies #[trigger] t.subrange(
        i,
        i + p.len(),
    ) != p by {
        assert(t.subrange(i, i + p.len())[0] == t[i]);
    }
}

/// In a value `<colon>` stands for a colon and `<comma>` for a comma, wherever they stand,
/// and all else stands for itself.
pub proof fn law_unescaped(a: Seq<char>, b: Seq<char>)
    requires
        forall|i: int| 0 <= i < a.len() ==> #[trigger] a[i] != '<',
    ensures
        unescaped(a) == a,
        unescaped(a + "<colon>"@ + b) == a + ":"@ + unescaped(b),
        unescaped(a + "<comma>"@ + b) == a + ","@ + unescaped(b),
{
    reveal_strlit("<colon>");
    reveal_strlit("<comma>");
    reveal_strlit(":");
    reveal_strlit(",");
    let colon = "<colon>"@;
    let comma = "<comma>"@;
    let len = a.len() as int;
    lemma_no_copy(a, colon, len);
    lemma_no_copy(a, comma, len);
    law_replace_nothing(a, colon, ":"@);
    law_replace_nothing(a, comma, ","@);
    let r = replace_all(b, colon, ":"@);
    let t = a + colon + b;
    assert forall|i: int| 0 <= i < len implies #[trigger] t[i] != '<' by {
        assert(t[i] == a[i]);
    }
    lemma_no_copy(t, colon, len);
    law_replace_first(a, colon, ":"@, b);
    let x = a + ":"@;
    assert forall|i: int| 0 <= i < x.len() implies #[trigger] (x + r)[i] != '<' by {
        if i < len {
            assert((x + r)[i] == a[i]);
        }
    }
    lemma_no_copy(x + r, comma, x.len() as int);
    law_replace_after(x, r, comma, ","@);
    assert(a + ":"@ + unescaped(b) =~= x + unescaped(b));
    lemma_comma(a, b);
}

/// An opening that starts neither of the two escapes stands for itself.
pub proof fn law_no_escape(b: Seq<char>)
    requires
        !"colon>"@.is_prefix_of(b),
        !"comma>"@.is_prefix_of(b),
    ensures
        unescaped(seq!['<'] + b) == seq!['<'] + unescaped(b),
{
    reveal_strlit("colon>");
    reveal_strlit("comma>");
    reveal_strlit("<colon>");
    reveal_strlit("<comma>");
    reveal_strlit(":");
    let open = seq!['<'];
    let colon = "<colon>"@;
    let comma = "<comma>"@;
    let r = replace_all(b, colon, ":"@);
    assert(colon =~= open + "colon>"@);
    assert(comma =~= open + "comma>"@);
    lemma_other_word(b, colon, "colon>"@);
    law_replace_after(open, b, colon, ":"@);
    assert(!"comma>"@.is_prefix_of(r)) by {
        if "comma>"@.is_prefix_of(r) {
            if none_before(b, colon, b.len() as int) {
                law_replace_nothing(b, colon, ":"@);
            } else {
                let k = lemma_first_copy(b, colon, b.len() as int);
                let x = b.take(k);
                let y = b.skip(k + 7);
                assert(b =~= x + colon + y);
                law_replace_first(x, colon, ":"@, y);
                assert(r[k] == ':');
                assert(r.subrange(0, 6) == "comma>"@);
                if k < 6 {
                    assert(r.subrange(0, 6)[k] == ':');
                }
                assert(b.subrange(0, 6) =~= r.subrange(0, 6));
            }
        }
    }
    lemma_other_word(r, comma, "comma>"@);
    law_replace_after(open, r, comma, ","@);
}

proof fn lemma_other_word(b: Seq<char>, p: Seq<char>, word: Seq<char>)
    requires
        p == seq!['<'] + word,
        !word.is_prefix_of(b),
    ensures
        none_before(seq!['<'] + b, p, 1),
{
    let t = seq!['<'] + b;
    assert forall|i: int| 0 <= i < 1 && i + p.len() <= t.len() implies #[trigger] t.subrange(
        i,
        i + p.len(),
    ) != p by {
        if t.subrange(0, p.len() as int) == p {
            assert(b.subrange(0, word.len() as int) =~= word) by {
                assert forall|j: int| 0 <= j < word.len() implies b[j] == word[j] by {
                    assert(t.subrange(0, p.len() as int)[j + 1] == p[j + 1]);
                }
            }
        }
    }
}

proof fn lemma_comma(a: Seq<char>, b: Seq<char>)
    requires
        forall|i: int| 0 <= i < a.len() ==> #[trigger] a[i] != '<',
    ensures
        unescaped(a + "<comma>"@ + b) == a + ","@ + unescaped(b),
{
    reveal_strlit("<colon>");
    reveal_strlit("<comma>");
    let colon = "<colon>"@;
    let comma = "<comma>"@;
    let len = a.len() as int;
    let r = replace_all(b, colon, ":"@);
    let x = a + comma;
    let t = x + b;
    assert(none_before(t, colon, x.len() as int)) by {
        assert forall|i: int|
            0 <= i < x.len() && i + colon.len() <= t.len() implies #[trigger] t.subrange(
            i,
            i + colon.len(),
        ) != colon by {
            let u = t.subrange(i, i + colon.len());
            if i < len {
                assert(u[0] == a[i]);
            } else if i == len {
                assert(u[3] == comma[3]);
            } else {
                assert(u[0] == comma[i - len]);
            }
        }
    }
    law_replace_after(x, b, colon, ":"@);
    let u = a + comma + r;
    assert(x + r =~= u);
    assert forall|i: int| 0 <= i < len implies #[trigger] u[i] != '<' by {
        assert(u[i] == a[i]);
    }
    lemma_no_copy(u, comma, len);
    law_replace_first(a, comma, ","@, r);
}

} // verus!
