//! Which names the entries of trees may have.

use crate::node::{
    dot_git, elided_after, git_short, hfs_ignores, hfs_shown, is_hfs_git, is_ntfs_git,
    lemma_hfs_start, low_byte, lower, name_ok, name_storable, starts_ignoring_case, Rules,
};
use vstd::prelude::*;
use vstd::utf8::{
    encode_utf8, encode_utf8_decode_utf8, encode_utf8_valid_utf8, is_ascii_chars,
    is_ascii_chars_encode_utf8, valid_utf8,
};

verus! {

/// No entry is called nothing, `.` or `..`, or has a separator or a zero byte in its name,
/// whatever file systems the names have to be safe on.
pub proof fn law_names_refused(rules: Rules, name: Seq<u8>, i: int)
    requires
        name.len() == 0 || name == seq![46u8] || name == seq![46u8, 46u8] || (0 <= i < name.len()
            && (name[i] == 47 || name[i] == 0)),
    ensures
        !name_ok(rules, name),
{
}

/// The letters are those of the word, which is in small letters, but for their case.
pub open spec fn spells(x: Seq<char>, word: Seq<char>) -> bool {
    x.len() == word.len() && forall|i: int|
        0 <= i < word.len() ==> #[trigger] x[i] == word[i] || (x[i] as int + 32 == word[i] as int
            && 'A' <= x[i] && x[i] <= 'Z')
}

proof fn lemma_spells(x: Seq<char>, k: int, word: Seq<char>, r: Seq<u8>)
    requires
        is_ascii_chars(x),
        0 <= k <= x.len(),
        k == word.len(),
        r.len() == k,
        forall|i: int|
            0 <= i < k ==> #[trigger] r[i] as int == word[i] as int && !(65 <= r[i] <= 90),
    ensures
        starts_ignoring_case(encode_utf8(x), r) <==> spells(x.take(k), word),
{
    let b = encode_utf8(x);
    is_ascii_chars_encode_utf8(x);
    assert forall|i: int| 0 <= i < k implies (lower(#[trigger] b[i]) == r[i] <==> (x.take(k)[i]
        == word[i] || (x[i] as int + 32 == word[i] as int && 'A' <= x[i] && x[i] <= 'Z'))) by {
        assert(x[i] as u8 == b[i]);
        assert(r[i] as int == word[i] as int);
    }
    if starts_ignoring_case(b, r) {
        assert forall|i: int| 0 <= i < k implies #[trigger] x.take(k)[i] == word[i] || (
        x.take(k)[i] as int + 32 == word[i] as int && 'A' <= x.take(k)[i] && x.take(k)[i]
            <= 'Z') by {
            assert(lower(b[i]) == r[i]);
        }
    }
    if spells(x.take(k), word) {
        assert forall|i: int| 0 <= i < k implies lower(#[trigger] b[i]) == r[i] by {
            assert(x.take(k)[i] == word[i] || x.take(k)[i] as int + 32 == word[i] as int);
        }
    }
}

/// What follows the first `k` letters is a stream or a path of its own, or dots and spaces.
pub open spec fn tail_elided(x: Seq<char>, k: int) -> bool {
    (k < x.len() && (x[k] == ':' || x[k] == '\\')) || forall|i: int|
        k <= i < x.len() ==> #[trigger] x[i] == ' ' || x[i] == '.'
}

proof fn lemma_tail(x: Seq<char>, k: int)
    requires
        is_ascii_chars(x),
        0 <= k,
    ensures
        elided_after(encode_utf8(x), k) <==> tail_elided(x, k),
{
    let b = encode_utf8(x);
    is_ascii_chars_encode_utf8(x);
    assert forall|i: int| 0 <= i < x.len() implies #[trigger] b[i] as int == x[i] as int by {
        assert(x[i] as u8 == b[i]);
    }
    if elided_after(b, k) && !(k < x.len() && (x[k] == ':' || x[k] == '\\')) {
        assert forall|i: int| k <= i < x.len() implies #[trigger] x[i] == ' ' || x[i] == '.' by {
            assert(b[i] == 32 || b[i] == 46);
        }
    }
    if tail_elided(x, k) && !(k < x.len() && (b[k] == 92 || b[k] == 58)) {
        assert forall|i: int| k <= i < b.len() implies #[trigger] b[i] == 32 || b[i] == 46 by {
            assert(x[i] == ' ' || x[i] == '.');
        }
    }
}

/// The names in ASCII that entries may have. A name is refused if it is `.git`, in letters of
/// either case. Where names have to be safe on file systems that know streams and short
/// names, it is refused also if it starts with `.git` or `git~1` and such a file system
/// drops the rest. All others are accepted, but for those that no entry may have.
pub proof fn law_ascii_names(rules: Rules, x: Seq<char>)
    requires
        is_ascii_chars(x),
        x.len() > 0,
        x != seq!['.'],
        x != seq!['.', '.'],
        forall|i: int| 0 <= i < x.len() ==> #[trigger] x[i] != '/' && x[i] != '\0',
    ensures
        name_ok(rules, encode_utf8(x)) <==> {
            &&& !spells(x, seq!['.', 'g', 'i', 't'])
            &&& rules.protect_ntfs ==> {
                &&& !(x.len() >= 4 && spells(x.take(4), seq!['.', 'g', 'i', 't']) && tail_elided(
                    x,
                    4,
                ))
                &&& !(x.len() >= 5 && spells(x.take(5), seq!['g', 'i', 't', '~', '1'])
                    && tail_elided(x, 5))
            }
        },
{
    let b = encode_utf8(x);
    let git = seq!['.', 'g', 'i', 't'];
    let short = seq!['g', 'i', 't', '~', '1'];
    is_ascii_chars_encode_utf8(x);
    assert forall|i: int| 0 <= i < x.len() implies #[trigger] b[i] as int == x[i] as int by {
        assert(x[i] as u8 == b[i]);
    }
    assert(name_storable(b)) by {
        assert forall|i: int| 0 <= i < b.len() implies #[trigger] b[i] != 47 && b[i] != 0 by {
            assert(x[i] != '/');
        }
    }
    assert(b != seq![46u8]) by {
        if b == seq![46u8] {
            assert(x =~= seq!['.']);
        }
    }
    assert(b != seq![46u8, 46u8]) by {
        if b == seq![46u8, 46u8] {
            assert(x =~= seq!['.', '.']);
        }
    }
    if x.len() >= 4 {
        lemma_spells(x, 4, git, dot_git());
    }
    if x.len() >= 5 {
        lemma_spells(x, 5, short, git_short());
    }
    lemma_tail(x, 4);
    lemma_tail(x, 5);
    if x.len() == 4 {
        assert(x.take(4) =~= x);
    }
    assert(is_hfs_git(b) <==> spells(x, git)) by {
        encode_utf8_decode_utf8(x);
        encode_utf8_valid_utf8(x);
        assert forall|i: int| 0 <= i < x.len() implies !hfs_ignores(#[trigger] x[i]) by {}
        lemma_hfs_start(x, x.len() as int, x.len() as int);
        assert(hfs_shown(x, x.len() as int) =~= x);
        if spells(x, git) {
            assert(x[0] == git[0] || x[0] as int + 32 == git[0] as int);
            assert(x[1] == git[1] || x[1] as int + 32 == git[1] as int);
            assert(x[2] == git[2] || x[2] as int + 32 == git[2] as int);
            assert(x[3] == git[3] || x[3] as int + 32 == git[3] as int);
        }
        if is_hfs_git(b) {
            assert forall|i: int| 0 <= i < 4 implies #[trigger] x[i] == git[i] || (x[i] as int
                + 32 == git[i] as int && 'A' <= x[i] && x[i] <= 'Z') by {
                assert(low_byte(x[1]) == 103 && low_byte(x[2]) == 105 && low_byte(x[3]) == 116);
            }
        }
    }
}

proof fn lemma_shown_without(a: Seq<char>, c: char, b: Seq<char>, k: int)
    requires
        hfs_ignores(c),
        0 <= k <= a.len() + b.len(),
    ensures
        k <= a.len() ==> hfs_shown(a.push(c) + b, k) == hfs_shown(a + b, k),
        k >= a.len() ==> hfs_shown(a.push(c) + b, k + 1) == hfs_shown(a + b, k),
    decreases k,
{
    let t = a.push(c) + b;
    let u = a + b;
    if k > 0 {
        lemma_shown_without(a, c, b, k - 1);
        if k <= a.len() {
            assert(t[k - 1] == u[k - 1]);
        } else {
            assert(t[k] == u[k - 1]);
        }
    }
    if k == a.len() {
        assert(t[k] == c);
    }
}

/// A character that a file system ignores makes no difference there to whether a name is
/// taken for `.git`: joiners and marks of direction, and a mark of byte order.
pub proof fn law_ignored_characters(a: Seq<char>, c: char, b: Seq<char>)
    requires
        0x200c <= c as u32 <= 0x200f || 0x202a <= c as u32 <= 0x202e || 0x206a <= c as u32
            <= 0x206f || c as u32 == 0xfeff,
    ensures
        is_hfs_git(encode_utf8(a.push(c) + b)) == is_hfs_git(encode_utf8(a + b)),
{
    let t = a.push(c) + b;
    let u = a + b;
    encode_utf8_decode_utf8(t);
    encode_utf8_valid_utf8(t);
    encode_utf8_decode_utf8(u);
    encode_utf8_valid_utf8(u);
    lemma_shown_without(a, c, b, u.len() as int);
}

proof fn lemma_low_byte(c: char)
    ensures
        low_byte(c) == 103 <==> c as u32 % 256 == 103 || c == 'G',
        low_byte(c) == 105 <==> c as u32 % 256 == 105 || c == 'I',
        low_byte(c) == 116 <==> c as u32 % 256 == 116 || c == 'T',
{
}

/// On a file system that ignores some characters, but on none with streams and short names,
/// a name without such characters is refused only if it is `.git`, in letters of either case
/// or in characters whose numbers end with the bytes of those letters.
pub proof fn law_shown_names(rules: Rules, x: Seq<char>)
    requires
        rules.protect_hfs,
        !rules.protect_ntfs,
        name_storable(encode_utf8(x)),
        encode_utf8(x) != seq![46u8],
        encode_utf8(x) != seq![46u8, 46u8],
        forall|i: int|
            0 <= i < x.len() ==> {
                let u = (#[trigger] x[i]) as u32;
                !(0x200c <= u <= 0x200f || 0x202a <= u <= 0x202e || 0x206a <= u <= 0x206f || u
                    == 0xfeff)
            },
    ensures
        !name_ok(rules, encode_utf8(x)) <==> x.len() == 4 && x[0] == '.' && (x[1] as u32 % 256
            == 103 || x[1] == 'G') && (x[2] as u32 % 256 == 105 || x[2] == 'I') && (x[3] as u32
            % 256 == 116 || x[3] == 'T'),
{
    encode_utf8_decode_utf8(x);
    encode_utf8_valid_utf8(x);
    assert forall|i: int| 0 <= i < x.len() implies !hfs_ignores(#[trigger] x[i]) by {}
    lemma_hfs_start(x, x.len() as int, x.len() as int);
    assert(hfs_shown(x, x.len() as int) =~= x);
    if x.len() == 4 {
        lemma_low_byte(x[1]);
        lemma_low_byte(x[2]);
        lemma_low_byte(x[3]);
    }
}

/// Where names have to be safe on both kinds of file systems, those are accepted that are
/// accepted on each. A name that is no text is not taken for `.git` by one that ignores
/// characters.
pub proof fn law_both_rules(name: Seq<u8>)
    ensures
        name_ok(Rules { protect_ntfs: true, protect_hfs: true }, name) <==> name_ok(
            Rules { protect_ntfs: true, protect_hfs: false },
            name,
        ) && name_ok(Rules { protect_ntfs: false, protect_hfs: true }, name),
        !valid_utf8(name) ==> !is_hfs_git(name),
{
}

/// Which byte strings are accepted as names where they have to be safe on file systems that
/// know streams and short names, and where on none that takes other names for `.git`.
pub proof fn law_byte_names(name: Seq<u8>)
    requires
        name.len() > 0,
        name != seq![46u8],
        name != seq![46u8, 46u8],
        forall|i: int| 0 <= i < name.len() ==> #[trigger] name[i] != 47 && name[i] != 0,
    ensures
        ({
            let git = name.len() >= 4 && name[0] == 46 && (name[1] == 103 || name[1] == 71) && (
            name[2] == 105 || name[2] == 73) && (name[3] == 116 || name[3] == 84);
            let short = name.len() >= 5 && (name[0] == 103 || name[0] == 71) && (name[1] == 105
                || name[1] == 73) && (name[2] == 116 || name[2] == 84) && name[3] == 126 && name[4]
                == 49;
            &&& name_ok(Rules { protect_ntfs: false, protect_hfs: false }, name) <==> !(git
                && name.len() == 4)
            &&& name_ok(Rules { protect_ntfs: true, protect_hfs: false }, name) <==> !(git
                && dropped(name, 4)) && !(short && dropped(name, 5))
        }),
{
    let git = dot_git();
    let short = git_short();
    if name.len() >= 4 {
        assert(starts_ignoring_case(name, git) <==> lower(name[0]) == git[0] && lower(name[1])
            == git[1] && lower(name[2]) == git[2] && lower(name[3]) == git[3]);
    }
    if name.len() >= 5 {
        assert(starts_ignoring_case(name, short) <==> lower(name[0]) == short[0] && lower(name[1])
            == short[1] && lower(name[2]) == short[2] && lower(name[3]) == short[3] && lower(
            name[4],
        ) == short[4]);
    }
    assert(elided_after(name, 4) <==> dropped(name, 4));
    assert(elided_after(name, 5) <==> dropped(name, 5));
}

/// A colon or a backslash follows the first `k` bytes, or nothing but spaces and dots.
pub open spec fn dropped(name: Seq<u8>, k: int) -> bool {
    (k < name.len() && (name[k] == 58 || name[k] == 92)) || forall|i: int|
        k <= i < name.len() ==> #[trigger] name[i] == 32 || name[i] == 46
}

/// A name that is safe on more file systems is safe on fewer.
pub proof fn law_safer_names(rules: Rules, name: Seq<u8>)
    requires
        name_ok(Rules { protect_ntfs: true, protect_hfs: true }, name),
    ensures
        name_ok(rules, name),
{
    if !rules.protect_ntfs && !rules.protect_hfs && name.len() == 4 {
        assert(starts_ignoring_case(name, dot_git()) ==> is_ntfs_git(name));
    }
}

} // verus!
