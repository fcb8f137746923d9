//! Published versions.
use crate::cli::registry;
use crate::octets;
use crate::text;
use vstd::prelude::*;
use vstd::utf8::*;

verus! {

/// A version is older by its first number that differs: the major number counts before the minor
/// one, and that before the patch number.
pub proof fn the_first_different_number_decides(a: u64, b: u64, c: u64, x: u64, y: u64, z: u64)
    ensures
        a < x ==> registry::older((a, b, c), (x, y, z)) && !registry::older((x, y, z), (a, b, c)),
        b < y ==> registry::older((a, b, c), (a, y, z)) && !registry::older((a, y, z), (a, b, c)),
        registry::older((a, b, c), (a, b, z)) <==> c < z,
{
}

proof fn lemma_pieces_of_three(a: Seq<char>, b: Seq<char>, c: Seq<char>)
    requires
        !a.contains('.'),
        !b.contains('.'),
        !c.contains('.'),
    ensures
        text::char_pieces(a + "."@ + b + "."@ + c, '.') == seq![a, b, c],
{
    reveal_strlit(".");
    let s = a + "."@ + b + "."@ + c;
    let t = b + "."@ + c;
    lemma_split(a, t);
    lemma_split(b, c);
    assert(s =~= a.push('.') + t);
    assert(t =~= b.push('.') + c);
    assert forall|i: int| 0 <= i < c.len() implies c[i] != '.' by {
        assert(c.contains(c[i]));
    }
    text::lemma_char_at_is(c, '.', 0, c.len() as int);
    assert(text::char_pieces(c, '.') =~= seq![c]);
    assert(text::char_pieces(s, '.') =~= seq![a, b, c]);
}

proof fn lemma_split(a: Seq<char>, rest: Seq<char>)
    requires
        !a.contains('.'),
    ensures
        text::char_pieces(a.push('.') + rest, '.') == seq![a] + text::char_pieces(rest, '.'),
{
    let s = a.push('.') + rest;
    assert forall|i: int| 0 <= i < a.len() implies s[i] != '.' by {
        assert(s[i] == a[i]);
        assert(a.contains(a[i]));
    }
    assert(s[a.len() as int] == '.');
    text::lemma_char_at_is(s, '.', 0, a.len() as int);
    assert(s.subrange(0, a.len() as int) =~= a);
    assert(s.subrange(a.len() as int + 1, s.len() as int) =~= rest);
}

proof fn lemma_number(n: u64)
    ensures
        registry::number_of(text::number_text(n as nat)) == Some(n),
        !text::number_text(n as nat).contains('.'),
{
    let d = octets::digits_of(n as nat);
    let t = text::number_text(n as nat);
    octets::lemma_digits_of(n as nat);
    assert forall|i: int| 0 <= i < d.len() implies octets::is_digit(#[trigger] d[i]) && t[i] != '.'
        && (t[i] as u32) < 128 by {}
    assert(is_ascii_chars(t));
    is_ascii_chars_encode_utf8(t);
    assert(octets::octets(t) =~= d);
    if t.contains('.') {
        let i = choose|i: int| 0 <= i < t.len() && t[i] == '.';
        assert(octets::is_digit(d[i]));
    }
}

/// Three numbers written in decimal with dots between them read back as the version of the three.
pub proof fn a_written_version_reads_back(a: u64, b: u64, c: u64)
    ensures
        registry::semver_of(
            text::number_text(a as nat) + "."@ + text::number_text(b as nat) + "."@
                + text::number_text(c as nat),
        ) == Some((a, b, c)),
{
    lemma_number(a);
    lemma_number(b);
    lemma_number(c);
    lemma_pieces_of_three(
        text::number_text(a as nat),
        text::number_text(b as nat),
        text::number_text(c as nat),
    );
}

/// Only digits and two dots spell a version, so that a version with a name behind it, or with a
/// letter before it, is none.
pub proof fn a_version_holds_digits_and_dots_only(tag: Seq<char>, i: int)
    requires
        registry::semver_of(tag) is Some,
        0 <= i < tag.len(),
    ensures
        tag[i] == '.' || '0' <= tag[i] <= '9',
{
    let p = text::char_pieces(tag, '.');
    assert forall|k: int| 0 <= k < p.len() implies registry::number_of(#[trigger] p[k]) is Some by {}
    lemma_number_pieces(tag, i);
}

proof fn lemma_number_pieces(s: Seq<char>, i: int)
    requires
        forall|k: int|
            0 <= k < text::char_pieces(s, '.').len() ==> registry::number_of(
                #[trigger] text::char_pieces(s, '.')[k],
            ) is Some,
        0 <= i < s.len(),
    ensures
        s[i] == '.' || '0' <= s[i] <= '9',
    decreases s.len(),
{
    let p = text::char_pieces(s, '.');
    let at = text::char_at(s, '.', 0);
    let first = if 0 <= at < s.len() {
        s.subrange(0, at)
    } else {
        s
    };
    assert(p[0] == first);
    assert(registry::number_of(p[0]) is Some);
    is_ascii_chars_encode_utf8(first);
    let b = octets::octets(first);
    if 0 <= at < s.len() {
        lemma_found(s, 0);
        if i < at {
            assert(first[i] == s[i]);
            assert(octets::is_digit(b[i]));
        } else if i > at {
            let rest = s.subrange(at + 1, s.len() as int);
            assert(p == seq![first] + text::char_pieces(rest, '.'));
            assert forall|k: int| 0 <= k < text::char_pieces(rest, '.').len() implies
                registry::number_of(#[trigger] text::char_pieces(rest, '.')[k]) is Some by {
                assert(p[k + 1] == text::char_pieces(rest, '.')[k]);
            }
            lemma_number_pieces(rest, i - at - 1);
        }
    } else {
        assert(octets::is_digit(b[i]));
    }
}

proof fn lemma_found(s: Seq<char>, from: int)
    requires
        0 <= from <= s.len(),
    ensures
        from <= text::char_at(s, '.', from) <= s.len(),
        text::char_at(s, '.', from) < s.len() ==> s[text::char_at(s, '.', from)] == '.',
    decreases s.len() - from,
{
    if from < s.len() && s[from] != '.' {
        lemma_found(s, from + 1);
    }
}

} // verus!
