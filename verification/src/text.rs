//! Text as sequences of characters: white space, trimming, lines and words.
use crate::octets;
use vstd::prelude::*;
use vstd::slice::slice_subrange;
use vstd::string::*;
use vstd::utf8::*;

verus! {

/// `String::push`: the character is appended to the end of the string.
pub assume_specification[ String::push ](s: &mut String, c: char)
    ensures
        final(s)@ == old(s)@.push(c),
;

/// `String::from_utf8`: the vector's octets as a string, without copying, where they are valid
/// UTF-8 throughout; nothing is handed back where they are not.
#[verifier::external_body]
pub(crate) fn from_utf8(bytes: Vec<u8>) -> (r: Option<String>)
    ensures
        match r {
            Some(s) => valid_utf8(bytes@) && octets::octets(s@) == bytes@,
            None => !valid_utf8(bytes@),
        },
{
    String::from_utf8(bytes).ok()
}

/// The characters with the Unicode property `White_Space`.
pub open spec fn white_space(c: char) -> bool {
    ||| '\u{9}' <= c <= '\u{d}'
    ||| c == ' '
    ||| c == '\u{85}'
    ||| c == '\u{a0}'
    ||| c == '\u{1680}'
    ||| '\u{2000}' <= c <= '\u{200a}'
    ||| c == '\u{2028}'
    ||| c == '\u{2029}'
    ||| c == '\u{202f}'
    ||| c == '\u{205f}'
    ||| c == '\u{3000}'
}

/// Without white space at the front.
pub open spec fn trim_start(s: Seq<char>) -> Seq<char>
    decreases s.len(),
{
    if s.len() > 0 && white_space(s[0]) {
        trim_start(s.drop_first())
    } else {
        s
    }
}

/// Without white space at the end.
pub open spec fn trim_end(s: Seq<char>) -> Seq<char>
    decreases s.len(),
{
    if s.len() > 0 && white_space(s.last()) {
        trim_end(s.drop_last())
    } else {
        s
    }
}

/// Without white space at either end.
pub open spec fn trim(s: Seq<char>) -> Seq<char> {
    trim_end(trim_start(s))
}

/// Neither the first nor the last character is white space.
pub open spec fn trimmed(s: Seq<char>) -> bool {
    s.len() > 0 ==> !white_space(s[0]) && !white_space(s.last())
}

/// The index of the first `c` at or after `from`, or the length where there is none.
pub open spec fn char_at(s: Seq<char>, c: char, from: int) -> int
    decreases s.len() - from,
{
    if from < 0 || from >= s.len() {
        s.len() as int
    } else if s[from] == c {
        from
    } else {
        char_at(s, c, from + 1)
    }
}

/// A line without the carriage return that ends it, if any.
pub open spec fn without_return(s: Seq<char>) -> Seq<char> {
    if s.len() > 0 && s.last() == '\r' {
        s.drop_last()
    } else {
        s
    }
}

/// The lines of a text. A line ends at a line feed, and a carriage return before that line feed
/// belongs to the ending; the last line may lack an ending.
pub open spec fn lines(s: Seq<char>) -> Seq<Seq<char>>
    decreases s.len(),
{
    let at = char_at(s, '\n', 0);
    if s.len() == 0 {
        Seq::empty()
    } else if 0 <= at < s.len() {
        seq![without_return(s.subrange(0, at))] + lines(s.subrange(at + 1, s.len() as int))
    } else {
        seq![s]
    }
}

/// The length of the run of characters that are not white space from index `i` on.
pub open spec fn word_end(s: Seq<char>, i: int) -> int
    decreases s.len() - i,
{
    if i < 0 || i >= s.len() || white_space(s[i]) {
        i
    } else {
        word_end(s, i + 1)
    }
}

/// The words of a text: its longest runs of characters that are not white space.
pub open spec fn words(s: Seq<char>) -> Seq<Seq<char>>
    decreases s.len(),
{
    if s.len() == 0 {
        Seq::empty()
    } else if white_space(s[0]) {
        words(s.drop_first())
    } else {
        let end = word_end(s, 0);
        if 0 < end <= s.len() {
            seq![s.subrange(0, end)] + words(s.subrange(end, s.len() as int))
        } else {
            Seq::empty()
        }
    }
}

/// The texts that a sequence of vectors holds.
pub open spec fn texts(s: Seq<Vec<char>>) -> Seq<Seq<char>> {
    Seq::new(s.len(), |i: int| s[i]@)
}

pub proof fn lemma_char_at_is(s: Seq<char>, c: char, from: int, at: int)
    requires
        0 <= from <= at <= s.len(),
        forall|i: int| from <= i < at ==> s[i] != c,
        at < s.len() ==> s[at] == c,
    ensures
        char_at(s, c, from) == at,
    decreases at - from,
{
    if from < at {
        lemma_char_at_is(s, c, from + 1, at);
    }
}

proof fn lemma_word_end_shift(s: Seq<char>, start: int, i: int)
    requires
        0 <= start <= s.len(),
        0 <= i,
    ensures
        word_end(s, start + i) == start + word_end(s.subrange(start, s.len() as int), i),
        word_end(s, start + i) >= start + i,
        start + i <= s.len() ==> word_end(s, start + i) <= s.len(),
    decreases s.len() - start - i,
{
    let t = s.subrange(start, s.len() as int);
    if start + i < s.len() && !white_space(s[start + i]) {
        lemma_word_end_shift(s, start, i + 1);
        assert(t[i] == s[start + i]);
    } else if start + i < s.len() {
        assert(t[i] == s[start + i]);
    }
}

/// Trimming leaves a trimmed text, and a trimmed text as it is.
pub proof fn lemma_trim(s: Seq<char>)
    ensures
        trimmed(trim(s)),
        trimmed(s) ==> trim(s) == s,
    decreases s.len(),
{
    lemma_trim_start(s);
    lemma_trim_end(trim_start(s));
}

proof fn lemma_trim_start(s: Seq<char>)
    ensures
        trim_start(s).len() > 0 ==> !white_space(trim_start(s)[0]),
    decreases s.len(),
{
    if s.len() > 0 && white_space(s[0]) {
        lemma_trim_start(s.drop_first());
    }
}

proof fn lemma_trim_end(s: Seq<char>)
    ensures
        trim_end(s).len() > 0 ==> !white_space(trim_end(s).last()) && trim_end(s)[0] == s[0],
    decreases s.len(),
{
    if s.len() > 0 && white_space(s.last()) {
        lemma_trim_end(s.drop_last());
    }
}

pub fn is_whitespace(c: char) -> (r: bool)
    ensures
        r == white_space(c),
{
    (c >= '\u{9}' && c <= '\u{d}') || c == ' ' || c == '\u{85}' || c == '\u{a0}' || c == '\u{1680}'
        || (c >= '\u{2000}' && c <= '\u{200a}') || c == '\u{2028}' || c == '\u{2029}' || c
        == '\u{202f}' || c == '\u{205f}' || c == '\u{3000}'
}

/// The characters of a string slice.
pub fn characters(s: &str) -> (r: Vec<char>)
    ensures
        r@ == s@,
{
    let mut out: Vec<char> = Vec::new();
    for c in it: s.chars()
        invariant
            out@ == s@.take(it.index() as int),
            it.seq() == s@,
    {
        out.push(c);
        assert(s@.take(it.index() as int + 1) =~= s@.take(it.index() as int).push(c));
    }
    assert(s@.take(s@.len() as int) =~= s@);
    out
}

/// The characters as a string.
pub fn string_of(s: &[char]) -> (r: String)
    ensures
        r@ == s@,
{
    let mut out = String::new();
    let mut i: usize = 0;
    while i < s.len()
        invariant
            i <= s.len(),
            out@ == s@.take(i as int),
        decreases s.len() - i,
    {
        out.push(s[i]);
        i += 1;
        assert(s@.take(i as int) =~= s@.take(i - 1).push(s@[i - 1]));
    }
    assert(s@.take(i as int) =~= s@);
    out
}

/// The characters without white space at either end.
pub fn trim_chars(s: &[char]) -> (r: &[char])
    ensures
        r@ == trim(s@),
{
    let mut start: usize = 0;
    assert(s@.subrange(0, s@.len() as int) =~= s@);
    while start < s.len() && is_whitespace(s[start])
        invariant
            start <= s.len(),
            trim_start(s@) == trim_start(s@.subrange(start as int, s@.len() as int)),
        decreases s.len() - start,
    {
        assert(s@.subrange(start as int, s@.len() as int).drop_first() =~= s@.subrange(
            start + 1,
            s@.len() as int,
        ));
        start += 1;
    }
    let mut end: usize = s.len();
    assert(trim_start(s@) == s@.subrange(start as int, s@.len() as int));
    while end > start && is_whitespace(s[end - 1])
        invariant
            start <= end <= s.len(),
            trim(s@) == trim_end(s@.subrange(start as int, end as int)),
        decreases end,
    {
        assert(s@.subrange(start as int, end as int).drop_last() =~= s@.subrange(
            start as int,
            end - 1,
        ));
        end -= 1;
    }
    slice_subrange(s, start, end)
}

pub fn copy_chars(s: &[char], from: usize, to: usize) -> (r: Vec<char>)
    requires
        from <= to <= s@.len(),
    ensures
        r@ == s@.subrange(from as int, to as int),
{
    let mut out: Vec<char> = Vec::new();
    let mut i: usize = from;
    while i < to
        invariant
            from <= i <= to <= s@.len(),
            out@ == s@.subrange(from as int, i as int),
        decreases to - i,
    {
        out.push(s[i]);
        i += 1;
        assert(s@.subrange(from as int, i as int) =~= s@.subrange(from as int, i - 1).push(
            s@[i - 1],
        ));
    }
    out
}

/// The lines of a text.
pub fn split_lines(s: &[char]) -> (r: Vec<Vec<char>>)
    ensures
        texts(r@) == lines(s@),
{
    let mut out: Vec<Vec<char>> = Vec::new();
    let mut start: usize = 0;
    proof {
        assert(s@.subrange(0, s@.len() as int) =~= s@);
        assert(texts(out@) + lines(s@) =~= lines(s@));
    }
    while start < s.len()
        invariant
            start <= s@.len(),
            texts(out@) + lines(s@.subrange(start as int, s@.len() as int)) == lines(s@),
        decreases s@.len() - start,
    {
        let ghost rest = s@.subrange(start as int, s@.len() as int);
        let ghost was = out@;
        let at: usize = find_char(s, '\n', start);
        proof {
            lemma_char_at_is(rest, '\n', 0, at - start);
        }
        if at == s.len() {
            out.push(copy_chars(s, start, at));
            proof {
                assert(texts(out@) =~= texts(was).push(rest));
                assert(texts(out@) =~= texts(was) + lines(rest));
                assert(s@.subrange(at as int, s@.len() as int) =~= Seq::empty());
                assert(texts(out@) + lines(Seq::empty()) =~= texts(out@));
            }
            start = at;
        } else {
            let end: usize = if at > start && s[at - 1] == '\r' {
                at - 1
            } else {
                at
            };
            out.push(copy_chars(s, start, end));
            proof {
                let line = rest.subrange(0, at - start);
                let next = s@.subrange(at + 1, s@.len() as int);
                assert(s@.subrange(start as int, end as int) =~= without_return(line));
                assert(rest.subrange(at - start + 1, rest.len() as int) =~= next);
                assert(texts(out@) =~= texts(was).push(without_return(line)));
                assert(texts(out@) + lines(next) =~= texts(was) + lines(rest));
            }
            start = at + 1;
        }
    }
    proof {
        assert(s@.subrange(start as int, s@.len() as int) =~= Seq::empty());
        assert(texts(out@) + lines(Seq::empty()) =~= texts(out@));
    }
    out
}

/// The words of a text.
pub fn split_words(s: &[char]) -> (r: Vec<Vec<char>>)
    ensures
        texts(r@) == words(s@),
{
    let mut out: Vec<Vec<char>> = Vec::new();
    let mut start: usize = 0;
    proof {
        assert(s@.subrange(0, s@.len() as int) =~= s@);
        assert(texts(out@) + words(s@) =~= words(s@));
    }
    while start < s.len()
        invariant
            start <= s@.len(),
            texts(out@) + words(s@.subrange(start as int, s@.len() as int)) == words(s@),
        decreases s@.len() - start,
    {
        let ghost rest = s@.subrange(start as int, s@.len() as int);
        assert(rest[0] == s@[start as int]);
        if is_whitespace(s[start]) {
            assert(rest.drop_first() =~= s@.subrange(start + 1, s@.len() as int));
            start += 1;
        } else {
            let mut end: usize = start;
            while end < s.len() && !is_whitespace(s[end])
                invariant
                    start <= end <= s@.len(),
                    word_end(s@, start as int) == word_end(s@, end as int),
                decreases s@.len() - end,
            {
                end += 1;
            }
            let ghost was = out@;
            out.push(copy_chars(s, start, end));
            proof {
                lemma_word_end_shift(s@, start as int, 0);
                let next = s@.subrange(end as int, s@.len() as int);
                assert(word_end(rest, 0) == end - start);
                assert(end > start) by {
                    assert(word_end(s@, start as int) == word_end(s@, start + 1));
                    lemma_word_end_shift(s@, start + 1, 0);
                }
                assert(rest.subrange(0, end - start) =~= s@.subrange(start as int, end as int));
                assert(rest.subrange(end - start, rest.len() as int) =~= next);
                assert(texts(out@) =~= texts(was).push(rest.subrange(0, end - start)));
                assert(texts(out@) + words(next) =~= texts(was) + words(rest));
            }
            start = end;
        }
    }
    proof {
        assert(s@.subrange(start as int, s@.len() as int) =~= Seq::empty());
        assert(texts(out@) + words(Seq::empty()) =~= texts(out@));
    }
    out
}

proof fn lemma_least_char(c: char)
    ensures
        '\0' <= c,
{
}

/// The octets of a text that is ASCII throughout.
pub fn ascii_octets(s: &[char]) -> (r: Option<Vec<u8>>)
    ensures
        match r {
            Some(v) => is_ascii_chars(s@) && v@ == octets::octets(s@) && octets::is_ascii(v@)
                && v@.len() == s@.len() && forall|i: int|
                0 <= i < s@.len() ==> #[trigger] v@[i] == s@[i] as u8,
            None => !is_ascii_chars(s@),
        },
{
    let mut out: Vec<u8> = Vec::new();
    let mut i: usize = 0;
    while i < s.len()
        invariant
            i <= s.len(),
            out@.len() == i,
            forall|j: int| 0 <= j < i ==> #[trigger] s@[j] <= '\u{7f}',
            forall|j: int| 0 <= j < i ==> #[trigger] out@[j] == s@[j] as u8,
        decreases s.len() - i,
    {
        let c: char = s[i];
        if !(c <= '\u{7f}') {
            return None;
        }
        out.push(c as u8);
        i += 1;
    }
    proof {
        assert(is_ascii_chars(s@)) by {
            assert forall|j: int| 0 <= j < s@.len() implies '\0' <= #[trigger] s@[j] <= '\u{7f}' by {
                lemma_least_char(s@[j]);
            }
        }
        is_ascii_chars_encode_utf8(s@);
        assert(out@ =~= octets::octets(s@));
    }
    Some(out)
}

/// A number in decimal as text.
pub open spec fn number_text(n: nat) -> Seq<char> {
    octets::ascii_chars(octets::digits_of(n))
}

pub fn number(n: u64) -> (r: String)
    ensures
        r@ == number_text(n as nat),
{
    proof {
        octets::lemma_digits_of(n as nat);
    }
    octets::ascii_text(octets::render_decimal(n).as_slice())
}

pub fn extend(out: &mut String, s: &str)
    ensures
        final(out)@ == old(out)@ + s@,
{
    out.append(s)
}

/// The two texts hold the same characters.
pub fn same_chars(a: &[char], b: &[char]) -> (r: bool)
    ensures
        r == (a@ == b@),
{
    if a.len() != b.len() {
        return false;
    }
    let mut i: usize = 0;
    while i < a.len()
        invariant
            i <= a.len(),
            a.len() == b.len(),
            forall|j: int| 0 <= j < i ==> a@[j] == b@[j],
        decreases a.len() - i,
    {
        if a[i] != b[i] {
            return false;
        }
        i += 1;
    }
    assert(a@ =~= b@);
    true
}

/// The two string slices hold the same characters.
pub fn same_text(a: &str, b: &str) -> (r: bool)
    ensures
        r == (a@ == b@),
{
    let r: bool = octets::equal(a.as_bytes(), b.as_bytes());
    proof {
        encode_utf8_decode_utf8(a@);
        encode_utf8_decode_utf8(b@);
    }
    r
}

/// The pieces of a text between occurrences of `sep`.
pub open spec fn char_pieces(s: Seq<char>, sep: char) -> Seq<Seq<char>>
    decreases s.len(),
{
    let at = char_at(s, sep, 0);
    if 0 <= at < s.len() {
        seq![s.subrange(0, at)] + char_pieces(s.subrange(at + 1, s.len() as int), sep)
    } else {
        seq![s]
    }
}

/// The index of the first `c` at or after `from`, or the length.
pub fn find_char(s: &[char], c: char, from: usize) -> (r: usize)
    requires
        from <= s@.len(),
    ensures
        r == char_at(s@, c, from as int),
        from <= r <= s@.len(),
        forall|j: int| from <= j < r ==> s@[j] != c,
        r < s@.len() ==> s@[r as int] == c,
{
    let mut i: usize = from;
    while i < s.len()
        invariant
            from <= i <= s.len(),
            forall|j: int| from <= j < i ==> s@[j] != c,
        decreases s.len() - i,
    {
        if s[i] == c {
            proof {
                lemma_char_at_is(s@, c, from as int, i as int);
            }
            return i;
        }
        i += 1;
    }
    proof {
        lemma_char_at_is(s@, c, from as int, i as int);
    }
    i
}

/// The text holds the character.
pub fn has_char(s: &[char], c: char) -> (r: bool)
    ensures
        r == s@.contains(c),
{
    let at: usize = find_char(s, c, 0);
    if at < s.len() {
        assert(s@[at as int] == c);
        true
    } else {
        false
    }
}

/// The pieces of a text between occurrences of `sep`.
pub fn split_chars(s: &[char], sep: char) -> (r: Vec<Vec<char>>)
    ensures
        texts(r@) == char_pieces(s@, sep),
        r@.len() >= 1,
{
    let mut out: Vec<Vec<char>> = Vec::new();
    let mut start: usize = 0;
    proof {
        assert(s@.subrange(0, s@.len() as int) =~= s@);
        assert(texts(out@) + char_pieces(s@, sep) =~= char_pieces(s@, sep));
    }
    loop
        invariant
            start <= s@.len(),
            texts(out@) + char_pieces(s@.subrange(start as int, s@.len() as int), sep)
                == char_pieces(s@, sep),
        decreases s@.len() - start,
    {
        let ghost rest = s@.subrange(start as int, s@.len() as int);
        let at: usize = find_char(s, sep, start);
        let ghost was = out@;
        out.push(copy_chars(s, start, at));
        proof {
            lemma_char_at_is(rest, sep, 0, at - start);
            assert(texts(out@) =~= texts(was).push(s@.subrange(start as int, at as int)));
            assert(rest.subrange(0, at - start) =~= s@.subrange(start as int, at as int));
        }
        if at == s.len() {
            proof {
                assert(s@.subrange(start as int, at as int) =~= rest);
                assert(char_pieces(rest, sep) =~= seq![rest]);
                assert(texts(out@) =~= texts(was) + char_pieces(rest, sep));
            }
            return out;
        }
        proof {
            let next = s@.subrange(at + 1, s@.len() as int);
            assert(rest.subrange(at - start + 1, rest.len() as int) =~= next);
            assert(char_pieces(rest, sep) == seq![rest.subrange(0, at - start)] + char_pieces(
                next,
                sep,
            ));
            assert(texts(out@) + char_pieces(next, sep) =~= texts(was) + char_pieces(rest, sep));
        }
        start = at + 1;
    }
}

/// A copy of a text.
pub fn copy_text(s: &str) -> (r: String)
    ensures
        r@ == s@,
{
    string_of(characters(s).as_slice())
}

/// The needle stands at the index.
pub open spec fn occurs_at(s: Seq<char>, needle: Seq<char>, i: int) -> bool {
    0 <= i && i + needle.len() <= s.len() && s.subrange(i, i + needle.len()) == needle
}

/// The text begins with the prefix.
pub open spec fn begins_with(s: Seq<char>, prefix: Seq<char>) -> bool {
    prefix.len() <= s.len() && s.subrange(0, prefix.len() as int) == prefix
}

/// Whether a text begins with a prefix.
pub fn starts_with(s: &[char], prefix: &str) -> (r: bool)
    ensures
        r == begins_with(s@, prefix@),
{
    let p: Vec<char> = characters(prefix);
    p.len() <= s.len() && same_chars(slice_subrange(s, 0, p.len()), p.as_slice())
}

/// The first text stands before the second: at the first character in which they differ it has
/// the smaller one, or it ends first.
pub open spec fn precedes(a: Seq<char>, b: Seq<char>) -> bool
    decreases a.len(),
{
    if b.len() == 0 {
        false
    } else if a.len() == 0 {
        true
    } else if a[0] != b[0] {
        a[0] < b[0]
    } else {
        precedes(a.drop_first(), b.drop_first())
    }
}

/// Whether the first text stands before the second.
pub fn before(a: &[char], b: &[char]) -> (r: bool)
    ensures
        r == precedes(a@, b@),
{
    let mut i: usize = 0;
    assert(a@.skip(0) =~= a@);
    assert(b@.skip(0) =~= b@);
    while i < a.len() && i < b.len()
        invariant
            i <= a@.len(),
            i <= b@.len(),
            precedes(a@, b@) == precedes(a@.skip(i as int), b@.skip(i as int)),
        decreases a@.len() - i,
    {
        if a[i] != b[i] {
            return a[i] < b[i];
        }
        proof {
            assert(a@.skip(i as int).drop_first() =~= a@.skip(i + 1));
            assert(b@.skip(i as int).drop_first() =~= b@.skip(i + 1));
        }
        i += 1;
    }
    i < b.len()
}

/// The order of texts is irreflexive, transitive and total.
pub proof fn lemma_precedes(a: Seq<char>, b: Seq<char>, c: Seq<char>)
    ensures
        !precedes(a, a),
        precedes(a, b) && precedes(b, c) ==> precedes(a, c),
        precedes(a, b) || precedes(b, a) || a == b,
        !(precedes(a, b) && precedes(b, a)),
    decreases a.len() + b.len() + c.len(),
{
    if a.len() > 0 && b.len() > 0 && c.len() > 0 {
        lemma_precedes(a.drop_first(), b.drop_first(), c.drop_first());
        if a[0] == b[0] && a.drop_first() == b.drop_first() {
            assert(a =~= seq![a[0]] + a.drop_first());
            assert(b =~= seq![b[0]] + b.drop_first());
        }
    } else if a.len() > 0 && b.len() > 0 {
        lemma_precedes(a.drop_first(), b.drop_first(), c);
        if a[0] == b[0] && a.drop_first() == b.drop_first() {
            assert(a =~= seq![a[0]] + a.drop_first());
            assert(b =~= seq![b[0]] + b.drop_first());
        }
    } else if a.len() > 0 {
        lemma_precedes(a.drop_first(), b, c);
    } else {
        assert(a =~= Seq::empty());
        if b.len() == 0 {
            assert(b =~= Seq::empty());
        }
    }
}

} // verus!
