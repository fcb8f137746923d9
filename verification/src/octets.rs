//! Octet strings: ASCII character classes, searching, case folding and decimal numbers.
use vstd::prelude::*;
use vstd::slice::{slice_subrange, slice_to_vec};
use vstd::utf8::*;

verus! {

/// The octets of a piece of text: its UTF-8 encoding.
pub open spec fn octets(text: Seq<char>) -> Seq<u8> {
    encode_utf8(text)
}

/// The characters of an ASCII octet string, one for each octet.
pub open spec fn ascii_chars(s: Seq<u8>) -> Seq<char> {
    Seq::new(s.len(), |i: int| s[i] as char)
}

/// Every octet is an ASCII code.
pub open spec fn is_ascii(s: Seq<u8>) -> bool {
    forall|i: int| 0 <= i < s.len() ==> #[trigger] s[i] < 128
}

pub open spec fn is_digit(b: u8) -> bool {
    '0' as u8 <= b <= '9' as u8
}

pub open spec fn is_alpha(b: u8) -> bool {
    ||| 'a' as u8 <= b <= 'z' as u8
    ||| 'A' as u8 <= b <= 'Z' as u8
}

pub open spec fn is_alnum(b: u8) -> bool {
    is_alpha(b) || is_digit(b)
}

pub open spec fn is_hex(b: u8) -> bool {
    ||| is_digit(b)
    ||| 'a' as u8 <= b <= 'f' as u8
    ||| 'A' as u8 <= b <= 'F' as u8
}

/// The value of one hexadecimal digit, of either case.
pub open spec fn hex_digit(b: u8) -> nat {
    if is_digit(b) {
        (b - '0' as u8) as nat
    } else if 'a' as u8 <= b <= 'f' as u8 {
        (b - 'a' as u8 + 10) as nat
    } else {
        (b - 'A' as u8 + 10) as nat
    }
}

/// ASCII white space: space, tab, line feed, form feed and carriage return.
pub open spec fn is_white(b: u8) -> bool {
    b == 32 || b == 9 || b == 10 || b == 12 || b == 13
}

/// An ASCII control character.
pub open spec fn is_control(b: u8) -> bool {
    b < 32 || b == 127
}

/// One octet with ASCII upper case folded to lower case.
pub open spec fn lower_octet(b: u8) -> u8 {
    if 'A' as u8 <= b <= 'Z' as u8 {
        (b + 32) as u8
    } else {
        b
    }
}

/// An octet string with ASCII upper case folded to lower case.
pub open spec fn lower(s: Seq<u8>) -> Seq<u8> {
    Seq::new(s.len(), |i: int| lower_octet(s[i]))
}

pub open spec fn all_digits(s: Seq<u8>) -> bool {
    forall|i: int| 0 <= i < s.len() ==> is_digit(#[trigger] s[i])
}

/// The index of the first `b` at or after `from`, or the length where there is none.
pub open spec fn first_at(s: Seq<u8>, b: u8, from: int) -> int
    decreases s.len() - from,
{
    if from < 0 || from >= s.len() {
        s.len() as int
    } else if s[from] == b {
        from
    } else {
        first_at(s, b, from + 1)
    }
}

/// The index of the last `b` before `end`, or -1 where there is none.
pub open spec fn last_before(s: Seq<u8>, b: u8, end: int) -> int
    decreases end,
{
    if end <= 0 || end > s.len() {
        -1
    } else if s[end - 1] == b {
        end - 1
    } else {
        last_before(s, b, end - 1)
    }
}

/// The pieces of `s` between occurrences of `sep`, in order. There is always at least one.
pub open spec fn pieces(s: Seq<u8>, sep: u8) -> Seq<Seq<u8>>
    decreases s.len(),
{
    let at = first_at(s, sep, 0);
    if 0 <= at < s.len() {
        seq![s.subrange(0, at)] + pieces(s.subrange(at + 1, s.len() as int), sep)
    } else {
        seq![s]
    }
}

/// The number that a string of decimal digits denotes.
pub open spec fn decimal(s: Seq<u8>) -> nat
    decreases s.len(),
{
    if s.len() == 0 {
        0
    } else {
        decimal(s.drop_last()) * 10 + (s.last() - '0' as u8) as nat
    }
}

/// The decimal digits of `n`, without leading zeros.
pub open spec fn digits_of(n: nat) -> Seq<u8>
    decreases n,
{
    if n < 10 {
        seq![(n + 48) as u8]
    } else {
        digits_of(n / 10).push((n % 10 + 48) as u8)
    }
}

pub proof fn lemma_first_at(s: Seq<u8>, b: u8, from: int)
    requires
        0 <= from <= s.len(),
    ensures
        from <= first_at(s, b, from) <= s.len(),
        forall|i: int| from <= i < first_at(s, b, from) ==> s[i] != b,
        first_at(s, b, from) < s.len() ==> s[first_at(s, b, from)] == b,
    decreases s.len() - from,
{
    if from < s.len() && s[from] != b {
        lemma_first_at(s, b, from + 1);
    }
}

/// The first index is the one index that holds `b` with none before it.
pub proof fn lemma_first_at_is(s: Seq<u8>, b: u8, from: int, at: int)
    requires
        0 <= from <= at <= s.len(),
        forall|i: int| from <= i < at ==> s[i] != b,
        at < s.len() ==> s[at] == b,
    ensures
        first_at(s, b, from) == at,
    decreases at - from,
{
    if from < at {
        lemma_first_at_is(s, b, from + 1, at);
    }
}

pub proof fn lemma_last_before(s: Seq<u8>, b: u8, end: int)
    requires
        0 <= end <= s.len(),
    ensures
        -1 <= last_before(s, b, end) < end || last_before(s, b, end) == -1,
        forall|i: int| last_before(s, b, end) < i < end ==> s[i] != b,
        last_before(s, b, end) >= 0 ==> s[last_before(s, b, end)] == b,
    decreases end,
{
    if end > 0 && s[end - 1] != b {
        lemma_last_before(s, b, end - 1);
    }
}

pub proof fn lemma_last_before_is(s: Seq<u8>, b: u8, end: int, at: int)
    requires
        -1 <= at,
        at < end <= s.len() || (at == -1 && end == 0),
        forall|i: int| at < i < end ==> s[i] != b,
        at >= 0 ==> s[at] == b,
    ensures
        last_before(s, b, end) == at,
    decreases end,
{
    if end > 0 && at < end - 1 {
        lemma_last_before_is(s, b, end - 1, at);
    }
}

pub proof fn lemma_decimal_prefix(s: Seq<u8>, i: int)
    requires
        all_digits(s),
        0 <= i <= s.len(),
    ensures
        decimal(s.subrange(0, i)) <= decimal(s),
    decreases s.len(),
{
    if i == s.len() {
        assert(s.subrange(0, i) =~= s);
    } else {
        lemma_decimal_prefix(s.drop_last(), i);
        assert(s.drop_last().subrange(0, i) =~= s.subrange(0, i));
    }
}

/// The digits of a number denote it, begin with a zero only for zero itself, and are digits.
pub proof fn lemma_digits_of(n: nat)
    ensures
        all_digits(digits_of(n)),
        digits_of(n).len() >= 1,
        decimal(digits_of(n)) == n,
        digits_of(n)[0] == '0' as u8 ==> n == 0,
        n < 10 <==> digits_of(n).len() == 1,
    decreases n,
{
    if n >= 10 {
        lemma_digits_of(n / 10);
        assert(digits_of(n).drop_last() =~= digits_of(n / 10));
    } else {
        let s = digits_of(n);
        assert(s.drop_last() =~= Seq::<u8>::empty());
        assert(decimal(s.drop_last()) == 0);
        assert(s.last() == n + 48);
    }
}

/// The number of digits of a number below a power of ten.
pub proof fn lemma_digits_len(n: nat)
    ensures
        n < 100 ==> digits_of(n).len() <= 2,
        n < 1000 ==> digits_of(n).len() <= 3,
        n < 10000 ==> digits_of(n).len() <= 4,
        n < 100000 ==> digits_of(n).len() <= 5,
        n < 0x1_0000_0000_0000_0000 ==> digits_of(n).len() <= 20,
{
    reveal_with_fuel(digits_of, 21);
}

/// Two octet strings hold the same octets.
pub fn equal(a: &[u8], b: &[u8]) -> (r: bool)
    ensures
        r == (a@ == b@),
{
    if a.len() != b.len() {
        return false;
    }
    let mut i: usize = 0;
    while i < a.len()
        invariant
            i <= a.len(),
            a.len() == b.len(),
            forall|j: int| 0 <= j < i ==> a@[j] == b@[j],
        decreases a.len() - i,
    {
        if a[i] != b[i] {
            return false;
        }
        i += 1;
    }
    assert(a@ =~= b@);
    true
}

/// An octet string is the given text.
pub fn is_text(a: &[u8], text: &str) -> (r: bool)
    ensures
        r == (a@ == octets(text@)),
{
    equal(a, text.as_bytes())
}

pub fn copy(s: &[u8]) -> (r: Vec<u8>)
    ensures
        r@ == s@,
{
    slice_to_vec(s)
}

/// The octets of `s` from `from` up to, not including, `to`.
pub fn part(s: &[u8], from: usize, to: usize) -> (r: &[u8])
    requires
        from <= to <= s@.len(),
    ensures
        r@ == s@.subrange(from as int, to as int),
{
    slice_subrange(s, from, to)
}

pub fn append(out: &mut Vec<u8>, s: &[u8])
    ensures
        final(out)@ == old(out)@ + s@,
{
    let ghost before = out@;
    out.extend_from_slice(s);
    assert(out@ =~= before + s@);
}

pub fn append_text(out: &mut Vec<u8>, text: &str)
    ensures
        final(out)@ == old(out)@ + octets(text@),
{
    append(out, text.as_bytes());
}

pub fn digit(b: u8) -> (r: bool)
    ensures
        r == is_digit(b),
{
    b >= '0' as u8 && b <= '9' as u8
}

pub fn alpha(b: u8) -> (r: bool)
    ensures
        r == is_alpha(b),
{
    (b >= 'a' as u8 && b <= 'z' as u8) || (b >= 'A' as u8 && b <= 'Z' as u8)
}

pub fn alnum(b: u8) -> (r: bool)
    ensures
        r == is_alnum(b),
{
    alpha(b) || digit(b)
}

pub fn hex(b: u8) -> (r: bool)
    ensures
        r == is_hex(b),
{
    digit(b) || (b >= 'a' as u8 && b <= 'f' as u8) || (b >= 'A' as u8 && b <= 'F' as u8)
}

pub fn to_lower(b: u8) -> (r: u8)
    ensures
        r == lower_octet(b),
{
    if b >= 'A' as u8 && b <= 'Z' as u8 {
        b + 32
    } else {
        b
    }
}

/// A copy with ASCII upper case folded to lower case.
pub fn lowercase(s: &[u8]) -> (r: Vec<u8>)
    ensures
        r@ == lower(s@),
{
    let mut out: Vec<u8> = Vec::new();
    let mut i: usize = 0;
    while i < s.len()
        invariant
            i <= s.len(),
            out@ == lower(s@).take(i as int),
        decreases s.len() - i,
    {
        out.push(to_lower(s[i]));
        i += 1;
        assert(lower(s@).take(i as int) =~= lower(s@).take(i - 1).push(lower(s@)[i - 1]));
    }
    assert(lower(s@).take(i as int) =~= lower(s@));
    out
}

/// The two strings are equal once ASCII case is folded.
pub fn equal_ignore_case(a: &[u8], b: &[u8]) -> (r: bool)
    ensures
        r == (lower(a@) == lower(b@)),
{
    if a.len() != b.len() {
        assert(lower(a@).len() != lower(b@).len());
        return false;
    }
    let mut i: usize = 0;
    while i < a.len()
        invariant
            i <= a.len(),
            a.len() == b.len(),
            forall|j: int| 0 <= j < i ==> lower_octet(a@[j]) == lower_octet(b@[j]),
        decreases a.len() - i,
    {
        if to_lower(a[i]) != to_lower(b[i]) {
            assert(lower(a@)[i as int] != lower(b@)[i as int]);
            return false;
        }
        i += 1;
    }
    assert(lower(a@) =~= lower(b@));
    true
}

pub fn ascii(s: &[u8]) -> (r: bool)
    ensures
        r == is_ascii(s@),
{
    let mut i: usize = 0;
    while i < s.len()
        invariant
            i <= s.len(),
            forall|j: int| 0 <= j < i ==> #[trigger] s@[j] < 128,
        decreases s.len() - i,
    {
        if s[i] >= 128 {
            return false;
        }
        i += 1;
    }
    true
}

/// The index of the first `b` at or after `from`, or the length where there is none.
pub fn find(s: &[u8], b: u8, from: usize) -> (r: usize)
    requires
        from <= s@.len(),
    ensures
        r == first_at(s@, b, from as int),
        from <= r <= s@.len(),
        r < s@.len() ==> s@[r as int] == b,
        forall|i: int| from <= i < r ==> s@[i] != b,
{
    let mut i: usize = from;
    while i < s.len()
        invariant
            from <= i <= s.len(),
            first_at(s@, b, from as int) == first_at(s@, b, i as int),
            forall|j: int| from <= j < i ==> s@[j] != b,
        decreases s.len() - i,
    {
        if s[i] == b {
            return i;
        }
        i += 1;
    }
    i
}

/// The index of the last `b`, if there is one.
pub fn rfind(s: &[u8], b: u8) -> (r: Option<usize>)
    ensures
        match r {
            Some(i) => i == last_before(s@, b, s@.len() as int) && i < s@.len() && s@[i as int]
                == b,
            None => last_before(s@, b, s@.len() as int) == -1,
        },
{
    let mut i: usize = s.len();
    while i > 0
        invariant
            i <= s.len(),
            last_before(s@, b, s@.len() as int) == last_before(s@, b, i as int),
        decreases i,
    {
        if s[i - 1] == b {
            return Some(i - 1);
        }
        i -= 1;
    }
    None
}

pub fn contains(s: &[u8], b: u8) -> (r: bool)
    ensures
        r == s@.contains(b),
{
    let i: usize = find(s, b, 0);
    if i < s.len() {
        assert(s@[i as int] == b);
        true
    } else {
        assert(!s@.contains(b)) by {
            if s@.contains(b) {
                let j = choose|j: int| 0 <= j < s@.len() && s@[j] == b;
                assert(s@[j] != b);
            }
        }
        false
    }
}

pub fn digits(s: &[u8]) -> (r: bool)
    ensures
        r == all_digits(s@),
{
    let mut i: usize = 0;
    while i < s.len()
        invariant
            i <= s.len(),
            forall|j: int| 0 <= j < i ==> is_digit(#[trigger] s@[j]),
        decreases s.len() - i,
    {
        if !digit(s[i]) {
            return false;
        }
        i += 1;
    }
    true
}

/// The pieces of `s` between occurrences of `sep`.
pub fn split(s: &[u8], sep: u8) -> (r: Vec<Vec<u8>>)
    ensures
        views(r@) == pieces(s@, sep),
{
    let mut out: Vec<Vec<u8>> = Vec::new();
    let mut start: usize = 0;
    proof {
        assert(s@.subrange(0, s@.len() as int) =~= s@);
        assert(views(out@) + pieces(s@, sep) =~= pieces(s@, sep));
    }
    loop
        invariant
            start <= s@.len(),
            views(out@) + pieces(s@.subrange(start as int, s@.len() as int), sep) == pieces(
                s@,
                sep,
            ),
        decreases s@.len() - start,
    {
        let ghost rest = s@.subrange(start as int, s@.len() as int);
        let at: usize = find(s, sep, start);
        let ghost was = out@;
        out.push(copy(part(s, start, at)));
        proof {
            lemma_first_at_is(rest, sep, 0, at - start);
            assert(views(out@) =~= views(was).push(s@.subrange(start as int, at as int)));
            assert(rest.subrange(0, at - start) =~= s@.subrange(start as int, at as int));
        }
        if at == s.len() {
            proof {
                assert(s@.subrange(start as int, at as int) =~= rest);
                assert(pieces(rest, sep) =~= seq![rest]);
                assert(views(out@) =~= views(was) + pieces(rest, sep));
            }
            return out;
        }
        proof {
            let next = s@.subrange(at + 1, s@.len() as int);
            assert(rest.subrange(at - start + 1, rest.len() as int) =~= next);
            assert(pieces(rest, sep) == seq![rest.subrange(0, at - start)] + pieces(next, sep));
            assert(views(out@) + pieces(next, sep) =~= views(was) + pieces(rest, sep));
        }
        start = at + 1;
    }
}

/// Strings one behind the other.
pub open spec fn joined(s: Seq<Seq<u8>>) -> Seq<u8>
    decreases s.len(),
{
    if s.len() == 0 {
        Seq::empty()
    } else {
        s[0] + joined(s.drop_first())
    }
}

pub proof fn lemma_joined(a: Seq<Seq<u8>>, b: Seq<Seq<u8>>)
    ensures
        joined(a + b) == joined(a) + joined(b),
    decreases a.len(),
{
    if a.len() == 0 {
        assert(a + b =~= b);
        assert(joined(a) + joined(b) =~= joined(b));
    } else {
        lemma_joined(a.drop_first(), b);
        assert((a + b).drop_first() =~= a.drop_first() + b);
        assert(a[0] + (joined(a.drop_first()) + joined(b)) =~= (a[0] + joined(a.drop_first()))
            + joined(b));
    }
}

/// The octet strings that a sequence of vectors holds.
pub open spec fn views(s: Seq<Vec<u8>>) -> Seq<Seq<u8>> {
    Seq::new(s.len(), |i: int| s[i]@)
}

/// The number that a nonempty string of decimal digits denotes, where it does not exceed `max`.
pub fn parse_decimal(s: &[u8], max: u64) -> (r: Option<u64>)
    ensures
        r == spec_parse_decimal(s@, max),
{
    if s.len() == 0 || !digits(s) {
        return None;
    }
    let mut value: u64 = 0;
    let mut i: usize = 0;
    while i < s.len()
        invariant
            i <= s.len(),
            all_digits(s@),
            value == decimal(s@.subrange(0, i as int)),
            value <= max,
        decreases s.len() - i,
    {
        let d: u64 = (s[i] - '0' as u8) as u64;
        proof {
            let next = s@.subrange(0, i + 1);
            assert(next.drop_last() =~= s@.subrange(0, i as int));
            assert(decimal(next) == value * 10 + d);
            lemma_decimal_prefix(s@, i + 1);
        }
        if d > max || value > max / 10 || value * 10 > max - d {
            return None;
        }
        value = value * 10 + d;
        i += 1;
    }
    assert(s@.subrange(0, i as int) =~= s@);
    Some(value)
}

pub open spec fn spec_parse_decimal(s: Seq<u8>, max: u64) -> Option<u64> {
    if s.len() > 0 && all_digits(s) && decimal(s) <= max {
        Some(decimal(s) as u64)
    } else {
        None
    }
}

/// The decimal digits of `n`.
pub fn render_decimal(n: u64) -> (r: Vec<u8>)
    ensures
        r@ == digits_of(n as nat),
    decreases n,
{
    if n < 10 {
        let mut out: Vec<u8> = Vec::new();
        out.push((n + 48) as u8);
        assert(out@ =~= seq![(n + 48) as u8]);
        out
    } else {
        let mut out: Vec<u8> = render_decimal(n / 10);
        out.push((n % 10 + 48) as u8);
        out
    }
}

/// An ASCII octet string as text.
pub fn ascii_text(s: &[u8]) -> (r: String)
    requires
        is_ascii(s@),
    ensures
        r@ == ascii_chars(s@),
        octets(r@) == s@,
{
    let mut out = String::new();
    let mut i: usize = 0;
    while i < s.len()
        invariant
            i <= s.len(),
            out@ == ascii_chars(s@).take(i as int),
        decreases s.len() - i,
    {
        out.push(s[i] as char);
        i += 1;
        assert(ascii_chars(s@).take(i as int) =~= ascii_chars(s@).take(i - 1).push(
            ascii_chars(s@)[i - 1],
        ));
    }
    proof {
        assert(ascii_chars(s@).take(i as int) =~= ascii_chars(s@));
        lemma_ascii_text(s@);
    }
    out
}

/// The characters of an ASCII octet string encode back to it.
pub proof fn lemma_ascii_text(s: Seq<u8>)
    requires
        is_ascii(s),
    ensures
        octets(ascii_chars(s)) == s,
        is_ascii_chars(ascii_chars(s)),
{
    let text = ascii_chars(s);
    assert(is_ascii_chars(text)) by {
        assert forall|i: int| 0 <= i < text.len() implies '\0' <= #[trigger] text[i] <= '\u{7f}' by {
            assert(s[i] < 128);
        }
    }
    is_ascii_chars_encode_utf8(text);
    assert(octets(text) =~= s);
}

} // verus!
