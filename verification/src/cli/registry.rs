//! What an OCI registry publishes: the bearer challenge, tag lists and versions.
use crate::octets;
use crate::octets::parse_decimal;
use crate::text;
use crate::text::{
    ascii_octets, characters, copy_chars, copy_text, extend, find_char, same_chars, split_chars,
    starts_with, string_of, trim_chars,
};
use vstd::prelude::*;
use vstd::slice::slice_subrange;
use vstd::utf8::*;

verus! {

/// The media types of a manifest, so that its digest is the one that an engine stores.
pub const MANIFEST_ACCEPT: &'static str = "application/vnd.oci.image.index.v1+json, application/vnd.docker.distribution.manifest.list.v2+json, application/vnd.oci.image.manifest.v1+json, application/vnd.docker.distribution.manifest.v2+json";

/// The most pages of a tag list that are read.
pub const MAX_TAG_PAGES: usize = 50;

/// A challenge to fetch a bearer token.
#[derive(Debug, PartialEq, Eq)]
pub struct BearerChallenge {
    pub realm: String,
    pub service: String,
    pub scope: String,
}

pub struct ChallengeModel {
    pub realm: Seq<char>,
    pub service: Seq<char>,
    pub scope: Seq<char>,
}

impl View for BearerChallenge {
    type V = ChallengeModel;

    open spec fn view(&self) -> ChallengeModel {
        ChallengeModel { realm: self.realm@, service: self.service@, scope: self.scope@ }
    }
}

/// An ASCII capital as the small letter, any other character as it is.
pub open spec fn lower_char(c: char) -> char {
    if 'A' <= c <= 'Z' {
        (c as u8 + 32) as char
    } else {
        c
    }
}

/// A character of a name: a letter, a digit, one of the marks that a token may hold, or a character
/// outside ASCII that is no white space.
pub open spec fn name_char(c: char) -> bool {
    ||| '0' <= c <= '9'
    ||| 'A' <= c <= 'Z'
    ||| 'a' <= c <= 'z'
    ||| c == '!' || c == '#' || c == '$' || c == '%' || c == '&' || c == '\'' || c == '*' || c
        == '+' || c == '-' || c == '.' || c == '^' || c == '_' || c == '`' || c == '|' || c == '~'
    ||| c > '\u{7f}' && !text::white_space(c)
}

/// No name runs on from the characters before the index into it.
pub open spec fn name_may_begin(s: Seq<char>, i: int) -> bool {
    i == 0 || !name_char(s[i - 1])
}

/// A name that comes up to the index does not run on over it.
pub open spec fn name_may_end(s: Seq<char>, i: int) -> bool {
    i == s.len() || !name_char(s[i])
}

/// The first word of the text is `bearer` in any mix of cases.
pub open spec fn is_bearer(s: Seq<char>) -> bool {
    &&& s.len() >= 6
    &&& lower_char(s[0]) == 'b'
    &&& lower_char(s[1]) == 'e'
    &&& lower_char(s[2]) == 'a'
    &&& lower_char(s[3]) == 'r'
    &&& lower_char(s[4]) == 'e'
    &&& lower_char(s[5]) == 'r'
    &&& name_may_end(s, 6)
}

/// Where a character stands with respect to quoted values.
#[derive(Debug, Clone, Copy, PartialEq, Eq, Structural)]
pub enum QuotePlace {
    Outside,
    Quoted,
    /// In a quoted value, behind a backslash: the character stands for itself.
    Escaped,
}

/// The place behind a character.
pub open spec fn quote_place_after(place: QuotePlace, c: char) -> QuotePlace {
    match place {
        QuotePlace::Outside => if c == '"' {
            QuotePlace::Quoted
        } else {
            QuotePlace::Outside
        },
        QuotePlace::Quoted => if c == '"' {
            QuotePlace::Outside
        } else if c == '\\' {
            QuotePlace::Escaped
        } else {
            QuotePlace::Quoted
        },
        QuotePlace::Escaped => QuotePlace::Quoted,
    }
}

/// The place at an index.
pub open spec fn quote_place(s: Seq<char>, i: int) -> QuotePlace
    decreases i,
{
    if i <= 0 || i > s.len() {
        QuotePlace::Outside
    } else {
        quote_place_after(quote_place(s, i - 1), s[i - 1])
    }
}

/// A name may begin at the index: it stands outside quoted values, and no name runs on into it.
pub open spec fn begins_parameter(s: Seq<char>, i: int) -> bool {
    quote_place(s, i) == QuotePlace::Outside && name_may_begin(s, i)
}

/// The first index at or after `from` at which a parameter begins with the given text.
pub open spec fn parameter_at(s: Seq<char>, start: Seq<char>, from: int) -> Option<int>
    decreases s.len() - from,
{
    if from < 0 || from >= s.len() {
        None
    } else if begins_parameter(s, from) && text::occurs_at(s, start, from) {
        Some(from)
    } else {
        parameter_at(s, start, from + 1)
    }
}

/// The text between the quotes of the first parameter that begins with `key="`.
pub open spec fn quoted(header: Seq<char>, key: Seq<char>) -> Option<Seq<char>> {
    let needle = key + "=\""@;
    match parameter_at(header, needle, 0) {
        None => None,
        Some(at) => {
            let start = at + needle.len();
            let end = text::char_at(header, '"', start);
            if end < header.len() {
                Some(header.subrange(start, end))
            } else {
                None
            }
        },
    }
}

/// The value of a quoted pair, or the empty text.
pub open spec fn quoted_or_empty(header: Seq<char>, key: Seq<char>) -> Seq<char> {
    match quoted(header, key) {
        Some(value) => value,
        None => Seq::empty(),
    }
}

/// Without white space at the front.
pub open spec fn trim_front(s: Seq<char>) -> Seq<char> {
    text::trim_start(s)
}

/// The challenge in a header: the scheme is `bearer` and there is a realm.
pub open spec fn challenge_of(header: Seq<char>) -> Option<ChallengeModel> {
    if !is_bearer(trim_front(header)) {
        None
    } else {
        match quoted(header, "realm"@) {
            None => None,
            Some(realm) => Some(
                ChallengeModel {
                    realm,
                    service: quoted_or_empty(header, "service"@),
                    scope: quoted_or_empty(header, "scope"@),
                },
            ),
        }
    }
}

fn to_lower_char(c: char) -> (r: char)
    ensures
        r == lower_char(c),
{
    if c >= 'A' && c <= 'Z' {
        (c as u8 + 32) as char
    } else {
        c
    }
}

fn is_name_char(c: char) -> (r: bool)
    ensures
        r == name_char(c),
{
    (c >= '0' && c <= '9') || (c >= 'A' && c <= 'Z') || (c >= 'a' && c <= 'z') || c == '!' || c
        == '#' || c == '$' || c == '%' || c == '&' || c == '\'' || c == '*' || c == '+' || c == '-'
        || c == '.' || c == '^' || c == '_' || c == '`' || c == '|' || c == '~' || (c > '\u{7f}'
        && !text::is_whitespace(c))
}

fn step_quotes(place: QuotePlace, c: char) -> (r: QuotePlace)
    ensures
        r == quote_place_after(place, c),
{
    match place {
        QuotePlace::Outside => if c == '"' {
            QuotePlace::Quoted
        } else {
            QuotePlace::Outside
        },
        QuotePlace::Quoted => if c == '"' {
            QuotePlace::Outside
        } else if c == '\\' {
            QuotePlace::Escaped
        } else {
            QuotePlace::Quoted
        },
        QuotePlace::Escaped => QuotePlace::Quoted,
    }
}

fn front(s: &[char]) -> (r: usize)
    ensures
        r <= s@.len(),
        trim_front(s@) == s@.subrange(r as int, s@.len() as int),
{
    let mut i: usize = 0;
    assert(s@.subrange(0, s@.len() as int) =~= s@);
    while i < s.len() && text::is_whitespace(s[i])
        invariant
            i <= s@.len(),
            text::trim_start(s@) == text::trim_start(s@.subrange(i as int, s@.len() as int)),
        decreases s@.len() - i,
    {
        assert(s@.subrange(i as int, s@.len() as int).drop_first() =~= s@.subrange(
            i + 1,
            s@.len() as int,
        ));
        i += 1;
    }
    i
}

/// Finds the first parameter that begins with the given text.
fn find_parameter(s: &[char], start: &[char]) -> (r: Option<usize>)
    ensures
        match r {
            Some(at) => parameter_at(s@, start@, 0) == Some(at as int) && at + start@.len()
                <= s@.len(),
            None => parameter_at(s@, start@, 0) is None,
        },
{
    let n: usize = start.len();
    let mut place: QuotePlace = QuotePlace::Outside;
    let mut i: usize = 0;
    while i < s.len()
        invariant
            i <= s@.len(),
            n == start@.len(),
            place == quote_place(s@, i as int),
            parameter_at(s@, start@, 0) == parameter_at(s@, start@, i as int),
        decreases s@.len() - i,
    {
        let begins: bool = place == QuotePlace::Outside && (i == 0 || !is_name_char(s[i - 1]));
        if begins && n <= s.len() - i && same_chars(slice_subrange(s, i, i + n), start) {
            assert(text::occurs_at(s@, start@, i as int));
            return Some(i);
        }
        place = step_quotes(place, s[i]);
        i += 1;
    }
    None
}

/// The value of a `key="value"` pair in a header, or none where the key is absent. A longer key
/// that ends in the same letters is another key, and a quoted value holds no pairs.
pub fn quoted_value(header: &[char], key: &str) -> (r: Option<String>)
    ensures
        match r {
            Some(value) => quoted(header@, key@) == Some(value@),
            None => quoted(header@, key@) is None,
        },
{
    let mut needle: Vec<char> = characters(key);
    needle.push('=');
    needle.push('"');
    proof {
        reveal_strlit("=\"");
        assert(needle@ =~= key@ + "=\""@);
    }
    match find_parameter(header, needle.as_slice()) {
        None => None,
        Some(at) => {
            let total: usize = header.len();
            assert(at + needle@.len() <= total);
            let start: usize = at + needle.len();
            let end: usize = find_char(header, '"', start);
            if end < header.len() {
                Some(string_of(slice_subrange(header, start, end)))
            } else {
                None
            }
        },
    }
}

fn value_or_empty(header: &[char], key: &str) -> (r: String)
    ensures
        r@ == quoted_or_empty(header@, key@),
{
    match quoted_value(header, key) {
        Some(value) => value,
        None => String::new(),
    }
}

/// Reads the challenge that a registry answers with. Each quoted value is found by its name, so a
/// comma in a value does no harm.
pub fn parse_www_authenticate(header: &str) -> (r: Option<BearerChallenge>)
    ensures
        match r {
            Some(challenge) => challenge_of(header@) == Some(challenge@),
            None => challenge_of(header@) is None,
        },
{
    let chars: Vec<char> = characters(header);
    let at: usize = front(chars.as_slice());
    let scheme: &[char] = slice_subrange(chars.as_slice(), at, chars.len());
    if scheme.len() < 6 || to_lower_char(scheme[0]) != 'b' || to_lower_char(scheme[1]) != 'e'
        || to_lower_char(scheme[2]) != 'a' || to_lower_char(scheme[3]) != 'r' || to_lower_char(
        scheme[4],
    ) != 'e' || to_lower_char(scheme[5]) != 'r' || (scheme.len() > 6 && is_name_char(scheme[6])) {
        return None;
    }
    match quoted_value(chars.as_slice(), "realm") {
        None => None,
        Some(realm) => Some(
            BearerChallenge {
                realm,
                service: value_or_empty(chars.as_slice(), "service"),
                scope: value_or_empty(chars.as_slice(), "scope"),
            },
        ),
    }
}

/// The address of the token for a challenge: the realm, and the service and scope as a query where
/// they are not empty.
pub open spec fn token_address(c: ChallengeModel) -> Seq<char> {
    let service = "service="@ + c.service;
    let scope = "scope="@ + c.scope;
    if c.service.len() == 0 && c.scope.len() == 0 {
        c.realm
    } else if c.scope.len() == 0 {
        c.realm + "?"@ + service
    } else if c.service.len() == 0 {
        c.realm + "?"@ + scope
    } else {
        c.realm + "?"@ + service + "&"@ + scope
    }
}

fn is_empty(s: &str) -> (r: bool)
    ensures
        r == (s@.len() == 0),
{
    characters(s).len() == 0
}

/// The address of the token for a challenge.
pub fn token_url(challenge: &BearerChallenge) -> (r: String)
    ensures
        r@ == token_address(challenge@),
{
    let mut out: String = copy_text(challenge.realm.as_str());
    let service: bool = !is_empty(challenge.service.as_str());
    let scope: bool = !is_empty(challenge.scope.as_str());
    if !service && !scope {
        return out;
    }
    extend(&mut out, "?");
    if service {
        extend(&mut out, "service=");
        extend(&mut out, challenge.service.as_str());
        if scope {
            extend(&mut out, "&");
        }
    }
    if scope {
        extend(&mut out, "scope=");
        extend(&mut out, challenge.scope.as_str());
    }
    proof {
        if service && scope {
            assert(out@ =~= token_address(challenge@));
        } else if service {
            assert(out@ =~= token_address(challenge@));
        } else {
            assert(out@ =~= token_address(challenge@));
        }
    }
    out
}

/// The host of a registry base.
pub open spec fn registry_host(base: Seq<char>) -> Seq<char> {
    base.subrange(0, text::char_at(base, '/', 0))
}

/// The namespace of a registry base: what follows the first slash.
pub open spec fn registry_namespace(base: Seq<char>) -> Seq<char> {
    let at = text::char_at(base, '/', 0);
    if at < base.len() {
        base.subrange(at + 1, base.len() as int)
    } else {
        Seq::empty()
    }
}

/// Splits a registry base into its host and its namespace.
pub fn split_registry(base: &str) -> (r: (String, String))
    ensures
        r.0@ == registry_host(base@),
        r.1@ == registry_namespace(base@),
{
    let chars: Vec<char> = characters(base);
    let at: usize = find_char(chars.as_slice(), '/', 0);
    let host: String = string_of(slice_subrange(chars.as_slice(), 0, at));
    if at < chars.len() {
        (host, string_of(slice_subrange(chars.as_slice(), at + 1, chars.len())))
    } else {
        (host, String::new())
    }
}

/// The repository of an image on a registry base.
pub open spec fn repository(base: Seq<char>, image: Seq<char>) -> Seq<char> {
    let namespace = registry_namespace(base);
    if namespace.len() == 0 {
        image
    } else {
        namespace + "/"@ + image
    }
}

/// The repository of an image on a registry base: the namespace, where there is one, and the image.
pub fn repo_path(base: &str, image: &str) -> (r: String)
    ensures
        r@ == repository(base@, image@),
{
    let (_, namespace) = split_registry(base);
    if is_empty(namespace.as_str()) {
        return copy_text(image);
    }
    let mut out: String = namespace;
    extend(&mut out, "/");
    extend(&mut out, image);
    out
}

/// The number that a text spells in decimal digits.
pub open spec fn number_of(s: Seq<char>) -> Option<u64> {
    if is_ascii_chars(s) {
        octets::spec_parse_decimal(octets::octets(s), u64::MAX)
    } else {
        None
    }
}

/// The version that a tag spells: exactly three numbers with dots between them.
pub open spec fn semver_of(tag: Seq<char>) -> Option<(u64, u64, u64)> {
    let p = text::char_pieces(tag, '.');
    if p.len() == 3 && number_of(p[0]) is Some && number_of(p[1]) is Some && number_of(p[2]) is Some {
        Some((number_of(p[0])->0, number_of(p[1])->0, number_of(p[2])->0))
    } else {
        None
    }
}

/// The first version is older than the second.
pub open spec fn older(a: (u64, u64, u64), b: (u64, u64, u64)) -> bool {
    ||| a.0 < b.0
    ||| a.0 == b.0 && a.1 < b.1
    ||| a.0 == b.0 && a.1 == b.1 && a.2 < b.2
}

fn parse_number(s: &[char]) -> (r: Option<u64>)
    ensures
        r == number_of(s@),
{
    match ascii_octets(s) {
        None => None,
        Some(b) => parse_decimal(b.as_slice(), u64::MAX),
    }
}

/// Reads a strict `X.Y.Z` tag.
pub fn parse_semver(tag: &str) -> (r: Option<(u64, u64, u64)>)
    ensures
        r == semver_of(tag@),
{
    let parts: Vec<Vec<char>> = split_chars(characters(tag).as_slice(), '.');
    let ghost p = text::char_pieces(tag@, '.');
    assert(p == text::texts(parts@));
    if parts.len() != 3 {
        return None;
    }
    assert(p[0] == parts@[0]@ && p[1] == parts@[1]@ && p[2] == parts@[2]@);
    match (
        parse_number(parts[0].as_slice()),
        parse_number(parts[1].as_slice()),
        parse_number(parts[2].as_slice()),
    ) {
        (Some(major), Some(minor), Some(patch)) => Some((major, minor, patch)),
        _ => None,
    }
}

fn is_older(a: (u64, u64, u64), b: (u64, u64, u64)) -> (r: bool)
    ensures
        r == older(a, b),
{
    a.0 < b.0 || (a.0 == b.0 && a.1 < b.1) || (a.0 == b.0 && a.1 == b.1 && a.2 < b.2)
}

/// The tag at the index is the newest version of a list: no version is newer, and of equal ones it
/// is the last.
pub open spec fn is_newest(tags: Seq<String>, at: int) -> bool {
    &&& 0 <= at < tags.len()
    &&& semver_of(tags[at]@) is Some
    &&& forall|i: int|
        0 <= i < tags.len() && semver_of((#[trigger] tags[i])@) is Some ==> !older(
            semver_of(tags[at]@)->0,
            semver_of(tags[i]@)->0,
        ) && (i > at ==> older(semver_of(tags[i]@)->0, semver_of(tags[at]@)->0))
}

/// The newest strict `X.Y.Z` tag of a list, as it was written. Other tags are ignored.
#[verifier::rlimit(40)]
#[verifier::spinoff_prover]
pub fn newest_semver(tags: &[String]) -> (r: Option<String>)
    ensures
        match r {
            Some(tag) => exists|at: int| #[trigger] is_newest(tags@, at) && tag@ == tags@[at]@,
            None => forall|i: int| 0 <= i < tags@.len() ==> semver_of((#[trigger] tags@[i])@) is None,
        },
{
    let mut best: Option<(usize, (u64, u64, u64))> = None;
    let mut i: usize = 0;
    while i < tags.len()
        invariant
            i <= tags@.len(),
            match best {
                Some((at, version)) => at < i && is_newest(tags@.take(i as int), at as int)
                    && semver_of(tags@[at as int]@) == Some(version),
                None => forall|j: int|
                    0 <= j < i ==> semver_of((#[trigger] tags@[j])@) is None,
            },
        decreases tags@.len() - i,
    {
        let ghost was = tags@.take(i as int);
        let ghost next = tags@.take(i + 1);
        proof {
            assert forall|j: int| 0 <= j < i implies was[j] == next[j] && was[j] == tags@[j] by {}
            assert(next[i as int] == tags@[i as int]);
        }
        if let Some(version) = parse_semver(tags[i].as_str()) {
            match best {
                None => {
                    best = Some((i, version));
                    assert(is_newest(next, i as int)) by {
                        assert forall|j: int|
                            0 <= j < next.len() && semver_of((#[trigger] next[j])@) is Some implies j
                            == i by {
                            if j < i {
                                assert(semver_of(tags@[j]@) is None);
                            }
                        }
                    }
                },
                Some((at, so_far)) => {
                    if !is_older(version, so_far) {
                        best = Some((i, version));
                        assert(is_newest(next, i as int)) by {
                            assert forall|j: int|
                                0 <= j < next.len() && semver_of(
                                    (#[trigger] next[j])@,
                                ) is Some implies !older(
                                semver_of(next[i as int]@)->0,
                                semver_of(next[j]@)->0,
                            ) by {
                                if j < i {
                                    assert(!older(
                                        semver_of(was[at as int]@)->0,
                                        semver_of(was[j]@)->0,
                                    ));
                                }
                            }
                        }
                    } else {
                        assert(is_newest(next, at as int)) by {
                            assert forall|j: int|
                                0 <= j < next.len() && semver_of(
                                    (#[trigger] next[j])@,
                                ) is Some implies !older(
                                semver_of(next[at as int]@)->0,
                                semver_of(next[j]@)->0,
                            ) && (j > at ==> older(
                                semver_of(next[j]@)->0,
                                semver_of(next[at as int]@)->0,
                            )) by {
                                if j < i {
                                    assert(semver_of(was[j]@) is Some);
                                }
                            }
                        }
                    }
                },
            }
        } else {
            proof {
                if let Some((at, _)) = best {
                    assert(is_newest(next, at as int)) by {
                        assert forall|j: int|
                            0 <= j < next.len() && semver_of(
                                (#[trigger] next[j])@,
                            ) is Some implies !older(
                            semver_of(next[at as int]@)->0,
                            semver_of(next[j]@)->0,
                        ) && (j > at ==> older(
                            semver_of(next[j]@)->0,
                            semver_of(next[at as int]@)->0,
                        )) by {
                            assert(j < i);
                            assert(semver_of(was[j]@) is Some);
                        }
                    }
                }
            }
        }
        i += 1;
    }
    assert(tags@.take(i as int) =~= tags@);
    match best {
        Some((at, _)) => {
            assert(is_newest(tags@, at as int));
            Some(copy_text(tags[at].as_str()))
        },
        None => None,
    }
}

/// Whether `newest` is a newer version than `installed`: `None` where either is no version.
pub fn update_available(newest: &str, installed: &str) -> (r: Option<bool>)
    ensures
        r == (match (semver_of(newest@), semver_of(installed@)) {
            (Some(a), Some(b)) => Some(older(b, a)),
            _ => None,
        }),
{
    match (parse_semver(newest), parse_semver(installed)) {
        (Some(a), Some(b)) => Some(is_older(b, a)),
        _ => None,
    }
}

/// The order of versions is strict and total: of two versions exactly one is older, or they are
/// the same; and what is older than an older one is older.
pub proof fn versions_are_ordered(
    a: (u64, u64, u64),
    b: (u64, u64, u64),
    c: (u64, u64, u64),
)
    ensures
        !older(a, a),
        older(a, b) ==> !older(b, a),
        older(a, b) || older(b, a) || a == b,
        older(a, b) && older(b, c) ==> older(a, c),
{
}

/// After an update to the newest version of a list no further update is available from it.
pub proof fn the_newest_needs_no_update(tags: Seq<String>, at: int, i: int)
    requires
        is_newest(tags, at),
        0 <= i < tags.len(),
        semver_of(tags[i]@) is Some,
    ensures
        !older(semver_of(tags[at]@)->0, semver_of(tags[i]@)->0),
{
}

/// Where a character of a `Link` header stands.
#[derive(Debug, Clone, Copy, PartialEq, Eq, Structural)]
pub enum LinkPlace {
    Outside,
    /// Between the angle brackets of a target.
    Target,
    Quoted,
    /// In a quoted value, behind a backslash: the character stands for itself.
    Escaped,
}

/// A target that is open at the index is closed: the next angle bracket is a closing one.
pub open spec fn target_closes(s: Seq<char>, i: int) -> bool
    decreases s.len() - i,
{
    if i < 0 || i >= s.len() || s[i] == '<' {
        false
    } else {
        s[i] == '>' || target_closes(s, i + 1)
    }
}

/// A quoted value that is open at the index is closed by a quote without a backslash before it.
pub open spec fn quote_closes(s: Seq<char>, i: int) -> bool
    decreases s.len() - i,
{
    if i < 0 || i >= s.len() {
        false
    } else if s[i] == '\\' {
        i + 2 < s.len() && quote_closes(s, i + 2)
    } else {
        s[i] == '"' || quote_closes(s, i + 1)
    }
}

/// The place at an index. An angle bracket or a quote that nothing closes opens nothing.
pub open spec fn link_place(s: Seq<char>, i: int) -> LinkPlace
    decreases i,
{
    if i <= 0 || i > s.len() {
        LinkPlace::Outside
    } else {
        let c = s[i - 1];
        match link_place(s, i - 1) {
            LinkPlace::Outside => if c == '<' && target_closes(s, i) {
                LinkPlace::Target
            } else if c == '"' && quote_closes(s, i) {
                LinkPlace::Quoted
            } else {
                LinkPlace::Outside
            },
            LinkPlace::Target => if c == '>' {
                LinkPlace::Outside
            } else {
                LinkPlace::Target
            },
            LinkPlace::Quoted => if c == '"' {
                LinkPlace::Outside
            } else if c == '\\' {
                LinkPlace::Escaped
            } else {
                LinkPlace::Quoted
            },
            LinkPlace::Escaped => LinkPlace::Quoted,
        }
    }
}

/// The index of the first comma at or after `from` that stands outside targets and quotes, or the
/// length.
pub open spec fn link_cut(s: Seq<char>, from: int) -> int
    decreases s.len() - from,
{
    if from < 0 || from >= s.len() {
        s.len() as int
    } else if s[from] == ',' && link_place(s, from) == LinkPlace::Outside {
        from
    } else {
        link_cut(s, from + 1)
    }
}

/// The links of a header from the index on: what commas outside targets and quotes separate.
pub open spec fn links(s: Seq<char>, from: int) -> Seq<Seq<char>>
    decreases s.len() - from,
{
    let cut = link_cut(s, from);
    if from < 0 || cut < from || cut >= s.len() {
        seq![s.subrange(from, s.len() as int)]
    } else {
        seq![s.subrange(from, cut)] + links(s, cut + 1)
    }
}

/// A parameter of a link that reads `rel="next"` or `rel=next` begins at the index.
pub open spec fn next_named_at(link: Seq<char>, i: int) -> bool {
    &&& 0 <= i < link.len()
    &&& link_place(link, i) == LinkPlace::Outside
    &&& name_may_begin(link, i)
    &&& text::occurs_at(link, "rel=\"next\""@, i) || (text::occurs_at(link, "rel=next"@, i)
        && name_may_end(link, i + 8))
}

/// The link names the next page.
pub open spec fn names_next(link: Seq<char>) -> bool {
    exists|i: int| #[trigger] next_named_at(link, i)
}

/// The target of one link of a `Link` header, as an absolute address.
pub open spec fn link_target(part: Seq<char>, host: Seq<char>) -> Option<Seq<char>> {
    let open = text::char_at(part, '<', 0);
    let close = text::char_at(part, '>', open + 1);
    let target = part.subrange(open + 1, close);
    if open >= part.len() || close >= part.len() {
        None
    } else if text::begins_with(target, "http"@) {
        Some(target)
    } else {
        Some("https://"@ + host + target)
    }
}

/// The address of the next page: the target of the first link that names one.
pub open spec fn next_page(parts: Seq<Seq<char>>, host: Seq<char>) -> Option<Seq<char>>
    decreases parts.len(),
{
    if parts.len() == 0 {
        None
    } else if names_next(parts[0]) {
        link_target(parts[0], host)
    } else {
        next_page(parts.drop_first(), host)
    }
}

fn closes_target(s: &[char], from: usize) -> (r: bool)
    requires
        from <= s@.len(),
    ensures
        r == target_closes(s@, from as int),
{
    let mut i: usize = from;
    while i < s.len()
        invariant
            i <= s@.len(),
            target_closes(s@, from as int) == target_closes(s@, i as int),
        decreases s@.len() - i,
    {
        if s[i] == '<' {
            return false;
        }
        if s[i] == '>' {
            return true;
        }
        i += 1;
    }
    false
}

fn closes_quote(s: &[char], from: usize) -> (r: bool)
    requires
        from <= s@.len(),
    ensures
        r == quote_closes(s@, from as int),
{
    let mut i: usize = from;
    while i < s.len()
        invariant
            i <= s@.len(),
            quote_closes(s@, from as int) == quote_closes(s@, i as int),
        decreases s@.len() - i,
    {
        if s[i] == '"' {
            return true;
        }
        if s[i] == '\\' {
            if s.len() - i <= 2 {
                return false;
            }
            i += 2;
        } else {
            i += 1;
        }
    }
    false
}

/// The place behind the character at the index.
fn step_place(s: &[char], i: usize, place: LinkPlace) -> (r: LinkPlace)
    requires
        i < s@.len(),
        place == link_place(s@, i as int),
    ensures
        r == link_place(s@, i + 1),
{
    let c: char = s[i];
    match place {
        LinkPlace::Outside => if c == '<' && closes_target(s, i + 1) {
            LinkPlace::Target
        } else if c == '"' && closes_quote(s, i + 1) {
            LinkPlace::Quoted
        } else {
            LinkPlace::Outside
        },
        LinkPlace::Target => if c == '>' {
            LinkPlace::Outside
        } else {
            LinkPlace::Target
        },
        LinkPlace::Quoted => if c == '"' {
            LinkPlace::Outside
        } else if c == '\\' {
            LinkPlace::Escaped
        } else {
            LinkPlace::Quoted
        },
        LinkPlace::Escaped => LinkPlace::Quoted,
    }
}

/// The links of a `Link` header.
fn split_links(s: &[char]) -> (r: Vec<Vec<char>>)
    ensures
        text::texts(r@) == links(s@, 0),
{
    let mut out: Vec<Vec<char>> = Vec::new();
    let mut start: usize = 0;
    let mut i: usize = 0;
    let mut place: LinkPlace = LinkPlace::Outside;
    assert(text::texts(out@) + links(s@, 0) =~= links(s@, 0));
    while i < s.len()
        invariant
            start <= i <= s@.len(),
            place == link_place(s@, i as int),
            link_cut(s@, start as int) == link_cut(s@, i as int),
            text::texts(out@) + links(s@, start as int) == links(s@, 0),
        decreases s@.len() - i,
    {
        if s[i] == ',' && place == LinkPlace::Outside {
            let ghost was = out@;
            out.push(copy_chars(s, start, i));
            proof {
                assert(links(s@, start as int) == seq![s@.subrange(start as int, i as int)] + links(
                    s@,
                    i + 1,
                ));
                assert(text::texts(out@) =~= text::texts(was).push(
                    s@.subrange(start as int, i as int),
                ));
                assert(text::texts(out@) + links(s@, i + 1) =~= text::texts(was) + links(
                    s@,
                    start as int,
                ));
            }
            start = i + 1;
        }
        place = step_place(s, i, place);
        i += 1;
    }
    let ghost was = out@;
    out.push(copy_chars(s, start, s.len()));
    proof {
        assert(links(s@, start as int) =~= seq![s@.subrange(start as int, s@.len() as int)]);
        assert(text::texts(out@) =~= text::texts(was) + links(s@, start as int));
    }
    out
}

fn stands_at(s: &[char], needle: &str, i: usize) -> (r: bool)
    requires
        i <= s@.len(),
    ensures
        r == text::occurs_at(s@, needle@, i as int),
{
    let wanted: Vec<char> = characters(needle);
    wanted.len() <= s.len() - i && same_chars(
        slice_subrange(s, i, i + wanted.len()),
        wanted.as_slice(),
    )
}

fn is_next(link: &[char]) -> (r: bool)
    ensures
        r == names_next(link@),
{
    proof {
        reveal_strlit("rel=next");
    }
    let mut place: LinkPlace = LinkPlace::Outside;
    let mut i: usize = 0;
    while i < link.len()
        invariant
            i <= link@.len(),
            "rel=next"@.len() == 8,
            place == link_place(link@, i as int),
            forall|j: int| 0 <= j < i ==> !#[trigger] next_named_at(link@, j),
        decreases link@.len() - i,
    {
        let begins: bool = place == LinkPlace::Outside && (i == 0 || !is_name_char(link[i - 1]));
        if begins && (stands_at(link, "rel=\"next\"", i) || (stands_at(link, "rel=next", i) && (i + 8
            == link.len() || !is_name_char(link[i + 8])))) {
            assert(next_named_at(link@, i as int));
            return true;
        }
        assert(!next_named_at(link@, i as int));
        place = step_place(link, i, place);
        i += 1;
    }
    false
}

/// The address of the next page that a `Link` header names. A comma in a target or in a quoted
/// value does no harm.
pub fn link_next(link: Option<&str>, host: &str) -> (r: Option<String>)
    ensures
        match r {
            Some(url) => link matches Some(link) && next_page(links(link@, 0), host@) == Some(url@),
            None => link matches Some(link) ==> next_page(links(link@, 0), host@) is None,
        },
{
    let header: &str = match link {
        Some(header) => header,
        None => {
            return None;
        },
    };
    let parts: Vec<Vec<char>> = split_links(characters(header).as_slice());
    let ghost all = links(header@, 0);
    assert(all == text::texts(parts@));
    assert(all.skip(0) =~= all);
    let mut i: usize = 0;
    while i < parts.len()
        invariant
            i <= parts@.len(),
            link == Some(header),
            all == links(header@, 0),
            all == text::texts(parts@),
            next_page(all, host@) == next_page(all.skip(i as int), host@),
        decreases parts@.len() - i,
    {
        assert(all.skip(i as int)[0] == parts@[i as int]@);
        let part: &[char] = parts[i].as_slice();
        if is_next(part) {
            let open: usize = find_char(part, '<', 0);
            if open >= part.len() {
                return None;
            }
            let close: usize = find_char(part, '>', open + 1);
            if close >= part.len() {
                return None;
            }
            let target: &[char] = slice_subrange(part, open + 1, close);
            if starts_with(target, "http") {
                return Some(string_of(target));
            }
            let mut out: String = copy_text("https://");
            extend(&mut out, host);
            extend(&mut out, string_of(target).as_str());
            return Some(out);
        }
        assert(all.skip(i as int).drop_first() =~= all.skip(i + 1));
        i += 1;
    }
    assert(all.skip(i as int).len() == 0);
    None
}

/// What is done with the first response to a request.
#[derive(Debug, PartialEq, Eq)]
pub enum ChallengeStep {
    /// The response is the answer.
    Answer,
    /// A token is fetched from the address, and the request is sent again with it.
    FetchToken(String),
    /// There is no answer.
    GiveUp,
}

/// Judges the first response to a request: only a 401 with a readable challenge leads to a second
/// request.
pub fn get_challenged(status: u16, challenge: Option<&str>) -> (r: ChallengeStep)
    ensures
        if status != 401 {
            r is Answer
        } else {
            match challenge {
                None => r is GiveUp,
                Some(header) => match challenge_of(header@) {
                    None => r is GiveUp,
                    Some(c) => r matches ChallengeStep::FetchToken(url) && url@ == token_address(c),
                },
            }
        },
{
    if status != 401 {
        return ChallengeStep::Answer;
    }
    match challenge {
        None => ChallengeStep::GiveUp,
        Some(header) => match parse_www_authenticate(header) {
            None => ChallengeStep::GiveUp,
            Some(challenge) => ChallengeStep::FetchToken(token_url(&challenge)),
        },
    }
}

/// Whether the body of a response is read, for its token or its tags: only that of a 200.
pub fn body_is_read(status: u16) -> (r: bool)
    ensures
        r == (status == 200),
{
    status == 200
}

/// The value of the `Authorization` field for a token.
pub fn authorization(token: &str) -> (r: String)
    ensures
        r@ == "Bearer "@ + token@,
{
    let mut out: String = copy_text("Bearer ");
    extend(&mut out, token);
    out
}

/// The address of the first page of a tag list.
pub open spec fn tags_address(registry: Seq<char>, image: Seq<char>) -> Seq<char> {
    "https://"@ + registry_host(registry) + "/v2/"@ + repository(registry, image) + "/tags/list"@
}

/// The address of a manifest.
pub open spec fn manifest_address(registry: Seq<char>, image: Seq<char>, tag: Seq<char>) -> Seq<
    char,
> {
    "https://"@ + registry_host(registry) + "/v2/"@ + repository(registry, image) + "/manifests/"@
        + tag
}

/// The address of the first page of a tag list.
pub fn tags_url(registry: &str, image: &str) -> (r: String)
    ensures
        r@ == tags_address(registry@, image@),
{
    let (host, _) = split_registry(registry);
    let mut out: String = copy_text("https://");
    extend(&mut out, host.as_str());
    extend(&mut out, "/v2/");
    extend(&mut out, repo_path(registry, image).as_str());
    extend(&mut out, "/tags/list");
    out
}

/// The address of a manifest.
pub fn manifest_url(registry: &str, image: &str, tag: &str) -> (r: String)
    ensures
        r@ == manifest_address(registry@, image@, tag@),
{
    let (host, _) = split_registry(registry);
    let mut out: String = copy_text("https://");
    extend(&mut out, host.as_str());
    extend(&mut out, "/v2/");
    extend(&mut out, repo_path(registry, image).as_str());
    extend(&mut out, "/manifests/");
    extend(&mut out, tag);
    out
}

/// The texts that a sequence of strings holds.
pub open spec fn strings(s: Seq<String>) -> Seq<Seq<char>> {
    Seq::new(s.len(), |i: int| s[i]@)
}

/// What the reading of a tag list does next.
#[derive(Debug)]
pub enum TagStep {
    /// Read the next page from the address.
    Fetch(String),
    /// The tags that were published, or none.
    Done(Option<Vec<String>>),
}

/// One page of a tag list, as it came back.
#[derive(Debug)]
pub enum TagPage {
    /// There was no response, or one that could not be read.
    Failed,
    /// The response had another status than 200.
    Refused,
    Page { link: Option<String>, tags: Vec<String> },
}

/// A tag list that is being read page by page.
#[derive(Debug)]
pub struct TagList {
    host: String,
    tags: Vec<String>,
    pages: usize,
}

pub struct TagListModel {
    pub host: Seq<char>,
    pub tags: Seq<Seq<char>>,
    pub pages: nat,
}

impl View for TagList {
    type V = TagListModel;

    closed spec fn view(&self) -> TagListModel {
        TagListModel { host: self.host@, tags: strings(self.tags@), pages: self.pages as nat }
    }
}

/// The address of the page that follows a page.
pub open spec fn following(link: Option<String>, host: Seq<char>) -> Option<Seq<char>> {
    match link {
        Some(link) => next_page(links(link@, 0), host),
        None => None,
    }
}

/// The step is to read the page at the address.
pub open spec fn fetches(step: TagStep, url: Seq<char>) -> bool {
    step matches TagStep::Fetch(next) && next@ == url
}

/// The step ends the list with the tags.
pub open spec fn ends_with(step: TagStep, tags: Option<Seq<Seq<char>>>) -> bool {
    match step {
        TagStep::Done(Some(all)) => tags == Some(strings(all@)),
        TagStep::Done(None) => tags is None,
        TagStep::Fetch(_) => false,
    }
}

impl TagList {
    #[verifier::type_invariant]
    spec fn well_formed(self) -> bool {
        self.pages < MAX_TAG_PAGES
    }

    /// Begins to read the tag list of an image.
    pub fn fetch_tags(registry: &str, image: &str) -> (r: (TagList, TagStep))
        ensures
            r.0@.host == registry_host(registry@),
            r.0@.tags == Seq::<Seq<char>>::empty(),
            r.0@.pages == 0,
            fetches(r.1, tags_address(registry@, image@)),
    {
        let (host, _) = split_registry(registry);
        let tags: Vec<String> = Vec::new();
        assert(strings(tags@) =~= Seq::empty());
        (TagList { host, tags, pages: 0 }, TagStep::Fetch(tags_url(registry, image)))
    }

    /// Takes a page. At most 50 pages are read. A page that cannot be read leaves no list; a
    /// refusal leaves the tags so far, where there are any.
    pub fn page(self, page: TagPage) -> (r: (Option<TagList>, TagStep))
        ensures
            match page {
                TagPage::Failed => r.0 is None && ends_with(r.1, None),
                TagPage::Refused => r.0 is None && ends_with(
                    r.1,
                    if self@.tags.len() > 0 {
                        Some(self@.tags)
                    } else {
                        None
                    },
                ),
                TagPage::Page { link, tags } => {
                    let all = self@.tags + strings(tags@);
                    match following(link, self@.host) {
                        Some(url) => if self@.pages + 1 < MAX_TAG_PAGES {
                            &&& r.0 matches Some(list) && list@ == (TagListModel {
                                tags: all,
                                pages: self@.pages + 1,
                                ..self@
                            })
                            &&& fetches(r.1, url)
                        } else {
                            r.0 is None && ends_with(r.1, Some(all))
                        },
                        None => r.0 is None && ends_with(r.1, Some(all)),
                    }
                },
            },
    {
        proof {
            use_type_invariant(&self);
        }
        let ghost before = self@;
        match page {
            TagPage::Failed => (None, TagStep::Done(None)),
            TagPage::Refused => if self.tags.len() > 0 {
                (None, TagStep::Done(Some(self.tags)))
            } else {
                (None, TagStep::Done(None))
            },
            TagPage::Page { link, tags } => {
                let next: Option<String> = match &link {
                    Some(link) => link_next(Some(link.as_str()), self.host.as_str()),
                    None => None,
                };
                let TagList { host, tags: mut all, pages } = self;
                let ghost so_far = all@;
                let mut more: Vec<String> = tags;
                let ghost added = more@;
                all.append(&mut more);
                assert(strings(all@) =~= before.tags + strings(added));
                match next {
                    Some(url) => if pages + 1 < MAX_TAG_PAGES {
                        (Some(TagList { host, tags: all, pages: pages + 1 }), TagStep::Fetch(url))
                    } else {
                        (None, TagStep::Done(Some(all)))
                    },
                    None => (None, TagStep::Done(Some(all))),
                }
            },
        }
    }
}

/// The newest version of a tag list that was read.
pub fn newest_published_version(tags: Option<&[String]>) -> (r: Option<String>)
    ensures
        match tags {
            None => r is None,
            Some(tags) => match r {
                Some(tag) => exists|at: int| #[trigger] is_newest(tags@, at) && tag@ == tags@[at]@,
                None => forall|i: int|
                    0 <= i < tags@.len() ==> semver_of((#[trigger] tags@[i])@) is None,
            },
        },
{
    match tags {
        None => None,
        Some(tags) => newest_semver(tags),
    }
}

/// The digest that a manifest response names.
pub open spec fn digest_of(status: u16, header: Option<Seq<char>>) -> Option<Seq<char>> {
    match header {
        Some(header) => if status == 200 && text::begins_with(text::trim(header), "sha256:"@) {
            Some(text::trim(header))
        } else {
            None
        },
        None => None,
    }
}

/// The digest that a manifest response names in its `Docker-Content-Digest` field.
pub fn remote_manifest_digest(status: u16, header: Option<&str>) -> (r: Option<String>)
    ensures
        ({
            let expected = digest_of(
                status,
                match header {
                    Some(header) => Some(header@),
                    None => None,
                },
            );
            match r {
                Some(digest) => expected == Some(digest@),
                None => expected is None,
            }
        }),
{
    match header {
        None => None,
        Some(header) => {
            if status != 200 {
                return None;
            }
            let chars: Vec<char> = characters(header);
            let digest: &[char] = trim_chars(chars.as_slice());
            if starts_with(digest, "sha256:") {
                Some(string_of(digest))
            } else {
                None
            }
        },
    }
}

} // verus!
