//! What a registry publishes.
use crate::cli::registry;
use crate::cli::registry::{ChallengeModel, LinkPlace, QuotePlace};
use crate::text;
use vstd::prelude::*;

verus! {

/// Text that can stand between quotes as it is.
pub open spec fn unquoted(s: Seq<char>) -> bool {
    forall|i: int| 0 <= i < s.len() ==> #[trigger] s[i] != '"' && s[i] != '\\'
}

/// The place does not change over text without quotes and backslashes.
proof fn lemma_place_kept(s: Seq<char>, from: int, to: int)
    requires
        0 <= from <= to <= s.len(),
        registry::quote_place(s, from) != QuotePlace::Escaped,
        forall|i: int| from <= i < to ==> #[trigger] s[i] != '"' && s[i] != '\\',
    ensures
        registry::quote_place(s, to) == registry::quote_place(s, from),
    decreases to - from,
{
    if from < to {
        lemma_place_kept(s, from, to - 1);
        assert(s[to - 1] != '"' && s[to - 1] != '\\');
    }
}

/// The first parameter is the first index that is one.
proof fn lemma_parameter_is(s: Seq<char>, start: Seq<char>, from: int, at: int)
    requires
        0 <= from <= at < s.len(),
        registry::begins_parameter(s, at),
        text::occurs_at(s, start, at),
        forall|i: int|
            from <= i < at ==> !(#[trigger] registry::begins_parameter(s, i) && text::occurs_at(
                s,
                start,
                i,
            )),
    ensures
        registry::parameter_at(s, start, from) == Some(at),
    decreases at - from,
{
    if from < at {
        assert(!(registry::begins_parameter(s, from) && text::occurs_at(s, start, from)));
        lemma_parameter_is(s, start, from + 1, at);
    }
}

/// A key with its quoted value.
pub open spec fn pair(key: Seq<char>, value: Seq<char>) -> Seq<char> {
    key + seq!['=', '"'] + value + seq!['"']
}

/// The challenge of a registry with its three pairs.
#[verifier::opaque]
pub open spec fn challenge_text(realm: Seq<char>, service: Seq<char>, scope: Seq<char>) -> Seq<
    char,
> {
    "Bearer "@ + pair("realm"@, realm) + seq![','] + pair("service"@, service) + seq![','] + pair(
        "scope"@,
        scope,
    )
}

proof fn lemma_words()
    ensures
        "Bearer "@ =~= seq!['B', 'e', 'a', 'r', 'e', 'r', ' '],
        "realm"@ =~= seq!['r', 'e', 'a', 'l', 'm'],
        "service"@ =~= seq!['s', 'e', 'r', 'v', 'i', 'c', 'e'],
        "scope"@ =~= seq!['s', 'c', 'o', 'p', 'e'],
        "=\""@ =~= seq!['=', '"'],
{
    reveal_strlit("Bearer ");
    reveal_strlit("realm");
    reveal_strlit("service");
    reveal_strlit("scope");
    reveal_strlit("=\"");
}

/// A pair that stands where a parameter begins gives its value.
proof fn lemma_pair_found(s: Seq<char>, at: int, key: Seq<char>, value: Seq<char>)
    requires
        unquoted(value),
        0 <= at,
        at + key.len() + 2 + value.len() < s.len(),
        text::occurs_at(s, key + "=\""@, at),
        s.subrange(at + key.len() + 2, at + key.len() + 2 + value.len()) == value,
        s[at + key.len() + 2 + value.len()] == '"',
        registry::begins_parameter(s, at),
        forall|i: int|
            0 <= i < at ==> !(#[trigger] registry::begins_parameter(s, i) && text::occurs_at(
                s,
                key + "=\""@,
                i,
            )),
    ensures
        registry::quoted(s, key) == Some(value),
{
    lemma_words();
    let needle = key + "=\""@;
    let start = at + needle.len();
    assert(needle.len() == key.len() + 2);
    lemma_parameter_is(s, needle, 0, at);
    let end = start + value.len();
    let v = s.subrange(start, end);
    assert forall|i: int| start <= i < end implies s[i] != '"' by {
        assert(s[i] == v[i - start]);
    }
    text::lemma_char_at_is(s, '"', start, end);
}

/// Behind a pair that began outside quoted values, one is outside again.
proof fn lemma_behind_pair(a: Seq<char>, key: Seq<char>, value: Seq<char>, rest: Seq<char>)
    requires
        unquoted(key),
        unquoted(value),
        registry::quote_place(a + pair(key, value) + rest, a.len() as int) == QuotePlace::Outside,
    ensures
        ({
            let s = a + pair(key, value) + rest;
            let first = a.len() + key.len() + 2;
            &&& registry::quote_place(s, (a.len() + pair(key, value).len()) as int) == QuotePlace::Outside
            &&& forall|i: int|
                first <= i < a.len() + pair(key, value).len() ==> #[trigger] registry::quote_place(
                    s,
                    i,
                ) == QuotePlace::Quoted
        }),
{
    let s = a + pair(key, value) + rest;
    let n = a.len() as int;
    let k = n + key.len();
    let first = k + 2;
    let end = first + value.len();
    assert forall|i: int| n <= i <= k implies #[trigger] s[i] != '"' && s[i] != '\\' by {
        if i < k {
            assert(s[i] == key[i - n]);
        } else {
            assert(s[i] == '=');
        }
    }
    lemma_place_kept(s, n, k + 1);
    assert(s[k + 1] == '"');
    assert(registry::quote_place(s, first) == QuotePlace::Quoted);
    assert forall|i: int| first <= i < end implies #[trigger] s[i] != '"' && s[i] != '\\' by {
        assert(s[i] == value[i - first]);
    }
    assert forall|i: int| first <= i <= end implies #[trigger] registry::quote_place(s, i)
        == QuotePlace::Quoted by {
        lemma_place_kept(s, first, i);
    }
    assert(s[end] == '"');
    assert(registry::quote_place(s, end) == QuotePlace::Quoted);
    assert(registry::quote_place(s, end + 1) == QuotePlace::Outside);
    assert(pair(key, value).len() == key.len() + value.len() + 3);
}

/// Where the parts of a challenge begin.
spec fn service_at(realm: Seq<char>) -> int {
    16 + realm.len() as int
}

spec fn scope_at(realm: Seq<char>, service: Seq<char>) -> int {
    service_at(realm) + 11 + service.len()
}

/// The places and the letters of a challenge outside its values.
proof fn lemma_layout(realm: Seq<char>, service: Seq<char>, scope: Seq<char>)
    requires
        unquoted(realm),
        unquoted(service),
        unquoted(scope),
    ensures
        ({
            let s = challenge_text(realm, service, scope);
            let n2 = service_at(realm);
            let n3 = scope_at(realm, service);
            &&& s.subrange(0, 14) == seq![
                'B',
                'e',
                'a',
                'r',
                'e',
                'r',
                ' ',
                'r',
                'e',
                'a',
                'l',
                'm',
                '=',
                '"',
            ]
            &&& s.len() == n3 + 8 + scope.len()
            &&& s.subrange(7, 14) == "realm"@ + "=\""@
            &&& s.subrange(14, n2 - 2) == realm && s[n2 - 2] == '"'
            &&& s.subrange(n2, n2 + 9) == "service"@ + "=\""@
            &&& s.subrange(n2 + 9, n3 - 2) == service && s[n3 - 2] == '"'
            &&& s.subrange(n3, n3 + 7) == "scope"@ + "=\""@
            &&& s.subrange(n3 + 7, n3 + 7 + scope.len()) == scope && s[n3 + 7 + scope.len()] == '"'
            &&& registry::quote_place(s, 7) == QuotePlace::Outside
            &&& registry::quote_place(s, n2) == QuotePlace::Outside
            &&& registry::quote_place(s, n3) == QuotePlace::Outside
            &&& forall|i: int|
                14 <= i < n2 - 1 ==> #[trigger] registry::quote_place(s, i) == QuotePlace::Quoted
            &&& forall|i: int|
                n2 + 9 <= i < n3 - 1 ==> #[trigger] registry::quote_place(s, i)
                    == QuotePlace::Quoted
            &&& s[n2 - 1] == ',' && s[n3 - 1] == ','
            &&& s.subrange(n2, n2 + 9) == seq!['s', 'e', 'r', 'v', 'i', 'c', 'e', '=', '"']
        }),
{
    lemma_words();
    reveal(challenge_text);
    let s = challenge_text(realm, service, scope);
    let scheme = "Bearer "@;
    let p1 = pair("realm"@, realm);
    let p2 = pair("service"@, service);
    let p3 = pair("scope"@, scope);
    let a2 = scheme + p1 + seq![','];
    let n2 = service_at(realm);
    let n3 = scope_at(realm, service);
    assert(s =~= scheme + p1 + (seq![','] + p2 + seq![','] + p3));
    assert(s =~= a2 + p2 + (seq![','] + p3));
    assert(s.subrange(0, 14) =~= seq![
        'B',
        'e',
        'a',
        'r',
        'e',
        'r',
        ' ',
        'r',
        'e',
        'a',
        'l',
        'm',
        '=',
        '"',
    ]);
    assert(s.subrange(n2, n2 + 9) =~= seq!['s', 'e', 'r', 'v', 'i', 'c', 'e', '=', '"']);
    assert(registry::quote_place(s, 0) == QuotePlace::Outside);
    assert forall|i: int| 0 <= i < 7 implies #[trigger] s[i] != '"' && s[i] != '\\' by {
        assert(s[i] == s.subrange(0, 14)[i]);
    }
    lemma_place_kept(s, 0, 7);
    lemma_behind_pair(scheme, "realm"@, realm, seq![','] + p2 + seq![','] + p3);
    assert(s[n2 - 1] == ',');
    lemma_place_kept(s, n2 - 1, n2);
    lemma_behind_pair(a2, "service"@, service, seq![','] + p3);
    assert(s[n3 - 1] == ',');
    lemma_place_kept(s, n3 - 1, n3);
    assert(s.subrange(7, 14) =~= "realm"@ + "=\""@);
    assert(s.subrange(14, n2 - 2) =~= realm);
    assert(s.subrange(n2, n2 + 9) =~= "service"@ + "=\""@);
    assert(s.subrange(n2 + 9, n3 - 2) =~= service);
    assert(s.subrange(n3, n3 + 7) =~= "scope"@ + "=\""@);
    assert(s.subrange(n3 + 7, n3 + 7 + scope.len()) =~= scope);
}

proof fn lemma_realm(realm: Seq<char>, service: Seq<char>, scope: Seq<char>)
    requires
        unquoted(realm),
        unquoted(service),
        unquoted(scope),
    ensures
        registry::quoted(challenge_text(realm, service, scope), "realm"@) == Some(realm),
        registry::is_bearer(registry::trim_front(challenge_text(realm, service, scope))),
{
    lemma_words();
    lemma_layout(realm, service, scope);
    let s = challenge_text(realm, service, scope);
    let f = s.subrange(0, 14);
    assert(s[0] == f[0] && s[1] == f[1] && s[2] == f[2] && s[3] == f[3] && s[4] == f[4] && s[5] == f[5]
        && s[6] == f[6]);
    let k = "realm"@ + "=\""@;
    assert forall|i: int| 0 <= i < 7 implies !(#[trigger] registry::begins_parameter(s, i)
        && text::occurs_at(s, k, i)) by {
        if i == 0 && text::occurs_at(s, k, i) {
            assert(s.subrange(0, k.len() as int)[0] == s[0]);
            assert(k[0] == 'r');
        }
    }
    assert(registry::begins_parameter(s, 7));
    lemma_pair_found(s, 7, "realm"@, realm);
    assert(!text::white_space(s[0]));
}

proof fn lemma_service(realm: Seq<char>, service: Seq<char>, scope: Seq<char>)
    requires
        unquoted(realm),
        unquoted(service),
        unquoted(scope),
    ensures
        registry::quoted(challenge_text(realm, service, scope), "service"@) == Some(service),
{
    lemma_words();
    lemma_layout(realm, service, scope);
    let s = challenge_text(realm, service, scope);
    let n = service_at(realm);
    let k = "service"@ + "=\""@;
    assert(k[0] == 's');
    let f = s.subrange(0, 14);
    assert forall|i: int| 0 <= i < n implies !(#[trigger] registry::begins_parameter(s, i)
        && text::occurs_at(s, k, i)) by {
        if text::occurs_at(s, k, i) {
            assert(s.subrange(i, i + k.len())[0] == s[i]);
            if i < 14 {
                assert(s[i] == f[i]);
            } else if i < n - 1 {
                assert(registry::quote_place(s, i) == QuotePlace::Quoted);
            }
        }
    }
    assert(registry::begins_parameter(s, n));
    lemma_pair_found(s, n, "service"@, service);
}

proof fn lemma_scope(realm: Seq<char>, service: Seq<char>, scope: Seq<char>)
    requires
        unquoted(realm),
        unquoted(service),
        unquoted(scope),
    ensures
        registry::quoted(challenge_text(realm, service, scope), "scope"@) == Some(scope),
{
    lemma_words();
    lemma_layout(realm, service, scope);
    let s = challenge_text(realm, service, scope);
    let m = service_at(realm);
    let n = scope_at(realm, service);
    let k = "scope"@ + "=\""@;
    assert(k[0] == 's' && k[1] == 'c');
    let f = s.subrange(0, 14);
    let g = s.subrange(m, m + 9);
    assert forall|i: int| 0 <= i < n implies !(#[trigger] registry::begins_parameter(s, i)
        && text::occurs_at(s, k, i)) by {
        if text::occurs_at(s, k, i) {
            assert(s.subrange(i, i + k.len())[0] == s[i]);
            assert(s.subrange(i, i + k.len())[1] == s[i + 1]);
            if i < 14 {
                assert(s[i] == f[i]);
            } else if i < m - 1 {
                assert(registry::quote_place(s, i) == QuotePlace::Quoted);
            } else if m <= i < m + 9 {
                assert(s[i] == g[i - m]);
                assert(s[m + 1] == g[1]);
            } else if m + 9 <= i < n - 1 {
                assert(registry::quote_place(s, i) == QuotePlace::Quoted);
            }
        }
    }
    assert(registry::begins_parameter(s, n));
    lemma_pair_found(s, n, "scope"@, scope);
}

/// The challenge of a registry gives its realm, its service and its scope, whatever these hold but
/// quotes and backslashes: commas, blanks and the names of the other keys do no harm.
pub proof fn a_challenge_gives_its_three_values(
    realm: Seq<char>,
    service: Seq<char>,
    scope: Seq<char>,
)
    requires
        unquoted(realm),
        unquoted(service),
        unquoted(scope),
    ensures
        registry::challenge_of(challenge_text(realm, service, scope)) == Some(
            ChallengeModel { realm, service, scope },
        ),
{
    lemma_realm(realm, service, scope);
    lemma_service(realm, service, scope);
    lemma_scope(realm, service, scope);
}

/// A challenge of another scheme is none.
pub proof fn another_scheme_is_no_challenge(s: Seq<char>)
    ensures
        registry::challenge_of(s) is Some ==> {
            let t = text::trim_start(s);
            &&& t.len() >= 6
            &&& t[0] == 'B' || t[0] == 'b'
            &&& t[1] == 'E' || t[1] == 'e'
            &&& t[2] == 'A' || t[2] == 'a'
            &&& t[3] == 'R' || t[3] == 'r'
            &&& t[4] == 'E' || t[4] == 'e'
            &&& t[5] == 'R' || t[5] == 'r'
        },
{
}

/// A target that can stand between angle brackets.
pub open spec fn unbracketed(u: Seq<char>) -> bool {
    forall|i: int| 0 <= i < u.len() ==> #[trigger] u[i] != '<' && u[i] != '>'
}

/// The address that a target of a link stands for.
pub open spec fn resolved(u: Seq<char>, host: Seq<char>) -> Seq<char> {
    if u.len() >= 4 && u.subrange(0, 4) == seq!['h', 't', 't', 'p'] {
        u
    } else {
        "https://"@ + host + u
    }
}

proof fn lemma_target_closes(s: Seq<char>, from: int, close: int)
    requires
        0 <= from <= close < s.len(),
        s[close] == '>',
        forall|i: int| from <= i < close ==> #[trigger] s[i] != '<' && s[i] != '>',
    ensures
        registry::target_closes(s, from),
    decreases close - from,
{
    if from < close {
        lemma_target_closes(s, from + 1, close);
    }
}

proof fn lemma_in_target(s: Seq<char>, from: int, to: int)
    requires
        0 <= from <= to <= s.len(),
        registry::link_place(s, from) == LinkPlace::Target,
        forall|i: int| from <= i < to ==> #[trigger] s[i] != '>',
    ensures
        registry::link_place(s, to) == LinkPlace::Target,
    decreases to - from,
{
    if from < to {
        lemma_in_target(s, from, to - 1);
        assert(s[to - 1] != '>');
    }
}

proof fn lemma_outside(s: Seq<char>, from: int, to: int)
    requires
        0 <= from <= to <= s.len(),
        registry::link_place(s, from) == LinkPlace::Outside,
        forall|i: int| from <= i < to ==> #[trigger] s[i] != '<' && s[i] != '"',
    ensures
        registry::link_place(s, to) == LinkPlace::Outside,
    decreases to - from,
{
    if from < to {
        lemma_outside(s, from, to - 1);
        assert(s[to - 1] != '<' && s[to - 1] != '"');
    }
}

proof fn lemma_no_cut(s: Seq<char>, from: int)
    requires
        0 <= from <= s.len(),
        forall|i: int|
            from <= i < s.len() && #[trigger] s[i] == ',' ==> registry::link_place(s, i)
                != LinkPlace::Outside,
    ensures
        registry::link_cut(s, from) == s.len(),
    decreases s.len() - from,
{
    if from < s.len() {
        assert(s[from] == ',' ==> registry::link_place(s, from) != LinkPlace::Outside);
        lemma_no_cut(s, from + 1);
    }
}

/// The address of the next page is the target of the link that says so, resolved against the host
/// where it is no address by itself. Commas in the target do no harm.
pub proof fn a_next_link_is_followed(u: Seq<char>, host: Seq<char>)
    requires
        unbracketed(u),
    ensures
        registry::next_page(
            registry::links(seq!['<'] + u + seq!['>'] + "; rel=\"next\""@, 0),
            host,
        ) == Some(resolved(u, host)),
        registry::next_page(
            registry::links(seq!['<'] + u + seq!['>'] + "; rel=next"@, 0),
            host,
        ) == Some(resolved(u, host)),
{
    reveal_strlit("; rel=\"next\"");
    reveal_strlit("; rel=next");
    reveal_strlit("rel=\"next\"");
    reveal_strlit("rel=next");
    let quoted = "; rel=\"next\""@;
    let plain = "; rel=next"@;
    let n = u.len() as int;
    let s = seq!['<'] + u + seq!['>'] + quoted;
    let t = seq!['<'] + u + seq!['>'] + plain;
    lemma_link_front(u, quoted);
    lemma_link_front(u, plain);
    let at = n + 4;
    lemma_outside(s, n + 2, at);
    lemma_outside(t, n + 2, at);
    assert(s.subrange(at, at + 10) =~= "rel=\"next\""@);
    assert(t.subrange(at, at + 8) =~= "rel=next"@);
    assert(s[at - 1] == ' ' && t[at - 1] == ' ');
    assert(registry::next_named_at(s, at));
    assert(registry::next_named_at(t, at));
    lemma_single_link(u, quoted, host);
    lemma_single_link(u, plain, host);
}

proof fn lemma_link_front(u: Seq<char>, rest: Seq<char>)
    requires
        unbracketed(u),
    ensures
        ({
            let s = seq!['<'] + u + seq!['>'] + rest;
            &&& registry::link_place(s, u.len() as int + 2) == LinkPlace::Outside
            &&& forall|i: int|
                1 <= i <= u.len() + 1 ==> #[trigger] registry::link_place(s, i) == LinkPlace::Target
        }),
{
    let s = seq!['<'] + u + seq!['>'] + rest;
    let n = u.len() as int;
    assert(s[0] == '<' && s[n + 1] == '>');
    assert forall|i: int| 1 <= i < n + 1 implies #[trigger] s[i] != '<' && s[i] != '>' by {
        assert(s[i] == u[i - 1]);
    }
    lemma_target_closes(s, 1, n + 1);
    assert(registry::link_place(s, 0) == LinkPlace::Outside);
    assert(registry::link_place(s, 1) == LinkPlace::Target);
    assert forall|i: int| 1 <= i <= n + 1 implies #[trigger] registry::link_place(s, i)
        == LinkPlace::Target by {
        lemma_in_target(s, 1, i);
    }
    lemma_in_target(s, 1, n + 1);
    assert(registry::link_place(s, n + 2) == LinkPlace::Outside);
}

proof fn lemma_single_link(u: Seq<char>, rest: Seq<char>, host: Seq<char>)
    requires
        unbracketed(u),
        forall|i: int| 0 <= i < rest.len() ==> #[trigger] rest[i] != ',',
        registry::names_next(seq!['<'] + u + seq!['>'] + rest),
    ensures
        registry::next_page(registry::links(seq!['<'] + u + seq!['>'] + rest, 0), host) == Some(
            resolved(u, host),
        ),
{
    reveal_strlit("http");
    let s = seq!['<'] + u + seq!['>'] + rest;
    let n = u.len() as int;
    lemma_link_front(u, rest);
    assert forall|i: int| 0 <= i < s.len() && #[trigger] s[i] == ',' implies registry::link_place(
        s,
        i,
    ) != LinkPlace::Outside by {
        if i >= n + 2 {
            assert(s[i] == rest[i - n - 2]);
        } else if i == 0 {
            assert(s[0] == '<');
        } else {
            assert(registry::link_place(s, i) == LinkPlace::Target);
        }
    }
    lemma_no_cut(s, 0);
    assert(s.subrange(0, s.len() as int) =~= s);
    let all = registry::links(s, 0);
    assert(all =~= seq![s]);
    assert(all[0] == s);
    assert(s[0] == '<');
    assert(text::char_at(s, '<', 0) == 0);
    assert forall|i: int| 1 <= i < n + 1 implies s[i] != '>' by {
        assert(s[i] == u[i - 1]);
    }
    assert(s[n + 1] == '>');
    text::lemma_char_at_is(s, '>', 1, n + 1);
    assert(s.subrange(1, n + 1) =~= u);
    assert("http"@ =~= seq!['h', 't', 't', 'p']);
    assert(registry::link_target(s, host) == Some(resolved(u, host)));
}

/// A link that says something else is not followed.
pub proof fn another_link_is_not_followed(u: Seq<char>, word: Seq<char>, host: Seq<char>)
    requires
        unbracketed(u),
        forall|i: int| 0 <= i < word.len() ==> 'a' <= #[trigger] word[i] <= 'z',
        word != "next"@,
        word.len() > 0,
    ensures
        registry::next_page(
            registry::links(seq!['<'] + u + seq!['>'] + seq![';', ' ', 'r', 'e', 'l', '='] + word, 0),
            host,
        ) is None,
{
    reveal_strlit("next");
    reveal_strlit("rel=\"next\"");
    reveal_strlit("rel=next");
    let rest = seq![';', ' ', 'r', 'e', 'l', '='] + word;
    let s = seq!['<'] + u + seq!['>'] + seq![';', ' ', 'r', 'e', 'l', '='] + word;
    assert(s =~= seq!['<'] + u + seq!['>'] + rest);
    let n = u.len() as int;
    lemma_link_front(u, rest);
    let at = n + 4;
    assert(s[at] == 'r' && s[at + 1] == 'e' && s[at + 2] == 'l' && s[at + 3] == '=');
    assert forall|i: int| 0 <= i implies !#[trigger] registry::next_named_at(s, i) by {
        if registry::next_named_at(s, i) {
            let q = "rel=\"next\""@;
            let p = "rel=next"@;
            if 1 <= i <= n + 1 {
                assert(registry::link_place(s, i) == LinkPlace::Target);
            } else if i == 0 {
                assert(s[0] == '<');
                if text::occurs_at(s, q, i) {
                    assert(s.subrange(i, i + q.len())[0] == s[i]);
                } else {
                    assert(s.subrange(i, i + p.len())[0] == s[i]);
                }
            } else if i == at {
                if text::occurs_at(s, q, i) {
                    let c = s.subrange(i, i + q.len());
                    assert(c[4] == '"');
                    assert(c[4] == s[at + 4]);
                    assert(s[at + 4] == word[0]);
                } else {
                    let c = s.subrange(i, i + p.len());
                    assert(c[4] == 'n' && c[5] == 'e' && c[6] == 'x' && c[7] == 't');
                    assert(s[at + 4] == word[0] && s[at + 5] == word[1] && s[at + 6] == word[2] && s[at
                        + 7] == word[3]);
                    assert(c[4] == s[at + 4] && c[5] == s[at + 5] && c[6] == s[at + 6] && c[7] == s[at
                        + 7]);
                    if word.len() == 4 {
                        assert(word =~= "next"@);
                    } else {
                        assert(s[i + 8] == word[4]);
                    }
                }
            } else if i < at {
                if text::occurs_at(s, q, i) {
                    assert(s.subrange(i, i + q.len())[0] == s[i]);
                } else {
                    assert(s.subrange(i, i + p.len())[0] == s[i]);
                }
            } else if i > at + 4 {
                assert(s[i - 1] == word[i - 1 - at - 4]);
                assert('a' <= word[i - 1 - at - 4] <= 'z');
            } else if i == at + 4 {
                if text::occurs_at(s, q, i) {
                    let c = s.subrange(i, i + q.len());
                    assert(c[3] == '=');
                    assert(c[3] == s[i + 3]);
                    assert(s[i + 3] == word[3]);
                } else {
                    let c = s.subrange(i, i + p.len());
                    assert(c[3] == '=');
                    assert(c[3] == s[i + 3]);
                    assert(s[i + 3] == word[3]);
                }
            } else {
                assert(s[i - 1] == 'r' || s[i - 1] == 'e' || s[i - 1] == 'l');
            }
        }
    }
    assert(!registry::names_next(s));
    assert forall|i: int| 0 <= i < s.len() && #[trigger] s[i] == ',' implies registry::link_place(
        s,
        i,
    ) != LinkPlace::Outside by {
        if i >= n + 8 {
            assert(s[i] == word[i - n - 8]);
        } else if 1 <= i <= n + 1 {
            assert(registry::link_place(s, i) == LinkPlace::Target);
        }
    }
    lemma_no_cut(s, 0);
    assert(s.subrange(0, s.len() as int) =~= s);
    let all = registry::links(s, 0);
    assert(all =~= seq![s]);
    assert(all.drop_first() =~= Seq::empty());
    assert(registry::next_page(all.drop_first(), host) is None);
}

/// A registry base is a host and, behind the first slash, a namespace that stands before the image.
pub proof fn a_base_is_a_host_and_a_namespace(
    host: Seq<char>,
    namespace: Seq<char>,
    image: Seq<char>,
    tag: Seq<char>,
)
    requires
        !host.contains('/'),
    ensures
        registry::tags_address(host, image) == "https://"@ + host + "/v2/"@ + image + "/tags/list"@,
        namespace.len() > 0 ==> registry::tags_address(host.push('/') + namespace, image)
            == "https://"@ + host + "/v2/"@ + (namespace + "/"@ + image) + "/tags/list"@,
        registry::manifest_address(host, image, tag) == "https://"@ + host + "/v2/"@ + image
            + "/manifests/"@ + tag,
        namespace.len() > 0 ==> registry::manifest_address(host.push('/') + namespace, image, tag)
            == "https://"@ + host + "/v2/"@ + (namespace + "/"@ + image) + "/manifests/"@ + tag,
{
    let n = host.len() as int;
    let base = host.push('/') + namespace;
    assert forall|i: int| 0 <= i < n implies host[i] != '/' && base[i] != '/' by {
        assert(host.contains(host[i]));
        assert(base[i] == host[i]);
    }
    assert(base[n] == '/');
    text::lemma_char_at_is(host, '/', 0, n);
    text::lemma_char_at_is(base, '/', 0, n);
    assert(host.subrange(0, n) =~= host);
    assert(base.subrange(0, n) =~= host);
    assert(base.subrange(n + 1, base.len() as int) =~= namespace);
}

/// Only a manifest that was found, and only a digest of the known kind, names what is published;
/// white space around it does not count.
pub proof fn a_digest_is_that_of_a_found_manifest(status: u16, header: Seq<char>)
    ensures
        registry::digest_of(status, Some(header)) matches Some(d) ==> status == 200 && d
            == text::trim(header) && d.len() >= 7 && d.subrange(0, 7) == seq![
            's',
            'h',
            'a',
            '2',
            '5',
            '6',
            ':',
        ],
        status == 200 && header.len() >= 7 && text::trimmed(header) && header.subrange(0, 7) == seq![
            's',
            'h',
            'a',
            '2',
            '5',
            '6',
            ':',
        ] ==> registry::digest_of(status, Some(header)) == Some(header),
        registry::digest_of(status, None) is None,
{
    reveal_strlit("sha256:");
    assert("sha256:"@ =~= seq!['s', 'h', 'a', '2', '5', '6', ':']);
    text::lemma_trim(header);
}

} // verus!
