//! Header rules shared by both directions of a proxied exchange.
use crate::fields;
use crate::fields::{get_all, members, remove, try_append, valid_token, Fields};
use crate::octets;
use hyper::HeaderMap;
use vstd::prelude::*;
use vstd::utf8::*;

verus! {

/// The protocol version of a message.
#[derive(Debug, Clone, Copy, PartialEq, Eq, Structural)]
pub enum HttpVersion {
    Http10,
    Http11,
}

/// A `Connection` field that does not list field names.
#[derive(Debug, Clone, Copy, PartialEq, Eq, Structural)]
pub struct HeaderError;

impl HeaderError {
    pub fn message(&self) -> (r: &'static str)
        ensures
            r@ == "invalid connection header"@,
    {
        "invalid connection header"
    }
}

/// The names that always belong to one hop, besides `connection`.
pub open spec fn fixed_hop_names() -> Seq<Seq<u8>> {
    seq![
        octets::octets("keep-alive"@),
        octets::octets("proxy-connection"@),
        octets::octets("proxy-authenticate"@),
        octets::octets("proxy-authorization"@),
        octets::octets("te"@),
        octets::octets("trailer"@),
        octets::octets("transfer-encoding"@),
        octets::octets("upgrade"@),
    ]
}

pub open spec fn connection_name() -> Seq<u8> {
    octets::octets("connection"@)
}

/// Every member of a list is a field name.
pub open spec fn all_field_names(names: Seq<Seq<u8>>) -> bool {
    forall|i: int| 0 <= i < names.len() ==> fields::is_field_name(#[trigger] names[i])
}

/// The names in lower case.
pub open spec fn lower_all(names: Seq<Seq<u8>>) -> Seq<Seq<u8>> {
    Seq::new(names.len(), |i: int| octets::lower(names[i]))
}

/// The names that the `Connection` fields nominate, in lower case.
pub open spec fn nominations_of(f: Fields) -> Option<Seq<Seq<u8>>> {
    let names = fields::all_members(fields::values_of(f, connection_name()));
    if all_field_names(names) {
        Some(lower_all(names))
    } else {
        None
    }
}

/// Without any of the names, taken out one after the other.
pub open spec fn removed_all(f: Fields, names: Seq<Seq<u8>>) -> Fields
    decreases names.len(),
{
    if names.len() == 0 {
        f
    } else {
        removed_all(fields::removed(f, names[0]), names.drop_first())
    }
}

/// Without the `Connection` fields, the fields they nominate and the fixed hop fields.
pub open spec fn sanitized(f: Fields, nominated: Seq<Seq<u8>>) -> Fields {
    removed_all(
        removed_all(fields::removed(f, connection_name()), nominated),
        fixed_hop_names(),
    )
}

/// The entry that the proxy leaves in the `Via` chain.
pub open spec fn via_entry(received: HttpVersion) -> Seq<u8> {
    match received {
        HttpVersion::Http10 => octets::octets("1.0 vhrn"@),
        HttpVersion::Http11 => octets::octets("1.1 vhrn"@),
    }
}

pub open spec fn via_name() -> Seq<u8> {
    octets::octets("via"@)
}

/// A literal name in lower case is its own lower case, and a field name.
pub proof fn lemma_literal_names()
    ensures
        octets::lower(connection_name()) == connection_name(),
        fields::is_field_name(connection_name()),
        octets::lower(via_name()) == via_name(),
        fields::is_field_name(via_name()),
        forall|i: int|
            0 <= i < fixed_hop_names().len() ==> fields::is_field_name(
                #[trigger] fixed_hop_names()[i],
            ) && octets::lower(fixed_hop_names()[i]) == fixed_hop_names()[i],
{
    reveal_strlit("connection");
    reveal_strlit("via");
    reveal_strlit("keep-alive");
    reveal_strlit("proxy-connection");
    reveal_strlit("proxy-authenticate");
    reveal_strlit("proxy-authorization");
    reveal_strlit("te");
    reveal_strlit("trailer");
    reveal_strlit("transfer-encoding");
    reveal_strlit("upgrade");
    lemma_plain_name("connection"@);
    lemma_plain_name("via"@);
    lemma_plain_name("keep-alive"@);
    lemma_plain_name("proxy-connection"@);
    lemma_plain_name("proxy-authenticate"@);
    lemma_plain_name("proxy-authorization"@);
    lemma_plain_name("te"@);
    lemma_plain_name("trailer"@);
    lemma_plain_name("transfer-encoding"@);
    lemma_plain_name("upgrade"@);
}

/// Text of lower-case letters and hyphens is a field name in lower case.
pub proof fn lemma_plain_name(text: Seq<char>)
    requires
        1 <= text.len() <= 65535,
        forall|i: int| 0 <= i < text.len() ==> 'a' <= #[trigger] text[i] <= 'z' || text[i] == '-',
    ensures
        octets::lower(octets::octets(text)) == octets::octets(text),
        fields::is_field_name(octets::octets(text)),
        octets::octets(text).len() == text.len(),
        forall|i: int| 0 <= i < text.len() ==> octets::octets(text)[i] == #[trigger] text[i] as u8,
{
    assert(is_ascii_chars(text));
    is_ascii_chars_encode_utf8(text);
    let s = octets::octets(text);
    assert forall|i: int| 0 <= i < s.len() implies s[i] == text[i] as u8
        && fields::is_token_octet(#[trigger] s[i]) && octets::lower_octet(s[i]) == s[i] by {
        assert('a' <= text[i] <= 'z' || text[i] == '-');
    }
    assert(octets::lower(s) =~= s);
}

/// Reads the field names that every `Connection` value nominates.
pub fn connection_nominations(headers: &HeaderMap) -> (r: Result<Vec<Vec<u8>>, HeaderError>)
    ensures
        match r {
            Ok(names) => nominations_of(fields::contents(*headers)) == Some(octets::views(names@)),
            Err(_) => nominations_of(fields::contents(*headers)) is None,
        },
{
    proof {
        lemma_literal_names();
    }
    let listed = members(&get_all(headers, "connection"));
    let ghost names = fields::all_members(
        fields::values_of(fields::contents(*headers), connection_name()),
    );
    let mut out: Vec<Vec<u8>> = Vec::new();
    let mut i: usize = 0;
    assert(octets::views(listed@).len() == listed@.len());
    while i < listed.len()
        invariant
            i <= listed@.len(),
            octets::views(listed@) == names,
            names.len() == listed@.len(),
            names == fields::all_members(
                fields::values_of(fields::contents(*headers), connection_name()),
            ),
            forall|j: int| 0 <= j < i ==> fields::is_field_name(#[trigger] names[j]),
            octets::views(out@) == lower_all(names.subrange(0, i as int)),
        decreases listed@.len() - i,
    {
        assert(octets::views(listed@)[i as int] == listed@[i as int]@);
        if listed[i].len() > 65535 || !valid_token(listed[i].as_slice()) {
            assert(!fields::is_field_name(names[i as int]));
            return Err(HeaderError);
        }
        let ghost was = octets::views(out@);
        out.push(octets::lowercase(listed[i].as_slice()));
        proof {
            assert(octets::views(out@) =~= was.push(octets::lower(names[i as int])));
            assert(lower_all(names.subrange(0, i + 1)) =~= lower_all(
                names.subrange(0, i as int),
            ).push(octets::lower(names[i as int])));
        }
        i += 1;
    }
    assert(names.subrange(0, i as int) =~= names);
    Ok(out)
}

/// Removes every one of the names.
pub fn remove_names(headers: &mut HeaderMap, names: &Vec<Vec<u8>>)
    requires
        all_field_names(octets::views(names@)),
    ensures
        fields::contents(*final(headers)) == removed_all(
            fields::contents(*old(headers)),
            lower_all(octets::views(names@)),
        ),
{
    let ghost all = lower_all(octets::views(names@));
    let ghost start = fields::contents(*headers);
    let mut i: usize = 0;
    assert(all.subrange(0, all.len() as int) =~= all);
    while i < names.len()
        invariant
            i <= names@.len(),
            all == lower_all(octets::views(names@)),
            all_field_names(octets::views(names@)),
            removed_all(
                fields::contents(*headers),
                all.subrange(i as int, all.len() as int),
            ) == removed_all(start, all),
        decreases names@.len() - i,
    {
        proof {
            assert(octets::views(names@)[i as int] == names@[i as int]@);
            let rest = all.subrange(i as int, all.len() as int);
            assert(rest[0] == octets::lower(names@[i as int]@));
            assert(rest.drop_first() =~= all.subrange(i + 1, all.len() as int));
        }
        remove(headers, names[i].as_slice());
        i += 1;
    }
    assert(all.subrange(i as int, all.len() as int) =~= Seq::empty());
}

fn fixed_names() -> (r: Vec<Vec<u8>>)
    ensures
        octets::views(r@) == fixed_hop_names(),
{
    let mut out: Vec<Vec<u8>> = Vec::new();
    out.push(octets::copy("keep-alive".as_bytes()));
    out.push(octets::copy("proxy-connection".as_bytes()));
    out.push(octets::copy("proxy-authenticate".as_bytes()));
    out.push(octets::copy("proxy-authorization".as_bytes()));
    out.push(octets::copy("te".as_bytes()));
    out.push(octets::copy("trailer".as_bytes()));
    out.push(octets::copy("transfer-encoding".as_bytes()));
    out.push(octets::copy("upgrade".as_bytes()));
    assert(octets::views(out@) =~= fixed_hop_names());
    out
}

/// Removes every fixed hop field, every `Connection` field and every field that one nominates.
/// Where a nomination is no field name, nothing is removed.
pub fn sanitize_hop_by_hop(headers: &mut HeaderMap) -> (r: Result<(), HeaderError>)
    ensures
        match r {
            Ok(_) => nominations_of(fields::contents(*old(headers))) matches Some(nominated)
                && fields::contents(*final(headers)) == sanitized(
                fields::contents(*old(headers)),
                nominated,
            ),
            Err(_) => nominations_of(fields::contents(*old(headers))) is None && fields::contents(
                *final(headers),
            ) == fields::contents(*old(headers)),
        },
{
    proof {
        lemma_literal_names();
    }
    match connection_nominations(headers) {
        Err(error) => Err(error),
        Ok(nominated) => {
            proof {
                lemma_nominations_lower(fields::contents(*headers));
            }
            remove(headers, "connection".as_bytes());
            remove_names(headers, &nominated);
            let fixed = fixed_names();
            assert(lower_all(fixed_hop_names()) =~= fixed_hop_names());
            remove_names(headers, &fixed);
            Ok(())
        },
    }
}

/// Nominated names are field names in lower case.
pub proof fn lemma_nominations_lower(f: Fields)
    ensures
        match nominations_of(f) {
            Some(names) => all_field_names(names) && lower_all(names) == names,
            None => true,
        },
{
    let listed = fields::all_members(fields::values_of(f, connection_name()));
    if all_field_names(listed) {
        let names = lower_all(listed);
        assert forall|i: int| 0 <= i < names.len() implies fields::is_field_name(
            #[trigger] names[i],
        ) && octets::lower(names[i]) == names[i] by {
            assert(fields::is_field_name(listed[i]));
            assert forall|j: int| 0 <= j < names[i].len() implies fields::is_token_octet(
                #[trigger] names[i][j],
            ) by {
                assert(fields::is_token_octet(listed[i][j]));
            }
            assert(octets::lower(names[i]) =~= names[i]);
        }
        assert(lower_all(names) =~= names);
    }
}

/// Adds the proxy to the `Via` chain. Returns whether the map took the field, which it does unless
/// it holds very many names.
pub fn append_via(headers: &mut HeaderMap, received: HttpVersion) -> (r: bool)
    ensures
        r ==> fields::contents(*final(headers)) == fields::appended(
            fields::contents(*old(headers)),
            via_name(),
            via_entry(received),
        ),
        !r ==> fields::contents(*final(headers)) == fields::contents(*old(headers))
            && fields::contents(*old(headers)).order.len() >= fields::SURE_NAMES,
{
    proof {
        lemma_literal_names();
        reveal_strlit("1.0 vhrn");
        reveal_strlit("1.1 vhrn");
        is_ascii_chars_encode_utf8("1.0 vhrn"@);
        is_ascii_chars_encode_utf8("1.1 vhrn"@);
    }
    match received {
        HttpVersion::Http10 => try_append(headers, "via".as_bytes(), "1.0 vhrn".as_bytes()),
        HttpVersion::Http11 => try_append(headers, "via".as_bytes(), "1.1 vhrn".as_bytes()),
    }
}

/// Taking names out leaves every other name with its values, and none of the names taken out.
pub proof fn lemma_removed_all(f: Fields, names: Seq<Seq<u8>>, name: Seq<u8>)
    ensures
        names.contains(name) ==> !fields::has(removed_all(f, names), name),
        !names.contains(name) ==> fields::values_of(removed_all(f, names), name)
            == fields::values_of(f, name) && fields::has(removed_all(f, names), name)
            == fields::has(f, name),
        !fields::has(f, name) ==> !fields::has(removed_all(f, names), name),
    decreases names.len(),
{
    if names.len() > 0 {
        let g = fields::removed(f, names[0]);
        let rest = names.drop_first();
        lemma_removed_all(g, rest, name);
        if names.contains(name) && !rest.contains(name) {
            let i = names.index_of(name);
            if i > 0 {
                assert(rest[i - 1] == name);
            }
            assert(names[0] == name);
        }
        if rest.contains(name) {
            let i = rest.index_of(name);
            assert(names[i + 1] == name);
        }
        if name == names[0] {
            assert(names.contains(names[0]));
        }
    }
}

/// After sanitizing, no `Connection` field, no fixed hop field and no nominated field is left, and
/// every other field keeps all its values in order.
pub proof fn sanitizing_removes_hop_fields_only(f: Fields, name: Seq<u8>)
    requires
        nominations_of(f) is Some,
    ensures
        ({
            let nominated = nominations_of(f)->0;
            let after = sanitized(f, nominated);
            if name == connection_name() || nominated.contains(name)
                || fixed_hop_names().contains(name) {
                !fields::has(after, name)
            } else {
                fields::values_of(after, name) == fields::values_of(f, name)
            }
        }),
{
    let nominated = nominations_of(f)->0;
    let g = fields::removed(f, connection_name());
    lemma_removed_all(g, nominated, name);
    lemma_removed_all(removed_all(g, nominated), fixed_hop_names(), name);
}

} // verus!
