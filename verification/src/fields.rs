//! Header fields: names, values and the map that holds them.
use crate::octets;
use crate::octets::{alnum, part};
use hyper::header::{HeaderName, HeaderValue};
use hyper::HeaderMap;
use vstd::prelude::*;

verus! {

/// `http::HeaderMap`, which maps field names to lists of values.
#[verifier::external_type_specification]
#[verifier::external_body]
#[verifier::reject_recursive_types(T)]
pub struct ExHeaderMap<T>(hyper::HeaderMap<T>);

/// `http::HeaderValue`, the value type of the map.
#[verifier::external_type_specification]
#[verifier::external_body]
pub struct ExHeaderValue(hyper::header::HeaderValue);

/// The values that a header map holds for each name, in the order in which they were appended.
pub uninterp spec fn values_in(map: HeaderMap<HeaderValue>) -> Map<Seq<u8>, Seq<Seq<u8>>>;

/// The names of a header map in the order in which the map is walked.
pub uninterp spec fn order_in(map: HeaderMap<HeaderValue>) -> Seq<Seq<u8>>;

/// What a header map holds.
#[verifier::ext_equal]
pub struct Fields {
    pub values: Map<Seq<u8>, Seq<Seq<u8>>>,
    pub order: Seq<Seq<u8>>,
}

pub open spec fn contents(map: HeaderMap<HeaderValue>) -> Fields {
    Fields { values: values_in(map), order: order_in(map) }
}

pub open spec fn no_fields() -> Fields {
    Fields { values: Map::empty(), order: Seq::empty() }
}

/// The values of one name, none where the name is absent.
pub open spec fn values_of(f: Fields, name: Seq<u8>) -> Seq<Seq<u8>> {
    if f.values.dom().contains(name) {
        f.values[name]
    } else {
        Seq::empty()
    }
}

pub open spec fn has(f: Fields, name: Seq<u8>) -> bool {
    f.values.dom().contains(name)
}

/// With one more value for a name, after the values that the name has. A new name comes last.
pub open spec fn appended(f: Fields, name: Seq<u8>, value: Seq<u8>) -> Fields {
    Fields {
        values: f.values.insert(name, values_of(f, name).push(value)),
        order: if has(f, name) {
            f.order
        } else {
            f.order.push(name)
        },
    }
}

/// With one item taken out, and the last item in its place.
pub open spec fn swap_removed(s: Seq<Seq<u8>>, name: Seq<u8>) -> Seq<Seq<u8>> {
    let i = s.index_of(name);
    if s.contains(name) {
        if i == s.len() - 1 {
            s.drop_last()
        } else {
            s.update(i, s.last()).drop_last()
        }
    } else {
        s
    }
}

/// Without the name and all its values.
pub open spec fn removed(f: Fields, name: Seq<u8>) -> Fields {
    if has(f, name) {
        Fields { values: f.values.remove(name), order: swap_removed(f.order, name) }
    } else {
        f
    }
}

/// The fields of one name after another.
pub open spec fn one_name(name: Seq<u8>, values: Seq<Seq<u8>>) -> Seq<(Seq<u8>, Seq<u8>)> {
    Seq::new(values.len(), |i: int| (name, values[i]))
}

/// Every field, name by name in the given order.
pub open spec fn listing(f: Fields, order: Seq<Seq<u8>>) -> Seq<(Seq<u8>, Seq<u8>)>
    decreases order.len(),
{
    if order.len() == 0 {
        Seq::empty()
    } else {
        one_name(order[0], values_of(f, order[0])) + listing(f, order.drop_first())
    }
}

pub open spec fn pair_views(s: Seq<(Vec<u8>, Vec<u8>)>) -> Seq<(Seq<u8>, Seq<u8>)> {
    Seq::new(s.len(), |i: int| (s[i].0@, s[i].1@))
}

/// An octet of a token.
pub open spec fn is_token_octet(b: u8) -> bool {
    ||| octets::is_alnum(b)
    ||| b == '!' as u8
    ||| b == '#' as u8
    ||| b == '$' as u8
    ||| b == '%' as u8
    ||| b == '&' as u8
    ||| b == '\'' as u8
    ||| b == '*' as u8
    ||| b == '+' as u8
    ||| b == '-' as u8
    ||| b == '.' as u8
    ||| b == '^' as u8
    ||| b == '_' as u8
    ||| b == '`' as u8
    ||| b == '|' as u8
    ||| b == '~' as u8
}

pub open spec fn is_token(s: Seq<u8>) -> bool {
    s.len() > 0 && forall|i: int| 0 <= i < s.len() ==> is_token_octet(#[trigger] s[i])
}

/// A field name: a token of at most 65535 octets.
pub open spec fn is_field_name(s: Seq<u8>) -> bool {
    is_token(s) && s.len() <= 65535
}

/// An octet of a field value: anything but a control character other than the tab.
pub open spec fn is_value_octet(b: u8) -> bool {
    b == 9 || (b >= 32 && b != 127)
}

pub open spec fn is_field_value(s: Seq<u8>) -> bool {
    forall|i: int| 0 <= i < s.len() ==> is_value_octet(#[trigger] s[i])
}

/// The number of different names below which the map always takes a field.
pub const SURE_NAMES: usize = 6554;

/// `HeaderMap::new`: an empty map.
#[verifier::external_body]
pub(crate) fn new_map() -> (r: HeaderMap)
    ensures
        values_in(r) == no_fields().values,
        order_in(r) == no_fields().order,
{
    HeaderMap::new()
}

/// `HeaderMap::try_append`: the value goes to the end of the list of the name, which is kept in
/// lower case; a new name goes to the end of the walk. The map refuses, and stays as it was, only
/// where it would have to grow past its fixed maximum, which it does with 6554 names at the least.
#[verifier::external_body]
pub(crate) fn try_append(map: &mut HeaderMap, name: &[u8], value: &[u8]) -> (r: bool)
    requires
        is_field_name(name@),
        is_field_value(value@),
    ensures
        r ==> contents(*final(map)) == appended(
            contents(*old(map)),
            octets::lower(name@),
            value@,
        ),
        !r ==> contents(*final(map)) == contents(*old(map)) && contents(*old(map)).order.len()
            >= SURE_NAMES,
{
    let name = HeaderName::from_bytes(name).expect("a field name");
    let value = HeaderValue::from_bytes(value).expect("a field value");
    map.try_append(name, value).is_ok()
}

/// `HeaderMap::get_all`: the values of a name, in the order in which they were appended. The name
/// is looked up in lower case. Every value of a map is a field value.
#[verifier::external_body]
pub(crate) fn get_all(map: &HeaderMap, name: &str) -> (r: Vec<Vec<u8>>)
    ensures
        octets::views(r@) == values_of(contents(*map), octets::lower(octets::octets(name@))),
        forall|i: int| 0 <= i < r@.len() ==> is_field_value(#[trigger] r@[i]@),
{
    map.get_all(name).iter().map(|value| value.as_bytes().to_vec()).collect()
}

/// `HeaderMap::contains_key`: whether the name has a value. The name is looked up in lower case.
#[verifier::external_body]
pub(crate) fn contains_key(map: &HeaderMap, name: &str) -> (r: bool)
    ensures
        r == has(contents(*map), octets::lower(octets::octets(name@))),
{
    map.contains_key(name)
}

/// `HeaderMap::remove`: the name goes with all its values; the name that was last in the walk takes
/// its place. The name is looked up in lower case.
#[verifier::external_body]
pub(crate) fn remove(map: &mut HeaderMap, name: &[u8])
    requires
        is_field_name(name@),
    ensures
        contents(*final(map)) == removed(contents(*old(map)), octets::lower(name@)),
{
    map.remove(HeaderName::from_bytes(name).expect("a field name"));
}

/// `HeaderMap::iter`: every field, name by name in the order of the walk, the values of a name in
/// the order in which they were appended.
#[verifier::external_body]
pub(crate) fn pairs(map: &HeaderMap) -> (r: Vec<(Vec<u8>, Vec<u8>)>)
    ensures
        pair_views(r@) == listing(contents(*map), contents(*map).order),
{
    map.iter().map(|(n, v)| (n.as_str().as_bytes().to_vec(), v.as_bytes().to_vec())).collect()
}

/// `HeaderMap::clone`: a map with the same names, values and walk.
#[verifier::external_body]
pub(crate) fn duplicate(map: &HeaderMap) -> (r: HeaderMap)
    ensures
        values_in(r) == values_in(*map),
        order_in(r) == order_in(*map),
{
    map.clone()
}

/// `HeaderMap::keys`: every name once, in the order of the walk.
#[verifier::external_body]
pub(crate) fn keys(map: &HeaderMap) -> (r: Vec<Vec<u8>>)
    ensures
        octets::views(r@) == order_in(*map),
        forall|name: Seq<u8>|
            octets::views(r@).contains(name) <==> #[trigger] values_in(*map).dom().contains(name),
{
    map.keys().map(|name| name.as_str().as_bytes().to_vec()).collect()
}

/// Whether the octet may stand in a token.
pub fn token_octet(b: u8) -> (r: bool)
    ensures
        r == is_token_octet(b),
{
    alnum(b) || b == '!' as u8 || b == '#' as u8 || b == '$' as u8 || b == '%' as u8 || b
        == '&' as u8 || b == '\'' as u8 || b == '*' as u8 || b == '+' as u8 || b == '-' as u8 || b
        == '.' as u8 || b == '^' as u8 || b == '_' as u8 || b == '`' as u8 || b == '|' as u8 || b
        == '~' as u8
}

/// Whether the octets are a token.
pub fn valid_token(value: &[u8]) -> (r: bool)
    ensures
        r == is_token(value@),
{
    if value.len() == 0 {
        return false;
    }
    let mut i: usize = 0;
    while i < value.len()
        invariant
            i <= value.len(),
            forall|j: int| 0 <= j < i ==> is_token_octet(#[trigger] value@[j]),
        decreases value.len() - i,
    {
        if !token_octet(value[i]) {
            assert(!is_token_octet(value@[i as int]));
            return false;
        }
        i += 1;
    }
    true
}

pub fn valid_field_value(value: &[u8]) -> (r: bool)
    ensures
        r == is_field_value(value@),
{
    let mut i: usize = 0;
    while i < value.len()
        invariant
            i <= value.len(),
            forall|j: int| 0 <= j < i ==> is_value_octet(#[trigger] value@[j]),
        decreases value.len() - i,
    {
        if value[i] != 9 && (value[i] < 32 || value[i] == 127) {
            assert(!is_value_octet(value@[i as int]));
            return false;
        }
        i += 1;
    }
    true
}

/// A space or a tab.
pub open spec fn is_blank(b: u8) -> bool {
    b == 32 || b == 9
}

pub open spec fn trim_blank_start(s: Seq<u8>) -> Seq<u8>
    decreases s.len(),
{
    if s.len() > 0 && is_blank(s[0]) {
        trim_blank_start(s.drop_first())
    } else {
        s
    }
}

pub open spec fn trim_blank_end(s: Seq<u8>) -> Seq<u8>
    decreases s.len(),
{
    if s.len() > 0 && is_blank(s.last()) {
        trim_blank_end(s.drop_last())
    } else {
        s
    }
}

/// Without spaces and tabs at either end.
pub open spec fn trim_blank(s: Seq<u8>) -> Seq<u8> {
    trim_blank_end(trim_blank_start(s))
}

/// Takes spaces and tabs off both ends.
pub fn trim_ows(value: &[u8]) -> (r: &[u8])
    ensures
        r@ == trim_blank(value@),
        r@.len() <= value@.len(),
{
    let mut start: usize = 0;
    assert(value@.subrange(0, value@.len() as int) =~= value@);
    while start < value.len() && (value[start] == 32 || value[start] == 9)
        invariant
            start <= value.len(),
            trim_blank_start(value@) == trim_blank_start(
                value@.subrange(start as int, value@.len() as int),
            ),
        decreases value.len() - start,
    {
        assert(value@.subrange(start as int, value@.len() as int).drop_first() =~= value@.subrange(
            start + 1,
            value@.len() as int,
        ));
        start += 1;
    }
    let mut end: usize = value.len();
    assert(trim_blank_start(value@) == value@.subrange(start as int, value@.len() as int));
    while end > start && (value[end - 1] == 32 || value[end - 1] == 9)
        invariant
            start <= end <= value.len(),
            trim_blank(value@) == trim_blank_end(value@.subrange(start as int, end as int)),
        decreases end,
    {
        assert(value@.subrange(start as int, end as int).drop_last() =~= value@.subrange(
            start as int,
            end - 1,
        ));
        end -= 1;
    }
    part(value, start, end)
}

/// The members of one comma-separated list, without the blanks around them.
pub open spec fn list_members(value: Seq<u8>) -> Seq<Seq<u8>> {
    let p = octets::pieces(value, ',' as u8);
    Seq::new(p.len(), |i: int| trim_blank(p[i]))
}

/// The members of several comma-separated lists, one list after the other.
pub open spec fn all_members(values: Seq<Seq<u8>>) -> Seq<Seq<u8>>
    decreases values.len(),
{
    if values.len() == 0 {
        Seq::empty()
    } else {
        list_members(values[0]) + all_members(values.drop_first())
    }
}

/// The members of comma-separated lists.
pub fn members(values: &Vec<Vec<u8>>) -> (r: Vec<Vec<u8>>)
    ensures
        octets::views(r@) == all_members(octets::views(values@)),
{
    let mut out: Vec<Vec<u8>> = Vec::new();
    let ghost all = octets::views(values@);
    let mut i: usize = 0;
    proof {
        assert(all.subrange(0, all.len() as int) =~= all);
        assert(octets::views(out@) + all_members(all) =~= all_members(all));
    }
    while i < values.len()
        invariant
            i <= values@.len(),
            all == octets::views(values@),
            octets::views(out@) + all_members(all.subrange(i as int, all.len() as int))
                == all_members(all),
        decreases values@.len() - i,
    {
        let p = octets::split(values[i].as_slice(), ',' as u8);
        let ghost rest = all.subrange(i as int, all.len() as int);
        let ghost was = octets::views(out@);
        let ghost list = list_members(all[i as int]);
        proof {
            assert(all[i as int] == values@[i as int]@);
            assert(octets::views(p@).len() == p@.len());
            assert(was + list.subrange(0, 0) =~= was);
        }
        let mut k: usize = 0;
        while k < p.len()
            invariant
                k <= p@.len(),
                octets::views(p@) == octets::pieces(all[i as int], ',' as u8),
                list == list_members(all[i as int]),
                list.len() == p@.len(),
                octets::views(out@) == was + list.subrange(0, k as int),
            decreases p@.len() - k,
        {
            let ghost before = octets::views(out@);
            let member = octets::copy(trim_ows(p[k].as_slice()));
            proof {
                assert(octets::views(p@)[k as int] == p@[k as int]@);
            }
            out.push(member);
            proof {
                assert(octets::views(out@) =~= before.push(list[k as int]));
                assert(list.subrange(0, k + 1) =~= list.subrange(0, k as int).push(
                    list[k as int],
                ));
            }
            k += 1;
        }
        proof {
            assert(list.subrange(0, k as int) =~= list);
            assert(rest[0] == all[i as int]);
            assert(rest.drop_first() =~= all.subrange(i + 1, all.len() as int));
            assert(octets::views(out@) + all_members(rest.drop_first()) =~= was + all_members(
                rest,
            ));
        }
        i += 1;
    }
    proof {
        assert(all.subrange(i as int, all.len() as int) =~= Seq::empty());
        assert(octets::views(out@) + all_members(Seq::empty()) =~= octets::views(out@));
    }
    out
}

} // verus!
