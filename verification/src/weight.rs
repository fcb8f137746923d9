//! How many octets the fields of a map take up.
use crate::fields;
use crate::fields::Fields;
use crate::headers;
use crate::octets;
use crate::server::http1;
use vstd::prelude::*;

verus! {

/// The octets of all names and values.
pub open spec fn weight(f: Fields) -> nat {
    http1::field_octets(fields::listing(f, f.order))
}

/// The names of the walk are the names that have values, each once, and none is empty.
pub open spec fn ordered(f: Fields) -> bool {
    &&& f.order.no_duplicates()
    &&& forall|name: Seq<u8>| #[trigger] f.order.contains(name) ==> fields::has(f, name)
    &&& forall|name: Seq<u8>| #[trigger] fields::has(f, name) ==> f.order.contains(name)
    &&& forall|i: int| 0 <= i < f.order.len() ==> (#[trigger] f.order[i]).len() > 0
}

/// Each listed name has at least one octet.
pub open spec fn named(p: Seq<(Seq<u8>, Seq<u8>)>) -> bool {
    forall|i: int| 0 <= i < p.len() ==> (#[trigger] p[i]).0.len() > 0
}

pub proof fn lemma_octets_joined(p: Seq<(Seq<u8>, Seq<u8>)>, q: Seq<(Seq<u8>, Seq<u8>)>)
    ensures
        http1::field_octets(p + q) == http1::field_octets(p) + http1::field_octets(q),
    decreases q.len(),
{
    if q.len() == 0 {
        assert(p + q =~= p);
    } else {
        lemma_octets_joined(p, q.drop_last());
        assert((p + q).drop_last() =~= p + q.drop_last());
    }
}

/// What is taken off the front weighs what it weighed there.
pub proof fn lemma_octets_first(p: Seq<(Seq<u8>, Seq<u8>)>)
    requires
        p.len() > 0,
    ensures
        http1::field_octets(p) == p[0].0.len() + p[0].1.len() + http1::field_octets(
            p.drop_first(),
        ),
{
    let first = seq![p[0]];
    assert(p =~= first + p.drop_first());
    assert(first.drop_last() =~= Seq::empty());
    assert(http1::field_octets(first.drop_last()) == 0);
    lemma_octets_joined(first, p.drop_first());
}

proof fn lemma_listing_joined(f: Fields, a: Seq<Seq<u8>>, b: Seq<Seq<u8>>)
    ensures
        fields::listing(f, a + b) == fields::listing(f, a) + fields::listing(f, b),
    decreases a.len(),
{
    if a.len() == 0 {
        assert(a + b =~= b);
        assert(fields::listing(f, a) + fields::listing(f, b) =~= fields::listing(f, b));
    } else {
        lemma_listing_joined(f, a.drop_first(), b);
        assert((a + b).drop_first() =~= a.drop_first() + b);
        let one = fields::one_name(a[0], fields::values_of(f, a[0]));
        assert(one + (fields::listing(f, a.drop_first()) + fields::listing(f, b)) =~= (one
            + fields::listing(f, a.drop_first())) + fields::listing(f, b));
    }
}

/// One more value weighs its name and itself where the name is walked, and nothing elsewhere.
proof fn lemma_append_weighs(f: Fields, name: Seq<u8>, value: Seq<u8>, order: Seq<Seq<u8>>)
    requires
        order.no_duplicates(),
    ensures
        http1::field_octets(fields::listing(fields::appended(f, name, value), order))
            == http1::field_octets(fields::listing(f, order)) + if order.contains(name) {
            name.len() + value.len()
        } else {
            0
        },
    decreases order.len(),
{
    let g = fields::appended(f, name, value);
    if order.len() > 0 {
        let rest = order.drop_first();
        assert(rest.no_duplicates()) by {
            assert forall|i: int, j: int| 0 <= i < j < rest.len() implies rest[i] != rest[j] by {
                assert(order[i + 1] != order[j + 1]);
            }
        }
        lemma_append_weighs(f, name, value, rest);
        let first = order[0];
        let old = fields::one_name(first, fields::values_of(f, first));
        let new = fields::one_name(first, fields::values_of(g, first));
        lemma_octets_joined(old, fields::listing(f, rest));
        lemma_octets_joined(new, fields::listing(g, rest));
        if first == name {
            assert(new.drop_last() =~= old);
            assert(new.last() == (name, value));
            assert(!rest.contains(name)) by {
                if rest.contains(name) {
                    let i = rest.index_of(name);
                    assert(order[i + 1] == order[0]);
                }
            }
            assert(order.contains(name));
        } else {
            assert(new =~= old);
            assert(order.contains(name) == rest.contains(name)) by {
                if order.contains(name) {
                    let i = order.index_of(name);
                    assert(rest[i - 1] == name);
                }
                if rest.contains(name) {
                    let i = rest.index_of(name);
                    assert(order[i + 1] == name);
                }
            }
        }
    }
}

/// A field that is appended weighs its name and its value.
pub proof fn lemma_appended(f: Fields, name: Seq<u8>, value: Seq<u8>)
    requires
        ordered(f),
        name.len() > 0,
    ensures
        ordered(fields::appended(f, name, value)),
        weight(fields::appended(f, name, value)) == weight(f) + name.len() + value.len(),
{
    let g = fields::appended(f, name, value);
    assert forall|n: Seq<u8>| #[trigger] g.order.contains(n) implies fields::has(g, n) by {
        let i = g.order.index_of(n);
        if i < f.order.len() {
            assert(f.order[i] == n);
            assert(f.order.contains(n));
        }
    }
    assert forall|n: Seq<u8>| #[trigger] fields::has(g, n) implies g.order.contains(n) by {
        if n == name {
            if !fields::has(f, name) {
                assert(g.order.last() == name);
            }
        } else {
            assert(fields::has(f, n));
            assert(g.order[f.order.index_of(n)] == n);
        }
    }
    if fields::has(f, name) {
        lemma_append_weighs(f, name, value, f.order);
    } else {
        assert(!f.order.contains(name));
        assert(g.order.no_duplicates());
        lemma_append_weighs(f, name, value, f.order);
        let one = seq![name];
        assert(g.order =~= f.order + one);
        lemma_listing_joined(g, f.order, one);
        let tail = fields::listing(g, one);
        assert(one.drop_first() =~= Seq::empty());
        assert(fields::listing(g, one.drop_first()) =~= Seq::empty());
        assert(tail =~= seq![(name, value)]);
        assert(tail.drop_last() =~= Seq::empty());
        assert(http1::field_octets(tail.drop_last()) == 0);
        lemma_octets_joined(fields::listing(g, f.order), tail);
    }
}

/// Without a name, a walk weighs no more.
proof fn lemma_less_weighs(f: Fields, name: Seq<u8>, order: Seq<Seq<u8>>)
    ensures
        ({
            let g = Fields { values: f.values.remove(name), order: f.order };
            http1::field_octets(fields::listing(g, order)) <= http1::field_octets(
                fields::listing(f, order),
            )
        }),
    decreases order.len(),
{
    let g = Fields { values: f.values.remove(name), order: f.order };
    if order.len() > 0 {
        let rest = order.drop_first();
        lemma_less_weighs(f, name, rest);
        let first = order[0];
        let old = fields::one_name(first, fields::values_of(f, first));
        let new = fields::one_name(first, fields::values_of(g, first));
        lemma_octets_joined(old, fields::listing(f, rest));
        lemma_octets_joined(new, fields::listing(g, rest));
        if first == name {
            assert(new =~= Seq::empty());
        } else {
            assert(new =~= old);
        }
    }
}

proof fn lemma_same_values(f: Fields, g: Fields, order: Seq<Seq<u8>>)
    requires
        f.values == g.values,
    ensures
        fields::listing(f, order) == fields::listing(g, order),
    decreases order.len(),
{
    if order.len() > 0 {
        lemma_same_values(f, g, order.drop_first());
    }
}

proof fn lemma_swap_weighs(f: Fields, order: Seq<Seq<u8>>, name: Seq<u8>)
    ensures
        http1::field_octets(fields::listing(f, fields::swap_removed(order, name)))
            <= http1::field_octets(fields::listing(f, order)),
{
    if order.contains(name) {
        let i = order.index_of(name);
        let front = order.subrange(0, i);
        let one = seq![name];
        if i == order.len() - 1 {
            assert(order =~= front + one);
            assert(order.drop_last() =~= front);
            lemma_listing_joined(f, front, one);
            lemma_octets_joined(fields::listing(f, front), fields::listing(f, one));
        } else {
            let mid = order.subrange(i + 1, order.len() - 1);
            let last = seq![order.last()];
            assert(order =~= front + one + mid + last);
            assert(order.update(i, order.last()).drop_last() =~= front + last + mid);
            lemma_listing_joined(f, front + one + mid, last);
            lemma_listing_joined(f, front + one, mid);
            lemma_listing_joined(f, front, one);
            lemma_listing_joined(f, front + last, mid);
            lemma_listing_joined(f, front, last);
            lemma_octets_joined(
                fields::listing(f, front + one + mid),
                fields::listing(f, last),
            );
            lemma_octets_joined(fields::listing(f, front + one), fields::listing(f, mid));
            lemma_octets_joined(fields::listing(f, front), fields::listing(f, one));
            lemma_octets_joined(fields::listing(f, front + last), fields::listing(f, mid));
            lemma_octets_joined(fields::listing(f, front), fields::listing(f, last));
        }
    }
}

/// A map from which a name was removed weighs no more, and walks no new name.
pub proof fn lemma_removed(f: Fields, name: Seq<u8>)
    ensures
        weight(fields::removed(f, name)) <= weight(f),
        (forall|i: int| 0 <= i < f.order.len() ==> (#[trigger] f.order[i]).len() > 0) ==> (forall|
            i: int,
        |
            0 <= i < fields::removed(f, name).order.len() ==> (#[trigger] fields::removed(
                f,
                name,
            ).order[i]).len() > 0),
{
    if fields::has(f, name) {
        let g = fields::removed(f, name);
        let h = Fields { values: f.values.remove(name), order: f.order };
        lemma_same_values(g, h, g.order);
        lemma_less_weighs(f, name, g.order);
        lemma_swap_weighs(f, f.order, name);
    }
}

/// The same for several names.
pub proof fn lemma_removed_all(f: Fields, names: Seq<Seq<u8>>)
    requires
        forall|i: int| 0 <= i < f.order.len() ==> (#[trigger] f.order[i]).len() > 0,
    ensures
        weight(headers::removed_all(f, names)) <= weight(f),
        forall|i: int|
            0 <= i < headers::removed_all(f, names).order.len() ==> (
            #[trigger] headers::removed_all(f, names).order[i]).len() > 0,
    decreases names.len(),
{
    if names.len() > 0 {
        lemma_removed(f, names[0]);
        lemma_removed_all(fields::removed(f, names[0]), names.drop_first());
    }
}

/// A map that was sanitized weighs no more.
pub proof fn lemma_sanitized(f: Fields, nominated: Seq<Seq<u8>>)
    requires
        forall|i: int| 0 <= i < f.order.len() ==> (#[trigger] f.order[i]).len() > 0,
    ensures
        weight(headers::sanitized(f, nominated)) <= weight(f),
        forall|i: int|
            0 <= i < headers::sanitized(f, nominated).order.len() ==> (
            #[trigger] headers::sanitized(f, nominated).order[i]).len() > 0,
{
    let a = fields::removed(f, headers::connection_name());
    lemma_removed(f, headers::connection_name());
    lemma_removed_all(a, nominated);
    lemma_removed_all(headers::removed_all(a, nominated), headers::fixed_hop_names());
}

/// Nothing weighs nothing.
pub proof fn lemma_nothing()
    ensures
        ordered(fields::no_fields()),
        weight(fields::no_fields()) == 0,
{
    assert(fields::listing(fields::no_fields(), fields::no_fields().order) =~= Seq::empty());
}

proof fn lemma_trimmed(s: Seq<u8>)
    ensures
        fields::trim_blank(s).len() <= s.len(),
{
    lemma_trimmed_start(s);
    lemma_trimmed_end(fields::trim_blank_start(s));
}

proof fn lemma_trimmed_start(s: Seq<u8>)
    ensures
        fields::trim_blank_start(s).len() <= s.len(),
    decreases s.len(),
{
    if s.len() > 0 && fields::is_blank(s[0]) {
        lemma_trimmed_start(s.drop_first());
    }
}

proof fn lemma_trimmed_end(s: Seq<u8>)
    ensures
        fields::trim_blank_end(s).len() <= s.len(),
    decreases s.len(),
{
    if s.len() > 0 && fields::is_blank(s.last()) {
        lemma_trimmed_end(s.drop_last());
    }
}

/// A field line holds its name, its value and a colon.
pub proof fn lemma_field_line(line: Seq<u8>)
    ensures
        http1::field_line(line) matches Some((name, value)) ==> name.len() > 0 && name.len()
            + value.len() + 1 <= line.len(),
{
    let colon = octets::first_at(line, ':' as u8, 0);
    octets::lemma_first_at(line, ':' as u8, 0);
    if colon < line.len() {
        lemma_trimmed(line.subrange(colon + 1, line.len() as int));
    }
}

/// Names of the walk are the names of the listing.
pub proof fn lemma_named(f: Fields, order: Seq<Seq<u8>>)
    requires
        forall|i: int| 0 <= i < order.len() ==> (#[trigger] order[i]).len() > 0,
    ensures
        named(fields::listing(f, order)),
    decreases order.len(),
{
    if order.len() > 0 {
        let rest = order.drop_first();
        assert forall|i: int| 0 <= i < rest.len() implies (#[trigger] rest[i]).len() > 0 by {
            assert(rest[i] == order[i + 1]);
        }
        lemma_named(f, rest);
    }
}

} // verus!
