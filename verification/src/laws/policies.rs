//! What a policy grants.
use crate::boundary;
use crate::domain::policy;
use crate::domain::policy::{EntryModel, LayerModel, Mode};
use crate::domain::target;
use crate::domain::target::{HostModel, LoopbackModel};
use crate::ip;
use crate::ip::IpModel;
use crate::octets;
use crate::server::router;
use crate::text;
use vstd::prelude::*;
use vstd::utf8::*;

verus! {

/// The name is the other name itself or stands below it: something, a dot, and the other name.
pub open spec fn at_or_below(name: Seq<u8>, top: Seq<u8>) -> bool {
    name == top || exists|prefix: Seq<u8>| name == #[trigger] prefix.push('.' as u8) + top
}

/// An entry for a name grants the name and every name below it, and a name is granted for no other
/// reason. An address is granted by an entry for that very address only, and an IPv6 address never.
pub proof fn an_entry_grants_its_name_and_all_below(
    entries: Set<EntryModel>,
    name: Seq<u8>,
    o: Seq<u8>,
    g: Seq<u16>,
)
    ensures
        policy::host_granted(entries, HostModel::Dns(name)) <==> exists|top: Seq<u8>|
            #[trigger] entries.contains(EntryModel::Domain(top)) && at_or_below(name, top),
        policy::host_granted(entries, HostModel::Ip(IpModel::V4(o))) <==> entries.contains(
            EntryModel::Ip(o),
        ),
        !policy::host_granted(entries, HostModel::Ip(IpModel::V6(g))),
{
    if policy::name_granted(entries, name) {
        let e = choose|e: EntryModel|
            entries.contains(e) && #[trigger] policy::entry_covers(e, name);
        let top = e->Domain_0;
        policy::a_pattern_covers_its_subdomains(top, name);
        assert(entries.contains(EntryModel::Domain(top)) && at_or_below(name, top));
    }
    if exists|top: Seq<u8>|
        #[trigger] entries.contains(EntryModel::Domain(top)) && at_or_below(name, top) {
        let top = choose|top: Seq<u8>|
            #[trigger] entries.contains(EntryModel::Domain(top)) && at_or_below(name, top);
        policy::a_pattern_covers_its_subdomains(top, name);
        assert(policy::entry_covers(EntryModel::Domain(top), name));
    }
}

/// A subdomain of what is granted is granted.
pub proof fn what_is_below_a_granted_name_is_granted(
    entries: Set<EntryModel>,
    prefix: Seq<u8>,
    name: Seq<u8>,
)
    requires
        policy::host_granted(entries, HostModel::Dns(name)),
    ensures
        policy::host_granted(entries, HostModel::Dns(prefix.push('.' as u8) + name)),
{
    let below = prefix.push('.' as u8) + name;
    an_entry_grants_its_name_and_all_below(entries, name, Seq::empty(), Seq::empty());
    an_entry_grants_its_name_and_all_below(entries, below, Seq::empty(), Seq::empty());
    let top = choose|top: Seq<u8>|
        #[trigger] entries.contains(EntryModel::Domain(top)) && at_or_below(name, top);
    if name == top {
        assert(below == prefix.push('.' as u8) + top);
    } else {
        let p = choose|p: Seq<u8>| name == #[trigger] p.push('.' as u8) + top;
        let q = prefix.push('.' as u8) + p;
        assert(below =~= q.push('.' as u8) + top);
    }
    assert(at_or_below(below, top));
}

/// A name as a policy may hold it: letters, digits, hyphens, underscores and single dots inside,
/// with a letter or digit, and not a dotted quad.
pub open spec fn is_plain_entry(s: Seq<char>) -> bool {
    &&& s.len() > 0 && s[0] != '.' && s.last() != '.'
    &&& forall|i: int|
        0 <= i < s.len() ==> 'a' <= #[trigger] s[i] <= 'z' || 'A' <= s[i] <= 'Z' || '0' <= s[i] <= '9'
            || s[i] == '-' || s[i] == '_' || s[i] == '.'
    &&& forall|i: int| 0 <= i < s.len() - 1 ==> !(#[trigger] s[i] == '.' && s[i + 1] == '.')
    &&& exists|i: int|
        0 <= i < s.len() && ('a' <= #[trigger] s[i] <= 'z' || 'A' <= s[i] <= 'Z' || '0' <= s[i]
            <= '9')
}

/// Without empty labels at the ends and without two dots in a row no label is empty.
proof fn lemma_no_empty_label(b: Seq<u8>)
    requires
        b.len() > 0,
        b[0] != 46,
        b.last() != 46,
        forall|i: int| 0 <= i < b.len() - 1 ==> !(#[trigger] b[i] == 46 && b[i + 1] == 46),
    ensures
        forall|i: int|
            0 <= i < octets::pieces(b, 46u8).len() ==> (#[trigger] octets::pieces(b, 46u8)[i]).len()
                > 0,
    decreases b.len(),
{
    let at = octets::first_at(b, 46u8, 0);
    octets::lemma_first_at(b, 46u8, 0);
    let p = octets::pieces(b, 46u8);
    if at < b.len() {
        let rest = b.subrange(at + 1, b.len() as int);
        assert(at < b.len() - 1);
        assert(rest[0] == b[at + 1]);
        assert(!(b[at] == 46 && b[at + 1] == 46));
        assert forall|i: int| 0 <= i < rest.len() - 1 implies !(#[trigger] rest[i] == 46 && rest[i
            + 1] == 46) by {
            assert(rest[i] == b[at + 1 + i]);
            assert(rest[i + 1] == b[at + 1 + i + 1]);
        }
        lemma_no_empty_label(rest);
        assert(p == seq![b.subrange(0, at)] + octets::pieces(rest, 46u8));
        assert forall|i: int| 0 <= i < p.len() implies (#[trigger] p[i]).len() > 0 by {
            if i > 0 {
                assert(p[i] == octets::pieces(rest, 46u8)[i - 1]);
            }
        }
    } else {
        assert(p =~= seq![b]);
    }
}

pub proof fn lemma_plain_entry(s: Seq<char>)
    requires
        is_plain_entry(s),
    ensures
        is_ascii_chars(s),
        octets::octets(s).len() == s.len(),
        forall|i: int| 0 <= i < s.len() ==> octets::octets(s)[i] == #[trigger] s[i] as u8,
        policy::valid_policy_name(octets::octets(s)),
        text::trim(s) == s,
        policy::strip_star(s) == s,
        policy::trim_dots(s) == s,
{
    assert forall|i: int| 0 <= i < s.len() implies (s[i] as u32) < 128 && !text::white_space(
        #[trigger] s[i],
    ) && s[i] != '*' by {
        assert('a' <= s[i] <= 'z' || 'A' <= s[i] <= 'Z' || '0' <= s[i] <= '9' || s[i] == '-' || s[i]
            == '_' || s[i] == '.');
    }
    assert(is_ascii_chars(s));
    is_ascii_chars_encode_utf8(s);
    let b = octets::octets(s);
    assert(!text::white_space(s[0]));
    assert(!text::white_space(s[s.len() - 1]));
    assert forall|i: int| 0 <= i < b.len() implies octets::is_alnum(#[trigger] b[i]) || b[i]
        == '-' as u8 || b[i] == '_' as u8 || b[i] == '.' as u8 by {
        assert(b[i] == s[i] as u8);
    }
    assert(b.last() == s.last() as u8);
    assert forall|i: int| 0 <= i < b.len() - 1 implies !(#[trigger] b[i] == 46 && b[i + 1] == 46) by {
        assert(b[i] == s[i] as u8 && b[i + 1] == s[i + 1] as u8);
    }
    lemma_no_empty_label(b);
    let k = choose|k: int|
        0 <= k < s.len() && ('a' <= #[trigger] s[k] <= 'z' || 'A' <= s[k] <= 'Z' || '0' <= s[k]
            <= '9');
    assert(octets::is_alnum(b[k]));
    assert(s[0] != '*');
}

/// A line that spells a name is an entry for the name in lower case; `*.` in front makes no
/// difference.
pub proof fn a_name_on_a_line_is_an_entry(s: Seq<char>)
    requires
        is_plain_entry(s),
        ip::ipv4_of(octets::octets(s)) is None,
    ensures
        policy::entry_of(s) == Some(EntryModel::Domain(octets::lower(octets::octets(s)))),
        policy::entry_of("*."@ + s) == Some(EntryModel::Domain(octets::lower(octets::octets(s)))),
{
    lemma_plain_entry(s);
    reveal_strlit("*.");
    let t = "*."@ + s;
    assert(t[0] == '*' && t[1] == '.');
    assert(t.last() == s.last());
    assert(!text::white_space(s[s.len() - 1])) by {
        assert('a' <= s[s.len() - 1] <= 'z' || 'A' <= s[s.len() - 1] <= 'Z' || '0' <= s[s.len() - 1]
            <= '9' || s[s.len() - 1] == '-' || s[s.len() - 1] == '_' || s[s.len() - 1] == '.');
    }
    assert(text::trim(t) == t);
    assert(t.subrange(2, t.len() as int) =~= s);
    assert(policy::strip_star(t) == s);
}

/// A line that spells an IPv4 address is an entry for the address.
pub proof fn an_address_on_a_line_is_an_entry(o: Seq<u8>)
    requires
        o.len() == 4,
    ensures
        policy::entry_of(octets::ascii_chars(ip::ipv4_text(o))) == Some(EntryModel::Ip(o)),
{
    let b = ip::ipv4_text(o);
    let s = octets::ascii_chars(b);
    ip::ipv4_text_reads_back(o);
    ip::lemma_ip_text_plain(IpModel::V4(o));
    ip::lemma_ipv4_text_ascii(o);
    octets::lemma_digits_of(o[0] as nat);
    octets::lemma_digits_of(o[3] as nat);
    let d0 = octets::digits_of(o[0] as nat);
    let d3 = octets::digits_of(o[3] as nat);
    assert forall|i: int| 0 <= i < b.len() implies octets::is_digit(#[trigger] b[i]) || b[i] == 46 by {
        assert(octets::is_digit(ip::ip_text(IpModel::V4(o))[i]) || ip::ip_text(IpModel::V4(o))[i]
            == 46);
    }
    assert(b[0] == d0[0]);
    assert(octets::is_digit(d0[0]));
    assert(b[b.len() - 1] == d3[d3.len() - 1]);
    assert(octets::is_digit(d3[d3.len() - 1]));
    assert forall|i: int| 0 <= i < s.len() implies (s[i] as u32) < 128 && !text::white_space(
        #[trigger] s[i],
    ) && s[i] != '*' by {
        assert(octets::is_digit(b[i]) || b[i] == 46);
    }
    assert(s[0] as u8 == b[0]);
    assert(s[s.len() - 1] as u8 == b[b.len() - 1]);
    assert(s[0] != '.' && s.last() != '.');
    assert(is_ascii_chars(s));
    is_ascii_chars_encode_utf8(s);
    assert(octets::octets(s) =~= b);
    assert(!text::white_space(s[0]) && !text::white_space(s[s.len() - 1]));
    assert(text::trim(s) == s);
}

/// Every layer but the one at hand can be read.
pub open spec fn readable(layers: Seq<LayerModel>) -> bool {
    layers.len() > 0 && forall|i: int|
        0 <= i < layers.len() ==> policy::layer_entries(#[trigger] layers[i]) is Some
}

/// From the line of a layer to the decision: where all layers and the mode can be read, a layer with
/// the line `name` allows the name and everything below it without a record, whatever the mode.
pub proof fn a_line_allows_a_name_and_all_below(
    layers: Seq<LayerModel>,
    mode: LayerModel,
    at: int,
    line: int,
    name: Seq<u8>,
)
    requires
        readable(layers),
        mode.contents is Some,
        0 <= at < layers.len(),
        layers[at].contents is Some,
        0 <= line < text::lines(layers[at].contents->0).len(),
        is_plain_entry(text::lines(layers[at].contents->0)[line]),
        ip::ipv4_of(octets::octets(text::lines(layers[at].contents->0)[line])) is None,
        at_or_below(
            name,
            octets::lower(octets::octets(text::lines(layers[at].contents->0)[line])),
        ),
    ensures
        router::public_verdict(layers, mode, HostModel::Dns(name)) matches Some(d) && d.allowed
            && !d.record_denial,
{
    let lines = text::lines(layers[at].contents->0);
    let top = octets::lower(octets::octets(lines[line]));
    a_name_on_a_line_is_an_entry(lines[line]);
    policy::public_layers_are_joined(layers);
    let entries = policy::domain_layers(layers)->Ok_0;
    let e = EntryModel::Domain(top);
    assert(policy::layer_entries(layers[at]) is Some);
    assert(policy::entry_of(lines[line]) == Some(e));
    assert(policy::layer_grants(layers[at], e));
    assert(entries.contains(e));
    an_entry_grants_its_name_and_all_below(entries, name, Seq::empty(), Seq::empty());
    assert(policy::host_granted(entries, HostModel::Dns(name)));
}

/// What no line of any layer grants is denied and recorded where the mode file enforces, let through
/// and recorded where it reports, and let through where it is open.
pub proof fn what_no_line_grants_is_left_to_the_mode(
    layers: Seq<LayerModel>,
    mode: LayerModel,
    name: Seq<u8>,
)
    requires
        readable(layers),
        mode.contents is Some,
        forall|at: int, line: int|
            0 <= at < layers.len() && 0 <= line < text::lines(layers[at].contents->0).len() ==> match policy::entry_of(
                #[trigger] text::lines(layers[at].contents->0)[line],
            ) {
                Some(EntryModel::Domain(top)) => !at_or_below(name, top),
                _ => true,
            },
    ensures
        mode.contents->0 == "enforce\n"@ || mode.contents->0 == "enforce"@ ==> (
        router::public_verdict(layers, mode, HostModel::Dns(name)) matches Some(d) && !d.allowed
            && d.record_denial && d.mode == Mode::Enforce),
        mode.contents->0 == "report\n"@ || mode.contents->0 == "report"@ ==> (
        router::public_verdict(layers, mode, HostModel::Dns(name)) matches Some(d) && d.allowed
            && d.record_denial && d.mode == Mode::Report),
        mode.contents->0 == "open\n"@ || mode.contents->0 == "open"@ ==> (router::public_verdict(
            layers,
            mode,
            HostModel::Dns(name),
        ) matches Some(d) && d.allowed && !d.record_denial && d.mode == Mode::Open),
{
    policy::public_layers_are_joined(layers);
    let entries = policy::domain_layers(layers)->Ok_0;
    a_mode_file_sets_its_mode();
    if policy::host_granted(entries, HostModel::Dns(name)) {
        an_entry_grants_its_name_and_all_below(entries, name, Seq::empty(), Seq::empty());
        let top = choose|top: Seq<u8>|
            #[trigger] entries.contains(EntryModel::Domain(top)) && at_or_below(name, top);
        let e = EntryModel::Domain(top);
        let at = choose|at: int|
            0 <= at < layers.len() && policy::layer_grants(#[trigger] layers[at], e);
        let lines = text::lines(layers[at].contents->0);
        let line = choose|line: int|
            0 <= line < lines.len() && policy::entry_of(#[trigger] lines[line]) == Some(e);
        assert(policy::entry_of(text::lines(layers[at].contents->0)[line]) == Some(e));
        assert(false);
    }
}

/// A mode file holds the name of a mode, with a line ending or without; whatever else it holds, the
/// policy is enforced.
pub proof fn a_mode_file_sets_its_mode()
    ensures
        policy::mode_file("enforce\n"@) == (Mode::Enforce, None::<Seq<char>>),
        policy::mode_file("enforce"@) == (Mode::Enforce, None::<Seq<char>>),
        policy::mode_file("report\n"@) == (Mode::Report, None::<Seq<char>>),
        policy::mode_file("report"@) == (Mode::Report, None::<Seq<char>>),
        policy::mode_file("open\n"@) == (Mode::Open, None::<Seq<char>>),
        policy::mode_file("open"@) == (Mode::Open, None::<Seq<char>>),
{
    reveal_strlit("enforce\n");
    reveal_strlit("enforce");
    reveal_strlit("report\n");
    reveal_strlit("report");
    reveal_strlit("open\n");
    reveal_strlit("open");
    lemma_mode_line("enforce"@);
    lemma_mode_line("report"@);
    lemma_mode_line("open"@);
    assert("enforce\n"@ =~= "enforce"@.push('\n'));
    assert("report\n"@ =~= "report"@.push('\n'));
    assert("open\n"@ =~= "open"@.push('\n'));
}

proof fn lemma_mode_line(s: Seq<char>)
    requires
        s.len() > 0,
        forall|i: int| 0 <= i < s.len() ==> #[trigger] s[i] != '\n' && s[i] != '\r',
    ensures
        text::lines(s).len() == 1,
        text::lines(s.push('\n')).len() == 1,
        policy::trim_line_end(s) == s,
        policy::trim_line_end(s.push('\n')) == s,
{
    let t = s.push('\n');
    let n = s.len() as int;
    text::lemma_char_at_is(s, '\n', 0, n);
    text::lemma_char_at_is(t, '\n', 0, n);
    assert(t.subrange(n + 1, t.len() as int) =~= Seq::empty());
    assert(text::lines(t.subrange(n + 1, t.len() as int)).len() == 0);
    assert(t.drop_last() =~= s);
    assert(s[n - 1] != '\n' && s[n - 1] != '\r');
}

/// Whatever a mode file holds, it never opens the policy unless it says so: any mode but that of
/// enforcing is spelled by its name alone. A warning says what is wrong with the file.
pub proof fn an_unknown_mode_enforces(contents: Seq<char>)
    ensures
        policy::mode_file(contents).0 != Mode::Enforce ==> text::lines(contents).len() == 1 && (
        policy::trim_line_end(contents) == "report"@ && policy::mode_file(contents).0 == Mode::Report
            || policy::trim_line_end(contents) == "open"@ && policy::mode_file(contents).0
            == Mode::Open),
        policy::mode_file(contents).1 is Some ==> policy::mode_file(contents).0 == Mode::Enforce,
        text::lines(contents).len() != 1 ==> policy::mode_file(contents).1 == Some(
            "mode file is multiline; enforcing"@,
        ),
        text::lines(contents).len() == 1 && policy::trim_line_end(contents) != "enforce"@
            && policy::trim_line_end(contents) != "report"@ && policy::trim_line_end(contents)
            != "open"@ ==> policy::mode_file(contents).1 == Some("mode file is unknown; enforcing"@),
{
}

/// A loopback destination is granted by its own line, where all layers can be read, and never
/// without local routing.
pub proof fn a_line_grants_its_loopback_destination(
    layers: Seq<LayerModel>,
    authority: LoopbackModel,
    at: int,
    line: int,
)
    requires
        0 <= at < layers.len(),
        layers[at].contents is Some,
        0 <= line < text::lines(layers[at].contents->0).len(),
        target::is_loopback(authority),
        text::lines(layers[at].contents->0)[line] == octets::ascii_chars(
            target::loopback_text(authority),
        ),
        forall|i: int|
            0 <= i < layers.len() ==> policy::layer_authorities(#[trigger] layers[i]) is Some,
    ensures
        router::local_granted(Some(layers), authority),
        !router::local_granted(None, authority),
{
    let lines = text::lines(layers[at].contents->0);
    target::loopback_text_reads_back(authority);
    policy::local_layers_are_joined(layers);
    assert(target::loopback_of(lines[line]) is Ok);
    assert(policy::layer_authorities(layers[at]) is Some);
    assert(policy::local_layer_grants(layers[at], authority));
}

/// At the policy boundary an entry covers the host itself and every host below it, and no other.
pub proof fn a_boundary_entry_covers_its_host_and_all_below(entry: Seq<char>, host: Seq<char>)
    ensures
        boundary::entry_covers(entry, host) <==> host == entry || exists|prefix: Seq<char>|
            host == #[trigger] prefix.push('.') + entry,
{
    if boundary::entry_covers(entry, host) && host != entry {
        let prefix = host.subrange(0, host.len() - entry.len() - 1);
        assert(host =~= prefix.push('.') + entry);
    }
    if exists|prefix: Seq<char>| host == #[trigger] prefix.push('.') + entry {
        let prefix = choose|prefix: Seq<char>| host == #[trigger] prefix.push('.') + entry;
        assert(host.subrange(host.len() - entry.len(), host.len() as int) =~= entry);
    }
}

/// A loopback destination is granted only where a line of a layer spells that host and that port,
/// and only where every line of every layer can be read.
pub proof fn a_local_grant_has_its_line(layers: Seq<LayerModel>, authority: LoopbackModel)
    requires
        router::local_granted(Some(layers), authority),
    ensures
        exists|at: int, line: int|
            0 <= at < layers.len() && layers[at].contents is Some && 0 <= line < text::lines(
                layers[at].contents->0,
            ).len() && target::loopback_of(
                #[trigger] text::lines(layers[at].contents->0)[line],
            ) == Ok::<LoopbackModel, target::AuthorityParseError>(authority),
        forall|at: int|
            0 <= at < layers.len() ==> (#[trigger] layers[at]).contents is Some && forall|line: int|
                0 <= line < text::lines(layers[at].contents->0).len() ==> target::loopback_of(
                    #[trigger] text::lines(layers[at].contents->0)[line],
                ) is Ok,
{
    policy::local_layers_are_joined(layers);
    let at = choose|at: int|
        0 <= at < layers.len() && policy::local_layer_grants(#[trigger] layers[at], authority);
    let lines = text::lines(layers[at].contents->0);
    let line = choose|line: int|
        0 <= line < lines.len() && target::loopback_of(#[trigger] lines[line]) == Ok::<
            LoopbackModel,
            target::AuthorityParseError,
        >(authority);
    assert(target::loopback_of(text::lines(layers[at].contents->0)[line]) == Ok::<
        LoopbackModel,
        target::AuthorityParseError,
    >(authority));
    assert forall|k: int| 0 <= k < layers.len() implies (#[trigger] layers[k]).contents is Some
        && forall|l: int|
        0 <= l < text::lines(layers[k].contents->0).len() ==> target::loopback_of(
            #[trigger] text::lines(layers[k].contents->0)[l],
        ) is Ok by {
        assert(policy::layer_authorities(layers[k]) is Some);
    }
}

/// White space around a line makes no other entry of it.
pub proof fn white_space_around_a_line_does_not_count(
    before: Seq<char>,
    s: Seq<char>,
    after: Seq<char>,
)
    requires
        is_plain_entry(s),
        forall|i: int| 0 <= i < before.len() ==> text::white_space(#[trigger] before[i]),
        forall|i: int| 0 <= i < after.len() ==> text::white_space(#[trigger] after[i]),
    ensures
        policy::entry_of(before + s + after) == policy::entry_of(s),
{
    lemma_plain_entry(s);
    text::lemma_trim(s);
    boundary::lemma_padded(before, s, after);
}

/// A text breaks into lines at its line feeds; a carriage return before one goes with it.
pub proof fn a_line_ends_at_its_line_feed(a: Seq<char>, rest: Seq<char>)
    requires
        forall|i: int| 0 <= i < a.len() ==> #[trigger] a[i] != '\n',
    ensures
        text::lines(a.push('\n') + rest) == seq![
            if a.len() > 0 && a.last() == '\r' {
                a.drop_last()
            } else {
                a
            },
        ] + text::lines(rest),
        a.len() > 0 ==> text::lines(a) == seq![a],
        text::lines(Seq::empty()).len() == 0,
{
    let s = a.push('\n') + rest;
    let n = a.len() as int;
    assert forall|i: int| 0 <= i < n implies s[i] != '\n' by {
        assert(s[i] == a[i]);
    }
    assert(s[n] == '\n');
    text::lemma_char_at_is(s, '\n', 0, n);
    text::lemma_char_at_is(a, '\n', 0, n);
    assert(s.subrange(0, n) =~= a);
    assert(s.subrange(n + 1, s.len() as int) =~= rest);
}

proof fn lemma_labels_apart(b: Seq<u8>)
    requires
        forall|i: int|
            0 <= i < octets::pieces(b, 46u8).len() ==> (#[trigger] octets::pieces(b, 46u8)[i]).len()
                > 0,
    ensures
        b.len() > 0,
        b[0] != 46,
        b.last() != 46,
        forall|i: int| 0 <= i < b.len() - 1 ==> !(#[trigger] b[i] == 46 && b[i + 1] == 46),
    decreases b.len(),
{
    let at = octets::first_at(b, 46u8, 0);
    octets::lemma_first_at(b, 46u8, 0);
    let p = octets::pieces(b, 46u8);
    if at < b.len() {
        let rest = b.subrange(at + 1, b.len() as int);
        let q = octets::pieces(rest, 46u8);
        assert(p == seq![b.subrange(0, at)] + q);
        assert(p[0].len() > 0);
        assert forall|i: int| 0 <= i < q.len() implies (#[trigger] q[i]).len() > 0 by {
            assert(p[i + 1] == q[i]);
        }
        lemma_labels_apart(rest);
        assert(b.last() == rest.last());
        assert forall|i: int| 0 <= i < b.len() - 1 implies !(#[trigger] b[i] == 46 && b[i + 1] == 46) by {
            if i == at {
                assert(rest[0] == b[i + 1]);
            } else if i > at {
                assert(rest[i - at - 1] == b[i]);
                assert(rest[i - at] == b[i + 1]);
            }
        }
    } else {
        assert(p =~= seq![b]);
        assert(p[0].len() > 0);
    }
}

/// At the policy boundary a name is normalized to lower case exactly where it is made of letters,
/// digits, hyphens, underscores and single dots inside; a character outside ASCII is told apart.
pub proof fn a_boundary_name_is_plain(s: Seq<char>)
    ensures
        !is_ascii_chars(s) ==> boundary::normalized(s) == Err::<Seq<char>, boundary::DomainError>(
            boundary::DomainError::NonAscii,
        ),
        is_plain_entry(s) ==> boundary::normalized(s) == Ok::<Seq<char>, boundary::DomainError>(
            octets::ascii_chars(octets::lower(octets::octets(s))),
        ),
        is_ascii_chars(s) && !is_plain_entry(s) ==> boundary::normalized(s) == Err::<
            Seq<char>,
            boundary::DomainError,
        >(boundary::DomainError::Invalid),
{
    if is_plain_entry(s) {
        lemma_plain_entry(s);
    }
    if is_ascii_chars(s) && policy::valid_policy_name(octets::octets(s)) {
        is_ascii_chars_encode_utf8(s);
        let b = octets::octets(s);
        lemma_labels_apart(b);
        assert(s[0] as u8 == b[0] && s.last() as u8 == b.last());
        assert forall|i: int| 0 <= i < s.len() implies 'a' <= #[trigger] s[i] <= 'z' || 'A' <= s[i]
            <= 'Z' || '0' <= s[i] <= '9' || s[i] == '-' || s[i] == '_' || s[i] == '.' by {
            assert(octets::is_alnum(b[i]) || b[i] == '-' as u8 || b[i] == '_' as u8 || b[i]
                == '.' as u8);
            assert(b[i] == s[i] as u8);
        }
        assert forall|i: int| 0 <= i < s.len() - 1 implies !(#[trigger] s[i] == '.' && s[i + 1]
            == '.') by {
            assert(b[i] == s[i] as u8 && b[i + 1] == s[i + 1] as u8);
        }
        let k = choose|k: int| 0 <= k < b.len() && octets::is_alnum(#[trigger] b[k]);
        assert(b[k] == s[k] as u8);
        assert('a' <= s[k] <= 'z' || 'A' <= s[k] <= 'Z' || '0' <= s[k] <= '9');
        assert(is_plain_entry(s));
    }
}

} // verus!
