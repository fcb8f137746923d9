//! Targets and registries as texts.
use crate::boundary;
use crate::cli::installed;
use crate::domain::target as domain_target;
use crate::laws::policies;
use crate::octets;
use crate::target;
use crate::target::{PublicModel, TargetModel};
use crate::text;
use vstd::prelude::*;
use vstd::utf8::*;

verus! {

/// A host name in lower case.
pub open spec fn lower_name(h: Seq<char>) -> Seq<char> {
    octets::ascii_chars(octets::lower(octets::octets(h)))
}

proof fn lemma_plain_host(h: Seq<char>)
    requires
        policies::is_plain_entry(h),
    ensures
        boundary::host_name(h) == Ok::<Seq<char>, boundary::DomainError>(lower_name(h)),
        forall|i: int|
            0 <= i < h.len() ==> #[trigger] h[i] != ':' && h[i] != '@' && h[i] != '?' && h[i] != '#'
                && h[i] != '/' && !text::white_space(h[i]),
{
    assert forall|i: int| 0 <= i < h.len() implies #[trigger] h[i] != ':' && h[i] != '@' && h[i] != '?'
        && h[i] != '#' && h[i] != '/' && !text::white_space(h[i]) by {
        assert('a' <= h[i] <= 'z' || 'A' <= h[i] <= 'Z' || '0' <= h[i] <= '9' || h[i] == '-' || h[i]
            == '_' || h[i] == '.');
    }
    policies::a_boundary_name_is_plain(h);
    assert(!text::white_space(h[0]) && !text::white_space(h[h.len() - 1]));
    assert(text::trim(h) == h);
}

/// A host without a port has the default port of its scheme.
proof fn lemma_without_port(h: Seq<char>, default_port: u16)
    requires
        policies::is_plain_entry(h),
    ensures
        target::public_authority_of(h, default_port) == Some((lower_name(h), default_port)),
        domain_target::loopback_of(h) is Err,
{
    lemma_plain_host(h);
    let n = h.len() as int;
    target::lemma_last_char_is(h, ':', n, -1);
    assert(!h.contains('@') && !h.contains('?') && !h.contains('#') && !h.contains(':'));
    let b = octets::octets(h);
    policies::lemma_plain_entry(h);
    assert forall|i: int| 0 <= i < b.len() implies b[i] != 58 by {
        assert(b[i] == h[i] as u8);
        assert(h[i] != ':');
    }
    octets::lemma_last_before_is(b, 58u8, b.len() as int, -1);
}

/// A host with a port written behind a colon has that port.
proof fn lemma_with_port(h: Seq<char>, port: u16, default_port: u16)
    requires
        policies::is_plain_entry(h),
        port >= 1,
    ensures
        target::public_authority_of(
            h.push(':') + text::number_text(port as nat),
            default_port,
        ) == Some((lower_name(h), port)),
{
    lemma_plain_host(h);
    let d = text::number_text(port as nat);
    let o = octets::digits_of(port as nat);
    octets::lemma_digits_of(port as nat);
    let s = h.push(':') + d;
    let n = h.len() as int;
    assert forall|i: int| 0 <= i < d.len() implies octets::is_digit(o[i]) && #[trigger] d[i]
        == o[i] as char by {}
    assert forall|i: int| 0 <= i < d.len() implies #[trigger] d[i] != ':' && d[i] != '@' && d[i] != '?'
        && d[i] != '#' && (d[i] as u32) < 128 by {
        assert(octets::is_digit(o[i]));
    }
    assert(s[n] == ':');
    assert forall|i: int| n < i < s.len() implies s[i] != ':' by {
        assert(s[i] == d[i - n - 1]);
    }
    target::lemma_last_char_is(s, ':', s.len() as int, n);
    assert(s.subrange(0, n) =~= h);
    assert(s.subrange(n + 1, s.len() as int) =~= d);
    assert forall|i: int| 0 <= i < s.len() implies #[trigger] s[i] != '@' && s[i] != '?' && s[i] != '#' by {
        if i < n {
            assert(s[i] == h[i]);
        } else if i > n {
            assert(s[i] == d[i - n - 1]);
        }
    }
    assert(!s.contains('@') && !s.contains('?') && !s.contains('#'));
    assert(!h.contains(':'));
    assert(is_ascii_chars(d));
    is_ascii_chars_encode_utf8(d);
    assert(octets::octets(d) =~= o);
}

/// What a text asks for: a plain address its host on port 80, a secure one on port 443, and a tunnel
/// on port 443, each in lower case and whatever the path.
pub proof fn a_text_asks_for_its_host(method: Seq<char>, h: Seq<char>, path: Seq<char>)
    requires
        !target::is_connect(method),
        policies::is_plain_entry(h),
        path.len() == 0 || path[0] == '/',
    ensures
        target::target_of(method, "http://"@ + h + path) == TargetModel::PublicHttp(
            PublicModel { authority: h, host: lower_name(h), port: 80, secure: false },
        ),
        target::target_of(method, "https://"@ + h + path) == TargetModel::PublicHttp(
            PublicModel { authority: h, host: lower_name(h), port: 443, secure: true },
        ),
        target::target_of("CONNECT"@, h) == TargetModel::PublicConnect(
            PublicModel { authority: h, host: lower_name(h), port: 443, secure: false },
        ),
        path.len() > 0 ==> target::target_of(method, path) == TargetModel::Direct(path),
{
    lemma_plain_host(h);
    lemma_without_port(h, 80);
    lemma_without_port(h, 443);
    lemma_schemes(h, path);
}

/// The same with a port that is written out: that port.
pub proof fn a_text_asks_for_its_port(method: Seq<char>, h: Seq<char>, port: u16, path: Seq<char>)
    requires
        !target::is_connect(method),
        policies::is_plain_entry(h),
        port >= 1,
        path.len() == 0 || path[0] == '/',
        domain_target::loopback_of(h.push(':') + text::number_text(port as nat)) is Err,
    ensures
        ({
            let authority = h.push(':') + text::number_text(port as nat);
            &&& target::target_of(method, "http://"@ + authority + path) == TargetModel::PublicHttp(
                PublicModel { authority, host: lower_name(h), port, secure: false },
            )
            &&& target::target_of(method, "https://"@ + authority + path) == TargetModel::PublicHttp(
                PublicModel { authority, host: lower_name(h), port, secure: true },
            )
            &&& target::target_of("CONNECT"@, authority) == TargetModel::PublicConnect(
                PublicModel { authority, host: lower_name(h), port, secure: false },
            )
        }),
{
    lemma_plain_host(h);
    let d = text::number_text(port as nat);
    let o = octets::digits_of(port as nat);
    octets::lemma_digits_of(port as nat);
    let authority = h.push(':') + d;
    let n = h.len() as int;
    lemma_with_port(h, port, 80);
    lemma_with_port(h, port, 443);
    assert forall|i: int| 0 <= i < authority.len() implies #[trigger] authority[i] != '/' by {
        if i < n {
            assert(authority[i] == h[i]);
        } else if i > n {
            assert(authority[i] == d[i - n - 1]);
            assert(octets::is_digit(o[i - n - 1]));
        }
    }
    lemma_schemes(authority, path);
}

/// The schemes and the end of the authority in an address.
proof fn lemma_schemes(v: Seq<char>, path: Seq<char>)
    requires
        v.len() > 0,
        forall|i: int| 0 <= i < v.len() ==> #[trigger] v[i] != '/',
        path.len() == 0 || path[0] == '/',
    ensures
        target::behind("http://"@ + v + path, "http://"@) == Some(v + path),
        target::behind("https://"@ + v + path, "http://"@) is None,
        target::behind("https://"@ + v + path, "https://"@) == Some(v + path),
        target::before_slash(v + path) == v,
        ("http://"@ + v + path).len() > 0 && ("http://"@ + v + path)[0] != '/',
        ("https://"@ + v + path).len() > 0 && ("https://"@ + v + path)[0] != '/',
        target::is_connect("CONNECT"@),
{
    reveal_strlit("http://");
    reveal_strlit("https://");
    let a = "http://"@ + v + path;
    let b = "https://"@ + v + path;
    assert(a.subrange(0, 7) =~= "http://"@);
    assert(a.subrange(7, a.len() as int) =~= v + path);
    assert(b.subrange(0, 8) =~= "https://"@);
    assert(b.subrange(8, b.len() as int) =~= v + path);
    assert(b.subrange(0, 7)[4] == 's');
    assert("http://"@[4] == ':');
    let s = v + path;
    let n = v.len() as int;
    assert forall|i: int| 0 <= i < n implies s[i] != '/' by {
        assert(s[i] == v[i]);
    }
    text::lemma_char_at_is(s, '/', 0, n);
    assert(s.subrange(0, n) =~= v);
}

/// A comment and an empty line record nothing; a name alone records the latest version; a name and a
/// version record the two.
pub proof fn a_line_records_a_name_and_a_version(name: Seq<char>, version: Seq<char>, x: Seq<char>)
    requires
        installed::is_entry(name, version),
    ensures
        installed::line_entry(seq!['#'] + x) is None,
        installed::line_entry(Seq::empty()) is None,
        installed::line_entry(name) == Some((name, "latest"@)),
        installed::line_entry(name.push(' ') + version) == Some((name, version)),
{
    let c = seq!['#'] + x;
    installed::lemma_comment(c);
    installed::lemma_single_word(name);
    text::lemma_trim(name);
    assert(!text::white_space(name[0]) && !text::white_space(name[name.len() - 1]));
    assert(text::trim(name) == name);
    installed::lemma_entry_line(name, version);
    reveal_strlit(" ");
    assert(installed::entry_line(name, version) =~= name.push(' ') + version);
    assert(text::trim(Seq::<char>::empty()) =~= Seq::empty());
}

/// A later line takes the place of an earlier one of the same name and leaves the others.
pub proof fn a_later_line_wins(
    lines: Seq<Seq<char>>,
    name: Seq<char>,
    version: Seq<char>,
    other: Seq<char>,
)
    requires
        installed::is_entry(name, version),
        other != name,
    ensures
        ({
            let before = installed::entries_of(lines);
            let after = installed::entries_of(lines.push(name.push(' ') + version));
            &&& after.dom().contains(name) && after[name] == version
            &&& after.dom().contains(other) == before.dom().contains(other)
            &&& before.dom().contains(other) ==> after[other] == before[other]
        }),
{
    a_line_records_a_name_and_a_version(name, version, Seq::empty());
    let all = lines.push(name.push(' ') + version);
    assert(all.drop_last() =~= lines);
}

/// The path of an entry has one slash between the directory and the name.
pub proof fn a_path_has_one_slash(base: Seq<char>, name: Seq<char>)
    requires
        base.len() > 0,
        base.last() != '/',
    ensures
        installed::joined(base, name) == base.push('/') + name,
        installed::joined(base.push('/'), name) == base.push('/') + name,
        installed::joined(Seq::empty(), name) == name,
        installed::config_root(base, None) == base.push('/') + ".config"@,
        installed::config_root(base, Some(Seq::empty())) == base.push('/') + ".config"@,
        name.len() > 0 ==> installed::config_root(base, Some(name)) == name,
{
    reveal_strlit("/");
    assert("/"@ =~= seq!['/']);
    assert(base + "/"@ + name =~= base.push('/') + name);
    assert(base + "/"@ + ".config"@ =~= base.push('/') + ".config"@);
}

} // verus!
