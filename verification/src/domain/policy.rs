//! Policy values and pure policy evaluation.
pub mod reader;

use crate::domain::target;
use crate::domain::target::{HostModel, LoopbackAuthority, LoopbackModel, PublicHost};
use crate::ip;
use crate::ip::{parse_ipv4, IpAddress, IpModel};
use crate::octets;
use crate::octets::{alnum, ascii_text, copy, equal, lowercase, part, split};
use crate::text;
use crate::text::{
    ascii_octets, characters, extend, number, same_chars, split_lines, string_of, trim_chars,
};
use crate::unique::{Same, UniqueSet};
use vstd::prelude::*;
use vstd::slice::slice_subrange;
use vstd::utf8::*;

verus! {

/// One label of a DNS name: up to 63 letters, digits and hyphens, with no hyphen at either end.
pub open spec fn dns_label(l: Seq<u8>) -> bool {
    &&& 1 <= l.len() <= 63
    &&& l[0] != '-' as u8
    &&& l.last() != '-' as u8
    &&& forall|i: int| 0 <= i < l.len() ==> octets::is_alnum(#[trigger] l[i]) || l[i] == '-' as u8
}

/// A DNS name of at most 253 octets whose labels are all valid.
pub open spec fn valid_dns_name(s: Seq<u8>) -> bool {
    &&& s.len() <= 253
    &&& forall|i: int|
        0 <= i < octets::pieces(s, '.' as u8).len() ==> dns_label(
            #[trigger] octets::pieces(s, '.' as u8)[i],
        )
}

/// Without one dot at the end.
pub open spec fn without_root_dot(s: Seq<u8>) -> Seq<u8> {
    if s.len() > 0 && s.last() == '.' as u8 {
        s.drop_last()
    } else {
        s
    }
}

/// The canonical form of a DNS name as it stands on the wire: without a root dot, in lower case.
pub open spec fn dns_name_of(s: Seq<u8>) -> Option<Seq<u8>> {
    let name = without_root_dot(s);
    if valid_dns_name(name) {
        Some(octets::lower(name))
    } else {
        None
    }
}

/// A DNS name in canonical form.
#[derive(Debug, PartialEq, Eq, PartialOrd, Ord, Hash)]
pub struct DomainName {
    name: Vec<u8>,
}

impl View for DomainName {
    type V = Seq<u8>;

    closed spec fn view(&self) -> Seq<u8> {
        self.name@
    }
}

impl Clone for DomainName {
    fn clone(&self) -> (r: DomainName)
        ensures
            r@ == self@,
    {
        proof {
            use_type_invariant(self);
        }
        DomainName { name: copy(self.name.as_slice()) }
    }
}

impl DomainName {
    #[verifier::type_invariant]
    spec fn well_formed(self) -> bool {
        octets::is_ascii(self.name@)
    }

    /// Reads a wire name.
    pub fn parse(value: &str) -> (r: Option<DomainName>)
        ensures
            match r {
                Some(name) => dns_name_of(octets::octets(value@)) == Some(name@),
                None => dns_name_of(octets::octets(value@)) is None,
            },
    {
        DomainName::from_octets(value.as_bytes())
    }

    /// Reads a wire name from its octets.
    pub fn from_octets(value: &[u8]) -> (r: Option<DomainName>)
        ensures
            match r {
                Some(name) => dns_name_of(value@) == Some(name@),
                None => dns_name_of(value@) is None,
            },
    {
        let name: &[u8] = if value.len() > 0 && value[value.len() - 1] == '.' as u8 {
            assert(value@.subrange(0, value@.len() - 1) =~= value@.drop_last());
            part(value, 0, value.len() - 1)
        } else {
            value
        };
        assert(name@ == without_root_dot(value@));
        if valid_domain(name) {
            proof {
                lemma_dns_name_ascii(name@);
            }
            Some(DomainName { name: lowercase(name) })
        } else {
            None
        }
    }

    pub fn as_octets(&self) -> (r: &[u8])
        ensures
            r@ == self@,
            octets::is_ascii(r@),
    {
        proof {
            use_type_invariant(self);
        }
        self.name.as_slice()
    }

    /// The name as text.
    pub fn text(&self) -> (r: String)
        ensures
            octets::octets(r@) == self@,
    {
        ascii_text(self.as_octets())
    }
}

fn valid_label(l: &[u8]) -> (r: bool)
    ensures
        r == dns_label(l@),
{
    if l.len() < 1 || l.len() > 63 || l[0] == '-' as u8 || l[l.len() - 1] == '-' as u8 {
        return false;
    }
    let mut i: usize = 0;
    while i < l.len()
        invariant
            i <= l.len(),
            forall|j: int|
                0 <= j < i ==> octets::is_alnum(#[trigger] l@[j]) || l@[j] == '-' as u8,
        decreases l.len() - i,
    {
        if !alnum(l[i]) && l[i] != '-' as u8 {
            assert(!octets::is_alnum(l@[i as int]));
            return false;
        }
        i += 1;
    }
    true
}

/// Whether the octets are a DNS name without a root dot.
pub fn valid_domain(value: &[u8]) -> (r: bool)
    ensures
        r == valid_dns_name(value@),
{
    if value.len() > 253 {
        return false;
    }
    let labels = split(value, '.' as u8);
    let ghost all = octets::pieces(value@, '.' as u8);
    assert(octets::views(labels@).len() == labels@.len());
    let mut i: usize = 0;
    while i < labels.len()
        invariant
            i <= labels.len(),
            all == octets::pieces(value@, '.' as u8),
            octets::views(labels@) == all,
            all.len() == labels@.len(),
            forall|j: int| 0 <= j < i ==> dns_label(#[trigger] all[j]),
        decreases labels.len() - i,
    {
        assert(octets::views(labels@)[i as int] == labels@[i as int]@);
        if !valid_label(&labels[i]) {
            assert(!dns_label(all[i as int]));
            return false;
        }
        i += 1;
    }
    true
}

/// Every octet of `s` lies in one of its pieces or is the separator.
proof fn lemma_in_pieces(s: Seq<u8>, sep: u8, k: int)
    requires
        0 <= k < s.len(),
        s[k] != sep,
    ensures
        exists|i: int, j: int|
            0 <= i < octets::pieces(s, sep).len() && 0 <= j < octets::pieces(s, sep)[i].len()
                && #[trigger] octets::pieces(s, sep)[i][j] == s[k],
    decreases s.len(),
{
    octets::lemma_first_at(s, sep, 0);
    let at = octets::first_at(s, sep, 0);
    let p = octets::pieces(s, sep);
    if at >= s.len() {
        assert(p[0][k] == s[k]);
    } else if k < at {
        assert(p[0] == s.subrange(0, at));
        assert(p[0][k] == s[k]);
    } else {
        let rest = s.subrange(at + 1, s.len() as int);
        lemma_in_pieces(rest, sep, k - at - 1);
        let q = octets::pieces(rest, sep);
        let (i, j) = choose|i: int, j: int|
            0 <= i < q.len() && 0 <= j < q[i].len() && #[trigger] q[i][j] == rest[k - at - 1];
        assert(p[i + 1] == q[i]);
        assert(p[i + 1][j] == s[k]);
    }
}

/// A DNS name holds only letters, digits, hyphens and dots, and so do its lower-case form.
pub proof fn lemma_dns_name_ascii(s: Seq<u8>)
    requires
        valid_dns_name(s),
    ensures
        octets::is_ascii(s),
        octets::is_ascii(octets::lower(s)),
        forall|k: int|
            0 <= k < s.len() ==> octets::is_alnum(#[trigger] s[k]) || s[k] == '-' as u8 || s[k]
                == '.' as u8,
{
    assert forall|k: int| 0 <= k < s.len() implies octets::is_alnum(#[trigger] s[k]) || s[k]
        == '-' as u8 || s[k] == '.' as u8 by {
        if s[k] != '.' as u8 {
            lemma_in_pieces(s, '.' as u8, k);
            let p = octets::pieces(s, '.' as u8);
            let (i, j) = choose|i: int, j: int|
                0 <= i < p.len() && 0 <= j < p[i].len() && #[trigger] p[i][j] == s[k];
            assert(dns_label(p[i]));
        }
    }
}

/// How a policy is applied.
#[derive(Debug, Clone, Copy, PartialEq, Eq, Structural)]
pub enum Mode {
    Enforce,
    Report,
    Open,
}

impl Default for Mode {
    fn default() -> (r: Mode)
        ensures
            r == Mode::Enforce,
    {
        Mode::Enforce
    }
}

/// The stored spelling of a mode.
pub open spec fn mode_text(mode: Mode) -> Seq<char> {
    match mode {
        Mode::Enforce => "enforce"@,
        Mode::Report => "report"@,
        Mode::Open => "open"@,
    }
}

/// The mode that a text spells.
pub open spec fn mode_of(s: Seq<char>) -> Option<Mode> {
    if s == "enforce"@ {
        Some(Mode::Enforce)
    } else if s == "report"@ {
        Some(Mode::Report)
    } else if s == "open"@ {
        Some(Mode::Open)
    } else {
        None
    }
}

impl Mode {
    pub fn as_str(self) -> (r: &'static str)
        ensures
            r@ == mode_text(self),
    {
        match self {
            Mode::Enforce => "enforce",
            Mode::Report => "report",
            Mode::Open => "open",
        }
    }

    pub fn parse(value: &str) -> (r: Option<Mode>)
        ensures
            r == mode_of(value@),
    {
        Mode::parse_chars(characters(value).as_slice())
    }

    /// The mode that a stored text names. A text that names none enforces.
    pub fn readable_or_enforce(value: &str) -> (r: Mode)
        ensures
            r == (match mode_of(value@) {
                Some(mode) => mode,
                None => Mode::Enforce,
            }),
    {
        match Mode::parse(value) {
            Some(mode) => mode,
            None => Mode::Enforce,
        }
    }

    fn parse_chars(value: &[char]) -> (r: Option<Mode>)
        ensures
            r == mode_of(value@),
    {
        if same_chars(value, characters("enforce").as_slice()) {
            Some(Mode::Enforce)
        } else if same_chars(value, characters("report").as_slice()) {
            Some(Mode::Report)
        } else if same_chars(value, characters("open").as_slice()) {
            Some(Mode::Open)
        } else {
            None
        }
    }
}

/// Every mode is read back from its spelling.
pub proof fn mode_text_reads_back(mode: Mode)
    ensures
        mode_of(mode_text(mode)) == Some(mode),
{
    reveal_strlit("enforce");
    reveal_strlit("report");
    reveal_strlit("open");
    assert("enforce"@.len() == 7);
    assert("report"@.len() == 6);
    assert("open"@.len() == 4);
}

/// A stored host name: labels that are not empty, of letters, digits, hyphens and underscores,
/// with at least one letter or digit in all.
pub open spec fn valid_policy_name(s: Seq<u8>) -> bool {
    &&& s.len() > 0
    &&& forall|i: int|
        0 <= i < octets::pieces(s, '.' as u8).len() ==> (
        #[trigger] octets::pieces(s, '.' as u8)[i]).len() > 0
    &&& forall|i: int|
        0 <= i < s.len() ==> octets::is_alnum(#[trigger] s[i]) || s[i] == '-' as u8 || s[i]
            == '_' as u8 || s[i] == '.' as u8
    &&& exists|i: int| 0 <= i < s.len() && octets::is_alnum(#[trigger] s[i])
}

/// Without dots at the front.
pub open spec fn trim_dots_start(s: Seq<char>) -> Seq<char>
    decreases s.len(),
{
    if s.len() > 0 && s[0] == '.' {
        trim_dots_start(s.drop_first())
    } else {
        s
    }
}

/// Without dots at the end.
pub open spec fn trim_dots_end(s: Seq<char>) -> Seq<char>
    decreases s.len(),
{
    if s.len() > 0 && s.last() == '.' {
        trim_dots_end(s.drop_last())
    } else {
        s
    }
}

/// Without dots at either end.
pub open spec fn trim_dots(s: Seq<char>) -> Seq<char> {
    trim_dots_end(trim_dots_start(s))
}

/// Without one leading `*.`.
pub open spec fn strip_star(s: Seq<char>) -> Seq<char> {
    if s.len() >= 2 && s[0] == '*' && s[1] == '.' {
        s.subrange(2, s.len() as int)
    } else {
        s
    }
}

/// The canonical form of a stored host name.
pub open spec fn policy_name_of(s: Seq<char>) -> Option<Seq<u8>> {
    let t = trim_dots(text::trim(s));
    if is_ascii_chars(t) && valid_policy_name(octets::octets(t)) {
        Some(octets::lower(octets::octets(t)))
    } else {
        None
    }
}

/// The name that a pattern covers together with its subdomains.
pub open spec fn pattern_of(s: Seq<char>) -> Option<Seq<u8>> {
    policy_name_of(strip_star(text::trim(s)))
}

/// The pattern covers the host: the host is the name itself or ends in a dot and the name.
pub open spec fn pattern_covers(pattern: Seq<u8>, host: Seq<u8>) -> bool {
    ||| host == pattern
    ||| pattern.len() < host.len() && host.subrange(
        host.len() - pattern.len(),
        host.len() as int,
    ) == pattern && host[host.len() - pattern.len() - 1] == '.' as u8
}

/// What one policy line grants.
pub enum EntryModel {
    Domain(Seq<u8>),
    Ip(Seq<u8>),
}

/// The IPv4 address that a text spells.
pub open spec fn ipv4_of_text(s: Seq<char>) -> Option<Seq<u8>> {
    if is_ascii_chars(s) {
        ip::ipv4_of(octets::octets(s))
    } else {
        None
    }
}

/// What a policy line grants: one IPv4 address, or a name with its subdomains.
pub open spec fn entry_of(line: Seq<char>) -> Option<EntryModel> {
    match ipv4_of_text(trim_dots(strip_star(text::trim(line)))) {
        Some(o) => Some(EntryModel::Ip(o)),
        None => match pattern_of(line) {
            Some(name) => Some(EntryModel::Domain(name)),
            None => None,
        },
    }
}

/// Without dots at either end.
pub fn trim_dot_chars(s: &[char]) -> (r: &[char])
    ensures
        r@ == trim_dots(s@),
{
    let mut start: usize = 0;
    assert(s@.subrange(0, s@.len() as int) =~= s@);
    while start < s.len() && s[start] == '.'
        invariant
            start <= s.len(),
            trim_dots_start(s@) == trim_dots_start(s@.subrange(start as int, s@.len() as int)),
        decreases s.len() - start,
    {
        assert(s@.subrange(start as int, s@.len() as int).drop_first() =~= s@.subrange(
            start + 1,
            s@.len() as int,
        ));
        start += 1;
    }
    let mut end: usize = s.len();
    assert(trim_dots_start(s@) == s@.subrange(start as int, s@.len() as int));
    while end > start && s[end - 1] == '.'
        invariant
            start <= end <= s.len(),
            trim_dots(s@) == trim_dots_end(s@.subrange(start as int, end as int)),
        decreases end,
    {
        assert(s@.subrange(start as int, end as int).drop_last() =~= s@.subrange(
            start as int,
            end - 1,
        ));
        end -= 1;
    }
    slice_subrange(s, start, end)
}

/// Without a leading `*.`.
pub fn strip_star_chars(s: &[char]) -> (r: &[char])
    ensures
        r@ == strip_star(s@),
{
    if s.len() >= 2 && s[0] == '*' && s[1] == '.' {
        slice_subrange(s, 2, s.len())
    } else {
        s
    }
}

/// Whether the octets are a stored host name.
pub fn valid_policy_domain(value: &[u8]) -> (r: bool)
    ensures
        r == valid_policy_name(value@),
{
    if value.len() == 0 {
        return false;
    }
    let mut i: usize = 0;
    let mut named: bool = false;
    while i < value.len()
        invariant
            i <= value.len(),
            forall|j: int|
                0 <= j < i ==> octets::is_alnum(#[trigger] value@[j]) || value@[j] == '-' as u8
                    || value@[j] == '_' as u8 || value@[j] == '.' as u8,
            named == exists|j: int| 0 <= j < i && octets::is_alnum(#[trigger] value@[j]),
        decreases value.len() - i,
    {
        let b: u8 = value[i];
        if alnum(b) {
            named = true;
            assert(octets::is_alnum(value@[i as int]));
        } else if b != '-' as u8 && b != '_' as u8 && b != '.' as u8 {
            assert(!octets::is_alnum(value@[i as int]));
            return false;
        }
        i += 1;
    }
    if !named {
        return false;
    }
    let labels = split(value, '.' as u8);
    let ghost all = octets::pieces(value@, '.' as u8);
    assert(octets::views(labels@).len() == labels@.len());
    let mut k: usize = 0;
    while k < labels.len()
        invariant
            k <= labels.len(),
            all == octets::pieces(value@, '.' as u8),
            octets::views(labels@) == all,
            all.len() == labels@.len(),
            forall|j: int| 0 <= j < k ==> (#[trigger] all[j]).len() > 0,
        decreases labels.len() - k,
    {
        assert(octets::views(labels@)[k as int] == labels@[k as int]@);
        if labels[k].len() == 0 {
            assert(all[k as int].len() == 0);
            return false;
        }
        k += 1;
    }
    true
}

fn parse_policy_name(s: &[char]) -> (r: Option<Vec<u8>>)
    ensures
        match r {
            Some(name) => policy_name_of(s@) == Some(name@),
            None => policy_name_of(s@) is None,
        },
{
    match ascii_octets(trim_dot_chars(trim_chars(s))) {
        None => None,
        Some(b) => if valid_policy_domain(b.as_slice()) {
            Some(lowercase(b.as_slice()))
        } else {
            None
        },
    }
}

/// A stored host name that covers itself and its subdomains.
#[derive(Debug, Clone, PartialEq, Eq, PartialOrd, Ord, Hash)]
pub struct DomainPattern {
    name: Vec<u8>,
}

impl View for DomainPattern {
    type V = Seq<u8>;

    closed spec fn view(&self) -> Seq<u8> {
        self.name@
    }
}

impl DomainPattern {
    pub fn parse(value: &str) -> (r: Option<DomainPattern>)
        ensures
            match r {
                Some(pattern) => pattern_of(value@) == Some(pattern@),
                None => pattern_of(value@) is None,
            },
    {
        DomainPattern::parse_chars(characters(value).as_slice())
    }

    fn parse_chars(value: &[char]) -> (r: Option<DomainPattern>)
        ensures
            match r {
                Some(pattern) => pattern_of(value@) == Some(pattern@),
                None => pattern_of(value@) is None,
            },
    {
        match parse_policy_name(strip_star_chars(trim_chars(value))) {
            Some(name) => Some(DomainPattern { name }),
            None => None,
        }
    }

    /// Whether the pattern covers the host.
    pub fn matches(&self, host: &DomainName) -> (r: bool)
        ensures
            r == pattern_covers(self@, host@),
    {
        let h = host.as_octets();
        let n: usize = self.name.len();
        if n >= h.len() {
            return equal(h, self.name.as_slice());
        }
        let start: usize = h.len() - n;
        h[start - 1] == '.' as u8 && equal(part(h, start, h.len()), self.name.as_slice())
    }
}

/// One policy line.
#[derive(Debug, Clone, PartialEq, Eq, PartialOrd, Ord)]
pub enum PolicyEntry {
    Domain(DomainPattern),
    Ip([u8; 4]),
}

impl View for PolicyEntry {
    type V = EntryModel;

    open spec fn view(&self) -> EntryModel {
        match self {
            PolicyEntry::Domain(pattern) => EntryModel::Domain(pattern@),
            PolicyEntry::Ip(o) => EntryModel::Ip(o@),
        }
    }
}

impl PolicyEntry {
    pub fn parse(value: &str) -> (r: Option<PolicyEntry>)
        ensures
            match r {
                Some(entry) => entry_of(value@) == Some(entry@),
                None => entry_of(value@) is None,
            },
    {
        PolicyEntry::parse_chars(characters(value).as_slice())
    }

    /// Reads a policy line from its characters.
    pub fn parse_chars(value: &[char]) -> (r: Option<PolicyEntry>)
        ensures
            match r {
                Some(entry) => entry_of(value@) == Some(entry@),
                None => entry_of(value@) is None,
            },
    {
        match ascii_octets(trim_dot_chars(strip_star_chars(trim_chars(value)))) {
            Some(b) => match parse_ipv4(b.as_slice()) {
                Some(o) => {
                    return Some(PolicyEntry::Ip(o));
                },
                None => {},
            },
            None => {},
        }
        match DomainPattern::parse_chars(value) {
            Some(pattern) => Some(PolicyEntry::Domain(pattern)),
            None => None,
        }
    }
}

impl Same for PolicyEntry {
    fn same(&self, other: &PolicyEntry) -> (r: bool) {
        match (self, other) {
            (PolicyEntry::Domain(a), PolicyEntry::Domain(b)) => equal(
                a.name.as_slice(),
                b.name.as_slice(),
            ),
            (PolicyEntry::Ip(a), PolicyEntry::Ip(b)) => {
                assert(a@ == b@ ==> *a =~= *b);
                ip::same_octets(a, b)
            },
            _ => false,
        }
    }
}

/// A policy line that cannot be read.
#[derive(Debug, Clone, Copy, PartialEq, Eq, Structural)]
pub struct PolicyParseError;

impl PolicyParseError {
    pub fn message(&self) -> (r: &'static str)
        ensures
            r@ == "invalid policy entry"@,
    {
        "invalid policy entry"
    }
}

/// What the lines of one layer grant, where every line can be read.
pub open spec fn domain_layer(lines: Seq<Seq<char>>) -> Option<Set<EntryModel>> {
    if forall|i: int| 0 <= i < lines.len() ==> entry_of(#[trigger] lines[i]) is Some {
        Some(
            Set::new(
                |m: EntryModel|
                    exists|i: int| 0 <= i < lines.len() && entry_of(#[trigger] lines[i]) == Some(m),
            ),
        )
    } else {
        None
    }
}

/// The authorities that the lines of one local layer grant, where every line can be read.
pub open spec fn local_layer(lines: Seq<Seq<char>>) -> Option<Set<LoopbackModel>> {
    if forall|i: int| 0 <= i < lines.len() ==> target::loopback_of(#[trigger] lines[i]) is Ok {
        Some(
            Set::new(
                |m: LoopbackModel|
                    exists|i: int|
                        0 <= i < lines.len() && target::loopback_of(#[trigger] lines[i]) == Ok::<
                            LoopbackModel,
                            target::AuthorityParseError,
                        >(m),
            ),
        )
    } else {
        None
    }
}

/// The index of the first line from `i` on that is no policy line.
pub open spec fn first_bad_entry(lines: Seq<Seq<char>>, i: int) -> int
    decreases lines.len() - i,
{
    if i < 0 || i >= lines.len() || entry_of(lines[i]) is None {
        i
    } else {
        first_bad_entry(lines, i + 1)
    }
}

/// The index of the first line from `i` on that is no loopback authority.
pub open spec fn first_bad_authority(lines: Seq<Seq<char>>, i: int) -> int
    decreases lines.len() - i,
{
    if i < 0 || i >= lines.len() || target::loopback_of(lines[i]) is Err {
        i
    } else {
        first_bad_authority(lines, i + 1)
    }
}

/// Reads the lines of a public layer; on failure, the index of the first bad line.
fn read_entries(contents: &str) -> (r: Result<UniqueSet<PolicyEntry>, usize>)
    ensures
        match r {
            Ok(set) => domain_layer(text::lines(contents@)) == Some(set@),
            Err(line) => domain_layer(text::lines(contents@)) is None && line == first_bad_entry(
                text::lines(contents@),
                0,
            ) && line < text::lines(contents@).len() && line < usize::MAX,
        },
{
    let lines = split_lines(characters(contents).as_slice());
    let ghost all = text::lines(contents@);
    assert(text::texts(lines@).len() == lines@.len());
    let mut set: UniqueSet<PolicyEntry> = UniqueSet::new();
    let mut i: usize = 0;
    proof {
        assert(set@ =~= Set::new(
            |m: EntryModel| exists|j: int| 0 <= j < 0 && entry_of(#[trigger] all[j]) == Some(m),
        ));
    }
    while i < lines.len()
        invariant
            i <= lines.len(),
            all == text::lines(contents@),
            text::texts(lines@) == all,
            all.len() == lines@.len(),
            forall|j: int| 0 <= j < i ==> entry_of(#[trigger] all[j]) is Some,
            first_bad_entry(all, 0) == first_bad_entry(all, i as int),
            set@ == Set::new(
                |m: EntryModel| exists|j: int| 0 <= j < i && entry_of(#[trigger] all[j]) == Some(m),
            ),
        decreases lines.len() - i,
    {
        assert(text::texts(lines@)[i as int] == lines@[i as int]@);
        match PolicyEntry::parse_chars(lines[i].as_slice()) {
            None => {
                assert(entry_of(all[i as int]) is None);
                return Err(i);
            },
            Some(entry) => {
                let ghost was = set@;
                let ghost model = entry@;
                set.insert(entry);
                proof {
                    let n = i + 1;
                    let next = Set::new(
                        |m: EntryModel|
                            exists|j: int| 0 <= j < n && entry_of(#[trigger] all[j]) == Some(m),
                    );
                    assert forall|m: EntryModel|
                        next.contains(m) <==> was.insert(model).contains(m) by {
                        if next.contains(m) {
                            let j = choose|j: int|
                                0 <= j < n && entry_of(#[trigger] all[j]) == Some(m);
                            if j < i {
                                assert(entry_of(all[j]) == Some(m));
                            }
                        }
                        if was.contains(m) {
                            let j = choose|j: int|
                                0 <= j < i && entry_of(#[trigger] all[j]) == Some(m);
                            assert(entry_of(all[j]) == Some(m));
                        }
                        assert(entry_of(all[i as int]) == Some(model));
                    }
                    assert(set@ =~= next);
                }
            },
        }
        i += 1;
    }
    Ok(set)
}

/// Reads the lines of a local layer; on failure, the index of the first bad line.
fn read_authorities(contents: &str) -> (r: Result<UniqueSet<LoopbackAuthority>, usize>)
    ensures
        match r {
            Ok(set) => local_layer(text::lines(contents@)) == Some(set@),
            Err(line) => local_layer(text::lines(contents@)) is None && line
                == first_bad_authority(text::lines(contents@), 0) && line < text::lines(
                contents@,
            ).len() && line < usize::MAX,
        },
{
    let lines = split_lines(characters(contents).as_slice());
    let ghost all = text::lines(contents@);
    assert(text::texts(lines@).len() == lines@.len());
    let mut set: UniqueSet<LoopbackAuthority> = UniqueSet::new();
    let mut i: usize = 0;
    proof {
        assert(set@ =~= Set::new(
            |m: LoopbackModel|
                exists|j: int|
                    0 <= j < 0 && target::loopback_of(#[trigger] all[j]) == Ok::<
                        LoopbackModel,
                        target::AuthorityParseError,
                    >(m),
        ));
    }
    while i < lines.len()
        invariant
            i <= lines.len(),
            all == text::lines(contents@),
            text::texts(lines@) == all,
            all.len() == lines@.len(),
            forall|j: int| 0 <= j < i ==> target::loopback_of(#[trigger] all[j]) is Ok,
            first_bad_authority(all, 0) == first_bad_authority(all, i as int),
            set@ == Set::new(
                |m: LoopbackModel|
                    exists|j: int|
                        0 <= j < i && target::loopback_of(#[trigger] all[j]) == Ok::<
                            LoopbackModel,
                            target::AuthorityParseError,
                        >(m),
            ),
        decreases lines.len() - i,
    {
        assert(text::texts(lines@)[i as int] == lines@[i as int]@);
        match LoopbackAuthority::parse_chars(lines[i].as_slice()) {
            Err(_) => {
                assert(target::loopback_of(all[i as int]) is Err);
                return Err(i);
            },
            Ok(authority) => {
                let ghost was = set@;
                let ghost model = authority@;
                set.insert(authority);
                proof {
                    let n = i + 1;
                    let next = Set::new(
                        |m: LoopbackModel|
                            exists|j: int|
                                0 <= j < n && target::loopback_of(#[trigger] all[j]) == Ok::<
                                    LoopbackModel,
                                    target::AuthorityParseError,
                                >(m),
                    );
                    assert forall|m: LoopbackModel|
                        next.contains(m) <==> was.insert(model).contains(m) by {
                        if next.contains(m) {
                            let j = choose|j: int|
                                0 <= j < n && target::loopback_of(#[trigger] all[j]) == Ok::<
                                    LoopbackModel,
                                    target::AuthorityParseError,
                                >(m);
                            if j < i {
                                assert(target::loopback_of(all[j]) is Ok);
                            }
                        }
                        if was.contains(m) {
                            let j = choose|j: int|
                                0 <= j < i && target::loopback_of(#[trigger] all[j]) == Ok::<
                                    LoopbackModel,
                                    target::AuthorityParseError,
                                >(m);
                            assert(target::loopback_of(all[j]) is Ok);
                        }
                        assert(target::loopback_of(all[i as int]) == Ok::<
                            LoopbackModel,
                            target::AuthorityParseError,
                        >(model));
                    }
                    assert(set@ =~= next);
                }
            },
        }
        i += 1;
    }
    Ok(set)
}

/// Reads a public layer.
pub fn parse_domain_layer(contents: &str) -> (r: Result<UniqueSet<PolicyEntry>, PolicyParseError>)
    ensures
        match r {
            Ok(set) => domain_layer(text::lines(contents@)) == Some(set@),
            Err(_) => domain_layer(text::lines(contents@)) is None,
        },
{
    match read_entries(contents) {
        Ok(set) => Ok(set),
        Err(_) => Err(PolicyParseError),
    }
}

/// Reads a local layer.
pub fn parse_local_layer(contents: &str) -> (r: Result<
    UniqueSet<LoopbackAuthority>,
    PolicyParseError,
>)
    ensures
        match r {
            Ok(set) => local_layer(text::lines(contents@)) == Some(set@),
            Err(_) => local_layer(text::lines(contents@)) is None,
        },
{
    match read_authorities(contents) {
        Ok(set) => Ok(set),
        Err(_) => Err(PolicyParseError),
    }
}

/// The message for a bad line: its layer, the path and the line, counted from one.
pub open spec fn malformed_text(
    kind: Seq<char>,
    index: nat,
    path: Seq<char>,
    line: nat,
) -> Seq<char> {
    kind + text::number_text(index) + " at "@ + path + " line "@ + text::number_text(line)
}

fn malformed(kind: &str, index: u64, path: &str, line: u64) -> (r: String)
    ensures
        r@ == malformed_text(kind@, index as nat, path@, line as nat),
{
    let mut out = string_of(characters(kind).as_slice());
    extend(&mut out, number(index).as_str());
    extend(&mut out, " at ");
    extend(&mut out, path);
    extend(&mut out, " line ");
    extend(&mut out, number(line).as_str());
    out
}

/// Reads a public layer; a bad line is reported with its place.
pub fn parse_domain_layer_at(contents: &str, path: &str, index: usize) -> (r: Result<
    UniqueSet<PolicyEntry>,
    String,
>)
    ensures
        match r {
            Ok(set) => domain_layer(text::lines(contents@)) == Some(set@),
            Err(e) => domain_layer(text::lines(contents@)) is None && e@ == malformed_text(
                "malformed public policy layer "@,
                index as nat,
                path@,
                (first_bad_entry(text::lines(contents@), 0) + 1) as nat,
            ),
        },
{
    match read_entries(contents) {
        Ok(set) => Ok(set),
        Err(line) => Err(
            malformed("malformed public policy layer ", index as u64, path, line as u64 + 1),
        ),
    }
}

/// Reads a local layer; a bad line is reported with its place.
pub fn parse_local_layer_at(contents: &str, path: &str, index: usize) -> (r: Result<
    UniqueSet<LoopbackAuthority>,
    String,
>)
    ensures
        match r {
            Ok(set) => local_layer(text::lines(contents@)) == Some(set@),
            Err(e) => local_layer(text::lines(contents@)) is None && e@ == malformed_text(
                "malformed local policy layer "@,
                index as nat,
                path@,
                (first_bad_authority(text::lines(contents@), 0) + 1) as nat,
            ),
        },
{
    match read_authorities(contents) {
        Ok(set) => Ok(set),
        Err(line) => Err(
            malformed("malformed local policy layer ", index as u64, path, line as u64 + 1),
        ),
    }
}

/// Without carriage returns and line feeds at the end.
pub open spec fn trim_line_end(s: Seq<char>) -> Seq<char>
    decreases s.len(),
{
    if s.len() > 0 && (s.last() == '\r' || s.last() == '\n') {
        trim_line_end(s.drop_last())
    } else {
        s
    }
}

/// The mode that a mode file sets, and the warning that goes with it. A file that does not hold
/// exactly one known mode on one line enforces.
pub open spec fn mode_file(contents: Seq<char>) -> (Mode, Option<Seq<char>>) {
    if text::lines(contents).len() != 1 {
        (Mode::Enforce, Some("mode file is multiline; enforcing"@))
    } else {
        match mode_of(trim_line_end(contents)) {
            Some(mode) => (mode, None),
            None => (Mode::Enforce, Some("mode file is unknown; enforcing"@)),
        }
    }
}

/// An optional text.
pub open spec fn optional_text(s: Option<String>) -> Option<Seq<char>> {
    match s {
        Some(s) => Some(s@),
        None => None,
    }
}

/// Reads a mode file.
pub fn parse_mode(contents: &str) -> (r: (Mode, Option<String>))
    ensures
        (r.0, optional_text(r.1)) == mode_file(contents@),
{
    let chars = characters(contents);
    let lines = split_lines(chars.as_slice());
    assert(text::texts(lines@).len() == lines@.len());
    if lines.len() != 1 {
        return (
            Mode::Enforce,
            Some(string_of(characters("mode file is multiline; enforcing").as_slice())),
        );
    }
    let mut end: usize = chars.len();
    assert(chars@.subrange(0, end as int) =~= chars@);
    while end > 0 && (chars[end - 1] == '\r' || chars[end - 1] == '\n')
        invariant
            end <= chars@.len(),
            trim_line_end(chars@) == trim_line_end(chars@.subrange(0, end as int)),
        decreases end,
    {
        assert(chars@.subrange(0, end as int).drop_last() =~= chars@.subrange(0, end - 1));
        end -= 1;
    }
    match Mode::parse_chars(slice_subrange(chars.as_slice(), 0, end)) {
        Some(mode) => (mode, None),
        None => (
            Mode::Enforce,
            Some(string_of(characters("mode file is unknown; enforcing").as_slice())),
        ),
    }
}

/// A policy file as it was found: its path, and its contents where they could be read.
#[derive(Debug)]
pub struct LayerFile {
    pub path: String,
    pub contents: Option<String>,
}

pub struct LayerModel {
    pub path: Seq<char>,
    pub contents: Option<Seq<char>>,
}

impl View for LayerFile {
    type V = LayerModel;

    open spec fn view(&self) -> LayerModel {
        LayerModel { path: self.path@, contents: optional_text(self.contents) }
    }
}

pub open spec fn layer_models(s: Seq<LayerFile>) -> Seq<LayerModel> {
    Seq::new(s.len(), |i: int| s[i]@)
}

pub open spec fn unreadable_text(kind: Seq<char>, index: nat, path: Seq<char>) -> Seq<char> {
    kind + text::number_text(index) + " at "@ + path
}

fn unreadable(kind: &str, index: u64, path: &str) -> (r: String)
    ensures
        r@ == unreadable_text(kind@, index as nat, path@),
{
    let mut out = string_of(characters(kind).as_slice());
    extend(&mut out, number(index).as_str());
    extend(&mut out, " at ");
    extend(&mut out, path);
    out
}

/// What the public layers from index `i` on add to `acc`, or the first failure.
pub open spec fn domain_layers_from(
    layers: Seq<LayerModel>,
    i: int,
    acc: Set<EntryModel>,
) -> Result<Set<EntryModel>, Seq<char>>
    decreases layers.len() - i,
{
    if i < 0 || i >= layers.len() {
        Ok(acc)
    } else {
        match layers[i].contents {
            None => Err(
                unreadable_text("read public policy layer "@, i as nat, layers[i].path),
            ),
            Some(contents) => match domain_layer(text::lines(contents)) {
                None => Err(
                    malformed_text(
                        "malformed public policy layer "@,
                        i as nat,
                        layers[i].path,
                        (first_bad_entry(text::lines(contents), 0) + 1) as nat,
                    ),
                ),
                Some(entries) => domain_layers_from(layers, i + 1, acc.union(entries)),
            },
        }
    }
}

/// What all public layers grant together, or the first failure. There must be a layer.
pub open spec fn domain_layers(layers: Seq<LayerModel>) -> Result<Set<EntryModel>, Seq<char>> {
    if layers.len() == 0 {
        Err("public policy has no layers"@)
    } else {
        domain_layers_from(layers, 0, Set::empty())
    }
}

/// What the local layers from index `i` on add to `acc`, or the first failure.
pub open spec fn local_layers_from(
    layers: Seq<LayerModel>,
    i: int,
    acc: Set<LoopbackModel>,
) -> Result<Set<LoopbackModel>, Seq<char>>
    decreases layers.len() - i,
{
    if i < 0 || i >= layers.len() {
        Ok(acc)
    } else {
        match layers[i].contents {
            None => Err(unreadable_text("read local policy layer "@, i as nat, layers[i].path)),
            Some(contents) => match local_layer(text::lines(contents)) {
                None => Err(
                    malformed_text(
                        "malformed local policy layer "@,
                        i as nat,
                        layers[i].path,
                        (first_bad_authority(text::lines(contents), 0) + 1) as nat,
                    ),
                ),
                Some(entries) => local_layers_from(layers, i + 1, acc.union(entries)),
            },
        }
    }
}

/// Joins the public layers.
pub fn read_domain_layers(layers: &[LayerFile]) -> (r: Result<UniqueSet<PolicyEntry>, String>)
    ensures
        match r {
            Ok(set) => domain_layers(layer_models(layers@)) == Ok::<Set<EntryModel>, Seq<char>>(
                set@,
            ),
            Err(e) => domain_layers(layer_models(layers@)) == Err::<Set<EntryModel>, Seq<char>>(
                e@,
            ),
        },
{
    if layers.len() == 0 {
        return Err(string_of(characters("public policy has no layers").as_slice()));
    }
    let ghost all = layer_models(layers@);
    let mut set: UniqueSet<PolicyEntry> = UniqueSet::new();
    let mut i: usize = 0;
    while i < layers.len()
        invariant
            i <= layers@.len(),
            layers@.len() > 0,
            all == layer_models(layers@),
            domain_layers(all) == domain_layers_from(all, i as int, set@),
        decreases layers@.len() - i,
    {
        assert(all[i as int] == layers@[i as int]@);
        match &layers[i].contents {
            None => {
                return Err(
                    unreadable("read public policy layer ", i as u64, layers[i].path.as_str()),
                );
            },
            Some(contents) => match parse_domain_layer_at(
                contents.as_str(),
                layers[i].path.as_str(),
                i,
            ) {
                Err(error) => {
                    return Err(error);
                },
                Ok(entries) => {
                    set.extend(entries);
                },
            },
        }
        i += 1;
    }
    Ok(set)
}

/// Joins the local layers.
pub fn read_local_layers(layers: &[LayerFile]) -> (r: Result<UniqueSet<LoopbackAuthority>, String>)
    ensures
        match r {
            Ok(set) => local_layers_from(layer_models(layers@), 0, Set::empty()) == Ok::<
                Set<LoopbackModel>,
                Seq<char>,
            >(set@),
            Err(e) => local_layers_from(layer_models(layers@), 0, Set::empty()) == Err::<
                Set<LoopbackModel>,
                Seq<char>,
            >(e@),
        },
{
    let ghost all = layer_models(layers@);
    let mut set: UniqueSet<LoopbackAuthority> = UniqueSet::new();
    let mut i: usize = 0;
    while i < layers.len()
        invariant
            i <= layers@.len(),
            all == layer_models(layers@),
            local_layers_from(all, 0, Set::empty()) == local_layers_from(all, i as int, set@),
        decreases layers@.len() - i,
    {
        assert(all[i as int] == layers@[i as int]@);
        match &layers[i].contents {
            None => {
                return Err(
                    unreadable("read local policy layer ", i as u64, layers[i].path.as_str()),
                );
            },
            Some(contents) => match parse_local_layer_at(
                contents.as_str(),
                layers[i].path.as_str(),
                i,
            ) {
                Err(error) => {
                    return Err(error);
                },
                Ok(entries) => {
                    set.extend(entries);
                },
            },
        }
        i += 1;
    }
    Ok(set)
}

/// What the policy decides for a public host.
#[derive(Debug, Clone, Copy, PartialEq, Eq, Structural)]
pub struct PublicDecision {
    pub allowed: bool,
    pub record_denial: bool,
    pub mode: Mode,
}

/// The policy at one moment.
#[derive(Debug)]
pub struct PolicySnapshot {
    mode: Mode,
    public: UniqueSet<PolicyEntry>,
    local: UniqueSet<LoopbackAuthority>,
}

pub struct SnapshotModel {
    pub mode: Mode,
    pub public: Set<EntryModel>,
    pub local: Set<LoopbackModel>,
}

impl View for PolicySnapshot {
    type V = SnapshotModel;

    closed spec fn view(&self) -> SnapshotModel {
        SnapshotModel { mode: self.mode, public: self.public@, local: self.local@ }
    }
}

/// The entry is a pattern that covers the name.
pub open spec fn entry_covers(entry: EntryModel, name: Seq<u8>) -> bool {
    entry matches EntryModel::Domain(pattern) && pattern_covers(pattern, name)
}

/// Some pattern covers the name.
pub open spec fn name_granted(entries: Set<EntryModel>, name: Seq<u8>) -> bool {
    exists|entry: EntryModel| entries.contains(entry) && #[trigger] entry_covers(entry, name)
}

/// Some entry grants the host: a pattern that covers a name, or the very IPv4 address. An IPv6
/// address is never granted.
pub open spec fn host_granted(entries: Set<EntryModel>, host: HostModel) -> bool {
    match host {
        HostModel::Dns(name) => name_granted(entries, name),
        HostModel::Ip(IpModel::V4(o)) => entries.contains(EntryModel::Ip(o)),
        HostModel::Ip(IpModel::V6(_)) => false,
    }
}

/// The decision that a mode makes of a grant or of its absence.
pub open spec fn decision_for(mode: Mode, matched: bool) -> PublicDecision {
    match mode {
        Mode::Enforce => PublicDecision { allowed: matched, record_denial: !matched, mode },
        Mode::Report => PublicDecision { allowed: true, record_denial: !matched, mode },
        Mode::Open => PublicDecision { allowed: true, record_denial: false, mode },
    }
}

/// A public snapshot from its files, with the warning for the mode file, or the first failure. The
/// mode file is looked at first.
pub open spec fn public_snapshot(
    layers: Seq<LayerModel>,
    mode: LayerModel,
) -> Result<(SnapshotModel, Option<Seq<char>>), Seq<char>> {
    match mode.contents {
        None => Err("read policy mode "@ + mode.path),
        Some(contents) => match domain_layers(layers) {
            Err(error) => Err(error),
            Ok(public) => Ok(
                (
                    SnapshotModel { mode: mode_file(contents).0, public, local: Set::empty() },
                    mode_file(contents).1,
                ),
            ),
        },
    }
}

/// A local snapshot from its files, or the first failure.
pub open spec fn local_snapshot(layers: Seq<LayerModel>) -> Result<SnapshotModel, Seq<char>> {
    match local_layers_from(layers, 0, Set::empty()) {
        Err(error) => Err(error),
        Ok(local) => Ok(SnapshotModel { mode: Mode::Enforce, public: Set::empty(), local }),
    }
}

impl PolicySnapshot {
    /// The snapshot of the public layers and the mode file.
    pub fn public(layers: &[LayerFile], mode: &LayerFile) -> (r: Result<
        (PolicySnapshot, Option<String>),
        String,
    >)
        ensures
            match r {
                Ok((snapshot, warning)) => public_snapshot(layer_models(layers@), mode@) == Ok::<
                    (SnapshotModel, Option<Seq<char>>),
                    Seq<char>,
                >((snapshot@, optional_text(warning))),
                Err(e) => public_snapshot(layer_models(layers@), mode@) == Err::<
                    (SnapshotModel, Option<Seq<char>>),
                    Seq<char>,
                >(e@),
            },
    {
        match &mode.contents {
            None => {
                let mut out = string_of(characters("read policy mode ").as_slice());
                extend(&mut out, mode.path.as_str());
                Err(out)
            },
            Some(contents) => {
                let (mode, warning) = parse_mode(contents.as_str());
                match read_domain_layers(layers) {
                    Err(error) => Err(error),
                    Ok(public) => Ok(
                        (PolicySnapshot { mode, public, local: UniqueSet::new() }, warning),
                    ),
                }
            },
        }
    }

    /// The snapshot of the three local layers.
    pub fn local(layers: &[LayerFile; 3]) -> (r: Result<PolicySnapshot, String>)
        ensures
            match r {
                Ok(snapshot) => local_snapshot(layer_models(layers@)) == Ok::<
                    SnapshotModel,
                    Seq<char>,
                >(snapshot@),
                Err(e) => local_snapshot(layer_models(layers@)) == Err::<SnapshotModel, Seq<char>>(
                    e@,
                ),
            },
    {
        match read_local_layers(layers.as_slice()) {
            Err(error) => Err(error),
            Ok(local) => Ok(
                PolicySnapshot { mode: Mode::Enforce, public: UniqueSet::new(), local },
            ),
        }
    }

    /// A snapshot with the given grants.
    pub fn with(mode: Mode, public: UniqueSet<PolicyEntry>, local: UniqueSet<LoopbackAuthority>) -> (r:
        PolicySnapshot)
        ensures
            r@ == (SnapshotModel { mode, public: public@, local: local@ }),
    {
        PolicySnapshot { mode, public, local }
    }

    /// Decides for a public host.
    pub fn decide_public(&self, host: &PublicHost) -> (r: PublicDecision)
        ensures
            r == decision_for(self@.mode, host_granted(self@.public, host@)),
    {
        let matched: bool = match host {
            PublicHost::Dns(name) => names_granted(&self.public, name),
            PublicHost::Ip(IpAddress::V4(o)) => self.public.contains(&PolicyEntry::Ip(*o)),
            PublicHost::Ip(IpAddress::V6(_)) => false,
        };
        match self.mode {
            Mode::Enforce => PublicDecision {
                allowed: matched,
                record_denial: !matched,
                mode: self.mode,
            },
            Mode::Report => PublicDecision {
                allowed: true,
                record_denial: !matched,
                mode: self.mode,
            },
            Mode::Open => PublicDecision { allowed: true, record_denial: false, mode: self.mode },
        }
    }

    /// Decides for a loopback authority.
    pub fn decide_local(&self, authority: &LoopbackAuthority) -> (r: bool)
        ensures
            r == self@.local.contains(authority@),
    {
        self.local.contains(authority)
    }

    pub fn mode(&self) -> (r: Mode)
        ensures
            r == self@.mode,
    {
        self.mode
    }
}

fn names_granted(set: &UniqueSet<PolicyEntry>, name: &DomainName) -> (r: bool)
    ensures
        r == name_granted(set@, name@),
{
    let mut i: usize = 0;
    while i < set.count()
        invariant
            forall|j: int| 0 <= j < i ==> !entry_covers(#[trigger] set.at(j)@, name@),
        decreases set.spec_count() - i,
    {
        if let PolicyEntry::Domain(pattern) = set.get(i) {
            if pattern.matches(name) {
                proof {
                    set.lemma_at(i as int);
                }
                assert(entry_covers(set.at(i as int)@, name@));
                return true;
            }
        }
        i += 1;
    }
    proof {
        if name_granted(set@, name@) {
            let entry = choose|entry: EntryModel|
                set@.contains(entry) && #[trigger] entry_covers(entry, name@);
            let j = set.lemma_index(entry);
            assert(entry_covers(set.at(j)@, name@));
        }
    }
    false
}

/// The mode that a status endpoint reports, with the warning or failure behind it. A policy that
/// cannot be read enforces.
pub fn effective_status_mode(layers: &[LayerFile], mode: &LayerFile) -> (r: (Mode, Option<String>))
    ensures
        (r.0, optional_text(r.1)) == (match public_snapshot(layer_models(layers@), mode@) {
            Ok((snapshot, warning)) => (snapshot.mode, warning),
            Err(error) => (Mode::Enforce, Some(error)),
        }),
{
    match PolicySnapshot::public(layers, mode) {
        Ok((snapshot, warning)) => (snapshot.mode(), warning),
        Err(error) => (Mode::Enforce, Some(error)),
    }
}

/// Reads the public policy and decides for a host.
pub fn decide_public(layers: &[LayerFile], mode: &LayerFile, host: &PublicHost) -> (r: Result<
    (PublicDecision, Option<String>),
    String,
>)
    ensures
        match r {
            Ok((decision, warning)) => public_snapshot(layer_models(layers@), mode@) matches Ok(
                (snapshot, text),
            ) && decision == decision_for(snapshot.mode, host_granted(snapshot.public, host@))
                && optional_text(warning) == text,
            Err(e) => public_snapshot(layer_models(layers@), mode@) == Err::<
                (SnapshotModel, Option<Seq<char>>),
                Seq<char>,
            >(e@),
        },
{
    match PolicySnapshot::public(layers, mode) {
        Ok((snapshot, warning)) => Ok((snapshot.decide_public(host), warning)),
        Err(error) => Err(error),
    }
}

/// Reads the local policy and decides for an authority.
pub fn decide_local(layers: &[LayerFile; 3], authority: &LoopbackAuthority) -> (r: Result<
    bool,
    String,
>)
    ensures
        match r {
            Ok(allowed) => local_snapshot(layer_models(layers@)) matches Ok(snapshot) && allowed
                == snapshot.local.contains(authority@),
            Err(e) => local_snapshot(layer_models(layers@)) == Err::<SnapshotModel, Seq<char>>(e@),
        },
{
    match PolicySnapshot::local(layers) {
        Ok(snapshot) => Ok(snapshot.decide_local(authority)),
        Err(error) => Err(error),
    }
}

/// What one public layer grants, where it can be read.
pub open spec fn layer_entries(layer: LayerModel) -> Option<Set<EntryModel>> {
    match layer.contents {
        Some(contents) => domain_layer(text::lines(contents)),
        None => None,
    }
}

/// What one local layer grants, where it can be read.
pub open spec fn layer_authorities(layer: LayerModel) -> Option<Set<LoopbackModel>> {
    match layer.contents {
        Some(contents) => local_layer(text::lines(contents)),
        None => None,
    }
}

/// The layer can be read and grants the entry.
pub open spec fn layer_grants(layer: LayerModel, entry: EntryModel) -> bool {
    layer_entries(layer) matches Some(entries) && entries.contains(entry)
}

/// The layer can be read and grants the authority.
pub open spec fn local_layer_grants(layer: LayerModel, authority: LoopbackModel) -> bool {
    layer_authorities(layer) matches Some(entries) && entries.contains(authority)
}

proof fn lemma_domain_layers_from(layers: Seq<LayerModel>, i: int, acc: Set<EntryModel>)
    requires
        0 <= i <= layers.len(),
    ensures
        domain_layers_from(layers, i, acc) is Ok <==> (forall|j: int|
            i <= j < layers.len() ==> layer_entries(#[trigger] layers[j]) is Some),
        domain_layers_from(layers, i, acc) matches Ok(set) ==> forall|e: EntryModel| #[trigger]
            set.contains(e) <==> acc.contains(e) || exists|j: int|
                i <= j < layers.len() && layer_grants(#[trigger] layers[j], e),
    decreases layers.len() - i,
{
    if i < layers.len() {
        match layer_entries(layers[i]) {
            Some(entries) => {
                let next = acc.union(entries);
                lemma_domain_layers_from(layers, i + 1, next);
                let all = domain_layers_from(layers, i, acc);
                if all is Ok {
                    let set = all->Ok_0;
                    assert forall|e: EntryModel| #[trigger] set.contains(e) <==> acc.contains(e)
                        || exists|j: int|
                        i <= j < layers.len() && layer_grants(#[trigger] layers[j], e) by {
                        if entries.contains(e) {
                            assert(layer_grants(layers[i], e));
                        }
                        if set.contains(e) && !acc.contains(e) && !entries.contains(e) {
                            let j = choose|j: int|
                                i + 1 <= j < layers.len() && layer_grants(#[trigger] layers[j], e);
                            assert(layer_grants(layers[j], e));
                        }
                        if exists|j: int|
                            i <= j < layers.len() && layer_grants(#[trigger] layers[j], e) {
                            let j = choose|j: int|
                                i <= j < layers.len() && layer_grants(#[trigger] layers[j], e);
                            if j > i {
                                assert(i + 1 <= j < layers.len() && layer_grants(layers[j], e));
                            }
                        }
                    }
                }
            },
            None => {
                assert(layer_entries(layers[i]) is None);
            },
        }
    }
}

/// The public policy grants what any of its layers grants; it can be read only where there is a
/// layer and every layer can be read.
pub proof fn public_layers_are_joined(layers: Seq<LayerModel>)
    ensures
        domain_layers(layers) is Ok <==> layers.len() > 0 && forall|i: int|
            0 <= i < layers.len() ==> layer_entries(#[trigger] layers[i]) is Some,
        domain_layers(layers) matches Ok(set) ==> forall|e: EntryModel| #[trigger]
            set.contains(e) <==> exists|i: int|
                0 <= i < layers.len() && layer_grants(#[trigger] layers[i], e),
{
    lemma_domain_layers_from(layers, 0, Set::empty());
}

proof fn lemma_local_layers_from(layers: Seq<LayerModel>, i: int, acc: Set<LoopbackModel>)
    requires
        0 <= i <= layers.len(),
    ensures
        local_layers_from(layers, i, acc) is Ok <==> (forall|j: int|
            i <= j < layers.len() ==> layer_authorities(#[trigger] layers[j]) is Some),
        local_layers_from(layers, i, acc) matches Ok(set) ==> forall|e: LoopbackModel| #[trigger]
            set.contains(e) <==> acc.contains(e) || exists|j: int|
                i <= j < layers.len() && local_layer_grants(#[trigger] layers[j], e),
    decreases layers.len() - i,
{
    if i < layers.len() {
        match layer_authorities(layers[i]) {
            Some(entries) => {
                let next = acc.union(entries);
                lemma_local_layers_from(layers, i + 1, next);
                let all = local_layers_from(layers, i, acc);
                if all is Ok {
                    let set = all->Ok_0;
                    assert forall|e: LoopbackModel| #[trigger] set.contains(e) <==> acc.contains(e)
                        || exists|j: int|
                        i <= j < layers.len() && local_layer_grants(#[trigger] layers[j], e) by {
                        if entries.contains(e) {
                            assert(local_layer_grants(layers[i], e));
                        }
                        if set.contains(e) && !acc.contains(e) && !entries.contains(e) {
                            let j = choose|j: int|
                                i + 1 <= j < layers.len() && local_layer_grants(
                                    #[trigger] layers[j],
                                    e,
                                );
                            assert(local_layer_grants(layers[j], e));
                        }
                        if exists|j: int|
                            i <= j < layers.len() && local_layer_grants(#[trigger] layers[j], e) {
                            let j = choose|j: int|
                                i <= j < layers.len() && local_layer_grants(
                                    #[trigger] layers[j],
                                    e,
                                );
                            if j > i {
                                assert(i + 1 <= j < layers.len() && local_layer_grants(
                                    layers[j],
                                    e,
                                ));
                            }
                        }
                    }
                }
            },
            None => {
                assert(layer_authorities(layers[i]) is None);
            },
        }
    }
}

/// The local policy grants what any of its layers grants, and grants nothing where one of them
/// cannot be read.
pub proof fn local_layers_are_joined(layers: Seq<LayerModel>)
    ensures
        local_snapshot(layers) is Ok <==> forall|i: int|
            0 <= i < layers.len() ==> layer_authorities(#[trigger] layers[i]) is Some,
        local_snapshot(layers) matches Ok(snapshot) ==> forall|e: LoopbackModel| #[trigger]
            snapshot.local.contains(e) <==> exists|i: int|
                0 <= i < layers.len() && local_layer_grants(#[trigger] layers[i], e),
{
    lemma_local_layers_from(layers, 0, Set::empty());
}

/// A further layer takes no grant away: a host that is granted stays granted as long as every
/// layer can be read.
pub proof fn a_further_layer_takes_nothing_away(
    layers: Seq<LayerModel>,
    more: Seq<LayerModel>,
    host: HostModel,
)
    requires
        domain_layers(layers) is Ok,
        domain_layers(layers + more) is Ok,
        host_granted(domain_layers(layers)->Ok_0, host),
    ensures
        host_granted(domain_layers(layers + more)->Ok_0, host),
{
    let all = layers + more;
    let a = domain_layers(layers)->Ok_0;
    let b = domain_layers(all)->Ok_0;
    public_layers_are_joined(layers);
    public_layers_are_joined(all);
    assert forall|e: EntryModel| a.contains(e) implies #[trigger] b.contains(e) by {
        let i = choose|i: int| 0 <= i < layers.len() && layer_grants(#[trigger] layers[i], e);
        assert(all[i] == layers[i]);
        assert(layer_grants(all[i], e));
    }
    match host {
        HostModel::Dns(name) => {
            let e = choose|e: EntryModel| a.contains(e) && #[trigger] entry_covers(e, name);
            assert(b.contains(e) && entry_covers(e, name));
        },
        _ => {},
    }
}

/// Enforcing allows exactly what is granted; the other modes allow everything. What is not granted
/// is recorded unless the mode is open.
pub proof fn modes_decide_by_grant(mode: Mode, granted: bool)
    ensures
        decision_for(mode, granted).allowed <==> granted || mode != Mode::Enforce,
        decision_for(mode, granted).record_denial <==> !granted && mode != Mode::Open,
        decision_for(mode, granted).mode == mode,
{
}

/// A pattern covers its own name and every subdomain of it, and nothing else.
pub proof fn a_pattern_covers_its_subdomains(pattern: Seq<u8>, host: Seq<u8>)
    ensures
        pattern_covers(pattern, host) <==> host == pattern || exists|prefix: Seq<u8>|
            host == #[trigger] prefix.push('.' as u8) + pattern,
{
    if pattern_covers(pattern, host) && host != pattern {
        let prefix = host.subrange(0, host.len() - pattern.len() - 1);
        assert(host =~= prefix.push('.' as u8) + pattern);
    }
    if exists|prefix: Seq<u8>| host == #[trigger] prefix.push('.' as u8) + pattern {
        let prefix = choose|prefix: Seq<u8>| host == #[trigger] prefix.push('.' as u8) + pattern;
        assert(host.subrange(host.len() - pattern.len(), host.len() as int) =~= pattern);
    }
}

} // verus!
