//! Textual IPv4 and IPv6 addresses.
use crate::octets;
use crate::octets::{append, append_text, copy, hex, parse_decimal, part, render_decimal, split};
use vstd::prelude::*;
use vstd::utf8::*;

verus! {

/// A numeric address of either family.
#[derive(Debug, Clone, Copy, PartialEq, Eq, Hash)]
pub enum IpAddress {
    V4([u8; 4]),
    V6([u16; 8]),
}

/// The value of one dotted-quad octet: decimal digits without a leading zero, at most 255.
pub open spec fn octet_value(p: Seq<u8>) -> Option<u8> {
    if p.len() > 0 && octets::all_digits(p) && (p.len() > 1 ==> p[0] != '0' as u8) && octets::decimal(p) <= 255 {
        Some(octets::decimal(p) as u8)
    } else {
        None
    }
}

/// The octets of a dotted quad.
pub open spec fn ipv4_of(s: Seq<u8>) -> Option<Seq<u8>> {
    let p = octets::pieces(s, '.' as u8);
    if p.len() == 4 && octet_value(p[0]) is Some && octet_value(p[1]) is Some && octet_value(
        p[2],
    ) is Some && octet_value(p[3]) is Some {
        Some(
            seq![
                octet_value(p[0])->0,
                octet_value(p[1])->0,
                octet_value(p[2])->0,
                octet_value(p[3])->0,
            ],
        )
    } else {
        None
    }
}

/// The dotted-quad spelling of four octets.
pub open spec fn ipv4_text(o: Seq<u8>) -> Seq<u8> {
    octets::digits_of(o[0] as nat).push('.' as u8) + octets::digits_of(o[1] as nat).push('.' as u8) + octets::digits_of(
        o[2] as nat,
    ).push('.' as u8) + octets::digits_of(o[3] as nat)
}

/// The number that a string of hexadecimal digits denotes.
pub open spec fn hexadecimal(s: Seq<u8>) -> nat
    decreases s.len(),
{
    if s.len() == 0 {
        0
    } else {
        hexadecimal(s.drop_last()) * 16 + octets::hex_digit(s.last())
    }
}

pub open spec fn all_hex(s: Seq<u8>) -> bool {
    forall|i: int| 0 <= i < s.len() ==> octets::is_hex(#[trigger] s[i])
}

/// The value of one IPv6 group: one to four hexadecimal digits.
pub open spec fn group_value(p: Seq<u8>) -> Option<u16> {
    if 1 <= p.len() <= 4 && all_hex(p) {
        Some(hexadecimal(p) as u16)
    } else {
        None
    }
}

/// The two groups that an embedded dotted quad stands for.
pub open spec fn quad_groups(o: Seq<u8>) -> Seq<u16> {
    seq![(o[0] * 256 + o[1]) as u16, (o[2] * 256 + o[3]) as u16]
}

/// The groups that a list of pieces spells. Where `embedded` holds, the last piece may be a dotted
/// quad, which stands for two groups.
pub open spec fn groups_of(p: Seq<Seq<u8>>, embedded: bool) -> Option<Seq<u16>>
    decreases p.len(),
{
    if p.len() == 0 {
        Some(Seq::empty())
    } else if group_value(p[0]) is Some {
        match groups_of(p.drop_first(), embedded) {
            Some(rest) => Some(seq![group_value(p[0])->0] + rest),
            None => None,
        }
    } else if embedded && p.len() == 1 && ipv4_of(p[0]) is Some {
        Some(quad_groups(ipv4_of(p[0])->0))
    } else {
        None
    }
}

/// The groups of a colon-separated run, which may be empty.
pub open spec fn group_run(t: Seq<u8>, embedded: bool) -> Option<Seq<u16>> {
    if t.len() == 0 {
        Some(Seq::empty())
    } else {
        groups_of(octets::pieces(t, ':' as u8), embedded)
    }
}

/// The index of the first pair of adjacent colons at or after `from`, or the length.
pub open spec fn double_colon(t: Seq<u8>, from: int) -> int
    decreases t.len() - from,
{
    if from < 0 || from + 1 >= t.len() {
        t.len() as int
    } else if t[from] == ':' as u8 && t[from + 1] == ':' as u8 {
        from
    } else {
        double_colon(t, from + 1)
    }
}

/// `n` zero groups.
pub open spec fn zeros(n: nat) -> Seq<u16> {
    Seq::new(n, |i: int| 0u16)
}

/// The eight groups of an IPv6 address: eight groups written out, or fewer with one `::` that
/// stands for at least one zero group.
pub open spec fn ipv6_of(t: Seq<u8>) -> Option<Seq<u16>> {
    let at = double_colon(t, 0);
    if at < t.len() {
        match (
            group_run(t.subrange(0, at), false),
            group_run(t.subrange(at + 2, t.len() as int), true),
        ) {
            (Some(head), Some(tail)) => if head.len() + tail.len() <= 7 {
                Some(head + zeros((8 - head.len() - tail.len()) as nat) + tail)
            } else {
                None
            },
            _ => None,
        }
    } else {
        match group_run(t, true) {
            Some(groups) => if groups.len() == 8 {
                Some(groups)
            } else {
                None
            },
            None => None,
        }
    }
}

/// The IPv6 loopback address `::1`.
pub open spec fn is_ipv6_loopback(g: Seq<u16>) -> bool {
    g == zeros(7).push(1u16)
}

/// An address of `::ffff:0:0/96`, which carries an IPv4 address.
pub open spec fn is_ipv4_mapped(g: Seq<u16>) -> bool {
    g.len() == 8 && g[0] == 0 && g[1] == 0 && g[2] == 0 && g[3] == 0 && g[4] == 0 && g[5] == 0xffff
}

/// The IPv4 octets that the last two groups carry.
pub open spec fn mapped_octets(g: Seq<u16>) -> Seq<u8> {
    seq![(g[6] / 256) as u8, (g[6] % 256) as u8, (g[7] / 256) as u8, (g[7] % 256) as u8]
}

/// The lower-case hexadecimal digit for a value below sixteen.
pub open spec fn hex_char(n: nat) -> u8 {
    if n < 10 {
        (n + 48) as u8
    } else {
        (n + 87) as u8
    }
}

/// The lower-case hexadecimal digits of `n`, without leading zeros.
pub open spec fn hex_digits_of(n: nat) -> Seq<u8>
    decreases n,
{
    if n < 16 {
        seq![hex_char(n)]
    } else {
        hex_digits_of(n / 16).push(hex_char(n % 16))
    }
}

/// Groups in hexadecimal with a colon between neighbours.
pub open spec fn joined(g: Seq<u16>) -> Seq<u8>
    decreases g.len(),
{
    if g.len() == 0 {
        Seq::empty()
    } else if g.len() == 1 {
        hex_digits_of(g[0] as nat)
    } else {
        joined(g.drop_last()).push(':' as u8) + hex_digits_of(g.last() as nat)
    }
}

/// How many zero groups stand in a row from index `i` on.
pub open spec fn zero_run(g: Seq<u16>, i: int) -> nat
    decreases g.len() - i,
{
    if i < 0 || i >= g.len() || g[i] != 0 {
        0
    } else {
        1 + zero_run(g, i + 1)
    }
}

/// The start and length of the longest row of zero groups from index `i` on, the first of equals.
pub open spec fn longest_zeros(g: Seq<u16>, i: int) -> (int, nat)
    decreases g.len() - i,
{
    if i < 0 || i >= g.len() {
        (0, 0)
    } else {
        let rest = longest_zeros(g, i + 1);
        if zero_run(g, i) >= rest.1 && zero_run(g, i) > 0 {
            (i, zero_run(g, i))
        } else {
            rest
        }
    }
}

/// The canonical text of an IPv6 address: an IPv4-mapped address ends in a dotted quad; in any other
/// the first longest row of at least two zero groups is written `::`.
pub open spec fn ipv6_text(g: Seq<u16>) -> Seq<u8> {
    let (start, n) = longest_zeros(g, 0);
    if is_ipv4_mapped(g) {
        octets::octets("::ffff:"@) + ipv4_text(mapped_octets(g))
    } else if n > 1 {
        joined(g.subrange(0, start)) + octets::octets("::"@) + joined(
            g.subrange(start + n, g.len() as int),
        )
    } else {
        joined(g)
    }
}

/// An address as a sequence of octets or of groups.
pub enum IpModel {
    V4(Seq<u8>),
    V6(Seq<u16>),
}

/// The canonical text of an address.
pub open spec fn ip_text(a: IpModel) -> Seq<u8> {
    match a {
        IpModel::V4(o) => ipv4_text(o),
        IpModel::V6(g) => ipv6_text(g),
    }
}

impl View for IpAddress {
    type V = IpModel;

    open spec fn view(&self) -> IpModel {
        match self {
            IpAddress::V4(o) => IpModel::V4(o@),
            IpAddress::V6(g) => IpModel::V6(g@),
        }
    }
}

impl IpAddress {
    /// The canonical text of the address.
    pub fn text(&self) -> (r: Vec<u8>)
        ensures
            r@ == ip_text(self@),
    {
        match self {
            IpAddress::V4(o) => render_ipv4(o),
            IpAddress::V6(g) => render_ipv6(g),
        }
    }

    /// The two addresses are of one family and hold the same octets.
    pub fn same(&self, other: &IpAddress) -> (r: bool)
        ensures
            r == (*self == *other),
    {
        match (self, other) {
            (IpAddress::V4(a), IpAddress::V4(b)) => same_octets(a, b),
            (IpAddress::V6(a), IpAddress::V6(b)) => same_groups(a, b),
            _ => false,
        }
    }
}

pub fn same_octets(a: &[u8; 4], b: &[u8; 4]) -> (r: bool)
    ensures
        r == (*a == *b),
{
    if a[0] == b[0] && a[1] == b[1] && a[2] == b[2] && a[3] == b[3] {
        assert(*a =~= *b);
        true
    } else {
        false
    }
}

pub fn same_groups(a: &[u16; 8], b: &[u16; 8]) -> (r: bool)
    ensures
        r == (*a == *b),
{
    let mut i: usize = 0;
    while i < 8
        invariant
            i <= 8,
            forall|j: int| 0 <= j < i ==> a@[j] == b@[j],
        decreases 8 - i,
    {
        if a[i] != b[i] {
            return false;
        }
        i += 1;
    }
    assert(*a =~= *b);
    true
}

fn parse_octet(p: &[u8]) -> (r: Option<u8>)
    ensures
        r == octet_value(p@),
{
    if p.len() > 1 && p[0] == '0' as u8 {
        return None;
    }
    match parse_decimal(p, 255) {
        Some(value) => Some(value as u8),
        None => None,
    }
}

/// Reads a dotted quad.
pub fn parse_ipv4(s: &[u8]) -> (r: Option<[u8; 4]>)
    ensures
        match r {
            Some(o) => ipv4_of(s@) == Some(o@),
            None => ipv4_of(s@) is None,
        },
{
    let p = split(s, '.' as u8);
    proof {
        assert(octets::views(p@).len() == p@.len());
        assert forall|i: int| 0 <= i < p@.len() implies #[trigger] octets::pieces(s@, '.' as u8)[i]
            == p@[i]@ by {
            assert(octets::views(p@)[i] == p@[i]@);
        }
    }
    if p.len() != 4 {
        return None;
    }
    match (
        parse_octet(&p[0]),
        parse_octet(&p[1]),
        parse_octet(&p[2]),
        parse_octet(&p[3]),
    ) {
        (Some(a), Some(b), Some(c), Some(d)) => {
            let out: [u8; 4] = [a, b, c, d];
            assert(out@ =~= ipv4_of(s@)->0);
            Some(out)
        },
        _ => None,
    }
}

/// Writes four octets as a dotted quad.
pub fn render_ipv4(o: &[u8; 4]) -> (r: Vec<u8>)
    ensures
        r@ == ipv4_text(o@),
{
    let mut out = render_decimal(o[0] as u64);
    out.push('.' as u8);
    append(&mut out, &render_decimal(o[1] as u64));
    out.push('.' as u8);
    append(&mut out, &render_decimal(o[2] as u64));
    out.push('.' as u8);
    append(&mut out, &render_decimal(o[3] as u64));
    assert(out@ =~= ipv4_text(o@));
    out
}

fn parse_group(p: &[u8]) -> (r: Option<u16>)
    ensures
        r == group_value(p@),
{
    if p.len() < 1 || p.len() > 4 {
        return None;
    }
    let mut value: u32 = 0;
    let mut i: usize = 0;
    while i < p.len()
        invariant
            i <= p.len() <= 4,
            forall|j: int| 0 <= j < i ==> octets::is_hex(#[trigger] p@[j]),
            value == hexadecimal(p@.subrange(0, i as int)),
            i == 0 ==> value == 0,
            i <= 1 ==> value < 16,
            i <= 2 ==> value < 0x100,
            i <= 3 ==> value < 0x1000,
            value < 0x10000,
        decreases p.len() - i,
    {
        let b: u8 = p[i];
        if !hex(b) {
            return None;
        }
        let d: u32 = hex_digit_value(b);
        assert(p@.subrange(0, i + 1).drop_last() =~= p@.subrange(0, i as int));
        value = value * 16 + d;
        i += 1;
    }
    assert(p@.subrange(0, i as int) =~= p@);
    Some(value as u16)
}

pub fn hex_digit_value(b: u8) -> (r: u32)
    requires
        octets::is_hex(b),
    ensures
        r == octets::hex_digit(b),
        r < 16,
{
    if b <= '9' as u8 {
        (b - '0' as u8) as u32
    } else if b >= 'a' as u8 {
        (b - 'a' as u8 + 10) as u32
    } else {
        (b - 'A' as u8 + 10) as u32
    }
}

fn parse_run(t: &[u8], embedded: bool) -> (r: Option<Vec<u16>>)
    ensures
        match r {
            Some(g) => group_run(t@, embedded) == Some(g@),
            None => group_run(t@, embedded) is None,
        },
{
    let mut out: Vec<u16> = Vec::new();
    if t.len() == 0 {
        assert(out@ =~= Seq::empty());
        return Some(out);
    }
    let p = split(t, ':' as u8);
    let ghost all = octets::pieces(t@, ':' as u8);
    let mut i: usize = 0;
    proof {
        assert(octets::views(p@).len() == p@.len());
        assert(all.subrange(0, all.len() as int) =~= all);
    }
    while i < p.len()
        invariant
            i <= p.len(),
            t@.len() > 0,
            all == octets::pieces(t@, ':' as u8),
            octets::views(p@) == all,
            p@.len() == all.len(),
            match groups_of(all.subrange(i as int, all.len() as int), embedded) {
                Some(rest) => groups_of(all, embedded) == Some(out@ + rest),
                None => groups_of(all, embedded) is None,
            },
        decreases p.len() - i,
    {
        let ghost here = all.subrange(i as int, all.len() as int);
        proof {
            assert(octets::views(p@)[i as int] == p@[i as int]@);
            assert(here[0] == p@[i as int]@);
            assert(here.drop_first() =~= all.subrange(i + 1, all.len() as int));
        }
        match parse_group(&p[i]) {
            Some(g) => {
                let ghost was = out@;
                out.push(g);
                proof {
                    match groups_of(here.drop_first(), embedded) {
                        Some(rest) => {
                            assert(was + (seq![g] + rest) =~= out@ + rest);
                        },
                        None => {},
                    }
                }
            },
            None => {
                if embedded && i + 1 == p.len() {
                    match parse_ipv4(&p[i]) {
                        Some(o) => {
                            let ghost was = out@;
                            out.push(o[0] as u16 * 256 + o[1] as u16);
                            out.push(o[2] as u16 * 256 + o[3] as u16);
                            assert(out@ =~= was + quad_groups(o@));
                            return Some(out);
                        },
                        None => return None,
                    }
                }
                return None;
            },
        }
        i += 1;
    }
    proof {
        assert(all.subrange(i as int, all.len() as int) =~= Seq::empty());
        assert(out@ + Seq::<u16>::empty() =~= out@);
    }
    Some(out)
}

fn find_double_colon(t: &[u8]) -> (r: usize)
    ensures
        r == double_colon(t@, 0),
        r <= t@.len(),
        r < t@.len() ==> r + 2 <= t@.len(),
{
    let mut i: usize = 0;
    while t.len() > 0 && i < t.len() - 1
        invariant
            i <= t.len(),
            double_colon(t@, 0) == double_colon(t@, i as int),
        decreases t.len() - i,
    {
        if t[i] == ':' as u8 && t[i + 1] == ':' as u8 {
            return i;
        }
        i += 1;
    }
    t.len()
}

fn to_array(g: &Vec<u16>) -> (r: [u16; 8])
    requires
        g@.len() == 8,
    ensures
        r@ == g@,
{
    let out: [u16; 8] = [g[0], g[1], g[2], g[3], g[4], g[5], g[6], g[7]];
    assert(out@ =~= g@);
    out
}

/// Reads an IPv6 address, without brackets or a scope.
pub fn parse_ipv6(t: &[u8]) -> (r: Option<[u16; 8]>)
    ensures
        match r {
            Some(g) => ipv6_of(t@) == Some(g@),
            None => ipv6_of(t@) is None,
        },
{
    let at: usize = find_double_colon(t);
    if at < t.len() {
        match (parse_run(part(t, 0, at), false), parse_run(part(t, at + 2, t.len()), true)) {
            (Some(head), Some(tail)) => {
                if head.len() > 7 || tail.len() > 7 || head.len() + tail.len() > 7 {
                    return None;
                }
                let mut out: Vec<u16> = head;
                let gap: usize = 8 - out.len() - tail.len();
                let ghost first = out@;
                let mut k: usize = 0;
                while k < gap
                    invariant
                        k <= gap,
                        out@ == first + zeros(k as nat),
                    decreases gap - k,
                {
                    out.push(0);
                    k += 1;
                    assert(first + zeros(k as nat) =~= (first + zeros((k - 1) as nat)).push(0));
                }
                let ghost filled = out@;
                let mut j: usize = 0;
                while j < tail.len()
                    invariant
                        j <= tail.len(),
                        out@ == filled + tail@.take(j as int),
                    decreases tail.len() - j,
                {
                    out.push(tail[j]);
                    j += 1;
                    assert(filled + tail@.take(j as int) =~= (filled + tail@.take(j - 1)).push(
                        tail@[j - 1],
                    ));
                }
                assert(tail@.take(j as int) =~= tail@);
                Some(to_array(&out))
            },
            _ => None,
        }
    } else {
        match parse_run(t, true) {
            Some(g) => if g.len() == 8 {
                Some(to_array(&g))
            } else {
                None
            },
            None => None,
        }
    }
}

pub fn ipv6_loopback(g: &[u16; 8]) -> (r: bool)
    ensures
        r == is_ipv6_loopback(g@),
{
    if g[0] == 0 && g[1] == 0 && g[2] == 0 && g[3] == 0 && g[4] == 0 && g[5] == 0 && g[6] == 0
        && g[7] == 1 {
        assert(g@ =~= zeros(7).push(1u16));
        true
    } else {
        proof {
            if g@ == zeros(7).push(1u16) {
                let z = zeros(7).push(1u16);
                assert(z[0] == 0 && z[1] == 0 && z[2] == 0 && z[3] == 0 && z[4] == 0 && z[5] == 0
                    && z[6] == 0 && z[7] == 1);
                assert(false);
            }
        }
        false
    }
}

pub fn ipv4_mapped(g: &[u16; 8]) -> (r: Option<[u8; 4]>)
    ensures
        match r {
            Some(o) => is_ipv4_mapped(g@) && o@ == mapped_octets(g@),
            None => !is_ipv4_mapped(g@),
        },
{
    if g[0] == 0 && g[1] == 0 && g[2] == 0 && g[3] == 0 && g[4] == 0 && g[5] == 0xffff {
        let out: [u8; 4] = [
            (g[6] / 256) as u8,
            (g[6] % 256) as u8,
            (g[7] / 256) as u8,
            (g[7] % 256) as u8,
        ];
        assert(out@ =~= mapped_octets(g@));
        Some(out)
    } else {
        None
    }
}

/// The lower-case hexadecimal digits of `n`.
pub fn render_hex(n: u64) -> (r: Vec<u8>)
    ensures
        r@ == hex_digits_of(n as nat),
    decreases n,
{
    let d: u64 = n % 16;
    let c: u8 = if d < 10 {
        (d + 48) as u8
    } else {
        (d + 87) as u8
    };
    if n < 16 {
        let mut out: Vec<u8> = Vec::new();
        out.push(c);
        assert(out@ =~= seq![hex_char(n as nat)]);
        out
    } else {
        let mut out = render_hex(n / 16);
        out.push(c);
        out
    }
}

/// The hexadecimal digits of a number are digits and denote it.
pub proof fn lemma_hex_digits_of(n: nat)
    ensures
        all_hex(hex_digits_of(n)),
        hex_digits_of(n).len() >= 1,
        hexadecimal(hex_digits_of(n)) == n,
    decreases n,
{
    let s = hex_digits_of(n);
    if n >= 16 {
        lemma_hex_digits_of(n / 16);
        assert(s.drop_last() =~= hex_digits_of(n / 16));
        assert(octets::hex_digit(s.last()) == n % 16);
    } else {
        assert(s.drop_last() =~= Seq::<u8>::empty());
        assert(hexadecimal(s.drop_last()) == 0);
        assert(octets::hex_digit(s.last()) == n);
    }
}

fn render_joined(g: &[u16], from: usize, to: usize) -> (r: Vec<u8>)
    requires
        from <= to <= g@.len(),
    ensures
        r@ == joined(g@.subrange(from as int, to as int)),
{
    let mut out: Vec<u8> = Vec::new();
    let mut i: usize = from;
    assert(g@.subrange(from as int, from as int) =~= Seq::empty());
    assert(out@ =~= joined(g@.subrange(from as int, from as int)));
    while i < to
        invariant
            from <= i <= to <= g@.len(),
            out@ == joined(g@.subrange(from as int, i as int)),
        decreases to - i,
    {
        let ghost next = g@.subrange(from as int, i + 1);
        assert(next.drop_last() =~= g@.subrange(from as int, i as int));
        if i > from {
            out.push(':' as u8);
        }
        append(&mut out, &render_hex(g[i] as u64));
        proof {
            if i == from {
                assert(out@ =~= hex_digits_of(g@[i as int] as nat));
            }
        }
        i += 1;
    }
    out
}

fn longest_zero_row(g: &[u16; 8]) -> (r: (usize, usize))
    ensures
        (r.0 as int, r.1 as nat) == longest_zeros(g@, 0),
        r.0 + r.1 <= 8,
{
    let mut best: usize = 0;
    let mut best_len: usize = 0;
    let mut run: usize = 0;
    let mut i: usize = 8;
    while i > 0
        invariant
            i <= 8,
            run == zero_run(g@, i as int),
            i + run <= 8,
            (best as int, best_len as nat) == longest_zeros(g@, i as int),
            best + best_len <= 8,
        decreases i,
    {
        i -= 1;
        if g[i] == 0 {
            run += 1;
        } else {
            run = 0;
        }
        if run > 0 && run >= best_len {
            best = i;
            best_len = run;
        }
    }
    (best, best_len)
}

/// Writes an IPv6 address canonically.
pub fn render_ipv6(g: &[u16; 8]) -> (r: Vec<u8>)
    ensures
        r@ == ipv6_text(g@),
{
    match ipv4_mapped(g) {
        Some(o) => {
            let mut out: Vec<u8> = copy("::ffff:".as_bytes());
            append(&mut out, &render_ipv4(&o));
            out
        },
        None => {
            let (start, n) = longest_zero_row(g);
            if n > 1 {
                let mut out = render_joined(g.as_slice(), 0, start);
                append_text(&mut out, "::");
                append(&mut out, &render_joined(g.as_slice(), start + n, 8));
                out
            } else {
                assert(g@.subrange(0, 8) =~= g@);
                render_joined(g.as_slice(), 0, 8)
            }
        },
    }
}

/// A piece without the separator, then the separator, then the rest: the pieces are that piece and
/// the pieces of the rest.
pub proof fn lemma_pieces_split(a: Seq<u8>, sep: u8, rest: Seq<u8>)
    requires
        !a.contains(sep),
    ensures
        octets::pieces(a.push(sep) + rest, sep) == seq![a] + octets::pieces(rest, sep),
{
    let s = a.push(sep) + rest;
    assert forall|i: int| 0 <= i < a.len() implies s[i] != sep by {
        assert(s[i] == a[i]);
        assert(a.contains(a[i]));
    }
    assert(s[a.len() as int] == sep);
    octets::lemma_first_at_is(s, sep, 0, a.len() as int);
    assert(s.subrange(0, a.len() as int) =~= a);
    assert(s.subrange(a.len() as int + 1, s.len() as int) =~= rest);
}

pub proof fn lemma_pieces_single(a: Seq<u8>, sep: u8)
    requires
        !a.contains(sep),
    ensures
        octets::pieces(a, sep) == seq![a],
{
    assert forall|i: int| 0 <= i < a.len() implies a[i] != sep by {
        assert(a.contains(a[i]));
    }
    octets::lemma_first_at_is(a, sep, 0, a.len() as int);
}

proof fn lemma_octet_text(b: u8)
    ensures
        octet_value(octets::digits_of(b as nat)) == Some(b),
        !octets::digits_of(b as nat).contains('.' as u8),
        !octets::digits_of(b as nat).contains(':' as u8),
{
    octets::lemma_digits_of(b as nat);
}

pub proof fn lemma_ipv4_text_ascii(o: Seq<u8>)
    ensures
        octets::is_ascii(ipv4_text(o)),
{
    octets::lemma_digits_of(o[0] as nat);
    octets::lemma_digits_of(o[1] as nat);
    octets::lemma_digits_of(o[2] as nat);
    octets::lemma_digits_of(o[3] as nat);
}

/// Reading the dotted quad that was written for four octets gives the octets back.
pub proof fn ipv4_text_reads_back(o: Seq<u8>)
    requires
        o.len() == 4,
    ensures
        ipv4_of(ipv4_text(o)) == Some(o),
{
    let dot = '.' as u8;
    let d0 = octets::digits_of(o[0] as nat);
    let d1 = octets::digits_of(o[1] as nat);
    let d2 = octets::digits_of(o[2] as nat);
    let d3 = octets::digits_of(o[3] as nat);
    lemma_octet_text(o[0]);
    lemma_octet_text(o[1]);
    lemma_octet_text(o[2]);
    lemma_octet_text(o[3]);
    let t2 = d2.push(dot) + d3;
    let t1 = d1.push(dot) + t2;
    let t0 = d0.push(dot) + t1;
    assert(ipv4_text(o) =~= t0);
    lemma_pieces_single(d3, dot);
    lemma_pieces_split(d2, dot, d3);
    lemma_pieces_split(d1, dot, t2);
    lemma_pieces_split(d0, dot, t1);
    let p = octets::pieces(t0, dot);
    assert(p =~= seq![d0, d1, d2, d3]);
    assert(ipv4_of(t0)->0 =~= o);
}

/// The rest of a text behind the last separator is its last piece.
proof fn lemma_pieces_back(a: Seq<u8>, sep: u8, b: Seq<u8>)
    requires
        !b.contains(sep),
    ensures
        octets::pieces(a.push(sep) + b, sep) == octets::pieces(a, sep).push(b),
    decreases a.len(),
{
    let s = a.push(sep) + b;
    let at = octets::first_at(a, sep, 0);
    octets::lemma_first_at(a, sep, 0);
    if at < a.len() {
        let head = a.subrange(0, at);
        let rest = a.subrange(at + 1, a.len() as int);
        assert forall|i: int| 0 <= i < at implies s[i] != sep by {
            assert(s[i] == a[i]);
        }
        octets::lemma_first_at_is(s, sep, 0, at);
        assert(s.subrange(0, at) =~= head);
        assert(s.subrange(at + 1, s.len() as int) =~= rest.push(sep) + b);
        lemma_pieces_back(rest, sep, b);
        assert(octets::pieces(s, sep) =~= octets::pieces(a, sep).push(b));
    } else {
        assert(!a.contains(sep));
        lemma_pieces_split(a, sep, b);
        lemma_pieces_single(b, sep);
        lemma_pieces_single(a, sep);
        assert(octets::pieces(s, sep) =~= octets::pieces(a, sep).push(b));
    }
}

/// The digits of one group are read back, and hold no colon.
proof fn lemma_group_text(x: u16)
    ensures
        group_value(hex_digits_of(x as nat)) == Some(x),
        hex_digits_of(x as nat).len() >= 1,
        !hex_digits_of(x as nat).contains(':' as u8),
{
    let t = hex_digits_of(x as nat);
    lemma_hex_digits_of(x as nat);
    reveal_with_fuel(hex_digits_of, 5);
    assert(t.len() <= 4);
    assert forall|i: int| 0 <= i < t.len() implies t[i] != ':' as u8 by {
        assert(octets::is_hex(t[i]));
    }
}

pub open spec fn group_texts(g: Seq<u16>) -> Seq<Seq<u8>> {
    Seq::new(g.len(), |i: int| hex_digits_of(g[i] as nat))
}

proof fn lemma_joined_pieces(g: Seq<u16>)
    requires
        g.len() >= 1,
    ensures
        octets::pieces(joined(g), ':' as u8) == group_texts(g),
    decreases g.len(),
{
    lemma_group_text(g.last());
    if g.len() == 1 {
        lemma_pieces_single(joined(g), ':' as u8);
        assert(group_texts(g) =~= seq![joined(g)]);
    } else {
        lemma_joined_pieces(g.drop_last());
        lemma_pieces_back(joined(g.drop_last()), ':' as u8, hex_digits_of(g.last() as nat));
        assert(group_texts(g) =~= group_texts(g.drop_last()).push(hex_digits_of(g.last() as nat)));
    }
}

proof fn lemma_group_texts_read(g: Seq<u16>, embedded: bool)
    ensures
        groups_of(group_texts(g), embedded) == Some(g),
    decreases g.len(),
{
    if g.len() > 0 {
        lemma_group_text(g[0]);
        lemma_group_texts_read(g.drop_first(), embedded);
        assert(group_texts(g).drop_first() =~= group_texts(g.drop_first()));
        assert(seq![g[0]] + g.drop_first() =~= g);
    } else {
        assert(g =~= Seq::empty());
    }
}

proof fn lemma_joined_run(g: Seq<u16>, embedded: bool)
    ensures
        group_run(joined(g), embedded) == Some(g),
{
    if g.len() == 0 {
        assert(g =~= Seq::empty());
    } else {
        lemma_joined_shape(g);
        lemma_joined_pieces(g);
        lemma_group_texts_read(g, embedded);
    }
}

/// No two colons are neighbours.
pub open spec fn single_colons(s: Seq<u8>) -> bool {
    forall|i: int|
        0 <= i < s.len() - 1 ==> !(#[trigger] s[i] == ':' as u8 && s[i + 1] == ':' as u8)
}

proof fn lemma_joined_shape(g: Seq<u16>)
    requires
        g.len() >= 1,
    ensures
        joined(g).len() >= 1,
        joined(g)[0] != ':' as u8,
        joined(g).last() != ':' as u8,
        single_colons(joined(g)),
    decreases g.len(),
{
    let t = hex_digits_of(g.last() as nat);
    lemma_group_text(g.last());
    assert forall|i: int| 0 <= i < t.len() implies t[i] != ':' as u8 by {
        assert(t.contains(t[i]));
    }
    if g.len() > 1 {
        let a = joined(g.drop_last());
        lemma_joined_shape(g.drop_last());
        let s = a.push(':' as u8) + t;
        assert forall|i: int| 0 <= i < s.len() - 1 implies !(#[trigger] s[i] == ':' as u8 && s[i + 1]
            == ':' as u8) by {
            if i < a.len() - 1 {
                assert(s[i] == a[i] && s[i + 1] == a[i + 1]);
            } else if i == a.len() - 1 {
                assert(s[i] == a.last());
            } else if i == a.len() {
                assert(s[i + 1] == t[0]);
            } else {
                assert(s[i] == t[i - a.len() - 1]);
            }
        }
    }
}

proof fn lemma_double_colon_is(t: Seq<u8>, from: int, at: int)
    requires
        0 <= from <= at,
        forall|i: int| from <= i < at ==> !(#[trigger] t[i] == ':' as u8 && t[i + 1] == ':' as u8),
        (at + 1 < t.len() && t[at] == ':' as u8 && t[at + 1] == ':' as u8) || at == t.len(),
    ensures
        double_colon(t, from) == at,
    decreases at - from,
{
    if from < at {
        if from + 1 < t.len() {
            assert(!(t[from] == ':' as u8 && t[from + 1] == ':' as u8));
            lemma_double_colon_is(t, from + 1, at);
        }
    }
}

proof fn lemma_zero_run(g: Seq<u16>, i: int)
    requires
        0 <= i <= g.len(),
    ensures
        i + zero_run(g, i) <= g.len(),
        forall|j: int| i <= j < i + zero_run(g, i) ==> g[j] == 0,
    decreases g.len() - i,
{
    if i < g.len() && g[i] == 0 {
        lemma_zero_run(g, i + 1);
    }
}

proof fn lemma_longest_zeros(g: Seq<u16>, i: int)
    requires
        0 <= i <= g.len(),
    ensures
        ({
            let (start, n) = longest_zeros(g, i);
            &&& 0 <= start
            &&& start + n <= g.len()
            &&& forall|j: int| start <= j < start + n ==> g[j] == 0
        }),
    decreases g.len() - i,
{
    if i < g.len() {
        lemma_longest_zeros(g, i + 1);
        lemma_zero_run(g, i);
    }
}

/// Reading the canonical text of an IPv6 address gives the address back.
pub proof fn ipv6_text_reads_back(g: Seq<u16>)
    requires
        g.len() == 8,
    ensures
        ipv6_of(ipv6_text(g)) == Some(g),
{
    let (start, n) = longest_zeros(g, 0);
    let t = ipv6_text(g);
    lemma_longest_zeros(g, 0);
    reveal_strlit("::");
    is_ascii_chars_encode_utf8("::"@);
    if is_ipv4_mapped(g) {
        lemma_mapped_reads_back(g);
    } else if n > 1 {
        let a = g.subrange(0, start);
        let b = g.subrange(start + n, 8);
        let head = joined(a);
        let tail = joined(b);
        if a.len() > 0 {
            lemma_joined_shape(a);
        }
        assert forall|i: int| 0 <= i < head.len() implies !(#[trigger] t[i] == ':' as u8 && t[i + 1]
            == ':' as u8) by {
            assert(t[i] == head[i]);
            if i + 1 < head.len() {
                assert(t[i + 1] == head[i + 1]);
            } else {
                assert(head[i] == head.last());
            }
        }
        assert(t[head.len() as int] == ':' as u8);
        assert(t[head.len() as int + 1] == ':' as u8);
        lemma_double_colon_is(t, 0, head.len() as int);
        assert(t.subrange(0, head.len() as int) =~= head);
        assert(t.subrange(head.len() as int + 2, t.len() as int) =~= tail);
        lemma_joined_run(a, false);
        lemma_joined_run(b, true);
        assert(a + zeros(n) + b =~= g);
    } else {
        lemma_joined_shape(g);
        assert forall|i: int| 0 <= i < t.len() implies !(#[trigger] t[i] == ':' as u8 && t[i + 1]
            == ':' as u8) by {
            if i == t.len() - 1 {
                assert(t[i] == t.last());
            }
        }
        lemma_double_colon_is(t, 0, t.len() as int);
        lemma_joined_run(g, true);
    }
}

/// A double colon stands for the zero groups that are missing, at least one, wherever it stands, and
/// an address without one has all eight groups.
pub proof fn a_double_colon_stands_for_zeros(head: Seq<u16>, tail: Seq<u16>)
    ensures
        ipv6_of(joined(head) + seq![':' as u8, ':' as u8] + joined(tail)) == (if head.len()
            + tail.len() <= 7 {
            Some(head + zeros((8 - head.len() - tail.len()) as nat) + tail)
        } else {
            None
        }),
        head.len() > 0 ==> ipv6_of(joined(head)) == (if head.len() == 8 {
            Some(head)
        } else {
            None
        }),
{
    let a = joined(head);
    let b = joined(tail);
    let t = a + seq![':' as u8, ':' as u8] + b;
    if head.len() > 0 {
        lemma_joined_shape(head);
        assert forall|i: int| 0 <= i < a.len() implies !(#[trigger] a[i] == ':' as u8 && a[i + 1]
            == ':' as u8) by {
            if i == a.len() - 1 {
                assert(a[i] == a.last());
            }
        }
        lemma_double_colon_is(a, 0, a.len() as int);
        lemma_joined_run(head, true);
    }
    assert forall|i: int| 0 <= i < a.len() implies !(#[trigger] t[i] == ':' as u8 && t[i + 1]
        == ':' as u8) by {
        assert(t[i] == a[i]);
        if i + 1 < a.len() {
            assert(t[i + 1] == a[i + 1]);
        } else {
            assert(a[i] == a.last());
        }
    }
    assert(t[a.len() as int] == ':' as u8 && t[a.len() as int + 1] == ':' as u8);
    lemma_double_colon_is(t, 0, a.len() as int);
    assert(t.subrange(0, a.len() as int) =~= a);
    assert(t.subrange(a.len() as int + 2, t.len() as int) =~= b);
    lemma_joined_run(head, false);
    lemma_joined_run(tail, true);
}

/// Every row of zero groups from index `i` on.
proof fn lemma_longest_of(g: Seq<u16>, i: int, at: int, k: nat)
    requires
        0 <= i <= at,
        k > 0,
        at + k <= g.len(),
        forall|j: int| at <= j < at + k ==> g[j] == 0,
    ensures
        k <= longest_zeros(g, i).1,
        k == longest_zeros(g, i).1 ==> longest_zeros(g, i).0 <= at,
    decreases g.len() - i,
{
    lemma_row(g, at, k);
    if i < at {
        lemma_longest_of(g, i + 1, at, k);
    } else {
        assert(i == at);
    }
}

proof fn lemma_row(g: Seq<u16>, at: int, k: nat)
    requires
        0 <= at,
        at + k <= g.len(),
        forall|j: int| at <= j < at + k ==> g[j] == 0,
    ensures
        zero_run(g, at) >= k,
    decreases k,
{
    if k > 0 {
        assert(g[at] == 0);
        lemma_row(g, at + 1, (k - 1) as nat);
    }
}

/// The canonical text of an address cuts its longest row of zero groups, the first of equals, where
/// that holds more than one. Here the row begins at `at` and has `k` groups.
pub proof fn the_longest_row_of_zeros_is_cut(g: Seq<u16>, at: int, k: nat)
    requires
        g.len() == 8,
        !is_ipv4_mapped(g),
        k > 1,
        0 <= at,
        at + k <= 8,
        forall|j: int| at <= j < at + k ==> g[j] == 0,
        forall|other: int, n: nat|
            0 <= other && other + n <= 8 && n > 0 && (forall|j: int|
                other <= j < other + n ==> #[trigger] g[j] == 0) ==> #[trigger] shorter(other, n, at, k),
    ensures
        ipv6_text(g) == joined(g.subrange(0, at)) + seq![':' as u8, ':' as u8] + joined(
            g.subrange(at + k, 8),
        ),
{
    reveal_strlit("::");
    is_ascii_chars_encode_utf8("::"@);
    assert(octets::octets("::"@) =~= seq![':' as u8, ':' as u8]);
    let (start, n) = longest_zeros(g, 0);
    lemma_longest_zeros(g, 0);
    lemma_longest_of(g, 0, at, k);
    assert(shorter(start, n, at, k));
}

/// The one row is shorter than the other, or as long and not before it.
pub open spec fn shorter(start: int, n: nat, at: int, k: nat) -> bool {
    n < k || (n == k && start >= at)
}

/// An address without two zero groups in a row is written with all its groups.
pub proof fn without_a_row_of_zeros_nothing_is_cut(g: Seq<u16>)
    requires
        g.len() == 8,
        !is_ipv4_mapped(g),
        forall|j: int| 0 <= j < 7 ==> !(#[trigger] g[j] == 0 && g[j + 1] == 0),
    ensures
        ipv6_text(g) == joined(g),
{
    let (start, n) = longest_zeros(g, 0);
    lemma_longest_zeros(g, 0);
    if n > 1 {
        assert(g[start] == 0 && g[start + 1] == 0);
    }
}

/// A group is the number that its digits spell, one to four of them in either case.
pub proof fn a_group_is_its_number(p: Seq<u8>)
    ensures
        all_hex(p) && 1 <= p.len() <= 4 ==> group_value(p) == Some(hexadecimal(p) as u16),
        group_value(p) is Some ==> all_hex(p) && 1 <= p.len() <= 4,
{
}

proof fn lemma_mapped_reads_back(g: Seq<u16>)
    requires
        g.len() == 8,
        is_ipv4_mapped(g),
    ensures
        ipv6_of(ipv6_text(g)) == Some(g),
{
    let sep = ':' as u8;
    let o = mapped_octets(g);
    let quad = ipv4_text(o);
    let t = ipv6_text(g);
    reveal_strlit("::ffff:");
    is_ascii_chars_encode_utf8("::ffff:"@);
    let f = 'f' as u8;
    let ones = seq![f, f, f, f];
    let rest = ones.push(sep) + quad;
    assert(t.subrange(2, t.len() as int) =~= rest);
    assert(t.subrange(0, 0) =~= Seq::empty());
    lemma_double_colon_is(t, 0, 0);
    ipv4_text_reads_back(o);
    lemma_octet_text(o[0]);
    lemma_octet_text(o[1]);
    lemma_octet_text(o[2]);
    lemma_octet_text(o[3]);
    lemma_quad_plain(o);
    lemma_pieces_split(ones, sep, quad);
    lemma_pieces_single(quad, sep);
    let p = octets::pieces(rest, sep);
    assert(p =~= seq![ones, quad]);
    assert(hexadecimal(ones) == 0xffff) by {
        reveal_with_fuel(hexadecimal, 5);
        assert(ones.drop_last().drop_last().drop_last().drop_last() =~= Seq::empty());
    }
    assert(group_value(ones) == Some(0xffffu16));
    assert(p.drop_first() =~= seq![quad]);
    assert(group_value(quad) is None);
    let pair = quad_groups(o);
    assert(groups_of(p.drop_first(), true) == Some(pair));
    assert(groups_of(p, true) == Some(seq![0xffffu16] + pair));
    let tail = seq![0xffffu16] + pair;
    assert(group_run(rest, true) == Some(tail));
    assert(pair[0] == g[6] && pair[1] == g[7]);
    assert(Seq::<u16>::empty() + zeros(5) + tail =~= g);
}

/// A dotted quad holds no colon, and a dot is no hexadecimal digit.
proof fn lemma_quad_plain(o: Seq<u8>)
    ensures
        !ipv4_text(o).contains(':' as u8),
        !all_hex(ipv4_text(o)),
{
    let t = ipv4_text(o);
    let d0 = octets::digits_of(o[0] as nat);
    octets::lemma_digits_of(o[0] as nat);
    octets::lemma_digits_of(o[1] as nat);
    octets::lemma_digits_of(o[2] as nat);
    octets::lemma_digits_of(o[3] as nat);
    assert forall|i: int| 0 <= i < t.len() implies t[i] != ':' as u8 by {}
    assert(t[d0.len() as int] == '.' as u8);
    assert(!octets::is_hex(t[d0.len() as int]));
}

/// An octet that occurs in the text of an address.
pub open spec fn is_address_octet(b: u8) -> bool {
    octets::is_hex(b) || b == ':' as u8 || b == '.' as u8
}

proof fn lemma_joined_plain(g: Seq<u16>)
    ensures
        forall|i: int| 0 <= i < joined(g).len() ==> is_address_octet(#[trigger] joined(g)[i]),
    decreases g.len(),
{
    if g.len() > 0 {
        let t = hex_digits_of(g.last() as nat);
        lemma_hex_digits_of(g.last() as nat);
        assert forall|i: int| 0 <= i < t.len() implies is_address_octet(#[trigger] t[i]) by {
            assert(octets::is_hex(t[i]));
        }
        lemma_joined_plain(g.drop_last());
        let a = joined(g.drop_last());
        let s = joined(g);
        if g.len() > 1 {
            assert forall|i: int| 0 <= i < s.len() implies is_address_octet(#[trigger] s[i]) by {
                if i < a.len() {
                    assert(s[i] == a[i]);
                } else if i > a.len() {
                    assert(s[i] == t[i - a.len() - 1]);
                }
            }
        }
    }
}

/// A dotted quad holds digits and dots only.
proof fn lemma_quad_text_plain(o: Seq<u8>)
    ensures
        ipv4_text(o).len() > 0,
        forall|i: int|
            0 <= i < ipv4_text(o).len() ==> octets::is_digit(#[trigger] ipv4_text(o)[i])
                || ipv4_text(o)[i] == '.' as u8,
{
    let t = ipv4_text(o);
    octets::lemma_digits_of(o[0] as nat);
    octets::lemma_digits_of(o[1] as nat);
    octets::lemma_digits_of(o[2] as nat);
    octets::lemma_digits_of(o[3] as nat);
    assert forall|i: int| 0 <= i < t.len() implies (octets::is_digit(#[trigger] t[i]) || t[i]
        == '.' as u8) by {}
}

/// The text of an address holds digits, colons and dots only.
pub proof fn lemma_ip_text_plain(a: IpModel)
    ensures
        forall|i: int| 0 <= i < ip_text(a).len() ==> is_address_octet(#[trigger] ip_text(a)[i]),
        a is V4 ==> ip_text(a).len() > 0 && forall|i: int|
            0 <= i < ip_text(a).len() ==> octets::is_digit(#[trigger] ip_text(a)[i]) || ip_text(a)[i]
                == '.' as u8,
{
    let t = ip_text(a);
    match a {
        IpModel::V4(o) => {
            lemma_quad_text_plain(o);
        },
        IpModel::V6(g) => {
            let (start, n) = longest_zeros(g, 0);
            reveal_strlit("::");
            is_ascii_chars_encode_utf8("::"@);
            if is_ipv4_mapped(g) {
                let o = mapped_octets(g);
                lemma_quad_text_plain(o);
                reveal_strlit("::ffff:");
                is_ascii_chars_encode_utf8("::ffff:"@);
                let h = octets::octets("::ffff:"@);
                let q = ipv4_text(o);
                assert forall|i: int| 0 <= i < t.len() implies is_address_octet(#[trigger] t[i]) by {
                    if i >= h.len() {
                        assert(t[i] == q[i - h.len()]);
                    } else {
                        assert(t[i] == h[i]);
                    }
                }
            } else if n > 1 {
                let x = g.subrange(0, start);
                let y = g.subrange(start + n, g.len() as int);
                lemma_joined_plain(x);
                lemma_joined_plain(y);
                let m = octets::octets("::"@);
                assert forall|i: int| 0 <= i < t.len() implies is_address_octet(#[trigger] t[i]) by {
                    if i < joined(x).len() {
                        assert(t[i] == joined(x)[i]);
                    } else if i >= joined(x).len() + 2 {
                        assert(t[i] == joined(y)[i - joined(x).len() - 2]);
                    } else {
                        assert(t[i] == m[i - joined(x).len()]);
                    }
                }
            } else {
                lemma_joined_plain(g);
            }
        },
    }
}

/// A numeric address with a port and, for IPv6, a scope.
#[derive(Debug, Clone, Copy, PartialEq, Eq)]
pub struct SocketAddress {
    pub address: IpAddress,
    pub scope_id: u32,
    pub port: u16,
}

pub struct SocketModel {
    pub address: IpModel,
    pub scope_id: u32,
    pub port: u16,
}

impl View for SocketAddress {
    type V = SocketModel;

    open spec fn view(&self) -> SocketModel {
        SocketModel { address: self.address@, scope_id: self.scope_id, port: self.port }
    }
}

/// The IPv6 address and the scope between brackets: the scope, in decimal, follows a percent sign.
pub open spec fn scoped_of(t: Seq<u8>) -> Option<(Seq<u16>, u32)> {
    let percent = octets::first_at(t, '%' as u8, 0);
    let groups = ipv6_of(t.subrange(0, percent));
    let scope = t.subrange(percent + 1, t.len() as int);
    if groups is None {
        None
    } else if percent == t.len() {
        Some((groups->0, 0))
    } else {
        match octets::spec_parse_decimal(scope, 0xffff_ffff) {
            Some(scope) => Some((groups->0, scope as u32)),
            None => None,
        }
    }
}

/// The socket address that a text spells: a dotted quad or a bracketed IPv6 address, a colon, and
/// a port in decimal.
pub open spec fn socket_of(s: Seq<u8>) -> Option<SocketModel> {
    let colon = octets::first_at(s, ':' as u8, 0);
    let close = octets::first_at(s, ']' as u8, 0);
    if s.len() > 0 && s[0] == '[' as u8 {
        if close + 1 < s.len() && s[close + 1] == ':' as u8 {
            match (
                scoped_of(s.subrange(1, close)),
                octets::spec_parse_decimal(s.subrange(close + 2, s.len() as int), 65535),
            ) {
                (Some((groups, scope_id)), Some(port)) => Some(
                    SocketModel { address: IpModel::V6(groups), scope_id, port: port as u16 },
                ),
                _ => None,
            }
        } else {
            None
        }
    } else if colon < s.len() {
        match (
            ipv4_of(s.subrange(0, colon)),
            octets::spec_parse_decimal(s.subrange(colon + 1, s.len() as int), 65535),
        ) {
            (Some(quad), Some(port)) => Some(
                SocketModel { address: IpModel::V4(quad), scope_id: 0, port: port as u16 },
            ),
            _ => None,
        }
    } else {
        None
    }
}

/// Reads a socket address.
pub fn parse_socket(s: &[u8]) -> (r: Option<SocketAddress>)
    ensures
        match r {
            Some(socket) => socket_of(s@) == Some(socket@),
            None => socket_of(s@) is None,
        },
{
    let n: usize = s.len();
    if n > 0 && s[0] == '[' as u8 {
        let close: usize = octets::find(s, ']' as u8, 0);
        if close >= n || n - close < 2 || s[close + 1] != ':' as u8 {
            return None;
        }
        let inner: &[u8] = part(s, 1, close);
        let percent: usize = octets::find(inner, '%' as u8, 0);
        let groups: [u16; 8] = match parse_ipv6(part(inner, 0, percent)) {
            Some(groups) => groups,
            None => {
                return None;
            },
        };
        let scope_id: u32 = if percent == inner.len() {
            0
        } else {
            match parse_decimal(part(inner, percent + 1, inner.len()), 0xffff_ffff) {
                Some(scope) => scope as u32,
                None => {
                    return None;
                },
            }
        };
        return match parse_decimal(part(s, close + 2, n), 65535) {
            Some(port) => Some(
                SocketAddress { address: IpAddress::V6(groups), scope_id, port: port as u16 },
            ),
            None => None,
        };
    }
    let colon: usize = octets::find(s, ':' as u8, 0);
    if colon >= n {
        return None;
    }
    match parse_ipv4(part(s, 0, colon)) {
        Some(quad) => match parse_decimal(part(s, colon + 1, n), 65535) {
            Some(port) => Some(
                SocketAddress { address: IpAddress::V4(quad), scope_id: 0, port: port as u16 },
            ),
            None => None,
        },
        None => None,
    }
}

} // verus!
