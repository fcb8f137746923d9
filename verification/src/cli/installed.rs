//! The registry of installed harnesses: one `name version` per line.
use crate::text;
use crate::text::{
    before, characters, copy_text, extend, same_text, split_lines, split_words, string_of,
    trim_chars,
};
use vstd::prelude::*;

verus! {

/// A harness and the image version that it was installed at.
#[derive(Debug, Clone, PartialEq, Eq)]
pub struct InstalledHarness {
    pub name: String,
    pub version: String,
}

impl View for InstalledHarness {
    type V = (Seq<char>, Seq<char>);

    open spec fn view(&self) -> (Seq<char>, Seq<char>) {
        (self.name@, self.version@)
    }
}

/// The path of an entry of a directory.
pub open spec fn joined(base: Seq<char>, name: Seq<char>) -> Seq<char> {
    if base.len() == 0 {
        name
    } else if base.last() == '/' {
        base + name
    } else {
        base + "/"@ + name
    }
}

fn join(base: &str, name: &str) -> (r: String)
    ensures
        r@ == joined(base@, name@),
{
    let chars: Vec<char> = characters(base);
    let mut out: String = string_of(chars.as_slice());
    if chars.len() == 0 {
        return copy_text(name);
    }
    if chars[chars.len() - 1] != '/' {
        extend(&mut out, "/");
    }
    extend(&mut out, name);
    out
}

/// The configuration root: the override, where it is set and not empty, else `.config` at home.
pub open spec fn config_root(home: Seq<char>, xdg_config: Option<Seq<char>>) -> Seq<char> {
    match xdg_config {
        Some(v) => if v.len() > 0 {
            v
        } else {
            joined(home, ".config"@)
        },
        None => joined(home, ".config"@),
    }
}

/// The configuration root.
pub fn xdg_config_root(home: &str, xdg_config: Option<&str>) -> (r: String)
    ensures
        r@ == config_root(
            home@,
            match xdg_config {
                Some(v) => Some(v@),
                None => None,
            },
        ),
{
    match xdg_config {
        Some(v) => {
            let chars: Vec<char> = characters(v);
            if chars.len() > 0 {
                string_of(chars.as_slice())
            } else {
                join(home, ".config")
            }
        },
        None => join(home, ".config"),
    }
}

/// The configuration directory.
pub fn vhrn_config_dir(home: &str, xdg_config: Option<&str>) -> (r: String)
    ensures
        r@ == joined(
            config_root(
                home@,
                match xdg_config {
                    Some(v) => Some(v@),
                    None => None,
                },
            ),
            "vhrn"@,
        ),
{
    join(xdg_config_root(home, xdg_config).as_str(), "vhrn")
}

/// The path of the registry in a configuration directory.
pub fn installed_registry_path(config_dir: &str) -> (r: String)
    ensures
        r@ == joined(config_dir@, "installed"@),
{
    join(config_dir, "installed")
}

pub open spec fn latest() -> Seq<char> {
    "latest"@
}

/// The entry of a line: its first word and its second, or `latest`. An empty line and a comment
/// hold none.
pub open spec fn line_entry(line: Seq<char>) -> Option<(Seq<char>, Seq<char>)> {
    let t = text::trim(line);
    let w = text::words(t);
    if t.len() == 0 || t[0] == '#' || w.len() == 0 {
        None
    } else {
        Some(
            (
                w[0],
                if w.len() > 1 {
                    w[1]
                } else {
                    latest()
                },
            ),
        )
    }
}

/// The versions by name that a list of lines records. A later line replaces an earlier one of the
/// same name.
pub open spec fn entries_of(lines: Seq<Seq<char>>) -> Map<Seq<char>, Seq<char>>
    decreases lines.len(),
{
    if lines.len() == 0 {
        Map::empty()
    } else {
        let rest = entries_of(lines.drop_last());
        match line_entry(lines.last()) {
            Some((name, version)) => rest.insert(name, version),
            None => rest,
        }
    }
}

/// What a registry records.
pub open spec fn registry_of(content: Seq<char>) -> Map<Seq<char>, Seq<char>> {
    entries_of(text::lines(content))
}

/// The entries of a list of harnesses.
pub open spec fn listed(hs: Seq<InstalledHarness>) -> Seq<(Seq<char>, Seq<char>)> {
    Seq::new(hs.len(), |i: int| hs[i]@)
}

/// The names are in strict order.
pub open spec fn in_order(l: Seq<(Seq<char>, Seq<char>)>) -> bool {
    forall|i: int, j: int|
        0 <= i < j < l.len() ==> text::precedes((#[trigger] l[i]).0, (#[trigger] l[j]).0)
}

/// The list holds exactly the entries of the map, in the order of their names.
pub open spec fn lists(l: Seq<(Seq<char>, Seq<char>)>, m: Map<Seq<char>, Seq<char>>) -> bool {
    &&& in_order(l)
    &&& forall|i: int|
        0 <= i < l.len() ==> m.dom().contains((#[trigger] l[i]).0) && m[l[i].0] == l[i].1
    &&& forall|name: Seq<char>|
        m.dom().contains(name) ==> exists|i: int| 0 <= i < l.len() && (#[trigger] l[i]).0 == name
}

/// A map has one list.
pub proof fn a_listing_is_unique(
    a: Seq<(Seq<char>, Seq<char>)>,
    b: Seq<(Seq<char>, Seq<char>)>,
    m: Map<Seq<char>, Seq<char>>,
)
    requires
        lists(a, m),
        lists(b, m),
    ensures
        a == b,
    decreases a.len() + b.len(),
{
    if a.len() == 0 {
        if b.len() > 0 {
            assert(m.dom().contains(b[0].0));
            let i = choose|i: int| 0 <= i < a.len() && (#[trigger] a[i]).0 == b[0].0;
            assert(false);
        }
        assert(a =~= b);
    } else if b.len() == 0 {
        assert(m.dom().contains(a[0].0));
        let i = choose|i: int| 0 <= i < b.len() && (#[trigger] b[i]).0 == a[0].0;
        assert(false);
    } else {
        let last_a = a.len() - 1;
        let last_b = b.len() - 1;
        assert(m.dom().contains(a[last_a].0));
        assert(m.dom().contains(b[last_b].0));
        let i = choose|i: int| 0 <= i < b.len() && (#[trigger] b[i]).0 == a[last_a].0;
        let j = choose|j: int| 0 <= j < a.len() && (#[trigger] a[j]).0 == b[last_b].0;
        text::lemma_precedes(a[last_a].0, b[last_b].0, a[last_a].0);
        if i < last_b && j < last_a {
            assert(text::precedes(b[i].0, b[last_b].0));
            assert(text::precedes(a[j].0, a[last_a].0));
            assert(false);
        }
        if i < last_b {
            assert(text::precedes(b[i].0, b[last_b].0));
            assert(j == last_a);
            text::lemma_precedes(b[last_b].0, b[last_b].0, b[last_b].0);
            assert(false);
        }
        if j < last_a {
            assert(text::precedes(a[j].0, a[last_a].0));
            text::lemma_precedes(a[last_a].0, a[last_a].0, a[last_a].0);
            assert(false);
        }
        let name = a[last_a].0;
        lemma_drop_last_lists(a, m);
        lemma_drop_last_lists(b, m);
        a_listing_is_unique(a.drop_last(), b.drop_last(), m.remove(name));
        assert(a =~= a.drop_last().push(a[last_a]));
        assert(b =~= b.drop_last().push(b[last_b]));
    }
}

proof fn lemma_drop_last_lists(l: Seq<(Seq<char>, Seq<char>)>, m: Map<Seq<char>, Seq<char>>)
    requires
        lists(l, m),
        l.len() > 0,
    ensures
        lists(l.drop_last(), m.remove(l.last().0)),
{
    let rest = l.drop_last();
    let name = l.last().0;
    let left = m.remove(name);
    assert forall|i: int, j: int| 0 <= i < j < rest.len() implies text::precedes(
        (#[trigger] rest[i]).0,
        (#[trigger] rest[j]).0,
    ) by {
        assert(text::precedes(l[i].0, l[j].0));
    }
    assert forall|i: int| 0 <= i < rest.len() implies left.dom().contains((#[trigger] rest[i]).0)
        && left[rest[i].0] == rest[i].1 by {
        assert(text::precedes(l[i].0, l[l.len() - 1].0));
        text::lemma_precedes(name, name, name);
    }
    assert forall|other: Seq<char>| left.dom().contains(other) implies exists|i: int|
        0 <= i < rest.len() && (#[trigger] rest[i]).0 == other by {
        let i = choose|i: int| 0 <= i < l.len() && (#[trigger] l[i]).0 == other;
        assert(i < rest.len());
        assert(rest[i].0 == other);
    }
}

/// The place of a name in an ordered list: every name before it precedes it, none after does.
fn place(hs: &Vec<InstalledHarness>, name: &str) -> (r: (usize, bool))
    requires
        in_order(listed(hs@)),
    ensures
        r.0 <= hs@.len(),
        forall|i: int| 0 <= i < r.0 ==> text::precedes(listed(hs@)[i].0, name@),
        r.1 ==> r.0 < hs@.len() && listed(hs@)[r.0 as int].0 == name@,
        !r.1 ==> forall|i: int| r.0 <= i < hs@.len() ==> text::precedes(name@, listed(hs@)[i].0),
{
    let key: Vec<char> = characters(name);
    let mut i: usize = 0;
    let ghost l = listed(hs@);
    while i < hs.len()
        invariant
            i <= hs@.len(),
            key@ == name@,
            l == listed(hs@),
            in_order(l),
            forall|j: int| 0 <= j < i ==> text::precedes(l[j].0, name@),
        decreases hs@.len() - i,
    {
        assert(l[i as int].0 == hs@[i as int].name@);
        if same_text(hs[i].name.as_str(), name) {
            return (i, true);
        }
        if !before(characters(hs[i].name.as_str()).as_slice(), key.as_slice()) {
            proof {
                text::lemma_precedes(l[i as int].0, name@, name@);
                assert forall|j: int| i <= j < hs@.len() implies text::precedes(name@, l[j].0) by {
                    if j > i {
                        assert(text::precedes(l[i as int].0, l[j].0));
                        text::lemma_precedes(name@, l[i as int].0, l[j].0);
                    }
                }
            }
            return (i, false);
        }
        i += 1;
    }
    (i, false)
}

/// Records a version in an ordered list.
fn record(hs: &mut Vec<InstalledHarness>, name: String, version: String, replace: bool)
    requires
        in_order(listed(old(hs)@)),
    ensures
        in_order(listed(final(hs)@)),
        forall|m: Map<Seq<char>, Seq<char>>| #[trigger]
            lists(listed(old(hs)@), m) ==> lists(
                listed(final(hs)@),
                if !replace && m.dom().contains(name@) {
                    m
                } else {
                    m.insert(name@, version@)
                },
            ),
{
    let (at, found) = place(hs, name.as_str());
    let ghost l = listed(hs@);
    let ghost entry = (name@, version@);
    if found {
        if replace {
            hs.set(at, InstalledHarness { name, version });
            let ghost after = listed(hs@);
            proof {
                assert(after =~= l.update(at as int, entry));
                assert forall|i: int, j: int| 0 <= i < j < after.len() implies text::precedes(
                    (#[trigger] after[i]).0,
                    (#[trigger] after[j]).0,
                ) by {
                    assert(text::precedes(l[i].0, l[j].0));
                }
                assert forall|m: Map<Seq<char>, Seq<char>>| #[trigger] lists(l, m) implies lists(
                    after,
                    m.insert(entry.0, entry.1),
                ) by {
                    let n = m.insert(entry.0, entry.1);
                    assert forall|i: int| 0 <= i < after.len() implies n.dom().contains(
                        (#[trigger] after[i]).0,
                    ) && n[after[i].0] == after[i].1 by {
                        assert(m.dom().contains(l[i].0));
                        if i != at {
                            if i < at {
                                assert(text::precedes(l[i].0, l[at as int].0));
                            } else {
                                assert(text::precedes(l[at as int].0, l[i].0));
                            }
                            text::lemma_precedes(entry.0, entry.0, entry.0);
                        }
                    }
                    assert forall|other: Seq<char>| n.dom().contains(other) implies exists|i: int|
                        0 <= i < after.len() && (#[trigger] after[i]).0 == other by {
                        if other == entry.0 {
                            assert(after[at as int].0 == other);
                        } else {
                            let i = choose|i: int| 0 <= i < l.len() && (#[trigger] l[i]).0 == other;
                            assert(after[i].0 == other);
                        }
                    }
                }
            }
        } else {
            proof {
                assert forall|m: Map<Seq<char>, Seq<char>>| #[trigger]
                    lists(l, m) implies m.dom().contains(entry.0) by {
                    assert(m.dom().contains(l[at as int].0));
                }
            }
        }
        return;
    }
    hs.insert(at, InstalledHarness { name, version });
    let ghost after = listed(hs@);
    proof {
        assert(after =~= l.insert(at as int, entry));
        assert forall|i: int, j: int| 0 <= i < j < after.len() implies text::precedes(
            (#[trigger] after[i]).0,
            (#[trigger] after[j]).0,
        ) by {
            let a = if i < at {
                i
            } else {
                i - 1
            };
            let b = if j < at {
                j
            } else {
                j - 1
            };
            if i != at && j != at {
                assert(text::precedes(l[a].0, l[b].0));
            }
        }
        assert forall|m: Map<Seq<char>, Seq<char>>| #[trigger] lists(l, m) implies lists(
            after,
            m.insert(entry.0, entry.1),
        ) && !m.dom().contains(entry.0) by {
            let n = m.insert(entry.0, entry.1);
            text::lemma_precedes(entry.0, entry.0, entry.0);
            assert forall|i: int| 0 <= i < after.len() implies n.dom().contains(
                (#[trigger] after[i]).0,
            ) && n[after[i].0] == after[i].1 by {
                if i < at {
                    assert(after[i] == l[i]);
                    assert(m.dom().contains(l[i].0));
                } else if i > at {
                    assert(after[i] == l[i - 1]);
                    assert(m.dom().contains(l[i - 1].0));
                }
            }
            assert forall|other: Seq<char>| n.dom().contains(other) implies exists|i: int|
                0 <= i < after.len() && (#[trigger] after[i]).0 == other by {
                if other == entry.0 {
                    assert(after[at as int].0 == other);
                } else {
                    let i = choose|i: int| 0 <= i < l.len() && (#[trigger] l[i]).0 == other;
                    if i < at {
                        assert(after[i].0 == other);
                    } else {
                        assert(after[i + 1].0 == other);
                    }
                }
            }
            if m.dom().contains(entry.0) {
                let i = choose|i: int| 0 <= i < l.len() && (#[trigger] l[i]).0 == entry.0;
                assert(false);
            }
        }
    }
}

fn parse_line(line: &[char]) -> (r: Option<(String, String)>)
    ensures
        match r {
            Some((name, version)) => line_entry(line@) == Some((name@, version@)),
            None => line_entry(line@) is None,
        },
{
    let t: &[char] = trim_chars(line);
    if t.len() == 0 || t[0] == '#' {
        return None;
    }
    let fields: Vec<Vec<char>> = split_words(t);
    let ghost w = text::words(t@);
    assert(w == text::texts(fields@));
    if fields.len() == 0 {
        return None;
    }
    assert(w[0] == fields@[0]@);
    let name: String = string_of(fields[0].as_slice());
    if fields.len() > 1 {
        assert(w[1] == fields@[1]@);
        Some((name, string_of(fields[1].as_slice())))
    } else {
        Some((name, copy_text("latest")))
    }
}

/// The installed harnesses in the order of their names. `None` stands for a registry that cannot be
/// read, which records nothing.
pub fn read_installed(content: Option<&str>) -> (r: Vec<InstalledHarness>)
    ensures
        lists(
            listed(r@),
            match content {
                Some(content) => registry_of(content@),
                None => Map::empty(),
            },
        ),
{
    let mut out: Vec<InstalledHarness> = Vec::new();
    let ghost none = Map::<Seq<char>, Seq<char>>::empty();
    assert(lists(listed(out@), none));
    let content: &str = match content {
        Some(content) => content,
        None => {
            return out;
        },
    };
    let lines: Vec<Vec<char>> = split_lines(characters(content).as_slice());
    let ghost all = text::lines(content@);
    assert(all == text::texts(lines@));
    assert(all.take(0) =~= Seq::empty());
    let mut i: usize = 0;
    while i < lines.len()
        invariant
            i <= lines@.len(),
            all == text::texts(lines@),
            lists(listed(out@), entries_of(all.take(i as int))),
        decreases lines@.len() - i,
    {
        proof {
            assert(all.take(i + 1).drop_last() =~= all.take(i as int));
            assert(all.take(i + 1).last() == lines@[i as int]@);
        }
        let ghost m = entries_of(all.take(i as int));
        let ghost was = listed(out@);
        assert(lists(was, m));
        if let Some((name, version)) = parse_line(lines[i].as_slice()) {
            record(&mut out, name, version, true);
        }
        i += 1;
    }
    assert(all.take(i as int) =~= all);
    out
}

/// The version that a harness is installed at.
pub fn installed_version(content: Option<&str>, name: &str) -> (r: Option<String>)
    ensures
        ({
            let m = match content {
                Some(content) => registry_of(content@),
                None => Map::empty(),
            };
            match r {
                Some(version) => m.dom().contains(name@) && m[name@] == version@,
                None => !m.dom().contains(name@),
            }
        }),
{
    let hs: Vec<InstalledHarness> = read_installed(content);
    let ghost l = listed(hs@);
    let mut i: usize = 0;
    while i < hs.len()
        invariant
            i <= hs@.len(),
            l == listed(hs@),
            lists(
                l,
                match content {
                    Some(content) => registry_of(content@),
                    None => Map::empty(),
                },
            ),
            forall|j: int| 0 <= j < i ==> (#[trigger] l[j]).0 != name@,
        decreases hs@.len() - i,
    {
        assert(l[i as int] == (hs@[i as int].name@, hs@[i as int].version@));
        if same_text(hs[i].name.as_str(), name) {
            return Some(copy_text(hs[i].version.as_str()));
        }
        i += 1;
    }
    None
}

pub open spec fn header_line() -> Seq<char> {
    "# vhrn installed harnesses — managed by `vhrn install`/`uninstall`.\n"@
}

/// The lines of a list of entries.
pub open spec fn entry_lines(l: Seq<(Seq<char>, Seq<char>)>) -> Seq<char>
    decreases l.len(),
{
    if l.len() == 0 {
        Seq::empty()
    } else {
        entry_lines(l.drop_last()) + l.last().0 + " "@ + l.last().1 + "\n"@
    }
}

/// The text of a registry.
pub open spec fn registry_text(l: Seq<(Seq<char>, Seq<char>)>) -> Seq<char> {
    header_line() + entry_lines(l)
}

/// A version, or `latest` in place of an empty one.
pub open spec fn version_or_latest(version: Seq<char>) -> Seq<char> {
    if version.len() == 0 {
        latest()
    } else {
        version
    }
}

/// What a list of harnesses records when it is written: entries without a name are left out, and
/// of those with the same name the first counts.
pub open spec fn written_entries(l: Seq<(Seq<char>, Seq<char>)>) -> Map<Seq<char>, Seq<char>>
    decreases l.len(),
{
    if l.len() == 0 {
        Map::empty()
    } else {
        let rest = written_entries(l.drop_last());
        let (name, version) = l.last();
        if name.len() == 0 || rest.dom().contains(name) {
            rest
        } else {
            rest.insert(name, version_or_latest(version))
        }
    }
}

/// The text that records a map.
pub open spec fn records(content: Seq<char>, m: Map<Seq<char>, Seq<char>>) -> bool {
    exists|l: Seq<(Seq<char>, Seq<char>)>| #[trigger] lists(l, m) && content == registry_text(l)
}

/// The text of a registry with a list of harnesses, in the order of their names.
pub fn write_installed(hs: &[InstalledHarness]) -> (r: String)
    ensures
        records(r@, written_entries(listed(hs@))),
{
    let mut sorted: Vec<InstalledHarness> = Vec::new();
    let ghost all = listed(hs@);
    let ghost none = Map::<Seq<char>, Seq<char>>::empty();
    assert(lists(listed(sorted@), none));
    assert(all.take(0) =~= Seq::empty());
    let mut i: usize = 0;
    while i < hs.len()
        invariant
            i <= hs@.len(),
            all == listed(hs@),
            lists(listed(sorted@), written_entries(all.take(i as int))),
        decreases hs@.len() - i,
    {
        let ghost m = written_entries(all.take(i as int));
        let ghost was = listed(sorted@);
        proof {
            assert(all.take(i + 1).drop_last() =~= all.take(i as int));
            assert(all.take(i + 1).last() == (hs@[i as int].name@, hs@[i as int].version@));
            assert(lists(was, m));
        }
        let name: Vec<char> = characters(hs[i].name.as_str());
        if name.len() > 0 {
            let chars: Vec<char> = characters(hs[i].version.as_str());
            let version: String = if chars.len() == 0 {
                copy_text("latest")
            } else {
                string_of(chars.as_slice())
            };
            record(&mut sorted, string_of(name.as_slice()), version, false);
        }
        i += 1;
    }
    assert(all.take(i as int) =~= all);
    render(&sorted)
}

fn render(hs: &Vec<InstalledHarness>) -> (r: String)
    ensures
        r@ == registry_text(listed(hs@)),
{
    let mut out: String = copy_text(
        "# vhrn installed harnesses — managed by `vhrn install`/`uninstall`.\n",
    );
    let ghost l = listed(hs@);
    assert(l.take(0) =~= Seq::empty());
    assert(header_line() + Seq::<char>::empty() =~= header_line());
    let mut i: usize = 0;
    while i < hs.len()
        invariant
            i <= hs@.len(),
            l == listed(hs@),
            out@ == header_line() + entry_lines(l.take(i as int)),
        decreases hs@.len() - i,
    {
        let ghost was = entry_lines(l.take(i as int));
        extend(&mut out, hs[i].name.as_str());
        extend(&mut out, " ");
        extend(&mut out, hs[i].version.as_str());
        extend(&mut out, "\n");
        proof {
            let next = l.take(i + 1);
            assert(next.drop_last() =~= l.take(i as int));
            assert(next.last() == (hs@[i as int].name@, hs@[i as int].version@));
            assert(out@ =~= header_line() + entry_lines(next));
        }
        i += 1;
    }
    assert(l.take(i as int) =~= l);
    out
}

/// What a registry records, where it can be read.
pub open spec fn content_of(content: Option<&str>) -> Map<Seq<char>, Seq<char>> {
    match content {
        Some(content) => registry_of(content@),
        None => Map::empty(),
    }
}

/// Without the entries that are left out on writing.
pub open spec fn writable(m: Map<Seq<char>, Seq<char>>) -> Map<Seq<char>, Seq<char>> {
    Map::new(
        |name: Seq<char>| m.dom().contains(name) && name.len() > 0,
        |name: Seq<char>| version_or_latest(m[name]),
    )
}

/// Writing a list of all entries of a map records the map.
proof fn lemma_written_listing(
    l: Seq<(Seq<char>, Seq<char>)>,
    m: Map<Seq<char>, Seq<char>>,
)
    requires
        lists(l, m),
    ensures
        written_entries(l) == writable(m),
    decreases l.len(),
{
    if l.len() == 0 {
        assert forall|name: Seq<char>| !m.dom().contains(name) by {
            if m.dom().contains(name) {
                let i = choose|i: int| 0 <= i < l.len() && (#[trigger] l[i]).0 == name;
                assert(false);
            }
        }
        assert(writable(m) =~= Map::empty());
    } else {
        let name = l.last().0;
        let left = m.remove(name);
        lemma_drop_last_lists(l, m);
        lemma_written_listing(l.drop_last(), left);
        assert(l.last() == l[l.len() - 1]);
        assert(m.dom().contains(name) && m[name] == l.last().1);
        assert(writable(m) =~= written_entries(l));
    }
}

/// The text of a registry after a harness was installed at a version.
pub fn add_installed(content: Option<&str>, name: &str, version: &str) -> (r: String)
    ensures
        records(r@, writable(content_of(content).insert(name@, version@))),
{
    let mut hs: Vec<InstalledHarness> = read_installed(content);
    let ghost m = content_of(content);
    assert(lists(listed(hs@), m));
    record(&mut hs, copy_text(name), copy_text(version), true);
    proof {
        lemma_written_listing(listed(hs@), m.insert(name@, version@));
    }
    write_installed(hs.as_slice())
}

/// The text of a registry after a harness was removed.
pub fn remove_installed(content: Option<&str>, name: &str) -> (r: String)
    ensures
        records(r@, writable(content_of(content).remove(name@))),
{
    let mut hs: Vec<InstalledHarness> = read_installed(content);
    let ghost m = content_of(content);
    let ghost l = listed(hs@);
    assert(lists(l, m));
    let (at, found) = place(&hs, name);
    if found {
        let _ = hs.remove(at);
        proof {
            assert(listed(hs@) =~= l.remove(at as int));
            lemma_removed_lists(l, m, at as int);
        }
    } else {
        proof {
            if m.dom().contains(name@) {
                let i = choose|i: int| 0 <= i < l.len() && (#[trigger] l[i]).0 == name@;
                text::lemma_precedes(name@, name@, name@);
                assert(false);
            }
            assert(m.remove(name@) =~= m);
        }
    }
    proof {
        lemma_written_listing(listed(hs@), m.remove(name@));
    }
    write_installed(hs.as_slice())
}

proof fn lemma_removed_lists(
    l: Seq<(Seq<char>, Seq<char>)>,
    m: Map<Seq<char>, Seq<char>>,
    at: int,
)
    requires
        lists(l, m),
        0 <= at < l.len(),
    ensures
        lists(l.remove(at), m.remove(l[at].0)),
{
    let after = l.remove(at);
    let left = m.remove(l[at].0);
    assert forall|i: int, j: int| 0 <= i < j < after.len() implies text::precedes(
        (#[trigger] after[i]).0,
        (#[trigger] after[j]).0,
    ) by {
        let a = if i < at {
            i
        } else {
            i + 1
        };
        let b = if j < at {
            j
        } else {
            j + 1
        };
        assert(text::precedes(l[a].0, l[b].0));
    }
    text::lemma_precedes(l[at].0, l[at].0, l[at].0);
    assert forall|i: int| 0 <= i < after.len() implies left.dom().contains((#[trigger] after[i]).0)
        && left[after[i].0] == after[i].1 by {
        if i < at {
            assert(after[i] == l[i]);
            assert(text::precedes(l[i].0, l[at].0));
        } else {
            assert(after[i] == l[i + 1]);
            assert(text::precedes(l[at].0, l[i + 1].0));
        }
    }
    assert forall|other: Seq<char>| left.dom().contains(other) implies exists|i: int|
        0 <= i < after.len() && (#[trigger] after[i]).0 == other by {
        let i = choose|i: int| 0 <= i < l.len() && (#[trigger] l[i]).0 == other;
        if i < at {
            assert(after[i].0 == other);
        } else {
            assert(after[i - 1].0 == other);
        }
    }
}

/// A text without white space that is not empty.
pub open spec fn is_word(w: Seq<char>) -> bool {
    w.len() > 0 && forall|i: int| 0 <= i < w.len() ==> !text::white_space(#[trigger] w[i])
}

/// A name and a version that a line can record: words, of which the name does not look like a
/// comment.
pub open spec fn is_entry(name: Seq<char>, version: Seq<char>) -> bool {
    is_word(name) && name[0] != '#' && is_word(version)
}

/// Every entry of the map can be recorded.
pub open spec fn recordable(m: Map<Seq<char>, Seq<char>>) -> bool {
    forall|name: Seq<char>| #[trigger] m.dom().contains(name) ==> is_entry(name, m[name])
}

pub open spec fn entry_line(name: Seq<char>, version: Seq<char>) -> Seq<char> {
    name + " "@ + version
}

proof fn lemma_blank()
    ensures
        " "@ == seq![' '],
        "\n"@ == seq!['\n'],
{
    reveal_strlit(" ");
    reveal_strlit("\n");
    assert(" "@ =~= seq![' ']);
    assert("\n"@ =~= seq!['\n']);
}

proof fn lemma_word_end_is(s: Seq<char>, i: int, end: int)
    requires
        0 <= i <= end <= s.len(),
        forall|j: int| i <= j < end ==> !text::white_space(#[trigger] s[j]),
        end < s.len() ==> text::white_space(s[end]),
    ensures
        text::word_end(s, i) == end,
    decreases end - i,
{
    if i < end {
        lemma_word_end_is(s, i + 1, end);
    }
}

/// A word alone is its own only word.
pub proof fn lemma_single_word(w: Seq<char>)
    requires
        is_word(w),
    ensures
        text::words(w) == seq![w],
{
    lemma_word_end_is(w, 0, w.len() as int);
    assert(w.subrange(0, w.len() as int) =~= w);
    assert(w.subrange(w.len() as int, w.len() as int) =~= Seq::empty());
    assert(text::words(Seq::<char>::empty()) =~= Seq::empty());
    assert(text::words(w) =~= seq![w]);
}

/// A line that was written is read as the entry that it was written for.
pub proof fn lemma_entry_line(name: Seq<char>, version: Seq<char>)
    requires
        is_entry(name, version),
    ensures
        line_entry(entry_line(name, version)) == Some((name, version)),
{
    lemma_blank();
    let t = entry_line(name, version);
    assert(t[0] == name[0]);
    assert(t.last() == version[version.len() - 1]);
    text::lemma_trim(t);
    assert(text::trim(t) == t);
    assert(text::white_space(t[name.len() as int]));
    assert forall|j: int| 0 <= j < name.len() implies !text::white_space(#[trigger] t[j]) by {
        assert(t[j] == name[j]);
    }
    lemma_word_end_is(t, 0, name.len() as int);
    assert(t.subrange(0, name.len() as int) =~= name);
    let rest = t.subrange(name.len() as int, t.len() as int);
    assert(rest[0] == ' ');
    assert(rest.drop_first() =~= version);
    lemma_single_word(version);
    assert(text::words(rest) == seq![version]);
    assert(text::words(t) =~= seq![name, version]);
}

proof fn lemma_first_line(a: Seq<char>, rest: Seq<char>)
    requires
        forall|i: int| 0 <= i < a.len() ==> a[i] != '\n',
        a.len() > 0,
        a.last() != '\r',
    ensures
        text::lines(a + "\n"@ + rest) == seq![a] + text::lines(rest),
{
    lemma_blank();
    let s = a + "\n"@ + rest;
    assert(s[a.len() as int] == '\n');
    text::lemma_char_at_is(s, '\n', 0, a.len() as int);
    assert(s.subrange(0, a.len() as int) =~= a);
    assert(s.subrange(a.len() as int + 1, s.len() as int) =~= rest);
}

pub open spec fn entry_texts(l: Seq<(Seq<char>, Seq<char>)>) -> Seq<Seq<char>> {
    Seq::new(l.len(), |i: int| entry_line(l[i].0, l[i].1))
}

proof fn lemma_entry_lines_front(l: Seq<(Seq<char>, Seq<char>)>)
    requires
        l.len() > 0,
    ensures
        entry_lines(l) == entry_line(l[0].0, l[0].1) + "\n"@ + entry_lines(l.drop_first()),
    decreases l.len(),
{
    let head = entry_line(l[0].0, l[0].1) + "\n"@;
    if l.len() == 1 {
        assert(l.drop_last() =~= Seq::empty());
        assert(l.drop_first() =~= Seq::empty());
        assert(entry_lines(l) =~= head + entry_lines(l.drop_first()));
    } else {
        let init = l.drop_last();
        lemma_entry_lines_front(init);
        assert(init.drop_first() =~= l.drop_first().drop_last());
        assert(l.drop_first().last() == l.last());
        assert(entry_lines(l) =~= head + entry_lines(l.drop_first()));
    }
}

proof fn lemma_lines_of_entries(l: Seq<(Seq<char>, Seq<char>)>)
    requires
        forall|i: int| 0 <= i < l.len() ==> is_entry((#[trigger] l[i]).0, l[i].1),
    ensures
        text::lines(entry_lines(l)) == entry_texts(l),
    decreases l.len(),
{
    if l.len() == 0 {
        assert(entry_texts(l) =~= Seq::empty());
    } else {
        let rest = l.drop_first();
        lemma_blank();
        lemma_entry_lines_front(l);
        assert forall|i: int| 0 <= i < rest.len() implies is_entry((#[trigger] rest[i]).0, rest[i].1) by {
            assert(rest[i] == l[i + 1]);
        }
        lemma_lines_of_entries(rest);
        let (name, version) = l[0];
        assert(is_entry(l[0].0, l[0].1));
        let a = entry_line(name, version);
        assert forall|i: int| 0 <= i < a.len() implies a[i] != '\n' by {
            if i < name.len() {
                assert(a[i] == name[i]);
                assert(!text::white_space(name[i]));
            } else if i > name.len() {
                assert(a[i] == version[i - name.len() - 1]);
                assert(!text::white_space(version[i - name.len() - 1]));
            }
        }
        assert(a.last() == version[version.len() - 1]);
        assert(!text::white_space(version[version.len() - 1]));
        lemma_first_line(a, entry_lines(rest));
        assert(entry_texts(l) =~= seq![a] + entry_texts(rest));
    }
}

/// Reading the lines of a list of entries records the map that the list lists.
proof fn lemma_entries_listed(
    l: Seq<(Seq<char>, Seq<char>)>,
    m: Map<Seq<char>, Seq<char>>,
    first: Seq<Seq<char>>,
)
    requires
        lists(l, m),
        recordable(m),
        entries_of(first) == Map::<Seq<char>, Seq<char>>::empty(),
    ensures
        entries_of(first + entry_texts(l)) == m,
    decreases l.len(),
{
    if l.len() == 0 {
        assert(first + entry_texts(l) =~= first);
        assert forall|name: Seq<char>| !m.dom().contains(name) by {
            if m.dom().contains(name) {
                let i = choose|i: int| 0 <= i < l.len() && (#[trigger] l[i]).0 == name;
                assert(false);
            }
        }
        assert(m =~= Map::empty());
    } else {
        let name = l.last().0;
        let left = m.remove(name);
        lemma_drop_last_lists(l, m);
        assert(recordable(left)) by {
            assert forall|other: Seq<char>| #[trigger] left.dom().contains(other) implies is_entry(
                other,
                left[other],
            ) by {
                assert(m.dom().contains(other));
            }
        }
        lemma_entries_listed(l.drop_last(), left, first);
        let all = first + entry_texts(l);
        assert(all.drop_last() =~= first + entry_texts(l.drop_last()));
        assert(l.last() == l[l.len() - 1]);
        assert(m.dom().contains(name) && m[name] == l.last().1);
        assert(all.last() == entry_line(name, l.last().1));
        lemma_entry_line(name, l.last().1);
        assert(left.insert(name, m[name]) =~= m);
    }
}

proof fn lemma_header()
    ensures
        exists|h: Seq<char>|
            #![trigger h.len()]
            header_line() == h + "\n"@ && h.len() > 0 && h[0] == '#' && h.last() != '\r' && (
            forall|i: int| 0 <= i < h.len() ==> h[i] != '\n'),
{
    reveal_strlit("# vhrn installed harnesses — managed by `vhrn install`/`uninstall`.\n");
    lemma_blank();
    let h = header_line().drop_last();
    assert(header_line() =~= h + "\n"@);
    assert(h.len() > 0);
}

pub proof fn lemma_comment(h: Seq<char>)
    requires
        h.len() > 0,
        h[0] == '#',
    ensures
        line_entry(h) is None,
{
    lemma_trim_keeps_front(h);
}

/// Trimming a text that does not begin with white space keeps its first character.
proof fn lemma_trim_keeps_front(h: Seq<char>)
    requires
        h.len() > 0,
        !text::white_space(h[0]),
    ensures
        text::trim(h).len() > 0,
        text::trim(h)[0] == h[0],
{
    lemma_trim_end_keeps_front(h);
}

proof fn lemma_trim_end_keeps_front(h: Seq<char>)
    requires
        h.len() > 0,
        !text::white_space(h[0]),
    ensures
        text::trim_end(h).len() > 0,
        text::trim_end(h)[0] == h[0],
    decreases h.len(),
{
    if text::white_space(h.last()) {
        lemma_trim_end_keeps_front(h.drop_last());
    }
}

/// A registry that was written is read back as what it records.
pub proof fn a_written_registry_reads_back(content: Seq<char>, m: Map<Seq<char>, Seq<char>>)
    requires
        records(content, m),
        recordable(m),
    ensures
        registry_of(content) == m,
{
    let l = choose|l: Seq<(Seq<char>, Seq<char>)>| #[trigger]
        lists(l, m) && content == registry_text(l);
    lemma_header();
    let h = choose|h: Seq<char>|
        #![trigger h.len()]
        header_line() == h + "\n"@ && h.len() > 0 && h[0] == '#' && h.last() != '\r' && (forall|
            i: int,
        |
            0 <= i < h.len() ==> h[i] != '\n');
    lemma_first_line(h, entry_lines(l));
    assert(content =~= h + "\n"@ + entry_lines(l));
    assert forall|i: int| 0 <= i < l.len() implies is_entry((#[trigger] l[i]).0, l[i].1) by {
        assert(m.dom().contains(l[i].0));
    }
    lemma_lines_of_entries(l);
    lemma_comment(h);
    let first = seq![h];
    assert(first.drop_last() =~= Seq::empty());
    assert(first.last() == h);
    assert(entries_of(Seq::<Seq<char>>::empty()) =~= Map::empty());
    assert(entries_of(first) =~= Map::empty());
    lemma_entries_listed(l, m, first);
}

/// The words of a text are words.
proof fn lemma_words(s: Seq<char>)
    ensures
        forall|i: int| 0 <= i < text::words(s).len() ==> is_word(#[trigger] text::words(s)[i]),
        s.len() > 0 && !text::white_space(s[0]) ==> text::words(s).len() > 0 && text::words(
            s,
        )[0][0] == s[0],
    decreases s.len(),
{
    if s.len() > 0 {
        if text::white_space(s[0]) {
            lemma_words(s.drop_first());
            assert(text::words(s) == text::words(s.drop_first()));
        } else {
            let end = text::word_end(s, 0);
            lemma_word_end(s, 0);
            let w = s.subrange(0, end);
            let rest = s.subrange(end, s.len() as int);
            assert forall|j: int| 0 <= j < w.len() implies !text::white_space(#[trigger] w[j]) by {
                assert(w[j] == s[j]);
            }
            lemma_words(rest);
            let all = text::words(s);
            assert(all == seq![w] + text::words(rest));
            assert forall|i: int| 0 <= i < all.len() implies is_word(#[trigger] all[i]) by {
                if i > 0 {
                    assert(all[i] == text::words(rest)[i - 1]);
                } else {
                    assert(all[i] == w);
                }
            }
        }
    } else {
        assert(text::words(s).len() == 0);
    }
}

proof fn lemma_word_end(s: Seq<char>, i: int)
    requires
        0 <= i <= s.len(),
    ensures
        i <= text::word_end(s, i) <= s.len(),
        forall|j: int| i <= j < text::word_end(s, i) ==> !text::white_space(#[trigger] s[j]),
        i < s.len() && !text::white_space(s[i]) ==> i < text::word_end(s, i),
    decreases s.len() - i,
{
    if i < s.len() && !text::white_space(s[i]) {
        lemma_word_end(s, i + 1);
    }
}

proof fn lemma_latest_is_word()
    ensures
        is_word(latest()),
{
    reveal_strlit("latest");
}

proof fn lemma_entries_recordable(lines: Seq<Seq<char>>)
    ensures
        recordable(entries_of(lines)),
    decreases lines.len(),
{
    if lines.len() > 0 {
        lemma_entries_recordable(lines.drop_last());
        let t = text::trim(lines.last());
        lemma_words(t);
        text::lemma_trim(lines.last());
        lemma_latest_is_word();
        let m = entries_of(lines);
        let rest = entries_of(lines.drop_last());
        assert forall|name: Seq<char>| #[trigger] m.dom().contains(name) implies is_entry(
            name,
            m[name],
        ) by {
            match line_entry(lines.last()) {
                Some((new, version)) => {
                    assert(is_word(text::words(t)[0]));
                    if name != new {
                        assert(rest.dom().contains(name));
                    }
                },
                None => {
                    assert(rest.dom().contains(name));
                },
            }
        }
    }
}

/// Whatever a registry records can be recorded again.
pub proof fn what_is_read_can_be_written(content: Seq<char>)
    ensures
        recordable(registry_of(content)),
        writable(registry_of(content)) == registry_of(content),
{
    lemma_entries_recordable(text::lines(content));
    lemma_writable(registry_of(content));
}

proof fn lemma_writable(m: Map<Seq<char>, Seq<char>>)
    requires
        recordable(m),
    ensures
        writable(m) == m,
{
    let w = writable(m);
    assert forall|name: Seq<char>| w.dom().contains(name) == #[trigger] m.dom().contains(name) by {}
    assert forall|name: Seq<char>| #[trigger] m.dom().contains(name) implies w[name] == m[name] by {}
    assert(w =~= m);
}

/// Installing a harness changes its version and no other: the registry that is written is read
/// back with that one entry set.
pub proof fn installing_sets_one_entry(
    content: Seq<char>,
    name: Seq<char>,
    version: Seq<char>,
    written: Seq<char>,
)
    requires
        is_entry(name, version),
        records(written, writable(registry_of(content).insert(name, version))),
    ensures
        registry_of(written) == registry_of(content).insert(name, version),
{
    let m = registry_of(content);
    what_is_read_can_be_written(content);
    let n = m.insert(name, version);
    assert forall|other: Seq<char>| #[trigger] n.dom().contains(other) implies is_entry(
        other,
        n[other],
    ) by {
        if other != name {
            assert(m.dom().contains(other));
        }
    }
    lemma_writable(n);
    a_written_registry_reads_back(written, n);
}

/// Removing a harness removes its entry and no other.
pub proof fn removing_drops_one_entry(content: Seq<char>, name: Seq<char>, written: Seq<char>)
    requires
        records(written, writable(registry_of(content).remove(name))),
    ensures
        registry_of(written) == registry_of(content).remove(name),
{
    let m = registry_of(content);
    what_is_read_can_be_written(content);
    let n = m.remove(name);
    assert forall|other: Seq<char>| #[trigger] n.dom().contains(other) implies is_entry(
        other,
        n[other],
    ) by {
        assert(m.dom().contains(other));
    }
    lemma_writable(n);
    a_written_registry_reads_back(written, n);
}

} // verus!
