//! Bounded, strict reads of policy files and decisions that fail closed.
use crate::domain::policy;
use crate::domain::policy::{
    parse_domain_layer_at, parse_local_layer_at, parse_mode, EntryModel, Mode, PolicyEntry,
    PolicySnapshot, PublicDecision, SnapshotModel,
};
use crate::domain::target::{LoopbackAuthority, LoopbackModel, PublicHost};
use crate::octets;
use crate::text;
use crate::text::{characters, extend, from_utf8, string_of};
use crate::unique::UniqueSet;
use vstd::prelude::*;
use vstd::utf8::*;

verus! {

/// The most octets that a policy file may hold.
pub const MAX_POLICY_BYTES: usize = 1048576;

/// A message of the form `<action> <kind> at <path><rest>`.
pub open spec fn file_message(
    action: Seq<char>,
    kind: Seq<char>,
    path: Seq<char>,
    rest: Seq<char>,
) -> Seq<char> {
    action + kind + " at "@ + path + rest
}

/// The message for a step on a policy file that failed.
pub fn describe(action: &str, kind: &str, path: &str, rest: &str) -> (r: String)
    ensures
        r@ == file_message(action@, kind@, path@, rest@),
{
    let mut out = string_of(characters(action).as_slice());
    extend(&mut out, kind);
    extend(&mut out, " at ");
    extend(&mut out, path);
    extend(&mut out, rest);
    out
}

/// Whether an opened policy file may be read at all: it is a regular file of at most 1 MiB.
pub fn admit_policy_file(kind: &str, path: &str, regular: bool, length: u64) -> (r: Result<
    (),
    String,
>)
    ensures
        match r {
            Ok(_) => regular && length <= MAX_POLICY_BYTES,
            Err(e) => if !regular {
                e@ == file_message(""@, kind@, path@, " is not a regular file"@)
            } else {
                length > MAX_POLICY_BYTES && e@ == file_message(
                    ""@,
                    kind@,
                    path@,
                    " exceeds 1 MiB"@,
                )
            },
        },
{
    if !regular {
        return Err(describe("", kind, path, " is not a regular file"));
    }
    if length > 1048576 {
        return Err(describe("", kind, path, " exceeds 1 MiB"));
    }
    Ok(())
}

/// The text of a policy file from the octets that were read: at most 1 MiB of valid UTF-8.
pub fn decode_policy_bytes(kind: &str, path: &str, bytes: Vec<u8>) -> (r: Result<String, String>)
    ensures
        match r {
            Ok(text) => bytes@.len() <= MAX_POLICY_BYTES && valid_utf8(bytes@) && octets::octets(
                text@,
            ) == bytes@,
            Err(e) => if bytes@.len() > MAX_POLICY_BYTES {
                e@ == file_message(""@, kind@, path@, " exceeds 1 MiB"@)
            } else {
                !valid_utf8(bytes@) && e@ == file_message("decode "@, kind@, path@, " as UTF-8"@)
            },
        },
{
    if bytes.len() > MAX_POLICY_BYTES {
        return Err(describe("", kind, path, " exceeds 1 MiB"));
    }
    match from_utf8(bytes) {
        Some(text) => Ok(text),
        None => Err(describe("decode ", kind, path, " as UTF-8")),
    }
}

/// A policy file with its text, or with the message for why it could not be read.
#[derive(Debug)]
pub struct StrictFile {
    pub path: String,
    pub contents: Result<String, String>,
}

pub struct StrictModel {
    pub path: Seq<char>,
    pub contents: Result<Seq<char>, Seq<char>>,
}

impl View for StrictFile {
    type V = StrictModel;

    open spec fn view(&self) -> StrictModel {
        StrictModel {
            path: self.path@,
            contents: match self.contents {
                Ok(text) => Ok(text@),
                Err(error) => Err(error@),
            },
        }
    }
}

pub open spec fn strict_models(s: Seq<StrictFile>) -> Seq<StrictModel> {
    Seq::new(s.len(), |i: int| s[i]@)
}

/// What the public layers from index `i` on add to `acc`, or the first failure.
pub open spec fn strict_domains_from(
    layers: Seq<StrictModel>,
    i: int,
    acc: Set<EntryModel>,
) -> Result<Set<EntryModel>, Seq<char>>
    decreases layers.len() - i,
{
    if i < 0 || i >= layers.len() {
        Ok(acc)
    } else {
        match layers[i].contents {
            Err(error) => Err(error),
            Ok(contents) => match policy::domain_layer(text::lines(contents)) {
                None => Err(
                    policy::malformed_text(
                        "malformed public policy layer "@,
                        i as nat,
                        layers[i].path,
                        (policy::first_bad_entry(text::lines(contents), 0) + 1) as nat,
                    ),
                ),
                Some(entries) => strict_domains_from(layers, i + 1, acc.union(entries)),
            },
        }
    }
}

/// What the local layers from index `i` on add to `acc`, or the first failure.
pub open spec fn strict_locals_from(
    layers: Seq<StrictModel>,
    i: int,
    acc: Set<LoopbackModel>,
) -> Result<Set<LoopbackModel>, Seq<char>>
    decreases layers.len() - i,
{
    if i < 0 || i >= layers.len() {
        Ok(acc)
    } else {
        match layers[i].contents {
            Err(error) => Err(error),
            Ok(contents) => match policy::local_layer(text::lines(contents)) {
                None => Err(
                    policy::malformed_text(
                        "malformed local policy layer "@,
                        i as nat,
                        layers[i].path,
                        (policy::first_bad_authority(text::lines(contents), 0) + 1) as nat,
                    ),
                ),
                Some(entries) => strict_locals_from(layers, i + 1, acc.union(entries)),
            },
        }
    }
}

/// The public policy of files that must all be valid. The layers are looked at before the mode, and
/// a mode that would only earn a warning elsewhere is a failure here.
pub open spec fn strict_public(layers: Seq<StrictModel>, mode: StrictModel) -> Result<
    SnapshotModel,
    Seq<char>,
> {
    if layers.len() == 0 {
        Err("public policy has no layers"@)
    } else {
        match strict_domains_from(layers, 0, Set::empty()) {
            Err(error) => Err(error),
            Ok(public) => match mode.contents {
                Err(error) => Err(error),
                Ok(contents) => if policy::mode_file(contents).1 is Some {
                    Err("validate policy mode at "@ + mode.path)
                } else {
                    Ok(
                        SnapshotModel {
                            mode: policy::mode_file(contents).0,
                            public,
                            local: Set::empty(),
                        },
                    )
                },
            },
        }
    }
}

fn copied(s: &String) -> (r: String)
    ensures
        r@ == s@,
{
    string_of(characters(s.as_str()).as_slice())
}

/// Loads every public layer and the mode.
pub fn load_public_strict(layers: &[StrictFile], mode: &StrictFile) -> (r: Result<
    PolicySnapshot,
    String,
>)
    ensures
        match r {
            Ok(snapshot) => strict_public(strict_models(layers@), mode@) == Ok::<
                SnapshotModel,
                Seq<char>,
            >(snapshot@),
            Err(e) => strict_public(strict_models(layers@), mode@) == Err::<
                SnapshotModel,
                Seq<char>,
            >(e@),
        },
{
    if layers.len() == 0 {
        return Err(string_of(characters("public policy has no layers").as_slice()));
    }
    let ghost all = strict_models(layers@);
    let mut set: UniqueSet<PolicyEntry> = UniqueSet::new();
    let mut i: usize = 0;
    while i < layers.len()
        invariant
            i <= layers@.len(),
            layers@.len() > 0,
            all == strict_models(layers@),
            strict_domains_from(all, 0, Set::empty()) == strict_domains_from(all, i as int, set@),
        decreases layers@.len() - i,
    {
        assert(all[i as int] == layers@[i as int]@);
        match &layers[i].contents {
            Err(error) => {
                return Err(copied(error));
            },
            Ok(contents) => match parse_domain_layer_at(
                contents.as_str(),
                layers[i].path.as_str(),
                i,
            ) {
                Err(error) => {
                    return Err(error);
                },
                Ok(entries) => {
                    set.extend(entries);
                },
            },
        }
        i += 1;
    }
    match &mode.contents {
        Err(error) => Err(copied(error)),
        Ok(contents) => match parse_mode(contents.as_str()) {
            (value, None) => Ok(PolicySnapshot::with(value, set, UniqueSet::new())),
            (_, Some(_)) => {
                let mut out = string_of(characters("validate policy mode at ").as_slice());
                extend(&mut out, mode.path.as_str());
                Err(out)
            },
        },
    }
}

/// Loads all three local layers.
pub fn load_local_strict(layers: &[StrictFile; 3]) -> (r: Result<PolicySnapshot, String>)
    ensures
        match r {
            Ok(snapshot) => strict_locals_from(strict_models(layers@), 0, Set::empty()) == Ok::<
                Set<LoopbackModel>,
                Seq<char>,
            >(snapshot@.local) && snapshot@.mode == Mode::Enforce && snapshot@.public == Set::<
                EntryModel,
            >::empty(),
            Err(e) => strict_locals_from(strict_models(layers@), 0, Set::empty()) == Err::<
                Set<LoopbackModel>,
                Seq<char>,
            >(e@),
        },
{
    let ghost all = strict_models(layers@);
    let mut set: UniqueSet<LoopbackAuthority> = UniqueSet::new();
    let mut i: usize = 0;
    while i < 3
        invariant
            i <= 3,
            all == strict_models(layers@),
            strict_locals_from(all, 0, Set::empty()) == strict_locals_from(all, i as int, set@),
        decreases 3 - i,
    {
        assert(all[i as int] == layers@[i as int]@);
        match &layers[i].contents {
            Err(error) => {
                return Err(copied(error));
            },
            Ok(contents) => match parse_local_layer_at(
                contents.as_str(),
                layers[i].path.as_str(),
                i,
            ) {
                Err(error) => {
                    return Err(error);
                },
                Ok(entries) => {
                    set.extend(entries);
                },
            },
        }
        i += 1;
    }
    Ok(PolicySnapshot::with(Mode::Enforce, UniqueSet::new(), set))
}

/// The decision for a public host. A policy that could not be loaded enforces and grants nothing.
pub fn decide_public_live(loaded: &Result<PolicySnapshot, String>, host: &PublicHost) -> (r:
    PublicDecision)
    ensures
        r == (match *loaded {
            Ok(snapshot) => policy::decision_for(
                snapshot@.mode,
                policy::host_granted(snapshot@.public, host@),
            ),
            Err(_) => (PublicDecision {
                allowed: false,
                record_denial: true,
                mode: Mode::Enforce,
            }),
        }),
{
    match loaded {
        Ok(snapshot) => snapshot.decide_public(host),
        Err(_) => PublicDecision { allowed: false, record_denial: true, mode: Mode::Enforce },
    }
}

/// The decision for a loopback authority. A policy that could not be loaded grants nothing.
pub fn decide_local_live(
    loaded: &Result<PolicySnapshot, String>,
    authority: &LoopbackAuthority,
) -> (r: bool)
    ensures
        r == (*loaded matches Ok(snapshot) && snapshot@.local.contains(authority@)),
{
    match loaded {
        Ok(snapshot) => snapshot.decide_local(authority),
        Err(_) => false,
    }
}

} // verus!
