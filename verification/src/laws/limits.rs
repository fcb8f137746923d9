//! How much is taken at most, and what is said of what is not taken.
use crate::boundary;
use crate::cli::registry;
use crate::connect::broker;
use crate::connect::pool;
use crate::connect::public;
use crate::domain::policy;
use crate::domain::policy::{EntryModel, LayerModel, SnapshotModel};
use crate::domain::policy::reader;
use crate::domain::target;
use crate::domain::target::LoopbackModel;
use crate::octets;
use crate::server::http1;
use crate::server::ingress;
use crate::server::listener;
use crate::server::relay;
use crate::server::response;
use crate::server::router;
use crate::text;
use vstd::prelude::*;

verus! {

/// The sizes fit together: a connection buffers a request line and a header section of the largest
/// size, a response frame fits into a buffer with its chunk prefix and its line end, and a direction
/// of a tunnel holds what it began with and one buffer more.
pub proof fn the_sizes_fit_together()
    ensures
        http1::REQUEST_LINE_LIMIT == 8192,
        http1::CHUNK_LINE_LIMIT == 8192,
        http1::HEADER_SECTION_LIMIT == 65536,
        http1::APPLICATION_BUFFER_LIMIT == 65536,
        http1::REQUEST_BODY_FRAME_LIMIT == 32768,
        http1::CONNECTION_BUFFER_LIMIT == http1::REQUEST_LINE_LIMIT + http1::HEADER_SECTION_LIMIT,
        http1::RESPONSE_BODY_FRAME_LIMIT + http1::CHUNK_PREFIX_LIMIT
            == http1::APPLICATION_BUFFER_LIMIT,
        http1::CHUNK_PREFIX_LIMIT == 18,
        relay::RELAY_BUFFER_BYTES == 32768,
        relay::MAX_PREFIX_BYTES == 32768,
        relay::MAX_DIRECTION_BUFFER_BYTES == relay::MAX_PREFIX_BYTES + relay::RELAY_BUFFER_BYTES,
        response::MAX_GENERIC_BODY_BYTES == 1024,
        boundary::MAX_BROKER_FRAME_SIZE == 256,
        broker::MAX_RESPONSE_BYTES == 4,
        router::MAX_MODE_BYTES == 8,
        reader::MAX_POLICY_BYTES == 1024 * 1024,
        crate::public::MAX_RESPONSE_BYTES == 8 * 1024 * 1024,
        public::MAX_DNS_ANSWERS == 64,
        registry::MAX_TAG_PAGES == 50,
        pool::IDLE_POOL_CAPACITY == 64,
        listener::MAX_CONNECTIONS == 64,
{
}

/// The times in milliseconds. The handshake with a broker lasts as long as the answer to a request
/// and the connection that it asks for together.
pub proof fn the_times_fit_together()
    ensures
        broker::CONNECT_HANDSHAKE_TIMEOUT == broker::READY_TIMEOUT + broker::CONNECT_TIMEOUT,
        broker::READY_TIMEOUT == 3000,
        broker::CONNECT_TIMEOUT == 10000,
        public::CONNECT_DEADLINE == 10000,
        crate::public::RESOLVE_TIMEOUT == 10000,
        crate::public::DIAL_TIMEOUT == 10000,
        crate::public::HTTP_TIMEOUT == 30000,
        pool::IDLE_POOL_LIFETIME == 60000,
        listener::CONNECTION_DRAIN_TIMEOUT == 800,
{
}

/// A read fills what is left of its limit and of the buffer, in steps of at most 8192 octets, and
/// never more.
pub proof fn a_read_stays_within_its_limit(buffered: nat, limit: nat)
    ensures
        ({
            let r = ingress::read_room(buffered, limit);
            &&& r <= 8192
            &&& r > 0 <==> buffered < limit && buffered < 73728
            &&& r > 0 ==> buffered + r <= limit && buffered + r <= 73728
            &&& 0 < r < 8192 ==> buffered + r == limit || buffered + r == 73728
        }),
        ({
            let r = ingress::prefetch_octets(buffered, limit);
            &&& r <= 65536
            &&& r > 0 <==> buffered < limit && buffered < 73728
            &&& r > 0 ==> buffered + r <= limit && buffered + r <= 73728
            &&& 0 < r < 65536 ==> buffered + r == limit || buffered + r == 73728
        }),
{
}

/// A name that a line stores is plain: it holds letters in lower case, digits, hyphens, underscores
/// and dots, a letter or a digit among them.
pub proof fn a_stored_name_is_plain(line: Seq<char>, name: Seq<u8>)
    requires
        policy::entry_of(line) == Some(EntryModel::Domain(name)),
    ensures
        name.len() > 0,
        forall|i: int|
            0 <= i < name.len() ==> 97 <= #[trigger] name[i] <= 122 || 48 <= name[i] <= 57 || name[i]
                == '-' as u8 || name[i] == '_' as u8 || name[i] == '.' as u8,
        exists|i: int|
            0 <= i < name.len() && (97 <= #[trigger] name[i] <= 122 || 48 <= name[i] <= 57),
{
    let t = policy::trim_dots(text::trim(policy::strip_star(text::trim(line))));
    let b = octets::octets(t);
    assert(policy::pattern_of(line) == Some(name));
    assert(name == octets::lower(b));
    assert forall|i: int| 0 <= i < name.len() implies 97 <= #[trigger] name[i] <= 122 || 48
        <= name[i] <= 57 || name[i] == '-' as u8 || name[i] == '_' as u8 || name[i] == '.' as u8 by {
        assert(name[i] == octets::lower_octet(b[i]));
        assert(octets::is_alnum(b[i]) || b[i] == '-' as u8 || b[i] == '_' as u8 || b[i] == '.' as u8);
    }
    let i = choose|i: int| 0 <= i < b.len() && octets::is_alnum(#[trigger] b[i]);
    assert(name[i] == octets::lower_octet(b[i]));
}

proof fn lemma_first_bad_entry(lines: Seq<Seq<char>>, from: int, at: int)
    requires
        0 <= from <= at < lines.len(),
        policy::entry_of(lines[at]) is None,
        forall|j: int| from <= j < at ==> policy::entry_of(#[trigger] lines[j]) is Some,
    ensures
        policy::first_bad_entry(lines, from) == at,
    decreases at - from,
{
    if from < at {
        assert(policy::entry_of(lines[from]) is Some);
        lemma_first_bad_entry(lines, from + 1, at);
    }
}

proof fn lemma_first_bad_authority(lines: Seq<Seq<char>>, from: int, at: int)
    requires
        0 <= from <= at < lines.len(),
        target::loopback_of(lines[at]) is Err,
        forall|j: int| from <= j < at ==> target::loopback_of(#[trigger] lines[j]) is Ok,
    ensures
        policy::first_bad_authority(lines, from) == at,
    decreases at - from,
{
    if from < at {
        assert(target::loopback_of(lines[from]) is Ok);
        lemma_first_bad_authority(lines, from + 1, at);
    }
}

/// Every line of the file is an entry.
pub open spec fn is_clean(layer: LayerModel) -> bool {
    layer.contents matches Some(contents) && forall|i: int|
        0 <= i < text::lines(contents).len() ==> policy::entry_of(
            #[trigger] text::lines(contents)[i],
        ) is Some
}

/// Every line of the file is a loopback destination.
pub open spec fn is_clean_local(layer: LayerModel) -> bool {
    layer.contents matches Some(contents) && forall|i: int|
        0 <= i < text::lines(contents).len() ==> target::loopback_of(
            #[trigger] text::lines(contents)[i],
        ) is Ok
}

proof fn lemma_layers_to(
    layers: Seq<LayerModel>,
    from: int,
    k: int,
    acc: Set<EntryModel>,
    refusal: Seq<char>,
)
    requires
        0 <= from <= k < layers.len(),
        forall|j: int| from <= j < k ==> is_clean(#[trigger] layers[j]),
        forall|all: Set<EntryModel>| #[trigger]
            policy::domain_layers_from(layers, k, all) == Err::<Set<EntryModel>, Seq<char>>(refusal),
    ensures
        policy::domain_layers_from(layers, from, acc) == Err::<Set<EntryModel>, Seq<char>>(refusal),
    decreases k - from,
{
    if from < k {
        assert(is_clean(layers[from]));
        let entries = policy::domain_layer(text::lines(layers[from].contents->0));
        assert(entries is Some);
        lemma_layers_to(layers, from + 1, k, acc.union(entries->0), refusal);
    }
}

proof fn lemma_local_layers_to(
    layers: Seq<LayerModel>,
    from: int,
    k: int,
    acc: Set<LoopbackModel>,
    refusal: Seq<char>,
)
    requires
        0 <= from <= k < layers.len(),
        forall|j: int| from <= j < k ==> is_clean_local(#[trigger] layers[j]),
        forall|all: Set<LoopbackModel>| #[trigger]
            policy::local_layers_from(layers, k, all) == Err::<Set<LoopbackModel>, Seq<char>>(refusal),
    ensures
        policy::local_layers_from(layers, from, acc) == Err::<Set<LoopbackModel>, Seq<char>>(refusal),
    decreases k - from,
{
    if from < k {
        assert(is_clean_local(layers[from]));
        let entries = policy::local_layer(text::lines(layers[from].contents->0));
        assert(entries is Some);
        lemma_local_layers_to(layers, from + 1, k, acc.union(entries->0), refusal);
    }
}

/// The first line that is no entry spoils the whole public policy, and the refusal names its file by
/// number and path and the line by its number, from one on.
pub proof fn the_first_malformed_line_is_named(
    layers: Seq<LayerModel>,
    mode: LayerModel,
    k: int,
    line: int,
)
    requires
        mode.contents is Some,
        0 <= k < layers.len(),
        forall|j: int| 0 <= j < k ==> is_clean(#[trigger] layers[j]),
        layers[k].contents is Some,
        0 <= line < text::lines(layers[k].contents->0).len(),
        forall|j: int|
            0 <= j < line ==> policy::entry_of(
                #[trigger] text::lines(layers[k].contents->0)[j],
            ) is Some,
        policy::entry_of(text::lines(layers[k].contents->0)[line]) is None,
    ensures
        policy::public_snapshot(layers, mode) == Err::<(SnapshotModel, Option<Seq<char>>), Seq<char>>(
            "malformed public policy layer "@ + text::number_text(k as nat) + " at "@
                + layers[k].path + " line "@ + text::number_text((line + 1) as nat),
        ),
{
    let lines = text::lines(layers[k].contents->0);
    lemma_first_bad_entry(lines, 0, line);
    assert(policy::domain_layer(lines) is None);
    let refusal = "malformed public policy layer "@ + text::number_text(k as nat) + " at "@
        + layers[k].path + " line "@ + text::number_text((line + 1) as nat);
    lemma_layers_to(layers, 0, k, Set::empty(), refusal);
}

/// So does the first line of the local policy that is no loopback destination.
pub proof fn the_first_malformed_local_line_is_named(
    layers: Seq<LayerModel>,
    k: int,
    line: int,
)
    requires
        0 <= k < layers.len(),
        forall|j: int| 0 <= j < k ==> is_clean_local(#[trigger] layers[j]),
        layers[k].contents is Some,
        0 <= line < text::lines(layers[k].contents->0).len(),
        forall|j: int|
            0 <= j < line ==> target::loopback_of(
                #[trigger] text::lines(layers[k].contents->0)[j],
            ) is Ok,
        target::loopback_of(text::lines(layers[k].contents->0)[line]) is Err,
    ensures
        policy::local_snapshot(layers) == Err::<SnapshotModel, Seq<char>>(
            "malformed local policy layer "@ + text::number_text(k as nat) + " at "@
                + layers[k].path + " line "@ + text::number_text((line + 1) as nat),
        ),
{
    let lines = text::lines(layers[k].contents->0);
    lemma_first_bad_authority(lines, 0, line);
    assert(policy::local_layer(lines) is None);
    let refusal = "malformed local policy layer "@ + text::number_text(k as nat) + " at "@
        + layers[k].path + " line "@ + text::number_text((line + 1) as nat);
    lemma_local_layers_to(layers, 0, k, Set::empty(), refusal);
}

/// A file that cannot be read spoils the policy that it belongs to, and the refusal names it. A
/// policy without files is none.
pub proof fn an_unreadable_file_is_named(layers: Seq<LayerModel>, mode: LayerModel, k: int)
    requires
        0 <= k < layers.len(),
        layers[k].contents is None,
    ensures
        mode.contents is Some && (forall|j: int| 0 <= j < k ==> is_clean(#[trigger] layers[j]))
            ==> policy::public_snapshot(layers, mode) == Err::<
            (SnapshotModel, Option<Seq<char>>),
            Seq<char>,
        >("read public policy layer "@ + text::number_text(k as nat) + " at "@ + layers[k].path),
        (forall|j: int| 0 <= j < k ==> is_clean_local(#[trigger] layers[j]))
            ==> policy::local_snapshot(layers) == Err::<SnapshotModel, Seq<char>>(
            "read local policy layer "@ + text::number_text(k as nat) + " at "@ + layers[k].path,
        ),
        mode.contents is None ==> policy::public_snapshot(layers, mode) == Err::<
            (SnapshotModel, Option<Seq<char>>),
            Seq<char>,
        >("read policy mode "@ + mode.path),
        mode.contents is Some ==> policy::public_snapshot(Seq::empty(), mode) is Err,
{
    if forall|j: int| 0 <= j < k ==> is_clean(#[trigger] layers[j]) {
        let refusal = "read public policy layer "@ + text::number_text(k as nat) + " at "@
            + layers[k].path;
        lemma_layers_to(layers, 0, k, Set::empty(), refusal);
    }
    if forall|j: int| 0 <= j < k ==> is_clean_local(#[trigger] layers[j]) {
        let refusal = "read local policy layer "@ + text::number_text(k as nat) + " at "@
            + layers[k].path;
        lemma_local_layers_to(layers, 0, k, Set::empty(), refusal);
    }
}

} // verus!
