//! What holds of every query that is forwarded.

use crate::addr::{IpAddr, SocketAddr};
use crate::answer;
use crate::cache::{self, CacheModel};
use crate::cache_laws;
use crate::cache_types::{self, Instant};
use crate::edns0;
use crate::forwarder::{
    self, ForwardFault, ForwardNews, ForwardStep, ForwarderModel, ForwarderStats, RunModel,
    TransactionId, MAX_FORWARD_RECORDS, MAX_RETRIES,
};
use crate::hash;
use crate::parser::{self, ParseFault};
use crate::parser_laws;
use crate::protocol::C_IN;
use crate::reply;
use crate::text;
use crate::wire;
use std::collections::hash_map::DefaultHasher;
use vstd::prelude::*;
use vstd::std_specs::hash::DefaultHasherAdditionalSpecFns;

verus! {

/// Whether an event can be what came of an action.
pub open spec fn comes_of(step: ForwardStep, news: ForwardNews) -> bool {
    match step {
        ForwardStep::Join => news is Joined || news is JoinLost,
        ForwardStep::SelectServer => news is NoServer || news is Server,
        ForwardStep::Transmit { .. } => news is Sent || news is NotSent,
        ForwardStep::Await { .. } => news is Reply || news is ReplyLost || news is TimedOut,
        ForwardStep::Finish { .. } => false,
    }
}

/// Events that can come one after the other for a query. Each one stands with the
/// state that it finds the forwarder in, which other queries may have changed.
pub open spec fn is_course(
    run: RunModel,
    step: ForwardStep,
    events: Seq<(ForwarderModel, ForwardNews)>,
) -> bool
    decreases events.len(),
{
    events.len() > 0 ==> {
        let (m, news) = events[0];
        let (_, next, then_step) = forwarder::advanced(m, run, news);
        &&& comes_of(step, news)
        &&& is_course(next, then_step, events.skip(1))
    }
}

/// How often a query is sent to a server.
pub open spec fn times_sent(run: RunModel, events: Seq<(ForwarderModel, ForwardNews)>) -> nat
    decreases events.len(),
{
    if events.len() == 0 {
        0
    } else {
        let (m, news) = events[0];
        let (_, next, then_step) = forwarder::advanced(m, run, news);
        times_sent(next, events.skip(1)) + if then_step is Transmit {
            1nat
        } else {
            0
        }
    }
}

/// How often a query can still be sent.
pub open spec fn attempts_left(run: RunModel, step: ForwardStep) -> int {
    match step {
        ForwardStep::Join => MAX_RETRIES + 1 - run.retry_count,
        ForwardStep::SelectServer => MAX_RETRIES + 1 - run.retry_count,
        ForwardStep::Transmit { .. } => MAX_RETRIES - run.retry_count,
        ForwardStep::Await { .. } => MAX_RETRIES - run.retry_count,
        ForwardStep::Finish { .. } => 0,
    }
}

/// How many events can still come for a query.
pub open spec fn events_left(run: RunModel, step: ForwardStep) -> int {
    match step {
        ForwardStep::Join => 3 * attempts_left(run, step) + 1,
        ForwardStep::SelectServer => 3 * attempts_left(run, step),
        ForwardStep::Transmit { .. } => 3 * attempts_left(run, step) + 2,
        ForwardStep::Await { .. } => 3 * attempts_left(run, step) + 1,
        ForwardStep::Finish { .. } => 0,
    }
}

/// A query that goes on is sent no more than four times in all, and comes to its
/// end: after each event fewer can follow.
pub proof fn law_query_comes_to_an_end(
    run: RunModel,
    step: ForwardStep,
    events: Seq<(ForwarderModel, ForwardNews)>,
)
    requires
        run.wf(),
        is_course(run, step, events),
    ensures
        times_sent(run, events) <= attempts_left(run, step) <= MAX_RETRIES + 1,
        events.len() <= events_left(run, step) <= 13,
    decreases events.len(),
{
    if events.len() > 0 {
        let (m, news) = events[0];
        let (_, next, then_step) = forwarder::advanced(m, run, news);
        law_query_comes_to_an_end(next, then_step, events.skip(1));
    }
}

/// Every query under way is filed under its number and its client.
pub open spec fn is_filed(m: ForwarderModel) -> bool {
    forall|id: TransactionId| #[trigger]
        m.records.contains_key(id) ==> id == forwarder::transaction_of(
            m.records[id].new_query_id,
            m.records[id].source_addr,
        )
}

/// Queries stay filed under their numbers and clients, and there are never more
/// than the limit.
pub proof fn law_records_are_in_order(m: ForwarderModel, run: RunModel, news: ForwardNews)
    requires
        m.records.dom().finite(),
        m.records.len() <= MAX_FORWARD_RECORDS,
        is_filed(m),
    ensures
        forwarder::advanced(m, run, news).0.records.dom().finite(),
        forwarder::advanced(m, run, news).0.records.len() <= MAX_FORWARD_RECORDS,
        is_filed(forwarder::advanced(m, run, news).0),
{
}

/// The same of records that are asked for alone.
pub proof fn law_new_records_are_in_order(
    m: ForwarderModel,
    id: u16,
    source: SocketAddr,
    dest: SocketAddr,
    now: Instant,
)
    requires
        m.records.dom().finite(),
        m.records.len() <= MAX_FORWARD_RECORDS,
        is_filed(m),
    ensures
        forwarder::allocated(m, id, source, dest, now).0.records.dom().finite(),
        forwarder::allocated(m, id, source, dest, now).0.records.len() <= MAX_FORWARD_RECORDS,
        is_filed(forwarder::allocated(m, id, source, dest, now).0),
{
}

/// A query that ends, and did not wait for another one, leaves nothing behind: its
/// question is no longer in flight, those who waited are told, and the record of
/// an attempt that was under way is free. Where none was, no record changes.
pub proof fn law_nothing_is_left(m: ForwarderModel, run: RunModel, news: ForwardNews)
    requires
        is_filed(m),
        !(news is Joined),
    ensures
        forwarder::advanced(m, run, news).2 matches ForwardStep::Finish { broadcast, .. } ==> {
            let after = forwarder::advanced(m, run, news).0;
            &&& broadcast == m.inflight.contains(run.key)
            &&& !after.inflight.contains(run.key)
            &&& news is NoServer || news is Server ==> after.records == m.records
            &&& !(news is NoServer || news is Server) ==> !after.records.contains_key(
                run.transaction_id,
            )
        },
{
}

/// A query that the cache holds an answer to is answered with it and goes no
/// further: nothing is in flight for it and no record is made. It counts as found
/// there.
pub proof fn law_cached_answer_is_given(
    m: ForwarderModel,
    cache: CacheModel,
    id: u16,
    recursion: bool,
    labels: Seq<Seq<u8>>,
    qtype: u16,
    source: SocketAddr,
    dest: SocketAddr,
    now: Instant,
)
    requires
        cache.wf(),
        m.cache_size > 0,
        m.stats.cache_hits < u64::MAX,
        parser_laws::is_name(labels),
        cache::resolved(cache, parser_laws::name_text(labels), qtype, now, 0).0 matches Some(slot)
            && answer::record_data(cache.slot(slot)->0.data).len() <= u16::MAX,
    ensures
        ({
            let packet = parser_laws::query_bytes(id, recursion, labels, qtype, C_IN);
            let request = (parser_laws::name_text(labels), qtype, C_IN);
            let found = cache::resolved(cache, request.0, qtype, now, 0).0->0;
            let (after, run, step) = forwarder::received(
                m,
                cache,
                packet,
                request,
                source,
                dest,
                now,
            );
            &&& parser::request_of(packet) == Ok::<(Seq<char>, u16, u16), ParseFault>(request)
            &&& step matches ForwardStep::Finish { result: Ok(reply), broadcast }
            &&& !broadcast
            &&& Some(reply) == answer::answer_of(packet, cache.slot(found)->0, now)
            &&& wire::be16(reply, 0) == id
            &&& run is None
            &&& after.records == m.records
            &&& after.inflight == m.inflight
            &&& after.stats.cache_hits == m.stats.cache_hits + 1
        }),
{
    let found = cache::resolved(cache, parser_laws::name_text(labels), qtype, now, 0).0->0;
    answer::law_answer_has_the_question(
        id,
        recursion,
        labels,
        qtype,
        cache.slot(found)->0,
        now,
    );
    parser_laws::law_question_is_read(id, recursion, labels, qtype, C_IN);
}

/// After a reply was taken, a query for one of the answers that the cache keeps is
/// answered out of the cache, as long as they last, there was room for them, no
/// alias leads away from the name, and what is found fits a message.
pub proof fn law_kept_reply_answers(
    m: ForwarderModel,
    before: CacheModel,
    after: CacheModel,
    reply: Seq<u8>,
    i: int,
    id: u16,
    recursion: bool,
    labels: Seq<Seq<u8>>,
    source: SocketAddr,
    dest: SocketAddr,
    now: Instant,
)
    requires
        m.cache_size > 0,
        m.stats.cache_hits < u64::MAX,
        parser_laws::is_name(labels),
        before.wf(),
        reply::is_stored(before, after, reply, now),
        reply::room(before) >= reply::reply_records(reply).len(),
        now < u64::MAX,
        forall|k: int|
            0 <= k < reply::reply_records(reply).len() ==> (#[trigger] reply::reply_records(
                reply,
            )[k]).ttl > 0,
        0 <= i < reply::reply_records(reply).len(),
        reply::reply_records(reply)[i].name == parser_laws::name_text(labels),
        cache_laws::alias_of(after, parser_laws::name_text(labels), now) is None,
        forall|s: usize|
            (#[trigger] after.slot(s)) matches Some(record) ==> answer::record_data(
                record.data,
            ).len() <= u16::MAX,
    ensures
        ({
            let qtype = reply::reply_records(reply)[i].rtype;
            let packet = parser_laws::query_bytes(id, recursion, labels, qtype, C_IN);
            let request = (parser_laws::name_text(labels), qtype, C_IN);
            let (_, run, step) = forwarder::received(m, after, packet, request, source, dest, now);
            &&& run is None
            &&& step matches ForwardStep::Finish { result: Ok(given), broadcast }
            &&& !broadcast
            &&& wire::be16(given, 0) == id
        }),
{
    let wanted = reply::reply_records(reply)[i];
    reply::law_reply_is_kept(before, after, reply, now, i);
    let s = choose|s: usize|
        (#[trigger] after.slot(s)) matches Some(record) && record.name@ == wanted.name
            && reply::says(record.data, wanted) && !cache_types::expired(record, now);
    cache_laws::law_kept_record_is_found(after, s, now);
    law_cached_answer_is_given(
        m,
        after,
        id,
        recursion,
        labels,
        wanted.rtype,
        source,
        dest,
        now,
    );
}

/// While a question is in flight, another query with the same one, in upper or
/// lower case, waits for its result and is not sent.
pub proof fn law_same_question_waits(
    m: ForwarderModel,
    first: Seq<u8>,
    second: Seq<u8>,
    source: SocketAddr,
    other: SocketAddr,
    dest: SocketAddr,
    names: (Seq<char>, Seq<char>),
    qtype: u16,
    qclass: u16,
)
    requires
        parser::request_of(first) matches Ok(a) && a == (names.0, qtype, qclass),
        parser::request_of(second) matches Ok(b) && b == (names.1, qtype, qclass),
        text::lowercase(names.0) == text::lowercase(names.1),
    ensures
        forwarder::begun(forwarder::begun(m, first, source, dest).0, second, other, dest).2 is Join,
{
}

/// What is sent to a server is the client's message with the options that are
/// configured, but for its number. Where none are, it is the client's message.
pub proof fn law_query_is_sent_on(
    m: ForwarderModel,
    run: RunModel,
    server: SocketAddr,
    id: u16,
    now: Instant,
    mac: Option<Seq<u8>>,
    device_mac: Option<Seq<u8>>,
)
    requires
        run.wf(),
    ensures
        ({
            let news = ForwardNews::Server { server, new_query_id: id, now, mac, device_mac };
            let sent = forwarder::outgoing(m, run, mac, device_mac);
            &&& forwarder::advanced(m, run, news).2 matches ForwardStep::Transmit {
                packet,
                server: to,
            } ==> {
                &&& to == server
                &&& packet.len() == sent.len()
                &&& wire::be16(packet, 0) == id
                &&& forall|i: int| 2 <= i < packet.len() ==> packet[i] == sent[i]
            }
            &&& edns0::config_options(run.source_addr.ip, m.options, mac, device_mac).len() == 0
                ==> sent == run.packet
        }),
{
    wire::law_u16_round_trip(id);
    edns0::lemma_with_options_len(
        run.packet,
        edns0::config_options(run.source_addr.ip, m.options, mac, device_mac),
        m.payload_size,
    );
}

/// A reply with the questions of the query that was sent is the answer of the
/// client, with the number that the client gave.
pub proof fn law_reply_is_answered(
    m: ForwarderModel,
    later: ForwarderModel,
    run: RunModel,
    server: SocketAddr,
    id: u16,
    now: Instant,
    mac: Option<Seq<u8>>,
    device_mac: Option<Seq<u8>>,
    reply: Seq<u8>,
    came: Instant,
)
    requires
        run.wf(),
        forwarder::advanced(
            m,
            run,
            ForwardNews::Server { server, new_query_id: id, now, mac, device_mac },
        ).2 is Transmit,
        later.records.contains_key(forwarder::transaction_of(id, run.source_addr)),
        later.records[forwarder::transaction_of(id, run.source_addr)] == forwarder::advanced(
            m,
            run,
            ForwardNews::Server { server, new_query_id: id, now, mac, device_mac },
        ).0.records[forwarder::transaction_of(id, run.source_addr)],
        hash::questions_material(reply) == hash::questions_material(run.packet),
    ensures
        ({
            let sent = forwarder::advanced(
                m,
                run,
                ForwardNews::Server { server, new_query_id: id, now, mac, device_mac },
            ).1;
            forwarder::advanced(
                later,
                sent,
                ForwardNews::Reply { packet: reply, now: came },
            ).2 matches
                ForwardStep::Finish { result, .. } && result == Ok::<Seq<u8>, ForwardFault>(
                forwarder::with_id(reply, wire::be16(run.packet, 0)),
            )
        }),
{
}

/// A reply with other questions than the query that was sent, as far as their
/// digests tell, fails the query for good.
pub proof fn law_other_reply_is_refused(
    m: ForwarderModel,
    run: RunModel,
    reply: Seq<u8>,
    now: Instant,
)
    requires
        m.records.contains_key(run.transaction_id),
        forwarder::query_digest(reply) != Some(m.records[run.transaction_id].query_hash),
    ensures
        forwarder::advanced(m, run, ForwardNews::Reply { packet: reply, now }).2 matches
            ForwardStep::Finish { result, .. } && result is Err,
{
}

/// Nothing that was counted is taken back.
pub open spec fn counts_on(before: ForwarderStats, after: ForwarderStats) -> bool {
    &&& before.total_queries <= after.total_queries
    &&& before.upstream_queries <= after.upstream_queries
    &&& before.retries <= after.retries
    &&& before.timeouts <= after.timeouts
    &&& before.cache_hits <= after.cache_hits
    &&& before.cache_misses <= after.cache_misses
    &&& before.successful_forwards <= after.successful_forwards
    &&& before.failed_forwards <= after.failed_forwards
}

/// The numbers of what has happened only grow, and a query that ends after it was
/// waited for counts once, as one that succeeded or as one that failed.
pub proof fn law_counts_only_grow(m: ForwarderModel, run: RunModel, news: ForwardNews)
    requires
        m.stats.has_room(),
    ensures
        counts_on(m.stats, forwarder::advanced(m, run, news).0.stats),
        (news is Reply || news is ReplyLost || news is TimedOut) ==> {
            let (after, _, step) = forwarder::advanced(m, run, news);
            after.stats.successful_forwards + after.stats.failed_forwards
                == m.stats.successful_forwards + m.stats.failed_forwards + if step is Finish {
                1int
            } else {
                0
            }
        },
{
}

// ---------------------------------------------------------------------------
// Which queries wait for one another
// ---------------------------------------------------------------------------

/// A query waits exactly where its question is in flight: its name in lower case, its
/// type and its class. Otherwise a server is picked for it, and that question, and no
/// other, is in flight from then on.
pub proof fn law_question_in_flight(
    m: ForwarderModel,
    packet: Seq<u8>,
    source: SocketAddr,
    dest: SocketAddr,
    name: Seq<char>,
    qtype: u16,
    qclass: u16,
)
    requires
        parser::request_of(packet) == Ok::<(Seq<char>, u16, u16), ParseFault>(
            (name, qtype, qclass),
        ),
    ensures
        ({
            let (after, run, step) = forwarder::begun(m, packet, source, dest);
            let waits = exists|k: (Seq<char>, u16, u16)|
                #[trigger] m.inflight.contains(k) && k.0 == text::lowercase(name) && k.1 == qtype
                    && k.2 == qclass;
            &&& waits ==> step is Join && after.inflight == m.inflight
            &&& !waits ==> step is SelectServer && forall|k: (Seq<char>, u16, u16)|
                #[trigger] after.inflight.contains(k) <==> m.inflight.contains(k) || (k.0
                    == text::lowercase(name) && k.1 == qtype && k.2 == qclass)
            &&& after.records == m.records
            &&& run matches Some(r) && r.packet == packet && r.source_addr == source
                && r.dest_addr == dest && r.query_name == name && r.retry_count == 0
        }),
{
    let key = forwarder::key_of(name, qtype, qclass);
    if m.inflight.contains(key) {
        assert(key.0 == text::lowercase(name));
    }
}

/// Of two queries that follow one another, the second waits for the first exactly where
/// both ask for the same type of the same name in the same class; the case of the name
/// does not count. Otherwise it is sent on its own.
pub proof fn law_waits_only_for_the_same_question(
    m: ForwarderModel,
    first: Seq<u8>,
    second: Seq<u8>,
    source: SocketAddr,
    other: SocketAddr,
    dest: SocketAddr,
    a: (Seq<char>, u16, u16),
    b: (Seq<char>, u16, u16),
)
    requires
        parser::request_of(first) == Ok::<(Seq<char>, u16, u16), ParseFault>(a),
        parser::request_of(second) == Ok::<(Seq<char>, u16, u16), ParseFault>(b),
        forall|k: (Seq<char>, u16, u16)| !#[trigger] m.inflight.contains(k),
    ensures
        ({
            let step = forwarder::begun(
                forwarder::begun(m, first, source, dest).0,
                second,
                other,
                dest,
            ).2;
            let same = text::lowercase(a.0) == text::lowercase(b.0) && a.1 == b.1 && a.2 == b.2;
            &&& step is Join <==> same
            &&& step is SelectServer <==> !same
        }),
{
    law_question_in_flight(m, first, source, dest, a.0, a.1, a.2);
    let middle = forwarder::begun(m, first, source, dest).0;
    law_question_in_flight(middle, second, other, dest, b.0, b.1, b.2);
    let mine = (text::lowercase(a.0), a.1, a.2);
    assert(middle.inflight.contains(mine));
}

/// Once a query has come to its end, the next one with its question is sent again.
pub proof fn law_question_can_be_asked_again(
    m: ForwarderModel,
    run: RunModel,
    news: ForwardNews,
    packet: Seq<u8>,
    source: SocketAddr,
    dest: SocketAddr,
    name: Seq<char>,
    qtype: u16,
    qclass: u16,
)
    requires
        !(news is Joined),
        forwarder::advanced(m, run, news).2 is Finish,
        run.key == (text::lowercase(name), qtype, qclass),
        parser::request_of(packet) == Ok::<(Seq<char>, u16, u16), ParseFault>(
            (name, qtype, qclass),
        ),
    ensures
        forwarder::begun(forwarder::advanced(m, run, news).0, packet, source, dest).2
            is SelectServer,
        forall|k: (Seq<char>, u16, u16)|
            k != run.key ==> (#[trigger] m.inflight.contains(k) <==> forwarder::advanced(
                m,
                run,
                news,
            ).0.inflight.contains(k)),
{
    let after = forwarder::advanced(m, run, news).0;
    law_question_in_flight(after, packet, source, dest, name, qtype, qclass);
}

/// A message that is too short or whose question cannot be read is not forwarded.
pub proof fn law_unreadable_query_is_not_forwarded(
    m: ForwarderModel,
    packet: Seq<u8>,
    source: SocketAddr,
    dest: SocketAddr,
)
    requires
        packet.len() < 12 || parser::request_of(packet) is Err,
    ensures
        ({
            let (after, run, step) = forwarder::begun(m, packet, source, dest);
            &&& run is None
            &&& step matches ForwardStep::Finish { result, broadcast } && result is Err
                && !broadcast
            &&& after.inflight == m.inflight
            &&& after.records == m.records
        }),
{
}

// ---------------------------------------------------------------------------
// Attempts
// ---------------------------------------------------------------------------

/// An attempt is written down with all that its reply needs: the number that it was
/// sent with and the one that the client gave, who asked and where, the server, the
/// time, and the digest of the client's questions. There are at most 5000 of them, and
/// a query that finds no room ends.
pub proof fn law_attempt_is_written_down(
    m: ForwarderModel,
    run: RunModel,
    server: SocketAddr,
    id: u16,
    now: Instant,
    mac: Option<Seq<u8>>,
    device_mac: Option<Seq<u8>>,
)
    requires
        run.wf(),
        m.stats.has_room(),
        hash::questions_material(run.packet) is Some,
    ensures
        ({
            let news = ForwardNews::Server { server, new_query_id: id, now, mac, device_mac };
            let (after, next, step) = forwarder::advanced(m, run, news);
            &&& m.records.len() >= 5000 ==> {
                &&& step matches ForwardStep::Finish { result, .. } && result == Err::<
                    Seq<u8>,
                    ForwardFault,
                >(ForwardFault::PoolExhausted)
                &&& after.records == m.records
            }
            &&& m.records.len() < 5000 ==> {
                &&& step is Transmit
                &&& after.inflight == m.inflight
                &&& after.records.contains_key(next.transaction_id)
                &&& after.records[next.transaction_id].new_query_id == id
                &&& after.records[next.transaction_id].orig_query_id == wire::be16(run.packet, 0)
                &&& after.records[next.transaction_id].source_addr == run.source_addr
                &&& after.records[next.transaction_id].dest_addr == run.dest_addr
                &&& after.records[next.transaction_id].upstream_server == Some(server)
                &&& after.records[next.transaction_id].sent_time == now
                &&& after.records[next.transaction_id].query_hash == hash::sha256(
                    hash::questions_material(run.packet)->0,
                )
                &&& after.records[next.transaction_id].retry_count == run.retry_count
                &&& forall|other: TransactionId|
                    other != next.transaction_id && #[trigger] m.records.contains_key(other)
                        ==> after.records.contains_key(other) && after.records[other]
                        == m.records[other]
                &&& after.stats.retries == m.stats.retries + if run.retry_count > 0 {
                    1int
                } else {
                    0
                }
                &&& next.packet == run.packet
                &&& next.key == run.key
                &&& next.retry_count == run.retry_count
            }
        }),
{
}

/// A query without a reply is tried again, three times at most; each time its attempt
/// is taken off the books. After that it has timed out.
pub proof fn law_lost_query_is_tried_again(m: ForwarderModel, run: RunModel, news: ForwardNews)
    requires
        run.wf(),
        m.stats.has_room(),
        news is TimedOut || news is ReplyLost,
    ensures
        ({
            let (after, next, step) = forwarder::advanced(m, run, news);
            &&& !after.records.contains_key(run.transaction_id)
            &&& forall|other: TransactionId|
                other != run.transaction_id && #[trigger] m.records.contains_key(other)
                    ==> after.records.contains_key(other) && after.records[other]
                    == m.records[other]
            &&& after.stats.timeouts == m.stats.timeouts + if news is TimedOut {
                1int
            } else {
                0
            }
            &&& run.retry_count < 3 ==> step is SelectServer && next.retry_count
                == run.retry_count + 1 && after.inflight == m.inflight && next.packet
                == run.packet && next.key == run.key
            &&& run.retry_count >= 3 ==> (step matches ForwardStep::Finish { result, .. }
                && result == Err::<Seq<u8>, ForwardFault>(ForwardFault::Timeout))
        }),
{
}

/// What is waited for is the reply to the last attempt: a tenth of a second first, then
/// twice as long each time.
pub proof fn law_wait_for_a_reply(m: ForwarderModel, run: RunModel)
    requires
        run.wf(),
        m.stats.has_room(),
    ensures
        ({
            let (after, next, step) = forwarder::advanced(m, run, ForwardNews::Sent);
            &&& next == run
            &&& after.records == m.records
            &&& after.inflight == m.inflight
            &&& after.stats.upstream_queries == m.stats.upstream_queries + 1
            &&& step matches ForwardStep::Await { transaction_id, timeout_ms } && transaction_id
                == run.transaction_id && timeout_ms == 100 * vstd::arithmetic::power2::pow2(
                run.retry_count,
            )
        }),
{
    forwarder::law_backoff_doubles(run.retry_count);
    vstd::arithmetic::power2::lemma2_to64();
}

/// A query that no server can be picked for, or that cannot be sent, ends with that
/// error. One that waited for another gets what that got.
pub proof fn law_query_ends(
    m: ForwarderModel,
    run: RunModel,
    error: Seq<char>,
    result: Result<Seq<u8>, ForwardFault>,
)
    ensures
        forwarder::advanced(m, run, ForwardNews::NoServer).2 matches ForwardStep::Finish {
            result: given,
            ..
        } && given == Err::<Seq<u8>, ForwardFault>(ForwardFault::ServerUnavailable),
        forwarder::advanced(m, run, ForwardNews::NotSent { error }).2 matches ForwardStep::Finish {
            result: given,
            ..
        } && given == Err::<Seq<u8>, ForwardFault>(ForwardFault::NetworkError(error)),
        forwarder::advanced(m, run, ForwardNews::Joined { result }).2 matches ForwardStep::Finish {
            result: given,
            ..
        } && given == result,
        forwarder::advanced(m, run, ForwardNews::Joined { result }).0 == m,
        forwarder::advanced(m, run, ForwardNews::JoinLost).2 is SelectServer,
        forwarder::advanced(m, run, ForwardNews::JoinLost).0 == m,
        forwarder::advanced(m, run, ForwardNews::JoinLost).1 == run,
{
}

/// A record that is asked for alone is refused exactly where there are 5000; else it is
/// filed with its number, its client and the time.
pub proof fn law_new_record(
    m: ForwarderModel,
    id: u16,
    source: SocketAddr,
    dest: SocketAddr,
    now: Instant,
)
    ensures
        ({
            let (after, r) = forwarder::allocated(m, id, source, dest, now);
            match r {
                Ok(t) => {
                    &&& m.records.len() < 5000
                    &&& after.records.contains_key(t)
                    &&& after.records[t].new_query_id == id
                    &&& after.records[t].source_addr == source
                    &&& after.records[t].dest_addr == dest
                    &&& after.records[t].sent_time == now
                    &&& after.records[t].retry_count == 0
                    &&& after.records.remove(t) == m.records.remove(t)
                    &&& after.inflight == m.inflight
                    &&& after.stats == m.stats
                },
                Err(e) => m.records.len() >= 5000 && e == ForwardFault::PoolExhausted && after == m,
            }
        }),
{
    let (after, r) = forwarder::allocated(m, id, source, dest, now);
    if let Ok(t) = r {
        assert(after.records.remove(t) =~= m.records.remove(t));
    }
}

/// All that a client is known by goes into the number of its records: two clients of
/// which the same bytes are hashed are the same.
pub proof fn law_clients_are_told_apart(a: SocketAddr, b: SocketAddr)
    requires
        forwarder::addr_material(a) == forwarder::addr_material(b),
    ensures
        a.ip == b.ip,
        a.port == b.port,
        a.flowinfo == b.flowinfo,
        a.scope_id == b.scope_id,
{
    let x = forwarder::addr_material(a);
    let y = forwarder::addr_material(b);
    lemma_addr_tail(a);
    lemma_addr_tail(b);
    assert(x[0] == y[0]);
    let n = x.len() as int;
    assert(wire::be16(x, n - 10) == a.port && wire::be16(y, n - 10) == b.port);
    assert(wire::be32(x, n - 8) == a.flowinfo && wire::be32(y, n - 8) == b.flowinfo);
    assert(wire::be32(x, n - 4) == a.scope_id && wire::be32(y, n - 4) == b.scope_id);
    match (a.ip, b.ip) {
        (IpAddr::V4(p), IpAddr::V4(q)) => {
            assert(p.bytes() =~= x.subrange(1, 5));
            assert(q.bytes() =~= y.subrange(1, 5));
            wire::law_u32_round_trip(p.bits);
            wire::law_u32_round_trip(q.bits);
        },
        (IpAddr::V6(p), IpAddr::V6(q)) => {
            edns0::lemma_addr_len(a.ip);
            edns0::lemma_addr_len(b.ip);
            assert(p.bytes() =~= x.subrange(1, 17));
            assert(q.bytes() =~= y.subrange(1, 17));
            assert(vstd::arithmetic::power::pow(256, 16) == u128::MAX + 1) by {
                reveal(vstd::arithmetic::power::pow);
                reveal_with_fuel(vstd::arithmetic::power::pow, 17);
            }
            wire::law_be_value_of_digits(p.bits as nat, 16);
            wire::law_be_value_of_digits(q.bits as nat, 16);
        },
        _ => {},
    }
}

proof fn lemma_addr_tail(a: SocketAddr)
    ensures
        ({
            let x = forwarder::addr_material(a);
            let n = x.len() as int;
            &&& n >= 15
            &&& x[0] == match a.ip {
                IpAddr::V4(_) => 4u8,
                IpAddr::V6(_) => 6u8,
            }
            &&& a.ip is V4 ==> n == 15
            &&& a.ip is V6 ==> n == 27
            &&& wire::be16(x, n - 10) == a.port
            &&& wire::be32(x, n - 8) == a.flowinfo
            &&& wire::be32(x, n - 4) == a.scope_id
        }),
{
    let x = forwarder::addr_material(a);
    let n = x.len() as int;
    edns0::lemma_addr_len(a.ip);
    wire::law_u16_round_trip(a.port);
    wire::law_u32_round_trip(a.flowinfo);
    wire::law_u32_round_trip(a.scope_id);
    assert(x[n - 10] == wire::be16_bytes(a.port)[0] && x[n - 9] == wire::be16_bytes(a.port)[1]);
    assert(forall|k: int| 0 <= k < 4 ==> #[trigger] wire::be32_bytes(a.flowinfo)[k] == x[n - 8 + k]);
    assert(wire::be32_bytes(a.flowinfo)[0] == x[n - 8] && wire::be32_bytes(a.flowinfo)[1] == x[n
        - 7] && wire::be32_bytes(a.flowinfo)[2] == x[n - 6] && wire::be32_bytes(a.flowinfo)[3]
        == x[n - 5]);
    assert(wire::be32_bytes(a.scope_id)[0] == x[n - 4] && wire::be32_bytes(a.scope_id)[1] == x[n
        - 3] && wire::be32_bytes(a.scope_id)[2] == x[n - 2] && wire::be32_bytes(a.scope_id)[3]
        == x[n - 1]);
}

/// A query has been under way too long exactly where its time and the limit lie
/// before now.
pub proof fn law_query_is_late(sent: Instant, timeout: u64, now: Instant)
    ensures
        forwarder::elapsed(sent, now) > timeout <==> now > sent + timeout,
{
}

// ---------------------------------------------------------------------------
// The cache
// ---------------------------------------------------------------------------

/// A query that the cache holds no answer to, or one without a cache, is forwarded as
/// if there were none; where there is one, it counts as missed unless a record was
/// found.
pub proof fn law_query_without_cached_answer(
    m: ForwarderModel,
    cache: CacheModel,
    packet: Seq<u8>,
    request: (Seq<char>, u16, u16),
    source: SocketAddr,
    dest: SocketAddr,
    now: Instant,
)
    requires
        m.stats.has_room(),
        m.cache_size == 0 || cache::resolved(cache, request.0, request.1, now, 0).0 is None,
    ensures
        ({
            let (after, run, step) = forwarder::received(
                m,
                cache,
                packet,
                request,
                source,
                dest,
                now,
            );
            let (alone, alone_run, alone_step) = forwarder::begun(m, packet, source, dest);
            &&& run == alone_run
            &&& step == alone_step
            &&& after.inflight == alone.inflight
            &&& after.records == alone.records
            &&& after.stats.cache_hits == m.stats.cache_hits
            &&& after.stats.cache_misses == m.stats.cache_misses + if m.cache_size > 0 {
                1int
            } else {
                0
            }
            &&& after.stats.total_queries == m.stats.total_queries + 1
        }),
{
}

/// The queries that wait for another are told how it ended exactly where its question
/// was in flight.
pub proof fn law_waiting_queries_are_told(m: ForwarderModel, run: RunModel, news: ForwardNews)
    requires
        !(news is Joined),
    ensures
        forwarder::advanced(m, run, news).2 matches ForwardStep::Finish { broadcast, .. }
            ==> broadcast == m.inflight.contains(run.key),
{
}

/// A reply is kept in the cache exactly where there is one and the reply was an answer;
/// otherwise the cache stays as it is.
pub proof fn law_answers_are_kept(
    m: ForwarderModel,
    before: CacheModel,
    after: CacheModel,
    run: RunModel,
    packet: Seq<u8>,
    now: Instant,
)
    requires
        forwarder::is_kept(
            m,
            before,
            after,
            forwarder::advanced(m, run, ForwardNews::Reply { packet, now }).2,
            packet,
            now,
        ),
    ensures
        ({
            let step = forwarder::advanced(m, run, ForwardNews::Reply { packet, now }).2;
            &&& m.cache_size == 0 ==> after == before
            &&& (step matches ForwardStep::Finish { result, .. } && result is Err) ==> after
                == before
            &&& m.cache_size > 0 && (step matches ForwardStep::Finish { result, .. } && result
                is Ok) ==> reply::is_stored(before, after, packet, now)
        }),
{
}

/// The number of a record is made of the number of its query and of its client.
pub proof fn law_number_of_a_record(id: u16, source: SocketAddr)
    ensures
        exists|bytes: Seq<u8>|
            wire::be16(bytes, 0) == id && bytes.skip(2) == forwarder::addr_material(source)
                && forwarder::transaction_of(id, source)
                == #[trigger] DefaultHasher::spec_finish(
                seq![bytes],
            ),
{
    let bytes = wire::be16_bytes(id) + forwarder::addr_material(source);
    wire::law_u16_round_trip(id);
    assert(bytes[0] == wire::be16_bytes(id)[0] && bytes[1] == wire::be16_bytes(id)[1]);
    assert(bytes.skip(2) =~= forwarder::addr_material(source));
    assert(forwarder::transaction_of(id, source) == DefaultHasher::spec_finish(seq![bytes]));
}

/// Each number of the statistics is found under its name.
pub proof fn law_named_statistics(m: ForwarderModel)
    ensures
        ({
            let s = m.stats_by_name();
            &&& s["pending_queries"@] == m.records.len() as u64
            &&& s["total_queries"@] == m.stats.total_queries
            &&& s["upstream_queries"@] == m.stats.upstream_queries
            &&& s["retries"@] == m.stats.retries
            &&& s["timeouts"@] == m.stats.timeouts
            &&& s["cache_hits"@] == m.stats.cache_hits
            &&& s["cache_misses"@] == m.stats.cache_misses
            &&& s["successful_forwards"@] == m.stats.successful_forwards
            &&& s["failed_forwards"@] == m.stats.failed_forwards
        }),
{
    reveal_strlit("pending_queries");
    reveal_strlit("total_queries");
    reveal_strlit("upstream_queries");
    reveal_strlit("retries");
    reveal_strlit("timeouts");
    reveal_strlit("cache_hits");
    reveal_strlit("cache_misses");
    reveal_strlit("successful_forwards");
    reveal_strlit("failed_forwards");
    assert("pending_queries"@[0] != "failed_forwards"@[0]);
    assert("pending_queries"@.len() == 15 && "failed_forwards"@.len() == 15);
    assert("total_queries"@.len() == 13 && "upstream_queries"@.len() == 16);
    assert("retries"@.len() == 7 && "timeouts"@.len() == 8);
    assert("cache_hits"@.len() == 10 && "cache_misses"@.len() == 12);
    assert("successful_forwards"@.len() == 19);
}

} // verus!
