//! What holds of a node over several messages.
use crate::dht::message;
use crate::dht::node;
use crate::dht::node::{NodeState, OutcomeView};
use crate::dht::error::DhtErrorView;
use crate::dht::record;
use crate::dht::record::KeptRecordView;
use crate::dht::routing;
use crate::dht::routing::BucketEntry;
use crate::bytes;
use crate::directory::{DhtMsgType, MessageView, RecordView};
use crate::endpoint::AddrView;
use crate::hexadecimal;
use crate::peer;
use crate::primitives;
use crate::PROTOCOL_VERSION;
use vstd::prelude::*;

verus! {

/// Whether every record stands under the digest of its public key, or under the
/// node's own identifier.
pub open spec fn records_bound(st: NodeState) -> bool {
    forall|id: Seq<u8>| #[trigger]
        st.records.dom().contains(id) ==> id == st.id || primitives::sha256(
            st.records[id].record.pubkey,
        ) == id
}

/// Taking note of nodes changes nothing but the routing table.
pub proof fn lemma_with_nodes(st: NodeState, nodes: Seq<(Seq<u8>, AddrView)>, now: u64)
    ensures
        ({
            let after = node::with_nodes(st, nodes, now);
            after == (NodeState { buckets: after.buckets, ..st })
        }),
    decreases nodes.len(),
{
    if nodes.len() > 0 {
        lemma_with_nodes(
            node::with_node(st, nodes[0].0, nodes[0].1, now),
            nodes.drop_first(),
            now,
        );
    }
}

/// What any message leaves as it is: identity, parameters and key of the node;
/// and the records, but for one that an accepted STORE request brings.
pub proof fn lemma_incoming_frame(st: NodeState, data: Seq<u8>, src: AddrView, now: u64)
    ensures
        ({
            let after = node::incoming_step(st, data, src, now).0;
            &&& after.id == st.id
            &&& after.k == st.k
            &&& after.alpha == st.alpha
            &&& after.ttl == st.ttl
            &&& after.seed == st.seed
            &&& after.records == st.records || exists|m: MessageView|
                {
                    &&& #[trigger] message::decoded(data) == Some(m)
                    &&& m.msg_type == DhtMsgType::Store && !m.is_response && m.payload.len() >= 101
                    &&& primitives::sha256(node::stored_record(m.payload).pubkey)
                        == m.payload.subrange(0, 32)
                    &&& after.records == st.records.insert(
                        m.payload.subrange(0, 32),
                        KeptRecordView {
                            record: node::stored_record(m.payload),
                            expires_at: record::expiry(
                                now,
                                node::stored_record(m.payload).ttl_remaining,
                            ),
                        },
                    )
                }
        }),
{
    if let Some(m) = message::decoded(data) {
        let (limits, passes) = node::rate_step(st.limits, m.sender_id, now);
        let limited = if m.is_response {
            st
        } else {
            NodeState { limits, ..st }
        };
        let known = node::with_node(limited, m.sender_id, src, now);
        let waiting = NodeState { pending: known.pending.remove(m.message_id), ..known };
        if let Some(nodes) = message::parsed_nodes(m.payload) {
            lemma_with_nodes(known, nodes, now);
        }
        if let Some(nodes) = message::parsed_nodes(m.payload.skip(1)) {
            lemma_with_nodes(waiting, nodes, now);
        }
        if let Some(nodes) = message::parsed_nodes(Seq::empty()) {
            lemma_with_nodes(waiting, nodes, now);
        }
    }
}

/// No message makes a node keep a record under a key that is not the digest of
/// the record's public key.
pub proof fn law_records_stay_bound(st: NodeState, data: Seq<u8>, src: AddrView, now: u64)
    requires
        records_bound(st),
    ensures
        records_bound(node::incoming_step(st, data, src, now).0),
{
    lemma_incoming_frame(st, data, src, now);
    let after = node::incoming_step(st, data, src, now).0;
    assert forall|id: Seq<u8>| #[trigger] after.records.dom().contains(id) implies id == after.id
        || primitives::sha256(after.records[id].record.pubkey) == id by {
        if after.records != st.records {
            let m = message::decoded(data)->0;
            if id != m.payload.subrange(0, 32) {
                assert(st.records.dom().contains(id));
            }
        } else {
            assert(st.records.dom().contains(id));
        }
    }
}

/// A record that a STORE request brought is what a FIND_VALUE request for its key
/// is answered with, until its time to live has run out.
pub proof fn law_stored_record_is_found(
    st: NodeState,
    store: MessageView,
    find: MessageView,
    src: AddrView,
    asker: AddrView,
    stored_at: u64,
    asked_at: u64,
)
    requires
        store.msg_type == DhtMsgType::Store,
        store.payload.len() >= 101,
        primitives::sha256(node::stored_record(store.payload).pubkey) == store.payload.subrange(
            0,
            32,
        ),
        find.msg_type == DhtMsgType::FindValue,
        find.payload.len() >= 32,
        find.payload.subrange(0, 32) == store.payload.subrange(0, 32),
        asked_at < stored_at + node::stored_record(store.payload).ttl_remaining * 1000,
    ensures
        ({
            let (after, taken) = node::request_step(st, store, src, stored_at);
            let rec = node::stored_record(store.payload);
            &&& taken is Ok
            &&& node::request_step(after, find, asker, asked_at) == (
                after,
                Ok::<OutcomeView, DhtErrorView>(
                    node::one_message(
                        node::response(after, find, message::found_payload(rec)),
                        asker,
                    ),
                ),
            )
        }),
{
}

/// A record is kept for a second at least and an hour at most.
pub proof fn law_stored_ttl_bounds(payload: Seq<u8>)
    ensures
        1 <= node::stored_record(payload).ttl_remaining <= 3600,
{
}

/// A STORE request under a key that is not the digest of the public key that it
/// brings is refused, and no record changes.
pub proof fn law_mismatched_store_refused(st: NodeState, m: MessageView, src: AddrView, now: u64)
    requires
        m.msg_type == DhtMsgType::Store,
        m.payload.len() >= 101,
        primitives::sha256(m.payload.subrange(36, 68)) != m.payload.subrange(0, 32),
    ensures
        node::request_step(st, m, src, now) == (
            st,
            Err::<OutcomeView, DhtErrorView>(
                DhtErrorView::InvalidSignature { peer_id: m.sender_id },
            ),
        ),
{
}

/// A request that is refused for its signature changes nothing but the rate
/// limits, and nothing is sent.
pub proof fn law_refused_request_changes_nothing(
    st: NodeState,
    data: Seq<u8>,
    m: MessageView,
    src: AddrView,
    now: u64,
)
    requires
        message::decoded(data) == Some(m),
        !m.is_response,
        node::is_signed(m),
        node::signature_status(st.records, m, data.subrange(0, data.len() - 64))
            == node::SignatureStatus::Invalid,
    ensures
        ({
            let (after, r) = node::incoming_step(st, data, src, now);
            &&& after == (NodeState { limits: after.limits, ..st })
            &&& match r {
                Ok(o) => o == node::nothing(),
                Err(e) => e == (DhtErrorView::InvalidSignature { peer_id: m.sender_id }),
            }
        }),
{
}

/// A FIND_VALUE response without a signature that answers no query of the node
/// changes nothing.
pub proof fn law_unasked_answer_changes_nothing(
    st: NodeState,
    data: Seq<u8>,
    m: MessageView,
    src: AddrView,
    now: u64,
)
    requires
        message::decoded(data) == Some(m),
        m.is_response,
        m.msg_type == DhtMsgType::FindValue,
        node::has_zero_signature(m),
        !st.pending.contains(m.message_id),
    ensures
        node::incoming_step(st, data, src, now) == (
            st,
            Ok::<OutcomeView, DhtErrorView>(node::nothing()),
        ),
{
    assert(!node::is_signed(m));
}

/// A request in another version of the protocol changes nothing, and gets an ERROR
/// response that says so. A response in another version is never answered, so that two
/// nodes never go on answering one another.
pub proof fn law_other_version_answered(st: NodeState, data: Seq<u8>, src: AddrView, now: u64)
    requires
        data.len() >= 53,
        data[0] != PROTOCOL_VERSION,
    ensures
        ({
            let (after, r) = node::incoming_step(st, data, src, now);
            &&& after == st
            &&& if data[17] < 128 {
                r == Ok::<OutcomeView, DhtErrorView>(
                    node::one_message(
                        message::message_bytes(
                            st.id,
                            data.subrange(1, 17),
                            DhtMsgType::Error,
                            true,
                            seq![message::UNSUPPORTED_VERSION],
                            st.seed,
                        ),
                        src,
                    ),
                )
            } else {
                r is Err
            }
        }),
{
}

/// A query is answered once: the response that answers it ends the wait.
pub proof fn law_query_answered_once(st: NodeState, m: MessageView, now: u64)
    requires
        m.msg_type == DhtMsgType::FindValue,
    ensures
        ({
            let (after, o) = node::response_step(st, m, now);
            &&& o.answer is Some <==> st.pending.contains(m.message_id)
            &&& !after.pending.contains(m.message_id)
        }),
{
    let waiting = NodeState { pending: st.pending.remove(m.message_id), ..st };
    if let Some(nodes) = message::parsed_nodes(m.payload.skip(1)) {
        lemma_with_nodes(waiting, nodes, now);
    }
    if let Some(nodes) = message::parsed_nodes(Seq::empty()) {
        lemma_with_nodes(waiting, nodes, now);
    }
}

/// How many of some requests of one sender pass, and the rate limits after them.
pub open spec fn passed(
    limits: Map<Seq<u8>, (u64, u32)>,
    sender: Seq<u8>,
    times: Seq<u64>,
) -> (Map<Seq<u8>, (u64, u32)>, nat)
    decreases times.len(),
{
    if times.len() == 0 {
        (limits, 0)
    } else {
        let (before, n) = passed(limits, sender, times.drop_last());
        let (after, r) = node::rate_step(before, sender, times.last());
        (
            after,
            if r {
                n + 1
            } else {
                n
            },
        )
    }
}

/// Of the requests that a sender makes within a second of its first, the first
/// twenty pass and no other.
pub proof fn law_rate_limit(
    limits: Map<Seq<u8>, (u64, u32)>,
    sender: Seq<u8>,
    times: Seq<u64>,
)
    requires
        !limits.dom().contains(sender),
        forall|i: int|
            0 <= i < times.len() ==> #[trigger] times[i] <= times[0] + 1000,
    ensures
        passed(limits, sender, times).1 == if times.len() < 20 {
            times.len()
        } else {
            20
        },
        times.len() > 0 ==> passed(limits, sender, times).0.dom().contains(sender) && passed(
            limits,
            sender,
            times,
        ).0[sender] == (
            times[0],
            (if times.len() < 20 {
                times.len() as int
            } else {
                20
            }) as u32,
        ),
    decreases times.len(),
{
    if times.len() > 0 {
        let front = times.drop_last();
        assert forall|i: int| 0 <= i < front.len() implies #[trigger] front[i] <= front[0]
            + 1000 by {
            assert(front[i] == times[i]);
        }
        law_rate_limit(limits, sender, front);
        assert(times.last() <= times[0] + 1000);
        if front.len() > 0 {
            assert(front[0] == times[0]);
        }
    }
}

/// The requests of one sender do not count against another.
pub proof fn law_rate_limits_independent(
    limits: Map<Seq<u8>, (u64, u32)>,
    sender: Seq<u8>,
    other: Seq<u8>,
    now: u64,
)
    requires
        sender != other,
    ensures
        ({
            let after = node::rate_step(limits, sender, now).0;
            &&& after.dom().contains(other) == limits.dom().contains(other)
            &&& limits.dom().contains(other) ==> after[other] == limits[other]
        }),
{
}

/// Dropping the records that no longer hold changes no lookup, then or later.
pub proof fn law_cleanup_changes_no_lookup(
    records: Map<Seq<u8>, KeptRecordView>,
    cleaned_at: u64,
    now: u64,
)
    requires
        cleaned_at <= now,
    ensures
        node::live_records(node::live_records(records, cleaned_at), now) == node::live_records(
            records,
            now,
        ),
{
    assert(node::live_records(node::live_records(records, cleaned_at), now) =~= node::live_records(
        records,
        now,
    ));
}

/// An entry as if the node were heard of at some moment.
pub open spec fn stamped(e: BucketEntry, now: u64) -> BucketEntry {
    routing::entry_of(e.node_id@, e.address@, now)
}

/// The entries of one bucket among some entries, as of some moment.
pub open spec fn of_bucket(s: Seq<BucketEntry>, local: Seq<u8>, b: int, now: u64) -> Seq<
    BucketEntry,
>
    decreases s.len(),
{
    if s.len() == 0 {
        Seq::empty()
    } else if peer::bucket_of(local, s.last().node_id@) == b {
        of_bucket(s.drop_last(), local, b, now).push(stamped(s.last(), now))
    } else {
        of_bucket(s.drop_last(), local, b, now)
    }
}

/// What is written of a list of entries, as it is read back.
pub open spec fn written(s: Seq<BucketEntry>) -> Seq<(Seq<char>, Option<AddrView>)> {
    s.map_values(
        |e: BucketEntry| (hexadecimal::hex_text(e.node_id@), Some(e.address@)),
    )
}

proof fn lemma_stamped(e: BucketEntry, now: u64)
    ensures
        stamped(e, now).node_id == e.node_id,
        stamped(e, now).address == e.address,
        stamped(e, now).last_seen == now,
{
    routing::lemma_entry_of(
        BucketEntry { node_id: e.node_id, address: e.address, last_seen: now },
    );
}

/// The entries of a bucket among some entries come from them.
proof fn lemma_of_bucket(s: Seq<BucketEntry>, local: Seq<u8>, b: int, now: u64)
    ensures
        of_bucket(s, local, b, now).len() <= s.len(),
        forall|i: int|
            0 <= i < of_bucket(s, local, b, now).len() ==> routing::has_id(
                s,
                (#[trigger] of_bucket(s, local, b, now)[i]).node_id@,
            ),
    decreases s.len(),
{
    if s.len() > 0 {
        let front = s.drop_last();
        lemma_of_bucket(front, local, b, now);
        lemma_stamped(s.last(), now);
        let all = of_bucket(s, local, b, now);
        assert forall|i: int| 0 <= i < all.len() implies routing::has_id(
            s,
            (#[trigger] all[i]).node_id@,
        ) by {
            if i < of_bucket(front, local, b, now).len() {
                let id = of_bucket(front, local, b, now)[i].node_id@;
                let j = choose|j: int| 0 <= j < front.len() && (#[trigger] front[j]).node_id@ == id;
                assert(s[j].node_id@ == id);
            } else {
                assert(s[s.len() - 1].node_id@ == all[i].node_id@);
            }
        }
    }
}

/// The part of a list before some offset has no more entries of a bucket than
/// the whole.
proof fn lemma_of_bucket_prefix(
    s: Seq<BucketEntry>,
    local: Seq<u8>,
    b: int,
    now: u64,
    n: int,
)
    requires
        0 <= n <= s.len(),
    ensures
        of_bucket(s.subrange(0, n), local, b, now).len() <= of_bucket(s, local, b, now).len(),
    decreases s.len(),
{
    if n == s.len() {
        assert(s.subrange(0, n) =~= s);
    } else {
        let front = s.drop_last();
        lemma_of_bucket_prefix(front, local, b, now, n);
        assert(front.subrange(0, n) =~= s.subrange(0, n));
    }
}

/// Among the entries of a table, those of a bucket are as many as stand in it.
proof fn lemma_of_bucket_concat(
    buckets: Seq<Seq<BucketEntry>>,
    local: Seq<u8>,
    k: nat,
    now: u64,
    n: int,
    b: int,
)
    requires
        routing::table_wf(buckets, local, k),
        0 <= n <= 256,
        0 <= b < 256,
    ensures
        of_bucket(routing::concat(buckets.subrange(0, n)), local, b, now) == if b < n {
            buckets[b].map_values(|e: BucketEntry| stamped(e, now))
        } else {
            Seq::empty()
        },
    decreases n,
{
    if n == 0 {
        assert(buckets.subrange(0, 0) =~= Seq::empty());
    } else {
        let head = buckets.subrange(0, n - 1);
        assert(buckets.subrange(0, n).drop_last() =~= head);
        assert(buckets.subrange(0, n).last() == buckets[n - 1]);
        lemma_of_bucket_concat(buckets, local, k, now, n - 1, b);
        lemma_of_bucket_append(routing::concat(head), buckets[n - 1], local, b, now, n - 1);
        let tail = buckets[n - 1].map_values(|e: BucketEntry| stamped(e, now));
        if b == n - 1 {
            assert(Seq::<BucketEntry>::empty() + tail =~= tail);
        }
    }
}

/// Appending the entries of one bucket.
proof fn lemma_of_bucket_append(
    s: Seq<BucketEntry>,
    t: Seq<BucketEntry>,
    local: Seq<u8>,
    b: int,
    now: u64,
    c: int,
)
    requires
        forall|i: int|
            0 <= i < t.len() ==> peer::bucket_of(local, (#[trigger] t[i]).node_id@) == c,
    ensures
        of_bucket(s + t, local, b, now) == if b == c {
            of_bucket(s, local, b, now) + t.map_values(|e: BucketEntry| stamped(e, now))
        } else {
            of_bucket(s, local, b, now)
        },
    decreases t.len(),
{
    let stamp = |e: BucketEntry| stamped(e, now);
    if t.len() == 0 {
        assert(s + t =~= s);
        assert(of_bucket(s, local, b, now) + t.map_values(stamp) =~= of_bucket(s, local, b, now));
    } else {
        let front = t.drop_last();
        assert forall|i: int| 0 <= i < front.len() implies peer::bucket_of(
            local,
            (#[trigger] front[i]).node_id@,
        ) == c by {
            assert(front[i] == t[i]);
        }
        lemma_of_bucket_append(s, front, local, b, now, c);
        assert((s + t).drop_last() =~= s + front);
        assert((s + t).last() == t.last());
        assert(t[t.len() - 1] == t.last());
        if b == c {
            let a = of_bucket(s, local, b, now);
            assert((a + front.map_values(stamp)).push(stamped(t.last(), now)) =~= a
                + t.map_values(stamp));
        }
    }
}

/// Loading the first entries that were written of a table puts each into its
/// bucket.
proof fn lemma_load_prefix(
    st: NodeState,
    buckets: Seq<Seq<BucketEntry>>,
    done: int,
    now: u64,
)
    requires
        routing::table_wf(buckets, st.id, st.k),
        0 <= done <= routing::concat(buckets).len(),
        st.buckets == Seq::new(
            256,
            |b: int| of_bucket(routing::concat(buckets).subrange(0, done), st.id, b, now),
        ),
    ensures
        ({
            let all = routing::concat(buckets);
            let (after, n) = node::with_routes(st, written(all.skip(done)), now);
            &&& n == all.len() - done
            &&& after == (NodeState {
                buckets: Seq::new(256, |b: int| of_bucket(all, st.id, b, now)),
                ..st
            })
        }),
    decreases routing::concat(buckets).len() - done,
{
    let all = routing::concat(buckets);
    let rest = written(all.skip(done));
    if done == all.len() {
        assert(all.subrange(0, done) =~= all);
        assert(rest =~= Seq::empty());
        assert(st.buckets =~= Seq::new(256, |b: int| of_bucket(all, st.id, b, now)));
    } else {
        let e = all[done];
        let id = e.node_id@;
        let prefix = all.subrange(0, done);
        let next = all.subrange(0, done + 1);
        let c = peer::bucket_of(st.id, id) as int;
        let new = stamped(e, now);
        assert(rest[0] == (hexadecimal::hex_text(id), Some(e.address@)));
        assert(rest.drop_first() =~= written(all.skip(done + 1)));
        peer::law_peer_id_hex_roundtrip(e.node_id);
        lemma_stamped(e, now);
        assert(next.drop_last() =~= prefix);
        assert(next.last() == e);
        // The bucket does not have the node yet, and has room.
        let s = st.buckets[c];
        routing::lemma_all_distinct(buckets, st.id, st.k);
        assert(!routing::has_id(s, id)) by {
            if routing::has_id(s, id) {
                lemma_of_bucket(prefix, st.id, c, now);
                let i = choose|i: int| 0 <= i < s.len() && (#[trigger] s[i]).node_id@ == id;
                assert(routing::has_id(prefix, s[i].node_id@));
                let j = choose|j: int|
                    0 <= j < prefix.len() && (#[trigger] prefix[j]).node_id@ == id;
                assert(all[j].node_id@ != all[done].node_id@);
            }
        }
        assert(s.len() < st.k) by {
            lemma_of_bucket_prefix(all, st.id, c, now, done + 1);
            lemma_of_bucket_concat(buckets, st.id, st.k, now, 256, c);
            assert(buckets.subrange(0, 256) =~= buckets);
        }
        let after = node::with_node(st, id, e.address@, now);
        let want = Seq::new(256, |b: int| of_bucket(next, st.id, b, now));
        assert(after.buckets =~= want) by {
            assert(routing::entry_of(id, e.address@, now) == new);
            assert forall|b: int| 0 <= b < 256 implies after.buckets[b] == want[b] by {
                if b == c {
                    assert(after.buckets[b] == s.push(new));
                }
            }
        }
        lemma_load_prefix(after, buckets, done + 1, now);
    }
}

/// Loading what was saved of a routing table, into an empty table of the same
/// node, restores it: every entry can be read, and every bucket has the nodes that
/// it had, in the same order, as of the moment of loading.
pub proof fn law_routes_roundtrip(
    st: NodeState,
    buckets: Seq<Seq<BucketEntry>>,
    now: u64,
)
    requires
        routing::table_wf(buckets, st.id, st.k),
        st.buckets == Seq::new(256, |b: int| Seq::<BucketEntry>::empty()),
    ensures
        node::with_routes(st, written(routing::concat(buckets)), now) == (
            NodeState {
                buckets: Seq::new(
                    256,
                    |b: int| buckets[b].map_values(|e: BucketEntry| stamped(e, now)),
                ),
                ..st
            },
            routing::concat(buckets).len(),
        ),
{
    let all = routing::concat(buckets);
    let none = all.subrange(0, 0);
    assert(none =~= Seq::empty());
    assert(all.skip(0) =~= all);
    assert(st.buckets =~= Seq::new(256, |b: int| of_bucket(none, st.id, b, now)));
    lemma_load_prefix(st, buckets, 0, now);
    assert(buckets.subrange(0, 256) =~= buckets);
    let got = Seq::new(256, |b: int| of_bucket(all, st.id, b, now));
    let want = Seq::new(256, |b: int| buckets[b].map_values(|e: BucketEntry| stamped(e, now)));
    assert forall|b: int| 0 <= b < 256 implies got[b] == want[b] by {
        lemma_of_bucket_concat(buckets, st.id, st.k, now, 256, b);
    }
    assert(got =~= want);
}

/// Whether a node takes some bytes for a message and lets it in.
pub open spec fn lets_in(st: NodeState, data: Seq<u8>, now: u64) -> bool {
    match message::decoded(data) {
        None => false,
        Some(m) => {
            let (limits, passes) = node::rate_step(st.limits, m.sender_id, now);
            let limited = if m.is_response {
                st
            } else {
                NodeState { limits, ..st }
            };
            &&& m.is_response || passes
            &&& node::admission(limited, m, data.subrange(0, data.len() - 64)) is Taken
        },
    }
}

/// Whether the wire form has room for a record, and nodes keep it for as long as it
/// says.
pub open spec fn record_fits(r: RecordView) -> bool {
    &&& r.pubkey.len() == 32
    &&& r.noise_pubkey.len() == 32
    &&& forall|i: int| 0 <= i < r.endpoints.len() ==> (#[trigger] r.endpoints[i]).addr.on_wire()
    &&& message::endpoints_bytes(r.endpoints).len() < 0x1_0000
    &&& 1 <= r.ttl_remaining <= 3600
}

/// A node keeps a record as the request that brings it has it.
proof fn lemma_stored_record(key: Seq<u8>, r: RecordView)
    requires
        key.len() == 32,
        record_fits(r),
    ensures
        ({
            let payload = message::store_payload(key, r);
            &&& 103 <= payload.len() < 0x1_0100
            &&& payload.subrange(0, 32) == key
            &&& node::stored_record(payload) == r
        }),
{
    let s = message::store_payload(key, r);
    let e = message::endpoints_bytes(r.endpoints);
    bytes::lemma_pow256();
    bytes::lemma_be_bytes_len(r.ttl_remaining as nat, 4);
    bytes::lemma_be_bytes_len(e.len(), 2);
    bytes::lemma_be_nat_of_bytes(r.ttl_remaining as nat, 4);
    bytes::lemma_be_nat_of_bytes(e.len(), 2);
    assert(s.subrange(0, 32) =~= key);
    assert(s.subrange(32, 36) =~= bytes::be_bytes(r.ttl_remaining as nat, 4));
    assert(s.subrange(36, 68) =~= r.pubkey);
    assert(s.subrange(68, 100) =~= r.noise_pubkey);
    assert(s.subrange(101, 103) =~= bytes::be_bytes(e.len(), 2));
    assert(s.skip(103) =~= e + Seq::<u8>::empty());
    message::law_endpoints_roundtrip(r.endpoints, Seq::empty());
    assert(node::stored_record(s) =~= r);
}

/// The message with which a node stores a record of itself.
pub open spec fn store_message(
    id: Seq<u8>,
    seed: Option<Seq<u8>>,
    message_id: Seq<u8>,
    r: RecordView,
) -> Seq<u8> {
    message::message_bytes(
        id,
        message_id,
        DhtMsgType::Store,
        false,
        message::store_payload(id, r),
        seed,
    )
}

/// The message with which a node asks for the record under a key.
pub open spec fn find_message(st: NodeState, message_id: Seq<u8>, key: Seq<u8>) -> Seq<u8> {
    message::message_bytes(st.id, message_id, DhtMsgType::FindValue, false, key, st.seed)
}

/// The message with which a node answers that it has a record.
pub open spec fn found_message(st: NodeState, message_id: Seq<u8>, r: RecordView) -> Seq<u8> {
    message::message_bytes(
        st.id,
        message_id,
        DhtMsgType::FindValue,
        true,
        message::found_payload(r),
        st.seed,
    )
}

/// The three messages of a lookup are read as they were written.
proof fn lemma_messages(
    a: Seq<u8>,
    a_seed: Option<Seq<u8>>,
    r: RecordView,
    b: NodeState,
    c: NodeState,
    store_id: Seq<u8>,
    find_id: Seq<u8>,
)
    requires
        a.len() == 32,
        b.id.len() == 32,
        c.id.len() == 32,
        store_id.len() == 16,
        find_id.len() == 16,
        record_fits(r),
        message::store_payload(a, r).len() < 0x1_0100,
    ensures
        message::decoded(store_message(a, a_seed, store_id, r)) == Some(
            message::written(
                a,
                store_id,
                DhtMsgType::Store,
                false,
                message::store_payload(a, r),
                a_seed,
            ),
        ),
        message::decoded(find_message(c, find_id, a)) == Some(
            message::written(c.id, find_id, DhtMsgType::FindValue, false, a, c.seed),
        ),
        message::decoded(found_message(b, find_id, r)) == Some(
            message::written(
                b.id,
                find_id,
                DhtMsgType::FindValue,
                true,
                message::found_payload(r),
                b.seed,
            ),
        ),
        message::found_payload(r)[0] == 1,
        message::parsed_record(message::found_payload(r).skip(1)) == Some(r),
{
    let payload = message::store_payload(a, r);
    let found = message::found_payload(r);
    message::law_message_roundtrip(a, store_id, DhtMsgType::Store, false, payload, a_seed);
    message::law_message_roundtrip(c.id, find_id, DhtMsgType::FindValue, false, a, c.seed);
    message::law_message_roundtrip(b.id, find_id, DhtMsgType::FindValue, true, found, b.seed);
    message::law_record_roundtrip(r);
    assert(found.skip(1) =~= message::record_bytes(r));
}

/// A STORE request that is let in makes a node keep its record.
proof fn lemma_store_kept(
    st: NodeState,
    data: Seq<u8>,
    m: MessageView,
    r: RecordView,
    src: AddrView,
    now: u64,
)
    requires
        message::decoded(data) == Some(m),
        lets_in(st, data, now),
        m.msg_type == DhtMsgType::Store,
        !m.is_response,
        m.payload.len() >= 101,
        node::stored_record(m.payload) == r,
        m.payload.subrange(0, 32) == primitives::sha256(r.pubkey),
    ensures
        ({
            let (after, out) = node::incoming_step(st, data, src, now);
            &&& out is Ok
            &&& after.id == st.id
            &&& after.seed == st.seed
            &&& after.records == st.records.insert(
                m.payload.subrange(0, 32),
                KeptRecordView { record: r, expires_at: record::expiry(now, r.ttl_remaining) },
            )
        }),
{
}

/// A FIND_VALUE request that is let in is answered with the record under its key.
proof fn lemma_find_answered(
    st: NodeState,
    data: Seq<u8>,
    m: MessageView,
    src: AddrView,
    now: u64,
)
    requires
        message::decoded(data) == Some(m),
        lets_in(st, data, now),
        m.msg_type == DhtMsgType::FindValue,
        !m.is_response,
        m.payload.len() == 32,
        st.records.dom().contains(m.payload),
        st.records[m.payload].expires_at > now,
    ensures
        node::incoming_step(st, data, src, now).1 == Ok::<OutcomeView, DhtErrorView>(
            node::one_message(
                found_message(st, m.message_id, st.records[m.payload].record),
                src,
            ),
        ),
{
    assert(m.payload.subrange(0, 32) =~= m.payload);
}

/// A FIND_VALUE response that is let in answers the query with its record.
proof fn lemma_answer_read(
    st: NodeState,
    data: Seq<u8>,
    m: MessageView,
    r: RecordView,
    src: AddrView,
    now: u64,
)
    requires
        message::decoded(data) == Some(m),
        lets_in(st, data, now),
        m.msg_type == DhtMsgType::FindValue,
        m.is_response,
        st.pending.contains(m.message_id),
        m.payload.len() > 0,
        m.payload[0] == 1,
        message::parsed_record(m.payload.skip(1)) == Some(r),
    ensures
        ({
            let out = node::incoming_step(st, data, src, now).1;
            &&& out is Ok
            &&& out->Ok_0.answer == Some(
                (
                    m.message_id,
                    Some(
                        KeptRecordView {
                            record: r,
                            expires_at: record::expiry(now, r.ttl_remaining),
                        },
                    ),
                ),
            )
        }),
{
}

/// What a node stores at another, a third one finds there: the record that came with
/// the STORE request is the answer to the query, until its time to live has run out.
/// Each of the three messages must be let in where it arrives.
pub proof fn law_store_then_find(
    a: Seq<u8>,
    a_seed: Option<Seq<u8>>,
    r: RecordView,
    b: NodeState,
    c: NodeState,
    store_id: Seq<u8>,
    find_id: Seq<u8>,
    a_addr: AddrView,
    b_addr: AddrView,
    c_addr: AddrView,
    stored_at: u64,
    asked_at: u64,
    answered_at: u64,
)
    requires
        b.id.len() == 32,
        c.id.len() == 32,
        store_id.len() == 16,
        find_id.len() == 16,
        record_fits(r),
        a == primitives::sha256(r.pubkey),
        lets_in(b, store_message(a, a_seed, store_id, r), stored_at),
        ({
            let b1 = node::incoming_step(
                b,
                store_message(a, a_seed, store_id, r),
                a_addr,
                stored_at,
            ).0;
            lets_in(b1, find_message(c, find_id, a), asked_at)
        }),
        asked_at < stored_at + r.ttl_remaining * 1000,
        c.pending.contains(find_id),
        lets_in(c, found_message(b, find_id, r), answered_at),
    ensures
        ({
            let (b1, stored) = node::incoming_step(
                b,
                store_message(a, a_seed, store_id, r),
                a_addr,
                stored_at,
            );
            let (b2, asked) = node::incoming_step(
                b1,
                find_message(c, find_id, a),
                c_addr,
                asked_at,
            );
            let (c1, answered) = node::incoming_step(
                c,
                found_message(b, find_id, r),
                b_addr,
                answered_at,
            );
            &&& stored is Ok
            &&& asked == Ok::<OutcomeView, DhtErrorView>(
                node::one_message(found_message(b, find_id, r), c_addr),
            )
            &&& answered is Ok
            &&& answered->Ok_0.answer == Some(
                (
                    find_id,
                    Some(
                        KeptRecordView {
                            record: r,
                            expires_at: record::expiry(answered_at, r.ttl_remaining),
                        },
                    ),
                ),
            )
        }),
{
    let payload = message::store_payload(a, r);
    let found = message::found_payload(r);
    let store = store_message(a, a_seed, store_id, r);
    let find = find_message(c, find_id, a);
    let answer = found_message(b, find_id, r);
    lemma_stored_record(a, r);
    lemma_messages(a, a_seed, r, b, c, store_id, find_id);
    let b1 = node::incoming_step(b, store, a_addr, stored_at).0;
    lemma_store_kept(b, store, message::decoded(store)->0, r, a_addr, stored_at);
    lemma_find_answered(b1, find, message::decoded(find)->0, c_addr, asked_at);
    lemma_answer_read(c, answer, message::decoded(answer)->0, r, b_addr, answered_at);
}

} // verus!
