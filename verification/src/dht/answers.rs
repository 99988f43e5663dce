//! What a node's answers hold, and what it learns from those of others.
use crate::bytes;
use crate::dht::error::DhtErrorView;
use crate::dht::laws;
use crate::dht::message;
use crate::dht::node;
use crate::dht::node::{NodeState, OutcomeView};
use crate::dht::record::KeptRecordView;
use crate::dht::routing;
use crate::dht::routing::BucketEntry;
use crate::directory::{DhtMsgType, MessageView, RelayInfo};
use crate::endpoint::{AddrView, SocketAddr};
use crate::peer;
use crate::primitives;
use vstd::prelude::*;

verus! {

/// The exclusive or of two identifiers, as a number.
pub open spec fn xor_distance(a: Seq<u8>, b: Seq<u8>) -> nat {
    bytes::be_nat(Seq::new(32, |i: int| a[i] ^ b[i]))
}

/// Whether some nodes are the `count` nodes of a table that are closest to a target, or
/// all of them where there are no more: each stands in a bucket with its address, the
/// closest comes first, and a node of the table that is left out is farther away than
/// every one of them.
pub open spec fn names_closest(
    nodes: Seq<(Seq<u8>, AddrView)>,
    buckets: Seq<Seq<BucketEntry>>,
    target: Seq<u8>,
    count: int,
) -> bool {
    &&& nodes.len() <= count
    &&& forall|i: int|
        #![trigger nodes[i]]
        0 <= i < nodes.len() ==> exists|b: int, j: int|
            {
                &&& 0 <= b < buckets.len() && 0 <= j < buckets[b].len()
                &&& (#[trigger] buckets[b][j]).node_id@ == nodes[i].0
                &&& buckets[b][j].address@.ip_at(buckets[b][j].address@.port()) == nodes[i].1
            }
    &&& forall|i: int, j: int|
        0 <= i < j < nodes.len() ==> xor_distance((#[trigger] nodes[i]).0, target) < xor_distance(
            (#[trigger] nodes[j]).0,
            target,
        )
    &&& forall|b: int, j: int|
        0 <= b < buckets.len() && 0 <= j < buckets[b].len() ==> {
            let x = (#[trigger] buckets[b][j]).node_id@;
            ||| exists|i: int| 0 <= i < nodes.len() && (#[trigger] nodes[i]).0 == x
            ||| nodes.len() == count && forall|i: int|
                0 <= i < nodes.len() ==> xor_distance((#[trigger] nodes[i]).0, target)
                    < xor_distance(x, target)
        }
}

proof fn lemma_distance(e: BucketEntry, target: Seq<u8>)
    requires
        target.len() == 32,
    ensures
        routing::entry_distance(e, target) == xor_distance(e.node_id@, target),
{
    assert(peer::xor_bytes(e.node_id@, target) =~= Seq::new(
        32,
        |i: int| e.node_id@[i] ^ target[i],
    ));
}

/// The list that a node writes of the nodes that it knows closest to a target names
/// these nodes.
proof fn lemma_list_names_closest(
    buckets: Seq<Seq<BucketEntry>>,
    local: Seq<u8>,
    k: nat,
    target: Seq<u8>,
    count: nat,
)
    requires
        routing::table_wf(buckets, local, k),
        target.len() == 32,
    ensures
        ({
            let list = message::node_list(
                message::node_views(routing::closest(routing::concat(buckets), target, count)),
            );
            let nodes = message::parsed_nodes(list);
            &&& nodes is Some
            &&& names_closest(
                nodes->0,
                buckets,
                target,
                if count < 255 {
                    count as int
                } else {
                    255
                },
            )
            &&& list.len() < 0x1_0000
        }),
{
    let all = routing::concat(buckets);
    let r = routing::closest(all, target, count);
    let views = message::node_views(r);
    let most: int = if count < 255 {
        count as int
    } else {
        255
    };
    routing::lemma_all_distinct(buckets, local, k);
    routing::lemma_closest_there(all, target, count);
    message::lemma_node_list_read(views);
    let nodes = message::parsed_nodes(message::node_list(views))->0;
    assert forall|i: int| 0 <= i < nodes.len() implies #[trigger] nodes[i] == (
        r[i].node_id@,
        r[i].address@.ip_at(r[i].address@.port()),
    ) by {
        assert(message::listed(views)[i] == message::node_view(r[i]));
    }
    assert forall|i: int| #![trigger nodes[i]] 0 <= i < nodes.len() implies exists|b: int, j: int|
        {
            &&& 0 <= b < buckets.len() && 0 <= j < buckets[b].len()
            &&& (#[trigger] buckets[b][j]).node_id@ == nodes[i].0
            &&& buckets[b][j].address@.ip_at(buckets[b][j].address@.port()) == nodes[i].1
        } by {
        assert(all.contains(r[i]));
        routing::lemma_concat_contains(buckets, r[i]);
        let b = choose|b: int| 0 <= b < buckets.len() && (#[trigger] buckets[b]).contains(r[i]);
        let j = choose|j: int| 0 <= j < buckets[b].len() && buckets[b][j] == r[i];
        assert(buckets[b][j].node_id@ == nodes[i].0);
    }
    assert forall|i: int, j: int| 0 <= i < j < nodes.len() implies xor_distance(
        (#[trigger] nodes[i]).0,
        target,
    ) < xor_distance((#[trigger] nodes[j]).0, target) by {
        lemma_distance(r[i], target);
        lemma_distance(r[j], target);
        assert(routing::entry_distance(r[i], target) < routing::entry_distance(r[j], target));
    }
    assert forall|b: int, j: int| 0 <= b < buckets.len() && 0 <= j < buckets[b].len() implies {
        let x = (#[trigger] buckets[b][j]).node_id@;
        ||| exists|i: int| 0 <= i < nodes.len() && (#[trigger] nodes[i]).0 == x
        ||| nodes.len() == most && forall|i: int|
            0 <= i < nodes.len() ==> xor_distance((#[trigger] nodes[i]).0, target) < xor_distance(
                x,
                target,
            )
    } by {
        let e = buckets[b][j];
        assert(buckets[b].contains(e));
        routing::lemma_concat_contains(buckets, e);
        assert(all.contains(e));
        if r.contains(e) {
            let i = choose|i: int| 0 <= i < r.len() && r[i] == e;
            if i < nodes.len() {
                assert(nodes[i].0 == e.node_id@);
            } else {
                assert forall|n: int| 0 <= n < nodes.len() implies xor_distance(
                    (#[trigger] nodes[n]).0,
                    target,
                ) < xor_distance(e.node_id@, target) by {
                    lemma_distance(r[n], target);
                    lemma_distance(r[i], target);
                    assert(routing::entry_distance(r[n], target) < routing::entry_distance(
                        r[i],
                        target,
                    ));
                }
            }
        } else {
            if r.len() < count {
                routing::lemma_all_listed(all, target, count, r, e);
            }
            assert forall|n: int| 0 <= n < nodes.len() implies xor_distance(
                (#[trigger] nodes[n]).0,
                target,
            ) < xor_distance(e.node_id@, target) by {
                lemma_distance(r[n], target);
                lemma_distance(e, target);
                assert(routing::entry_distance(r[n], target) < routing::entry_distance(e, target));
            }
        }
    }
}

/// The message that is let in was read from its bytes: a sender of 32 bytes, a message
/// id of 16, and the node takes note of the sender first.
proof fn lemma_let_in(st: NodeState, data: Seq<u8>, m: MessageView, src: SocketAddr, now: u64)
    requires
        message::decoded(data) == Some(m),
        routing::table_wf(st.buckets, st.id, st.k),
    ensures
        m.sender_id.len() == 32,
        m.message_id.len() == 16,
        routing::table_wf(
            node::with_node(st, m.sender_id, src@, now).buckets,
            st.id,
            st.k,
        ),
{
    routing::lemma_table_insert_wf(
        st.buckets,
        st.id,
        st.k,
        routing::entry_of(m.sender_id, src@, now),
    );
}

/// What came of a request is one message, to where the request came from: a response of
/// the same kind from this node, under the message id of the request.
pub open spec fn answers(st: NodeState, m: MessageView, src: AddrView, o: OutcomeView) -> bool {
    &&& o.outgoing.len() == 1
    &&& o.outgoing[0].1 == src
    &&& message::decoded(o.outgoing[0].0) is Some
    &&& answer_of(o).is_response
    &&& answer_of(o).msg_type == m.msg_type
    &&& answer_of(o).message_id == m.message_id
    &&& answer_of(o).sender_id == st.id
}

/// The message that is sent, as whoever gets it reads it.
pub open spec fn answer_of(o: OutcomeView) -> MessageView {
    message::decoded(o.outgoing[0].0)->0
}

proof fn lemma_answers(st: NodeState, m: MessageView, src: AddrView, payload: Seq<u8>)
    requires
        st.id.len() == 32,
        m.message_id.len() == 16,
        payload.len() < 0x100_0000,
    ensures
        ({
            let o = node::one_message(node::response(st, m, payload), src);
            answers(st, m, src, o) && answer_of(o).payload == payload
        }),
{
    message::law_message_roundtrip(st.id, m.message_id, m.msg_type, true, payload, st.seed);
}

/// A FIND_NODE request that is let in is answered with the nodes that the node knows
/// closest to the target in its payload, as many as a bucket has room for but no more
/// than 255. A PING request is answered with those closest to the one that asked.
pub proof fn law_closest_nodes_answered(
    st: NodeState,
    data: Seq<u8>,
    m: MessageView,
    src: SocketAddr,
    now: u64,
)
    requires
        routing::table_wf(st.buckets, st.id, st.k),
        message::decoded(data) == Some(m),
        laws::lets_in(st, data, now),
        !m.is_response,
        m.msg_type == DhtMsgType::Ping || m.msg_type == DhtMsgType::FindNode && m.payload.len()
            >= 32,
    ensures
        ({
            let (after, r) = node::incoming_step(st, data, src@, now);
            let nodes = message::parsed_nodes(answer_of(r->Ok_0).payload);
            &&& r is Ok
            &&& answers(st, m, src@, r->Ok_0)
            &&& nodes is Some
            &&& names_closest(
                nodes->0,
                after.buckets,
                if m.msg_type == DhtMsgType::Ping {
                    m.sender_id
                } else {
                    m.payload.subrange(0, 32)
                },
                if st.k < 255 {
                    st.k as int
                } else {
                    255
                },
            )
        }),
{
    lemma_let_in(st, data, m, src, now);
    let known = node::incoming_step(st, data, src@, now).0;
    let target = if m.msg_type == DhtMsgType::Ping {
        m.sender_id
    } else {
        m.payload.subrange(0, 32)
    };
    assert(known.buckets == node::with_node(st, m.sender_id, src@, now).buckets);
    lemma_list_names_closest(known.buckets, st.id, st.k, target, st.k);
    lemma_answers(known, m, src@, message::node_list(node::closest_known(known, target, st.k)));
}

/// A FIND_VALUE request that is let in, for a key under which the node keeps no record
/// that still holds, is answered with the nodes that the node knows closest to the key.
pub proof fn law_closest_nodes_answered_for_key(
    st: NodeState,
    data: Seq<u8>,
    m: MessageView,
    src: SocketAddr,
    now: u64,
)
    requires
        routing::table_wf(st.buckets, st.id, st.k),
        message::decoded(data) == Some(m),
        laws::lets_in(st, data, now),
        !m.is_response,
        m.msg_type == DhtMsgType::FindValue,
        m.payload.len() >= 32,
        st.records.dom().contains(m.payload.subrange(0, 32)) ==> st.records[m.payload.subrange(
            0,
            32,
        )].expires_at <= now,
    ensures
        ({
            let (after, r) = node::incoming_step(st, data, src@, now);
            let payload = answer_of(r->Ok_0).payload;
            let nodes = message::parsed_nodes(payload.skip(1));
            &&& r is Ok
            &&& answers(st, m, src@, r->Ok_0)
            &&& payload.len() > 0 && payload[0] == 0
            &&& nodes is Some
            &&& names_closest(
                nodes->0,
                after.buckets,
                m.payload.subrange(0, 32),
                if st.k < 255 {
                    st.k as int
                } else {
                    255
                },
            )
        }),
{
    lemma_let_in(st, data, m, src, now);
    let known = node::incoming_step(st, data, src@, now).0;
    let key = m.payload.subrange(0, 32);
    assert(known.buckets == node::with_node(st, m.sender_id, src@, now).buckets);
    lemma_list_names_closest(known.buckets, st.id, st.k, key, st.k);
    let list = message::node_list(node::closest_known(known, key, st.k));
    let payload = message::not_found_payload(node::closest_known(known, key, st.k));
    assert(payload.skip(1) =~= list);
    lemma_answers(known, m, src@, payload);
}

/// Whether a table has a node at an address, last heard of at some moment.
pub open spec fn knows_at(
    buckets: Seq<Seq<BucketEntry>>,
    id: Seq<u8>,
    addr: AddrView,
    at: u64,
) -> bool {
    exists|b: int, j: int|
        {
            &&& 0 <= b < buckets.len() && 0 <= j < buckets[b].len()
            &&& (#[trigger] buckets[b][j]).node_id@ == id
            &&& buckets[b][j].address@ == addr
            &&& buckets[b][j].last_seen == at
        }
}

/// Whether a table has a node.
pub open spec fn knows(buckets: Seq<Seq<BucketEntry>>, id: Seq<u8>) -> bool {
    exists|b: int, j: int|
        0 <= b < buckets.len() && 0 <= j < buckets[b].len() && (
        #[trigger] buckets[b][j]).node_id@ == id
}

proof fn lemma_knows(buckets: Seq<Seq<BucketEntry>>, e: BucketEntry)
    requires
        routing::concat(buckets).contains(e),
    ensures
        knows_at(buckets, e.node_id@, e.address@, e.last_seen),
        knows(buckets, e.node_id@),
{
    routing::lemma_concat_contains(buckets, e);
    let b = choose|b: int| 0 <= b < buckets.len() && (#[trigger] buckets[b]).contains(e);
    let j = choose|j: int| 0 <= j < buckets[b].len() && buckets[b][j] == e;
    assert(buckets[b][j].node_id@ == e.node_id@);
}

/// Whether nodes have identifiers and addresses.
spec fn are_nodes(nodes: Seq<(Seq<u8>, AddrView)>) -> bool {
    forall|i: int|
        0 <= i < nodes.len() ==> (#[trigger] nodes[i]).0.len() == 32 && nodes[i].1.on_wire()
}

proof fn lemma_nodes_at(payload: Seq<u8>, at: int, count: nat)
    requires
        0 <= at,
        message::nodes_at(payload, at, count) is Some,
    ensures
        are_nodes(message::nodes_at(payload, at, count)->0),
    decreases count,
{
    if count > 0 && at + 32 <= payload.len() {
        let (addr, next) = crate::endpoint::address_at(payload, at + 32)->0;
        lemma_nodes_at(payload, next, (count - 1) as nat);
    }
}

/// Taking note of others, a node forgets none that it knew.
proof fn lemma_with_nodes_keeps(
    st: NodeState,
    nodes: Seq<(Seq<u8>, AddrView)>,
    now: u64,
    x: BucketEntry,
) -> (y: BucketEntry)
    requires
        routing::table_wf(st.buckets, st.id, st.k),
        are_nodes(nodes),
        routing::concat(st.buckets).contains(x),
    ensures
        ({
            let after = node::with_nodes(st, nodes, now);
            &&& routing::table_wf(after.buckets, st.id, st.k)
            &&& routing::concat(after.buckets).contains(y)
            &&& y.node_id@ == x.node_id@
            &&& y == x || y.last_seen == now
            &&& (forall|n: int| 0 <= n < nodes.len() ==> (#[trigger] nodes[n]).0 != x.node_id@)
                ==> y == x
        }),
    decreases nodes.len(),
{
    if nodes.len() == 0 {
        x
    } else {
        let (id, addr) = nodes[0];
        let e = routing::entry_of(id, addr, now);
        let next = node::with_node(st, id, addr, now);
        let rest = nodes.drop_first();
        routing::lemma_entry_parts(id, addr, now);
        routing::law_insert(st.buckets, st.id, st.k, e);
        assert forall|i: int| 0 <= i < rest.len() implies (#[trigger] rest[i]).0.len() == 32
            && rest[i].1.on_wire() by {
            assert(rest[i] == nodes[i + 1]);
        }
        let z = if x.node_id@ == id {
            lemma_bucket_has(st.buckets, st.id, st.k, x);
            e
        } else {
            routing::law_insert_keeps_others(st.buckets, st.id, st.k, e, x);
            x
        };
        let y = lemma_with_nodes_keeps(next, rest, now, z);
        if forall|n: int| 0 <= n < nodes.len() ==> (#[trigger] nodes[n]).0 != x.node_id@ {
            assert(nodes[0].0 != x.node_id@);
            assert forall|n: int| 0 <= n < rest.len() implies (#[trigger] rest[n]).0
                != z.node_id@ by {
                assert(nodes[n + 1].0 != x.node_id@);
            }
        }
        y
    }
}

/// An entry of a table stands in the bucket of its node.
proof fn lemma_bucket_has(
    buckets: Seq<Seq<BucketEntry>>,
    local: Seq<u8>,
    k: nat,
    x: BucketEntry,
)
    requires
        routing::table_wf(buckets, local, k),
        routing::concat(buckets).contains(x),
    ensures
        routing::has_id(buckets[peer::bucket_of(local, x.node_id@) as int], x.node_id@),
{
    routing::lemma_concat_contains(buckets, x);
    let b = choose|b: int| 0 <= b < buckets.len() && (#[trigger] buckets[b]).contains(x);
    let j = choose|j: int| 0 <= j < buckets[b].len() && buckets[b][j] == x;
    assert(peer::bucket_of(local, buckets[b][j].node_id@) == b);
}

/// Of others that it is told of, a node takes note of each for which there is room.
proof fn lemma_with_nodes_learns(
    st: NodeState,
    nodes: Seq<(Seq<u8>, AddrView)>,
    now: u64,
    i: int,
) -> (y: BucketEntry)
    requires
        routing::table_wf(st.buckets, st.id, st.k),
        are_nodes(nodes),
        0 <= i < nodes.len(),
        ({
            let b = peer::bucket_of(st.id, nodes[i].0) as int;
            st.buckets[b].len() + nodes.len() <= st.k || routing::has_id(st.buckets[b], nodes[i].0)
        }),
    ensures
        ({
            let after = node::with_nodes(st, nodes, now);
            &&& routing::concat(after.buckets).contains(y)
            &&& y.node_id@ == nodes[i].0
            &&& y.last_seen == now
            &&& (forall|n: int| i < n < nodes.len() ==> (#[trigger] nodes[n]).0 != nodes[i].0)
                ==> y.address@ == nodes[i].1
        }),
    decreases nodes.len(),
{
    let (id, addr) = nodes[0];
    let e = routing::entry_of(id, addr, now);
    let next = node::with_node(st, id, addr, now);
    let rest = nodes.drop_first();
    routing::lemma_entry_parts(id, addr, now);
    routing::law_insert(st.buckets, st.id, st.k, e);
    assert forall|n: int| 0 <= n < rest.len() implies (#[trigger] rest[n]).0.len() == 32
        && rest[n].1.on_wire() by {
        assert(rest[n] == nodes[n + 1]);
    }
    if i == 0 {
        let y = lemma_with_nodes_keeps(next, rest, now, e);
        if forall|n: int| i < n < nodes.len() ==> (#[trigger] nodes[n]).0 != nodes[i].0 {
            assert forall|n: int| 0 <= n < rest.len() implies (#[trigger] rest[n]).0
                != e.node_id@ by {
                assert(nodes[n + 1].0 != nodes[0].0);
            }
        }
        y
    } else {
        let b = peer::bucket_of(st.id, nodes[i].0) as int;
        let t = nodes[i].0;
        assert(rest[i - 1] == nodes[i]);
        if routing::has_id(st.buckets[b], t) {
            let j = choose|j: int|
                0 <= j < st.buckets[b].len() && (#[trigger] st.buckets[b][j]).node_id@ == t;
            let x = st.buckets[b][j];
            assert(st.buckets[b].contains(x));
            routing::lemma_concat_contains(st.buckets, x);
            let z = if t == id {
                e
            } else {
                routing::law_insert_keeps_others(st.buckets, st.id, st.k, e, x);
                x
            };
            lemma_bucket_has(next.buckets, st.id, st.k, z);
        } else {
            let c = peer::bucket_of(st.id, id) as int;
            routing::lemma_index_of_id(st.buckets[c], id);
            assert(next.buckets[b].len() <= st.buckets[b].len() + 1);
        }
        let y = lemma_with_nodes_learns(next, rest, now, i - 1);
        if forall|n: int| i < n < nodes.len() ==> (#[trigger] nodes[n]).0 != nodes[i].0 {
            assert forall|n: int| i - 1 < n < rest.len() implies (#[trigger] rest[n]).0
                != rest[i - 1].0 by {
                assert(nodes[n + 1].0 != nodes[i].0);
            }
        }
        y
    }
}

/// A node that a table has after others were taken note of was there before, as it is,
/// or is one of them.
proof fn lemma_with_nodes_adds(
    st: NodeState,
    nodes: Seq<(Seq<u8>, AddrView)>,
    now: u64,
    x: BucketEntry,
)
    requires
        routing::table_wf(st.buckets, st.id, st.k),
        are_nodes(nodes),
        routing::concat(node::with_nodes(st, nodes, now).buckets).contains(x),
    ensures
        routing::concat(st.buckets).contains(x) || exists|n: int|
            0 <= n < nodes.len() && (#[trigger] nodes[n]) == (x.node_id@, x.address@),
    decreases nodes.len(),
{
    if nodes.len() > 0 {
        let (id, addr) = nodes[0];
        let e = routing::entry_of(id, addr, now);
        let next = node::with_node(st, id, addr, now);
        let rest = nodes.drop_first();
        routing::lemma_entry_parts(id, addr, now);
        routing::law_insert(st.buckets, st.id, st.k, e);
        assert forall|n: int| 0 <= n < rest.len() implies (#[trigger] rest[n]).0.len() == 32
            && rest[n].1.on_wire() by {
            assert(rest[n] == nodes[n + 1]);
        }
        lemma_with_nodes_adds(next, rest, now, x);
        if routing::concat(next.buckets).contains(x) {
            lemma_insert_adds(st.buckets, st.id, st.k, e, x);
            if x == e {
                assert(nodes[0] == (x.node_id@, x.address@));
            }
        } else {
            let n = choose|n: int|
                0 <= n < rest.len() && (#[trigger] rest[n]) == (x.node_id@, x.address@);
            assert(nodes[n + 1] == rest[n]);
        }
    }
}

/// Taking note of a node adds no other.
proof fn lemma_insert_adds(
    buckets: Seq<Seq<BucketEntry>>,
    local: Seq<u8>,
    k: nat,
    e: BucketEntry,
    x: BucketEntry,
)
    requires
        routing::table_wf(buckets, local, k),
        routing::concat(routing::table_insert(buckets, local, k, e).0).contains(x),
    ensures
        x == e || routing::concat(buckets).contains(x),
{
    let after = routing::table_insert(buckets, local, k, e).0;
    let b = peer::bucket_of(local, e.node_id@) as int;
    routing::lemma_concat_contains(after, x);
    routing::lemma_concat_contains(buckets, x);
    let c = choose|c: int| 0 <= c < after.len() && (#[trigger] after[c]).contains(x);
    let i = choose|i: int| 0 <= i < after[c].len() && after[c][i] == x;
    if c == b {
        let s = buckets[b];
        routing::lemma_index_of_id(s, e.node_id@);
        let p = routing::index_of_id(s, e.node_id@);
        if x != e {
            if routing::has_id(s, e.node_id@) {
                assert(s[if i < p {
                    i
                } else {
                    i + 1
                }] == x);
            } else {
                assert(s[i] == x);
            }
            assert(buckets[b].contains(x));
        }
    } else {
        assert(buckets[c].contains(x));
    }
}

/// The nodes that a response lists: its payload, or what follows the first byte of it
/// where it says that no record was found.
pub open spec fn nodes_in(m: MessageView) -> Option<Seq<(Seq<u8>, AddrView)>> {
    if m.msg_type == DhtMsgType::FindValue && m.payload.len() > 0 {
        message::parsed_nodes(m.payload.skip(1))
    } else {
        message::parsed_nodes(m.payload)
    }
}

/// A node learns the nodes that a response lists: after a PING or a FIND_NODE response,
/// or a FIND_VALUE response without a record, that is let in, each listed node for which
/// there was room, besides the sender and all that are listed, or which the node knew
/// already, is in the routing table, at the address that is listed last for it. The
/// node forgets none that it knew, and learns of none but these and the sender.
pub proof fn law_listed_nodes_learned(
    st: NodeState,
    data: Seq<u8>,
    m: MessageView,
    src: SocketAddr,
    now: u64,
    nodes: Seq<(Seq<u8>, AddrView)>,
)
    requires
        routing::table_wf(st.buckets, st.id, st.k),
        message::decoded(data) == Some(m),
        laws::lets_in(st, data, now),
        m.is_response,
        m.msg_type == DhtMsgType::Ping || m.msg_type == DhtMsgType::FindNode || m.msg_type
            == DhtMsgType::FindValue && m.payload.len() > 0 && m.payload[0] != 1,
        nodes_in(m) == Some(nodes),
    ensures
        ({
            let after = node::incoming_step(st, data, src@, now).0.buckets;
            &&& forall|i: int|
                #![trigger nodes[i]]
                0 <= i < nodes.len() && (knows(st.buckets, nodes[i].0) || st.buckets[peer::bucket_of(
                    st.id,
                    nodes[i].0,
                ) as int].len() + 1 + nodes.len() <= st.k) && (forall|n: int|
                    i < n < nodes.len() ==> (#[trigger] nodes[n]).0 != nodes[i].0) ==> knows_at(
                    after,
                    nodes[i].0,
                    nodes[i].1,
                    now,
                )
            &&& forall|id: Seq<u8>| #[trigger] knows(st.buckets, id) ==> knows(after, id)
            &&& forall|id: Seq<u8>| #[trigger]
                knows(after, id) ==> knows(st.buckets, id) || id == m.sender_id || exists|n: int|
                    0 <= n < nodes.len() && (#[trigger] nodes[n]).0 == id
        }),
{
    let known = node::with_node(st, m.sender_id, src@, now);
    let waiting = NodeState { pending: known.pending.remove(m.message_id), ..known };
    let from = if m.msg_type == DhtMsgType::FindValue {
        waiting
    } else {
        known
    };
    let all = node::with_nodes(from, nodes, now);
    let e = routing::entry_of(m.sender_id, src@, now);
    let after = node::incoming_step(st, data, src@, now).0.buckets;
    lemma_let_in(st, data, m, src, now);
    routing::lemma_entry_parts(m.sender_id, src@, now);
    routing::law_insert(st.buckets, st.id, st.k, e);
    assert(are_nodes(nodes)) by {
        let p = if m.msg_type == DhtMsgType::FindValue {
            m.payload.skip(1)
        } else {
            m.payload
        };
        if p.len() > 0 {
            lemma_nodes_at(p, 1, p[0] as nat);
        }
    }
    assert(after == all.buckets);
    assert forall|i: int| #![trigger nodes[i]] 0 <= i < nodes.len() && (knows(
        st.buckets,
        nodes[i].0,
    ) || st.buckets[peer::bucket_of(st.id, nodes[i].0) as int].len() + 1 + nodes.len() <= st.k)
        && (forall|n: int| i < n < nodes.len() ==> (#[trigger] nodes[n]).0 != nodes[i].0) implies knows_at(
        after,
        nodes[i].0,
        nodes[i].1,
        now,
    ) by {
        let t = nodes[i].0;
        let b = peer::bucket_of(st.id, t) as int;
        if knows(st.buckets, t) {
            let z = lemma_note_keeps(st, m.sender_id, src, now, t);
            lemma_bucket_has(known.buckets, st.id, st.k, z);
        } else {
            let c = peer::bucket_of(st.id, m.sender_id) as int;
            routing::lemma_index_of_id(st.buckets[c], m.sender_id);
        }
        let y = lemma_with_nodes_learns(from, nodes, now, i);
        lemma_knows(after, y);
    }
    assert forall|id: Seq<u8>| #[trigger] knows(st.buckets, id) implies knows(after, id) by {
        let z = lemma_note_keeps(st, m.sender_id, src, now, id);
        let y = lemma_with_nodes_keeps(from, nodes, now, z);
        lemma_knows(after, y);
    }
    assert forall|id: Seq<u8>| #[trigger] knows(after, id) implies knows(st.buckets, id) || id
        == m.sender_id || exists|n: int| 0 <= n < nodes.len() && (#[trigger] nodes[n]).0 == id by {
        let x = lemma_known_entry(after, id);
        lemma_with_nodes_adds(from, nodes, now, x);
        if routing::concat(known.buckets).contains(x) {
            lemma_insert_adds(st.buckets, st.id, st.k, e, x);
            if x != e {
                lemma_knows(st.buckets, x);
            }
        }
    }
}

/// The entry of a node that is known.
proof fn lemma_known_entry(buckets: Seq<Seq<BucketEntry>>, id: Seq<u8>) -> (x: BucketEntry)
    requires
        knows(buckets, id),
    ensures
        routing::concat(buckets).contains(x),
        x.node_id@ == id,
{
    let (b, j) = choose|b: int, j: int|
        0 <= b < buckets.len() && 0 <= j < buckets[b].len() && (
        #[trigger] buckets[b][j]).node_id@ == id;
    let x = buckets[b][j];
    assert(buckets[b].contains(x));
    routing::lemma_concat_contains(buckets, x);
    x
}

/// Taking note of a sender, a node forgets none that it knew.
proof fn lemma_note_keeps(
    st: NodeState,
    sender: Seq<u8>,
    src: SocketAddr,
    now: u64,
    id: Seq<u8>,
) -> (z: BucketEntry)
    requires
        routing::table_wf(st.buckets, st.id, st.k),
        sender.len() == 32,
        knows(st.buckets, id),
    ensures
        routing::concat(node::with_node(st, sender, src@, now).buckets).contains(z),
        z.node_id@ == id,
{
    let x = lemma_known_entry(st.buckets, id);
    let e = routing::entry_of(sender, src@, now);
    routing::lemma_entry_parts(sender, src@, now);
    routing::law_insert(st.buckets, st.id, st.k, e);
    if id == sender {
        lemma_bucket_has(st.buckets, st.id, st.k, x);
        e
    } else {
        routing::law_insert_keeps_others(st.buckets, st.id, st.k, e, x);
        x
    }
}

/// Whoever sends a request that is let in is known after it, at the address that it came
/// from, where there was room or the sender was known already. No other node comes or
/// goes, and nothing of this depends on the kind of the request.
pub proof fn law_sender_noted(
    st: NodeState,
    data: Seq<u8>,
    m: MessageView,
    src: SocketAddr,
    now: u64,
)
    requires
        routing::table_wf(st.buckets, st.id, st.k),
        message::decoded(data) == Some(m),
        laws::lets_in(st, data, now),
        !m.is_response,
    ensures
        ({
            let after = node::incoming_step(st, data, src@, now).0.buckets;
            &&& knows(st.buckets, m.sender_id) || st.buckets[peer::bucket_of(
                st.id,
                m.sender_id,
            ) as int].len() < st.k ==> knows_at(after, m.sender_id, src@, now)
            &&& forall|id: Seq<u8>|
                id != m.sender_id ==> (#[trigger] knows(after, id) <==> knows(st.buckets, id))
        }),
{
    let known = node::with_node(st, m.sender_id, src@, now);
    let e = routing::entry_of(m.sender_id, src@, now);
    let after = node::incoming_step(st, data, src@, now).0.buckets;
    lemma_let_in(st, data, m, src, now);
    routing::lemma_entry_parts(m.sender_id, src@, now);
    routing::law_insert(st.buckets, st.id, st.k, e);
    assert(after == known.buckets);
    if knows(st.buckets, m.sender_id) {
        let x = lemma_known_entry(st.buckets, m.sender_id);
        lemma_bucket_has(st.buckets, st.id, st.k, x);
    }
    if routing::concat(after).contains(e) {
        lemma_knows(after, e);
    }
    assert forall|id: Seq<u8>| id != m.sender_id implies (#[trigger] knows(after, id) <==> knows(
        st.buckets,
        id,
    )) by {
        if knows(st.buckets, id) {
            let z = lemma_note_keeps(st, m.sender_id, src, now, id);
            lemma_knows(after, z);
        }
        if knows(after, id) {
            let x = lemma_known_entry(after, id);
            lemma_insert_adds(st.buckets, st.id, st.k, e, x);
            lemma_knows(st.buckets, x);
        }
    }
}

/// A request without a signature, or with one that is all zero, is let in where its
/// sender has sent fewer than twenty in the second that began with its first, or none
/// since. A response is let in unless it is a FIND_VALUE response, and one of these
/// without a signature where it answers a query of the node.
pub proof fn law_unsigned_let_in(st: NodeState, data: Seq<u8>, m: MessageView, now: u64)
    requires
        message::decoded(data) == Some(m),
        m.signature matches Some(sig) ==> forall|i: int|
            0 <= i < sig.len() ==> #[trigger] sig[i] == 0,
        !m.is_response ==> !st.limits.dom().contains(m.sender_id) || st.limits[m.sender_id].1 < 20
            || now > st.limits[m.sender_id].0 + 1000,
        m.is_response && m.msg_type == DhtMsgType::FindValue ==> st.pending.contains(m.message_id),
    ensures
        laws::lets_in(st, data, now),
{
}

/// A request that bears a signature is let in, within the rate limit, where the signature
/// holds under the key of the record that the node keeps of the sender; where it keeps
/// none, a STORE request where the signature holds under the key that it brings, and any
/// other request without being checked. A FIND_VALUE response that bears a signature is
/// let in exactly where it holds under the key that is kept. Whatever is not let in
/// changes nothing but the rate limits, and nothing is sent for it.
pub proof fn law_signed_let_in(
    st: NodeState,
    data: Seq<u8>,
    m: MessageView,
    sig: Seq<u8>,
    src: AddrView,
    now: u64,
)
    requires
        message::decoded(data) == Some(m),
        m.signature == Some(sig),
        exists|i: int| 0 <= i < sig.len() && #[trigger] sig[i] != 0,
        !m.is_response || m.msg_type == DhtMsgType::FindValue,
        !m.is_response ==> !st.limits.dom().contains(m.sender_id) || st.limits[m.sender_id].1 < 20
            || now > st.limits[m.sender_id].0 + 1000,
    ensures
        ({
            let body = data.subrange(0, data.len() - 64);
            let kept = st.records.dom().contains(m.sender_id) && primitives::ed25519_key_valid(
                st.records[m.sender_id].record.pubkey,
            );
            let holds = primitives::ed25519_verifies(
                st.records[m.sender_id].record.pubkey,
                body,
                sig,
            );
            let brought = m.payload.subrange(36, 68);
            let (after, r) = node::incoming_step(st, data, src, now);
            &&& kept ==> (laws::lets_in(st, data, now) <==> holds)
            &&& !kept && m.is_response ==> !laws::lets_in(st, data, now)
            &&& !kept && !m.is_response && m.msg_type != DhtMsgType::Store ==> laws::lets_in(
                st,
                data,
                now,
            )
            &&& !kept && !m.is_response && m.msg_type == DhtMsgType::Store ==> (laws::lets_in(
                st,
                data,
                now,
            ) <==> m.payload.len() >= 101 && primitives::ed25519_key_valid(brought)
                && primitives::ed25519_verifies(brought, body, sig))
            &&& !laws::lets_in(st, data, now) ==> {
                &&& after == (NodeState { limits: after.limits, ..st })
                &&& m.is_response ==> after == st && r == Ok::<OutcomeView, DhtErrorView>(
                    node::nothing(),
                )
                &&& !m.is_response ==> r == Err::<OutcomeView, DhtErrorView>(
                    DhtErrorView::InvalidSignature { peer_id: m.sender_id },
                )
            }
        }),
{
    let body = data.subrange(0, data.len() - 64);
    let status = node::signature_status(st.records, m, body);
    assert(node::is_signed(m));
    let (limits, passes) = node::rate_step(st.limits, m.sender_id, now);
    assert(!m.is_response ==> passes);
    if !m.is_response {
        let limited = NodeState { limits, ..st };
        assert(node::signature_status(limited.records, m, body) == status);
        assert(laws::lets_in(st, data, now) == (node::admission(limited, m, body) is Taken));
    } else {
        assert(laws::lets_in(st, data, now) == (node::admission(st, m, body) is Taken));
    }
}

/// A request over the rate limit changes nothing, and nothing is sent for it: where its
/// sender has sent twenty within the second that began with the first of them.
pub proof fn law_flood_ignored(st: NodeState, data: Seq<u8>, m: MessageView, src: AddrView, now: u64)
    requires
        message::decoded(data) == Some(m),
        !m.is_response,
        st.limits.dom().contains(m.sender_id),
        st.limits[m.sender_id].1 >= 20,
        now <= st.limits[m.sender_id].0 + 1000,
    ensures
        node::incoming_step(st, data, src, now) == (
            st,
            Ok::<OutcomeView, DhtErrorView>(node::nothing()),
        ),
{
}

/// An ADDR_REFLECT request that is let in is answered with the address that it came
/// from.
pub proof fn law_address_reflected(
    st: NodeState,
    data: Seq<u8>,
    m: MessageView,
    src: SocketAddr,
    now: u64,
)
    requires
        st.id.len() == 32,
        message::decoded(data) == Some(m),
        laws::lets_in(st, data, now),
        !m.is_response,
        m.msg_type == DhtMsgType::AddrReflect,
    ensures
        ({
            let r = node::incoming_step(st, data, src@, now).1;
            let payload = answer_of(r->Ok_0).payload;
            &&& r is Ok
            &&& answers(st, m, src@, r->Ok_0)
            &&& crate::endpoint::address_at(payload, 0) == Some(
                (src@.ip_at(src@.port()), payload.len() as int),
            )
        }),
{
    let a = src@.ip_at(src@.port());
    let none = Seq::<u8>::empty();
    let w = crate::endpoint::address_bytes(a);
    crate::endpoint::law_address_roundtrip(none, a, none);
    assert(none + w + none =~= w);
    assert(crate::endpoint::address_bytes(src@) == w);
    bytes::lemma_be_bytes_len(src@.port() as nat, 2);
    lemma_answers(node::with_node(st, m.sender_id, src@, now), m, src@, w);
}

/// The entries of nodes other than two are those of the list.
proof fn lemma_without(s: Seq<BucketEntry>, a: Seq<u8>, b: Seq<u8>)
    requires
        routing::ids_distinct(s),
    ensures
        ({
            let r = routing::without(s, a, b);
            &&& routing::ids_distinct(r)
            &&& forall|x: BucketEntry| #[trigger]
                r.contains(x) <==> s.contains(x) && x.node_id@ != a && x.node_id@ != b
        }),
    decreases s.len(),
{
    if s.len() > 0 {
        let front = s.drop_last();
        let e = s.last();
        let q = routing::without(front, a, b);
        let r = routing::without(s, a, b);
        assert forall|i: int, j: int| 0 <= i < j < front.len() implies (
        #[trigger] front[i]).node_id@ != (#[trigger] front[j]).node_id@ by {
            assert(s[i].node_id@ != s[j].node_id@);
        }
        lemma_without(front, a, b);
        assert forall|x: BucketEntry| #[trigger] r.contains(x) <==> s.contains(x) && x.node_id@ != a
            && x.node_id@ != b by {
            assert(q.contains(x) <==> front.contains(x) && x.node_id@ != a && x.node_id@ != b);
            if s.contains(x) && x.node_id@ != a && x.node_id@ != b {
                let i = choose|i: int| 0 <= i < s.len() && s[i] == x;
                if i < front.len() {
                    assert(front[i] == x);
                    let j = choose|j: int| 0 <= j < q.len() && q[j] == x;
                    assert(r[j] == x);
                } else {
                    assert(r[r.len() - 1] == x);
                }
            }
            if r.contains(x) {
                let j = choose|j: int| 0 <= j < r.len() && r[j] == x;
                if j < q.len() {
                    assert(q[j] == x);
                    let i = choose|i: int| 0 <= i < front.len() && front[i] == x;
                    assert(s[i] == x);
                } else {
                    assert(s[s.len() - 1] == x);
                }
            }
        }
        assert forall|i: int, j: int| 0 <= i < j < r.len() implies (#[trigger] r[i]).node_id@ != (
        #[trigger] r[j]).node_id@ by {
            if j < q.len() {
                assert(q[i].node_id@ != q[j].node_id@);
            } else {
                assert(q.contains(q[i]));
                let n = choose|n: int| 0 <= n < front.len() && front[n] == q[i];
                assert(s[n].node_id@ != s[s.len() - 1].node_id@);
            }
        }
    }
}

/// A RELAY_NEEDED request that is let in is answered with nodes of the table, at their
/// addresses, each once: up to eight, neither the node itself nor the one that asked,
/// and all others where they are fewer.
pub proof fn law_relays_answered(
    st: NodeState,
    data: Seq<u8>,
    m: MessageView,
    src: SocketAddr,
    now: u64,
)
    requires
        routing::table_wf(st.buckets, st.id, st.k),
        message::decoded(data) == Some(m),
        laws::lets_in(st, data, now),
        !m.is_response,
        m.msg_type == DhtMsgType::RelayNeeded,
    ensures
        ({
            let (after, r) = node::incoming_step(st, data, src@, now);
            let nodes = message::parsed_nodes(answer_of(r->Ok_0).payload);
            &&& r is Ok
            &&& answers(st, m, src@, r->Ok_0)
            &&& nodes is Some
            &&& nodes->0.len() <= 8
            &&& forall|i: int|
                0 <= i < nodes->0.len() ==> (#[trigger] nodes->0[i]).0 != st.id && nodes->0[i].0
                    != m.sender_id && is_node_of(after.buckets, nodes->0[i])
            &&& forall|i: int, j: int|
                0 <= i < j < nodes->0.len() ==> (#[trigger] nodes->0[i]).0 != (
                #[trigger] nodes->0[j]).0
            &&& forall|id: Seq<u8>| #[trigger]
                knows(after.buckets, id) && id != st.id && id != m.sender_id ==> nodes->0.len()
                    == 8 || exists|i: int|
                    0 <= i < nodes->0.len() && (#[trigger] nodes->0[i]).0 == id
        }),
{
    let known = node::incoming_step(st, data, src@, now).0;
    let all = routing::concat(known.buckets);
    let others = routing::without(all, st.id, m.sender_id);
    let some = node::relay_candidates(known, m.sender_id);
    let views = message::node_views(some);
    lemma_let_in(st, data, m, src, now);
    assert(known.buckets == node::with_node(st, m.sender_id, src@, now).buckets);
    routing::lemma_all_distinct(known.buckets, st.id, st.k);
    lemma_without(all, st.id, m.sender_id);
    message::lemma_node_list_read(views);
    lemma_answers(known, m, src@, message::node_list(views));
    let nodes = message::parsed_nodes(message::node_list(views))->0;
    assert(some.len() <= 8);
    assert forall|i: int| 0 <= i < nodes.len() implies (#[trigger] nodes[i]) == (
        some[i].node_id@,
        some[i].address@.ip_at(some[i].address@.port()),
    ) && others[i] == some[i] by {
        assert(message::listed(views)[i] == message::node_view(some[i]));
    }
    assert forall|i: int| 0 <= i < nodes.len() implies (#[trigger] nodes[i]).0 != st.id
        && nodes[i].0 != m.sender_id && is_node_of(known.buckets, nodes[i]) by {
        assert(others.contains(others[i]));
        lemma_is_node(known.buckets, some[i]);
    }
    assert forall|i: int, j: int| 0 <= i < j < nodes.len() implies (#[trigger] nodes[i]).0 != (
    #[trigger] nodes[j]).0 by {
        assert(others[i].node_id@ != others[j].node_id@);
    }
    assert forall|id: Seq<u8>| #[trigger] knows(known.buckets, id) && id != st.id && id
        != m.sender_id implies nodes.len() == 8 || exists|i: int|
        0 <= i < nodes.len() && (#[trigger] nodes[i]).0 == id by {
        let x = lemma_known_entry(known.buckets, id);
        assert(others.contains(x));
        let j = choose|j: int| 0 <= j < others.len() && others[j] == x;
        if others.len() <= 8 {
            assert(nodes[j].0 == id);
        }
    }
}

/// Whether a node stands in a table, with its address as the wire has it.
pub open spec fn is_node_of(buckets: Seq<Seq<BucketEntry>>, n: (Seq<u8>, AddrView)) -> bool {
    exists|b: int, j: int|
        {
            &&& 0 <= b < buckets.len() && 0 <= j < buckets[b].len()
            &&& (#[trigger] buckets[b][j]).node_id@ == n.0
            &&& buckets[b][j].address@.ip_at(buckets[b][j].address@.port()) == n.1
        }
}

proof fn lemma_is_node(buckets: Seq<Seq<BucketEntry>>, e: BucketEntry)
    requires
        routing::concat(buckets).contains(e),
    ensures
        is_node_of(buckets, (e.node_id@, e.address@.ip_at(e.address@.port()))),
{
    routing::lemma_concat_contains(buckets, e);
    let b = choose|b: int| 0 <= b < buckets.len() && (#[trigger] buckets[b]).contains(e);
    let j = choose|j: int| 0 <= j < buckets[b].len() && buckets[b][j] == e;
    assert(buckets[b][j].node_id@ == e.node_id@);
}

/// A STORE request that is let in, for a key that is the digest of the public key that it
/// brings, makes the node keep what it brings under the key, in place of what it kept
/// there: the two keys and the capabilities as they are, and the time to live from a
/// second to an hour as it is, and five minutes otherwise. The record holds for so long
/// from then on. It is acknowledged, and tells of the peer. Every other record stays.
pub proof fn law_store_keeps(
    st: NodeState,
    data: Seq<u8>,
    m: MessageView,
    src: AddrView,
    now: u64,
)
    requires
        st.id.len() == 32,
        message::decoded(data) == Some(m),
        laws::lets_in(st, data, now),
        !m.is_response,
        m.msg_type == DhtMsgType::Store,
        m.payload.len() >= 101,
        m.payload.subrange(0, 32) == primitives::sha256(m.payload.subrange(36, 68)),
    ensures
        ({
            let (after, r) = node::incoming_step(st, data, src, now);
            let key = m.payload.subrange(0, 32);
            let asked = bytes::be_nat(m.payload.subrange(32, 36));
            let kept = after.records[key];
            &&& r is Ok
            &&& answers(st, m, src, r->Ok_0)
            &&& answer_of(r->Ok_0).payload == seq![0u8]
            &&& after.records.dom().contains(key)
            &&& kept.record.pubkey == m.payload.subrange(36, 68)
            &&& kept.record.noise_pubkey == m.payload.subrange(68, 100)
            &&& kept.record.capabilities == m.payload[100]
            &&& kept.record.ttl_remaining == if 1 <= asked <= 3600 {
                asked as int
            } else {
                300
            }
            &&& kept.expires_at == now + kept.record.ttl_remaining * 1000
            &&& r->Ok_0.events.len() == 1
            &&& r->Ok_0.events[0] == node::EventView::PeerDiscovered(key, kept.record)
            &&& forall|id: Seq<u8>|
                id != key ==> (#[trigger] after.records.dom().contains(id)
                    <==> st.records.dom().contains(id)) && after.records[id] == st.records[id]
        }),
{
    let known = node::with_node(st, m.sender_id, src, now);
    let t = bytes::be_nat(m.payload.subrange(32, 36));
    bytes::lemma_pow256();
    bytes::lemma_be_nat_bound(m.payload.subrange(32, 36));
    lemma_answers(known, m, src, seq![0u8]);
}

/// A FIND_VALUE request that is let in, for a key under which the node keeps a record that
/// still holds, is answered with this record.
pub proof fn law_record_answered(
    st: NodeState,
    data: Seq<u8>,
    m: MessageView,
    src: AddrView,
    now: u64,
)
    requires
        st.id.len() == 32,
        message::decoded(data) == Some(m),
        laws::lets_in(st, data, now),
        !m.is_response,
        m.msg_type == DhtMsgType::FindValue,
        m.payload.len() >= 32,
        st.records.dom().contains(m.payload.subrange(0, 32)),
        st.records[m.payload.subrange(0, 32)].expires_at > now,
        laws::record_fits(st.records[m.payload.subrange(0, 32)].record),
    ensures
        ({
            let r = node::incoming_step(st, data, src, now).1;
            let payload = answer_of(r->Ok_0).payload;
            &&& r is Ok
            &&& answers(st, m, src, r->Ok_0)
            &&& payload[0] == 1
            &&& message::parsed_record(payload.skip(1)) == Some(
                st.records[m.payload.subrange(0, 32)].record,
            )
        }),
{
    let known = node::with_node(st, m.sender_id, src, now);
    let rec = st.records[m.payload.subrange(0, 32)].record;
    let found = message::found_payload(rec);
    message::law_record_roundtrip(rec);
    assert(found.skip(1) =~= message::record_bytes(rec));
    bytes::lemma_be_bytes_len(rec.ttl_remaining as nat, 4);
    bytes::lemma_be_bytes_len(message::endpoints_bytes(rec.endpoints).len(), 2);
    lemma_answers(known, m, src, found);
}

/// A FIND_VALUE response with a record that is let in ends the query that it answers,
/// with this record, and tells of the peer whose key the record brings. One that says
/// that there is none ends it without a record. No record of the node changes.
pub proof fn law_lookup_answered(
    st: NodeState,
    data: Seq<u8>,
    m: MessageView,
    src: AddrView,
    now: u64,
)
    requires
        message::decoded(data) == Some(m),
        laws::lets_in(st, data, now),
        m.is_response,
        m.msg_type == DhtMsgType::FindValue,
        m.payload.len() > 0,
    ensures
        ({
            let (after, r) = node::incoming_step(st, data, src, now);
            let rec = message::parsed_record(m.payload.skip(1));
            let o = r->Ok_0;
            let (id, got) = o.answer->0;
            &&& r is Ok
            &&& o.outgoing.len() == 0
            &&& after.records == st.records
            &&& after.pending == st.pending.remove(m.message_id)
            &&& !st.pending.contains(m.message_id) ==> o.answer is None
            &&& st.pending.contains(m.message_id) ==> o.answer is Some && id == m.message_id
            &&& m.payload[0] == 1 && rec is Some ==> {
                &&& o.events.len() == 1
                &&& o.events[0] == node::EventView::PeerDiscovered(
                    primitives::sha256(rec->0.pubkey),
                    rec->0,
                )
                &&& st.pending.contains(m.message_id) ==> got is Some && got->0.record == rec->0
                    && got->0.expires_at == now + rec->0.ttl_remaining * 1000
            }
            &&& m.payload[0] != 1 || rec is None ==> o.events.len() == 0
            &&& (m.payload[0] != 1 || rec is None) && st.pending.contains(m.message_id)
                ==> got is None
        }),
{
    let known = node::with_node(st, m.sender_id, src, now);
    let waiting = NodeState { pending: known.pending.remove(m.message_id), ..known };
    if let Some(nodes) = message::parsed_nodes(m.payload.skip(1)) {
        laws::lemma_with_nodes(waiting, nodes, now);
    }
}

/// Whether an entry stands in a bucket of a table.
pub open spec fn stands_in(buckets: Seq<Seq<BucketEntry>>, e: BucketEntry) -> bool {
    exists|b: int, j: int|
        0 <= b < buckets.len() && 0 <= j < buckets[b].len() && #[trigger] buckets[b][j] == e
}

/// Whether some entries are the `count` entries of a table whose nodes are closest to a
/// target, or all of them where there are no more.
pub open spec fn are_closest(
    es: Seq<BucketEntry>,
    buckets: Seq<Seq<BucketEntry>>,
    target: Seq<u8>,
    count: nat,
) -> bool {
    &&& es.len() <= count
    &&& forall|i: int| 0 <= i < es.len() ==> stands_in(buckets, #[trigger] es[i])
    &&& forall|i: int, j: int|
        0 <= i < j < es.len() ==> xor_distance((#[trigger] es[i]).node_id@, target)
            < xor_distance((#[trigger] es[j]).node_id@, target)
    &&& forall|b: int, j: int|
        0 <= b < buckets.len() && 0 <= j < buckets[b].len() ==> {
            let x = #[trigger] buckets[b][j];
            ||| exists|i: int| 0 <= i < es.len() && (#[trigger] es[i]) == x
            ||| es.len() == count && forall|i: int|
                0 <= i < es.len() ==> xor_distance((#[trigger] es[i]).node_id@, target)
                    < xor_distance(x.node_id@, target)
        }
}

/// Whether messages go to the `count` nodes of a table that are closest to a target, one
/// to each, and each is a request of the node with this id, kind and payload, as whoever
/// gets it reads it.
pub open spec fn requests_closest(
    out: Seq<(Seq<u8>, AddrView)>,
    st: NodeState,
    message_id: Seq<u8>,
    msg_type: DhtMsgType,
    payload: Seq<u8>,
    target: Seq<u8>,
    count: nat,
) -> bool {
    exists|es: Seq<BucketEntry>|
        {
            &&& #[trigger] are_closest(es, st.buckets, target, count)
            &&& out.len() == es.len()
            &&& forall|i: int|
                0 <= i < out.len() ==> {
                    let got = message::decoded((#[trigger] out[i]).0);
                    &&& out[i].1 == es[i].address@
                    &&& got is Some
                    &&& !got->0.is_response
                    &&& got->0.msg_type == msg_type
                    &&& got->0.message_id == message_id
                    &&& got->0.sender_id == st.id
                    &&& got->0.payload == payload
                }
        }
}

/// The entries that are closest are closest.
proof fn lemma_are_closest(
    buckets: Seq<Seq<BucketEntry>>,
    local: Seq<u8>,
    k: nat,
    target: Seq<u8>,
    count: nat,
)
    requires
        routing::table_wf(buckets, local, k),
        target.len() == 32,
    ensures
        are_closest(
            routing::closest(routing::concat(buckets), target, count),
            buckets,
            target,
            count,
        ),
{
    let all = routing::concat(buckets);
    let r = routing::closest(all, target, count);
    routing::lemma_all_distinct(buckets, local, k);
    routing::lemma_closest_there(all, target, count);
    assert forall|i: int| 0 <= i < r.len() implies stands_in(buckets, #[trigger] r[i]) by {
        assert(all.contains(r[i]));
        routing::lemma_concat_contains(buckets, r[i]);
        let b = choose|b: int| 0 <= b < buckets.len() && (#[trigger] buckets[b]).contains(r[i]);
        let j = choose|j: int| 0 <= j < buckets[b].len() && buckets[b][j] == r[i];
        assert(buckets[b][j] == r[i]);
    }
    assert forall|i: int, j: int| 0 <= i < j < r.len() implies xor_distance(
        (#[trigger] r[i]).node_id@,
        target,
    ) < xor_distance((#[trigger] r[j]).node_id@, target) by {
        lemma_distance(r[i], target);
        lemma_distance(r[j], target);
        assert(routing::entry_distance(r[i], target) < routing::entry_distance(r[j], target));
    }
    assert forall|b: int, j: int| 0 <= b < buckets.len() && 0 <= j < buckets[b].len() implies {
        let x = #[trigger] buckets[b][j];
        ||| exists|i: int| 0 <= i < r.len() && (#[trigger] r[i]) == x
        ||| r.len() == count && forall|i: int|
            0 <= i < r.len() ==> xor_distance((#[trigger] r[i]).node_id@, target) < xor_distance(
                x.node_id@,
                target,
            )
    } by {
        let e = buckets[b][j];
        assert(buckets[b].contains(e));
        routing::lemma_concat_contains(buckets, e);
        assert(all.contains(e));
        if r.contains(e) {
            let i = choose|i: int| 0 <= i < r.len() && r[i] == e;
            assert(r[i] == e);
        } else {
            if r.len() < count {
                routing::lemma_all_listed(all, target, count, r, e);
            }
            assert forall|n: int| 0 <= n < r.len() implies xor_distance(
                (#[trigger] r[n]).node_id@,
                target,
            ) < xor_distance(e.node_id@, target) by {
                lemma_distance(r[n], target);
                lemma_distance(e, target);
                assert(routing::entry_distance(r[n], target) < routing::entry_distance(e, target));
            }
        }
    }
}

/// A request that is sent to the nodes that are known closest to a target goes to each of
/// them, and is read as it was written.
pub proof fn law_request_reaches_closest(
    st: NodeState,
    message_id: Seq<u8>,
    msg_type: DhtMsgType,
    payload: Seq<u8>,
    target: Seq<u8>,
    count: nat,
)
    requires
        routing::table_wf(st.buckets, st.id, st.k),
        target.len() == 32,
        message_id.len() == 16,
        payload.len() < 0x100_0000,
    ensures
        requests_closest(
            node::sent_to(
                message::message_bytes(st.id, message_id, msg_type, false, payload, st.seed),
                routing::closest(routing::concat(st.buckets), target, count),
            ),
            st,
            message_id,
            msg_type,
            payload,
            target,
            count,
        ),
{
    let r = routing::closest(routing::concat(st.buckets), target, count);
    lemma_are_closest(st.buckets, st.id, st.k, target, count);
    message::law_message_roundtrip(st.id, message_id, msg_type, false, payload, st.seed);
    assert(are_closest(r, st.buckets, target, count));
}

/// The nodes that may relay are all that are known but the node itself, each once, at
/// its address and with the Noise key of the record that is kept of it, or with zero
/// bytes where none is kept.
pub proof fn law_relays_found(st: NodeState, r: Seq<RelayInfo>)
    requires
        routing::table_wf(st.buckets, st.id, st.k),
        node::lists_relays(
            st.records,
            routing::without(routing::concat(st.buckets), st.id, st.id),
            r,
        ),
    ensures
        forall|i: int|
            0 <= i < r.len() ==> (#[trigger] r[i]).node_id@ != st.id && is_at(
                st.buckets,
                r[i].node_id@,
                r[i].address@,
            ),
        forall|i: int|
            0 <= i < r.len() ==> (#[trigger] r[i]).noise_pubkey@ == if st.records.dom().contains(
                r[i].node_id@,
            ) {
                st.records[r[i].node_id@].record.noise_pubkey
            } else {
                Seq::new(32, |j: int| 0u8)
            },
        forall|i: int, j: int|
            0 <= i < j < r.len() ==> (#[trigger] r[i]).node_id@ != (#[trigger] r[j]).node_id@,
        forall|id: Seq<u8>| #[trigger]
            knows(st.buckets, id) && id != st.id ==> exists|i: int|
                0 <= i < r.len() && (#[trigger] r[i]).node_id@ == id,
{
    let all = routing::concat(st.buckets);
    let others = routing::without(all, st.id, st.id);
    routing::lemma_all_distinct(st.buckets, st.id, st.k);
    lemma_without(all, st.id, st.id);
    assert forall|i: int| 0 <= i < r.len() implies (#[trigger] r[i]).node_id@ != st.id && is_at(
        st.buckets,
        r[i].node_id@,
        r[i].address@,
    ) by {
        assert(others.contains(others[i]));
        let e = others[i];
        routing::lemma_concat_contains(st.buckets, e);
        let b = choose|b: int| 0 <= b < st.buckets.len() && (#[trigger] st.buckets[b]).contains(e);
        let j = choose|j: int| 0 <= j < st.buckets[b].len() && st.buckets[b][j] == e;
        assert(st.buckets[b][j].node_id@ == r[i].node_id@);
    }
    assert forall|i: int, j: int| 0 <= i < j < r.len() implies (#[trigger] r[i]).node_id@ != (
    #[trigger] r[j]).node_id@ by {
        assert(others[i].node_id@ != others[j].node_id@);
    }
    assert forall|id: Seq<u8>| #[trigger] knows(st.buckets, id) && id != st.id implies exists|
        i: int,
    | 0 <= i < r.len() && (#[trigger] r[i]).node_id@ == id by {
        let x = lemma_known_entry(st.buckets, id);
        assert(others.contains(x));
        let j = choose|j: int| 0 <= j < others.len() && others[j] == x;
        assert(r[j].node_id@ == id);
    }
}

/// Whether a table has a node at an address.
pub open spec fn is_at(buckets: Seq<Seq<BucketEntry>>, id: Seq<u8>, addr: AddrView) -> bool {
    exists|b: int, j: int|
        {
            &&& 0 <= b < buckets.len() && 0 <= j < buckets[b].len()
            &&& (#[trigger] buckets[b][j]).node_id@ == id
            &&& buckets[b][j].address@ == addr
        }
}

/// Cleaning up keeps just the records that have not ended, each as it is.
pub proof fn law_cleanup(records: Map<Seq<u8>, KeptRecordView>, now: u64, id: Seq<u8>)
    ensures
        ({
            let after = node::live_records(records, now);
            &&& after.dom().contains(id) <==> records.dom().contains(id) && now
                < records[id].expires_at
            &&& after.dom().contains(id) ==> after[id] == records[id]
        }),
{
}

} // verus!
