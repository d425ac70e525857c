//! Per-conversation accumulation of captured TCP payloads, and reaping of
//! conversations that have been idle past a time-to-live.
use std::collections::HashMap;

use vstd::prelude::*;

use crate::clock::now_millis;
use crate::decode::{be16, carries_tcp, closes, decode_frame, is_closing, tcp_bytes, tcp_payload, TcpSegment};
use crate::domain::{self, PacketDirection};
use crate::ports::{classification, classify, PortPair, PortRegistry};

verus! {

broadcast use vstd::std_specs::hash::group_hash_axioms;

/// One captured segment of a conversation. `completed` marks the extra
/// fragment recorded for a segment that carried FIN or RST; `at` is the
/// capture time in milliseconds since the epoch.
#[derive(Debug)]
pub struct TcpPacketInfo {
    pub payload: Vec<u8>,
    pub packet_direction: PacketDirection,
    pub completed: bool,
    pub at: i64,
}

/// What a recorded fragment holds, as mathematical values.
pub struct FragmentView {
    pub payload: Seq<u8>,
    pub packet_direction: PacketDirection,
    pub completed: bool,
    pub at: i64,
}

impl View for TcpPacketInfo {
    type V = FragmentView;

    open spec fn view(&self) -> FragmentView {
        FragmentView {
            payload: self.payload@,
            packet_direction: self.packet_direction,
            completed: self.completed,
            at: self.at,
        }
    }
}

/// The views of a list of fragments.
pub open spec fn fragments_view(s: Seq<TcpPacketInfo>) -> Seq<FragmentView> {
    s.map_values(|f: TcpPacketInfo| f@)
}

/// The fragments captured so far for one conversation, in arrival order.
#[derive(Debug)]
pub struct Conversation {
    pub port_pair: PortPair,
    pub packets: Vec<TcpPacketInfo>,
}

/// `stored` is fragment `f` kept as a payload of stream `stream_id`, its own
/// id left at 0 for the store to assign.
pub open spec fn stores_fragment(stored: domain::Packet, f: FragmentView, stream_id: i64) -> bool {
    &&& stored.id == 0
    &&& stored.direction == f.packet_direction
    &&& stored.payload@ == f.payload
    &&& stored.stream_id == stream_id
    &&& stored.at == f.at
}

impl Conversation {
    /// The stored form of a finished conversation as stream `stream_id`: the
    /// stream of the watched port, and one stored payload per fragment, in order.
    pub fn to_stored(&self, stream_id: i64) -> (r: (domain::Stream, Vec<domain::Packet>))
        ensures
            r.0.id == stream_id,
            r.0.service_port == self.port_pair.dst as i32,
            r.1@.len() == self.packets@.len(),
            forall|k: int|
                0 <= k < r.1@.len() ==> stores_fragment(
                    #[trigger] r.1@[k],
                    self.packets@[k]@,
                    stream_id,
                ),
    {
        let mut stored: Vec<domain::Packet> = Vec::new();
        let mut k: usize = 0;
        while k < self.packets.len()
            invariant
                k <= self.packets@.len(),
                stored@.len() == k,
                forall|j: int|
                    0 <= j < k ==> stores_fragment(#[trigger] stored@[j], self.packets@[j]@, stream_id),
            decreases self.packets@.len() - k,
        {
            let f = &self.packets[k];
            stored.push(
                domain::Packet {
                    id: 0,
                    direction: f.packet_direction,
                    payload: vstd::slice::slice_to_vec(f.payload.as_slice()),
                    stream_id,
                    at: f.at,
                },
            );
            k = k + 1;
        }
        (domain::Stream { id: stream_id, service_port: self.port_pair.dst as i32 }, stored)
    }
}

/// No two conversations of `cs` share a port pair.
pub open spec fn pairs_unique(cs: Seq<Conversation>) -> bool {
    forall|i: int, j: int|
        0 <= i < j < cs.len() ==> (#[trigger] cs[i]).port_pair != (#[trigger] cs[j]).port_pair
}

/// Some conversation of `cs` has the pair `p`.
pub open spec fn holds_pair(cs: Seq<Conversation>, p: PortPair) -> bool {
    exists|i: int| 0 <= i < cs.len() && (#[trigger] cs[i]).port_pair == p
}

/// The position of a conversation with pair `p` in `cs`.
pub open spec fn index_of(cs: Seq<Conversation>, p: PortPair) -> int {
    choose|i: int| 0 <= i < cs.len() && (#[trigger] cs[i]).port_pair == p
}

/// The conversations of `cs` as a map from pair to fragments.
pub open spec fn live_map(cs: Seq<Conversation>) -> Map<PortPair, Seq<FragmentView>> {
    Map::new(|p: PortPair| holds_pair(cs, p), |p: PortPair| fragments_view(cs[index_of(cs, p)].packets@))
}

/// The fragments recorded for `p`, empty when there are none.
pub open spec fn fragments_of(live: Map<PortPair, Seq<FragmentView>>, p: PortPair) -> Seq<
    FragmentView,
> {
    if live.contains_key(p) {
        live[p]
    } else {
        Seq::empty()
    }
}

/// The fragment recorded for one segment.
pub open spec fn fragment(payload: Seq<u8>, d: PacketDirection, completed: bool, at: i64) -> FragmentView {
    FragmentView { payload, packet_direction: d, completed, at }
}

/// The fragments one segment adds: its payload, and for a closing segment a
/// second copy marked completed.
pub open spec fn arrivals(payload: Seq<u8>, d: PacketDirection, closing: bool, at: i64) -> Seq<
    FragmentView,
> {
    if closing {
        seq![fragment(payload, d, false, at), fragment(payload, d, true, at)]
    } else {
        seq![fragment(payload, d, false, at)]
    }
}

/// The live conversations after a segment with this classification arrives.
pub open spec fn recorded(
    live: Map<PortPair, Seq<FragmentView>>,
    class: Option<(PortPair, PacketDirection)>,
    payload: Seq<u8>,
    closing: bool,
    at: i64,
) -> Map<PortPair, Seq<FragmentView>> {
    match class {
        None => live,
        Some((p, d)) => live.insert(p, fragments_of(live, p) + arrivals(payload, d, closing, at)),
    }
}

/// A conversation is expired at `now` when its last fragment is older than `ttl`.
pub open spec fn expired(frags: Seq<FragmentView>, now: i64, ttl: i64) -> bool {
    frags.len() > 0 && now as int - frags.last().at as int > ttl as int
}

/// The conversations of `live` that are expired at `now`.
pub open spec fn expired_part(live: Map<PortPair, Seq<FragmentView>>, now: i64, ttl: i64) -> Map<
    PortPair,
    Seq<FragmentView>,
> {
    Map::new(|p: PortPair| live.contains_key(p) && expired(live[p], now, ttl), |p: PortPair| live[p])
}

/// The conversations of `live` that are not expired at `now`.
pub open spec fn unexpired_part(live: Map<PortPair, Seq<FragmentView>>, now: i64, ttl: i64) -> Map<
    PortPair,
    Seq<FragmentView>,
> {
    Map::new(|p: PortPair| live.contains_key(p) && !expired(live[p], now, ttl), |p: PortPair| live[p])
}

proof fn lemma_index_of(cs: Seq<Conversation>, i: int)
    requires
        pairs_unique(cs),
        0 <= i < cs.len(),
    ensures
        holds_pair(cs, cs[i].port_pair),
        index_of(cs, cs[i].port_pair) == i,
        live_map(cs).contains_key(cs[i].port_pair),
        live_map(cs)[cs[i].port_pair] == fragments_view(cs[i].packets@),
{
    assert(holds_pair(cs, cs[i].port_pair));
    let j = index_of(cs, cs[i].port_pair);
    assert(0 <= j < cs.len() && cs[j].port_pair == cs[i].port_pair);
    if j < i {
        assert(cs[j].port_pair != cs[i].port_pair);
    } else if i < j {
        assert(cs[i].port_pair != cs[j].port_pair);
    }
}

proof fn lemma_live_push(cs: Seq<Conversation>, c: Conversation)
    requires
        pairs_unique(cs),
        !holds_pair(cs, c.port_pair),
    ensures
        pairs_unique(cs.push(c)),
        forall|q: PortPair|
            #[trigger] holds_pair(cs.push(c), q) == (holds_pair(cs, q) || q == c.port_pair),
        live_map(cs.push(c)) == live_map(cs).insert(c.port_pair, fragments_view(c.packets@)),
{
    let n = cs.push(c);
    assert forall|a: int, b: int| 0 <= a < b < n.len() implies (#[trigger] n[a]).port_pair
        != (#[trigger] n[b]).port_pair by {
        if b == cs.len() {
            assert(cs[a].port_pair != c.port_pair);
        } else {
            assert(cs[a].port_pair != cs[b].port_pair);
        }
    }
    assert forall|q: PortPair| holds_pair(n, q) == (holds_pair(cs, q) || q == c.port_pair) by {
        if holds_pair(cs, q) {
            let j = choose|j: int| 0 <= j < cs.len() && (#[trigger] cs[j]).port_pair == q;
            assert(n[j].port_pair == q);
        }
        if q == c.port_pair {
            assert(n[cs.len() as int].port_pair == q);
        }
        if holds_pair(n, q) && q != c.port_pair {
            let j = choose|j: int| 0 <= j < n.len() && (#[trigger] n[j]).port_pair == q;
            assert(cs[j].port_pair == q);
        }
    }
    assert(live_map(n) =~= live_map(cs).insert(c.port_pair, fragments_view(c.packets@))) by {
        assert forall|q: PortPair| #[trigger] live_map(n).contains_key(q) implies live_map(n)[q]
            == live_map(cs).insert(c.port_pair, fragments_view(c.packets@))[q] by {
            if q == c.port_pair {
                lemma_index_of(n, cs.len() as int);
            } else {
                let j = index_of(cs, q);
                lemma_index_of(cs, j);
                assert(n[j] == cs[j]);
                lemma_index_of(n, j);
            }
        }
    }
}

proof fn lemma_fragments_push(s: Seq<TcpPacketInfo>, f: TcpPacketInfo)
    ensures
        fragments_view(s.push(f)) == fragments_view(s).push(f@),
{
    assert(fragments_view(s.push(f)) =~= fragments_view(s).push(f@));
}

/// Whether the conversation's last fragment is older than `ttl` at `now`.
fn conversation_expired(c: &Conversation, now: i64, ttl: i64) -> (r: bool)
    ensures
        r == expired(fragments_view(c.packets@), now, ttl),
{
    let n = c.packets.len();
    if n == 0 {
        return false;
    }
    let last_at = c.packets[n - 1].at;
    (now as i128) - (last_at as i128) > ttl as i128
}


/// A segment as delivered to the tracker.
pub struct SegmentView {
    pub source_port: u16,
    pub destination_port: u16,
    pub payload: Seq<u8>,
    pub closing: bool,
    pub at: i64,
}

/// The live conversations after the segments `segs` are recorded in order.
pub open spec fn recorded_all(
    live: Map<PortPair, Seq<FragmentView>>,
    watched: Set<u16>,
    segs: Seq<SegmentView>,
) -> Map<PortPair, Seq<FragmentView>>
    decreases segs.len(),
{
    if segs.len() == 0 {
        live
    } else {
        let s = segs.last();
        recorded(
            recorded_all(live, watched, segs.drop_last()),
            classification(watched, s.source_port, s.destination_port),
            s.payload,
            s.closing,
            s.at,
        )
    }
}

/// The fragments that the segments of `segs` belonging to `p` add, in delivery order.
pub open spec fn delivered_to(watched: Set<u16>, p: PortPair, segs: Seq<SegmentView>) -> Seq<
    FragmentView,
>
    decreases segs.len(),
{
    if segs.len() == 0 {
        Seq::empty()
    } else {
        let s = segs.last();
        match classification(watched, s.source_port, s.destination_port) {
            Some((q, d)) => if q == p {
                delivered_to(watched, p, segs.drop_last()) + arrivals(s.payload, d, s.closing, s.at)
            } else {
                delivered_to(watched, p, segs.drop_last())
            },
            None => delivered_to(watched, p, segs.drop_last()),
        }
    }
}

/// Append-only ordering: after any sequence of segments, a conversation holds
/// what it held before followed by exactly the fragments delivered to it, in
/// delivery order; nothing is reordered, dropped or duplicated.
pub proof fn lemma_append_only(
    live: Map<PortPair, Seq<FragmentView>>,
    watched: Set<u16>,
    segs: Seq<SegmentView>,
    p: PortPair,
)
    ensures
        fragments_of(recorded_all(live, watched, segs), p) == fragments_of(live, p)
            + delivered_to(watched, p, segs),
    decreases segs.len(),
{
    if segs.len() == 0 {
        assert(fragments_of(live, p) + Seq::<FragmentView>::empty() =~= fragments_of(live, p));
    } else {
        lemma_append_only(live, watched, segs.drop_last(), p);
        let s = segs.last();
        let prev = recorded_all(live, watched, segs.drop_last());
        match classification(watched, s.source_port, s.destination_port) {
            Some((q, d)) => {
                if q == p {
                    assert(fragments_of(live, p) + delivered_to(watched, p, segs) =~= (fragments_of(
                        live,
                        p,
                    ) + delivered_to(watched, p, segs.drop_last())) + arrivals(
                        s.payload,
                        d,
                        s.closing,
                        s.at,
                    ));
                }
            },
            None => {},
        }
    }
}

/// TTL reaping: a conversation whose last fragment was captured at `t` stays
/// live through a sweep at any `now` up to `t + ttl`, and a sweep at any later
/// `now` removes it from the live map and hands it off whole.
pub proof fn lemma_ttl_reaping(live: Map<PortPair, Seq<FragmentView>>, p: PortPair, now: i64, ttl: i64)
    requires
        live.contains_key(p),
        live[p].len() > 0,
    ensures
        now as int <= live[p].last().at as int + ttl as int ==> unexpired_part(live, now, ttl).contains_key(p)
            && unexpired_part(live, now, ttl)[p] == live[p] && !expired_part(live, now, ttl).contains_key(p),
        now as int > live[p].last().at as int + ttl as int ==> !unexpired_part(live, now, ttl).contains_key(p)
            && expired_part(live, now, ttl).contains_key(p) && expired_part(live, now, ttl)[p] == live[p],
{
}

/// The key of a conversation in the tracker's map: the two ports side by side.
pub open spec fn pair_key(p: PortPair) -> u32 {
    (p.src as int * 65536 + p.dst as int) as u32
}

/// The key of a conversation in the tracker's map.
pub fn key_of(p: PortPair) -> (r: u32)
    ensures
        r == pair_key(p),
{
    (p.src as u32) * 65536 + (p.dst as u32)
}

proof fn lemma_pair_key_injective(p: PortPair, q: PortPair)
    ensures
        pair_key(p) == pair_key(q) ==> p == q,
{
}

/// The conversations of a map keyed by `pair_key`, by pair.
pub open spec fn keyed_live(m: Map<u32, Conversation>) -> Map<PortPair, Seq<FragmentView>> {
    Map::new(
        |p: PortPair| m.contains_key(pair_key(p)),
        |p: PortPair| fragments_view(m[pair_key(p)].packets@),
    )
}

/// Every conversation sits under the key of its own pair.
pub open spec fn keys_consistent(m: Map<u32, Conversation>) -> bool {
    forall|k: u32| #[trigger] m.contains_key(k) ==> pair_key(m[k].port_pair) == k
}

proof fn lemma_keyed_insert(m: Map<u32, Conversation>, c: Conversation)
    ensures
        keyed_live(m.insert(pair_key(c.port_pair), c)) == keyed_live(m).insert(
            c.port_pair,
            fragments_view(c.packets@),
        ),
{
    let n = m.insert(pair_key(c.port_pair), c);
    assert forall|p: PortPair| #[trigger] n.contains_key(pair_key(p)) == (m.contains_key(pair_key(p)) || p == c.port_pair) by {
        lemma_pair_key_injective(p, c.port_pair);
    }
    assert(keyed_live(n) =~= keyed_live(m).insert(c.port_pair, fragments_view(c.packets@))) by {
        assert forall|p: PortPair| #[trigger] keyed_live(n).contains_key(p) implies keyed_live(n)[p]
            == keyed_live(m).insert(c.port_pair, fragments_view(c.packets@))[p] by {
            lemma_pair_key_injective(p, c.port_pair);
        }
    }
}

/// The keys of a map, each once.
fn keys_of(m: &HashMap<u32, Conversation>) -> (r: Vec<u32>)
    ensures
        r@.to_set() == m@.dom(),
        r@.no_duplicates(),
{
    let mut r: Vec<u32> = Vec::new();
    for k in it: m.keys()
        invariant
            it.seq().unref().to_set() == m@.dom(),
            it.seq().unref().no_duplicates(),
            r@ == it.seq().unref().take(it.index() as int),
            it.index() == it.seq().len() ==> r@ == it.seq().unref(),
    {
        proof {
            assert(it.seq().unref().take(it.seq().len() as int) =~= it.seq().unref());
            assert(it.seq().unref().take(it.index() as int + 1) =~= it.seq().unref().take(
                it.index() as int,
            ).push(*k));
        }
        r.push(*k);
    }
    r
}

/// The conversation under `k` in `m` is expired at `now`.
pub open spec fn expired_at(m: Map<u32, Conversation>, k: u32, now: i64, ttl: i64) -> bool {
    expired(fragments_view(m[k].packets@), now, ttl)
}

/// The live conversations of one capture interface, keyed by port pair, and
/// the idle time after which a conversation is handed off.
pub struct Sniffer {
    interface_name: String,
    conversations: HashMap<u32, Conversation>,
    tcp_stream_ttl: i64,
}

impl Sniffer {
    /// The internal consistency of the tracker: each conversation sits under
    /// the key of its pair.
    pub closed spec fn wf(&self) -> bool {
        keys_consistent(self.conversations@)
    }

    /// The live conversations, by pair.
    pub closed spec fn live(&self) -> Map<PortPair, Seq<FragmentView>> {
        keyed_live(self.conversations@)
    }

    /// The idle time, in milliseconds, after which a conversation expires.
    pub closed spec fn ttl(&self) -> i64 {
        self.tcp_stream_ttl
    }

    /// The name of the captured interface.
    pub closed spec fn interface(&self) -> Seq<char> {
        self.interface_name@
    }

    /// A tracker for `interface_name` with no conversation yet.
    pub fn new(interface_name: &str, tcp_stream_ttl: i64) -> (r: Sniffer)
        ensures
            r.wf(),
            r.live() == Map::<PortPair, Seq<FragmentView>>::empty(),
            r.ttl() == tcp_stream_ttl,
            r.interface() == interface_name@,
    {
        let r = Sniffer {
            interface_name: interface_name.to_owned(),
            conversations: HashMap::new(),
            tcp_stream_ttl,
        };
        assert(r.live() =~= Map::<PortPair, Seq<FragmentView>>::empty());
        r
    }

    /// The name of the captured interface.
    pub fn interface_name(&self) -> (r: &String)
        ensures
            r@ == self.interface(),
    {
        &self.interface_name
    }

    /// The idle time after which a conversation expires.
    pub fn tcp_stream_ttl(&self) -> (r: i64)
        ensures
            r == self.ttl(),
    {
        self.tcp_stream_ttl
    }

    /// The live conversation with pair `p`, if there is one.
    pub fn conversation(&self, p: PortPair) -> (r: Option<&Conversation>)
        requires
            self.wf(),
        ensures
            r is None <==> !self.live().contains_key(p),
            r matches Some(c) ==> c.port_pair == p && fragments_view(c.packets@) == self.live()[p],
    {
        let key = key_of(p);
        let r = self.conversations.get(&key);
        proof {
            if r is Some {
                lemma_pair_key_injective(p, self.conversations@[key].port_pair);
            }
        }
        r
    }

    /// Records a segment captured at `at`: it is appended to its conversation
    /// (created if absent) when one of its ports is watched, followed by a
    /// completion marker when it carries FIN or RST; otherwise it is ignored.
    pub fn record_segment(&mut self, ports: &PortRegistry, segment: &TcpSegment, at: i64)
        requires
            old(self).wf(),
        ensures
            final(self).wf(),
            final(self).ttl() == old(self).ttl(),
            final(self).interface() == old(self).interface(),
            final(self).live() == recorded(
                old(self).live(),
                classification(ports@, segment.source_port, segment.destination_port),
                segment.payload@,
                closes(segment.flags),
                at,
            ),
    {
        let (pair, direction) = match classify(ports, segment.source_port, segment.destination_port) {
            Some(class) => class,
            None => return ,
        };
        let closing = is_closing(segment.flags);
        let ghost arrived = arrivals(segment.payload@, direction, closing, at);
        let ghost orig = self.conversations@;
        let key = key_of(pair);
        let mut packets: Vec<TcpPacketInfo> = match self.conversations.remove(&key) {
            Some(c) => c.packets,
            None => Vec::new(),
        };
        let ghost start = packets@;
        proof {
            if orig.contains_key(key) {
                assert(keyed_live(orig).contains_key(pair));
                assert(start == orig[key].packets@);
            } else {
                assert(!keyed_live(orig).contains_key(pair));
                assert(fragments_view(start) =~= Seq::<FragmentView>::empty());
            }
            assert(fragments_view(start) == fragments_of(keyed_live(orig), pair));
        }
        packets.push(
            TcpPacketInfo {
                payload: vstd::slice::slice_to_vec(segment.payload.as_slice()),
                packet_direction: direction,
                completed: false,
                at,
            },
        );
        proof {
            lemma_fragments_push(start, packets@.last());
        }
        if closing {
            let ghost mid = packets@;
            packets.push(
                TcpPacketInfo {
                    payload: vstd::slice::slice_to_vec(segment.payload.as_slice()),
                    packet_direction: direction,
                    completed: true,
                    at,
                },
            );
            proof {
                lemma_fragments_push(mid, packets@.last());
            }
        }
        proof {
            assert(fragments_view(packets@) =~= fragments_view(start) + arrived);
        }
        let c = Conversation { port_pair: pair, packets };
        let ghost gc = c;
        self.conversations.insert(key, c);
        proof {
            assert(self.conversations@ =~= orig.insert(key, gc));
            lemma_keyed_insert(orig, gc);
        }
    }

    /// Records a segment at the current time (see `record_segment`).
    pub fn handle_tcp_packet(&mut self, ports: &PortRegistry, segment: &TcpSegment)
        requires
            old(self).wf(),
        ensures
            final(self).wf(),
            final(self).ttl() == old(self).ttl(),
            final(self).interface() == old(self).interface(),
            exists|at: i64|
                final(self).live() == #[trigger] recorded(
                    old(self).live(),
                    classification(ports@, segment.source_port, segment.destination_port),
                    segment.payload@,
                    closes(segment.flags),
                    at,
                ),
    {
        let at = now_millis();
        self.record_segment(ports, segment, at);
    }

    /// Decodes a captured frame and records its TCP segment at the current
    /// time; frames that do not carry TCP over IPv4 are dropped.
    pub fn handle_eth_packet(&mut self, ports: &PortRegistry, frame: &[u8])
        requires
            old(self).wf(),
        ensures
            final(self).wf(),
            final(self).ttl() == old(self).ttl(),
            final(self).interface() == old(self).interface(),
            !carries_tcp(frame@) ==> final(self).live() == old(self).live(),
            carries_tcp(frame@) ==> exists|at: i64|
                final(self).live() == #[trigger] recorded(
                    old(self).live(),
                    classification(
                        ports@,
                        be16(tcp_bytes(frame@), 0) as u16,
                        be16(tcp_bytes(frame@), 2) as u16,
                    ),
                    tcp_payload(tcp_bytes(frame@)),
                    closes(tcp_bytes(frame@)[13]),
                    at,
                ),
    {
        match decode_frame(frame) {
            Some(segment) => self.handle_tcp_packet(ports, &segment),
            None => {},
        }
    }

    /// Removes every conversation whose last fragment is older than the TTL
    /// at `now` and returns them; the others stay untouched.
    pub fn reap_expired(&mut self, now: i64) -> (r: Vec<Conversation>)
        requires
            old(self).wf(),
        ensures
            final(self).wf(),
            final(self).ttl() == old(self).ttl(),
            final(self).interface() == old(self).interface(),
            final(self).live() == unexpired_part(old(self).live(), now, old(self).ttl()),
            pairs_unique(r@),
            live_map(r@) == expired_part(old(self).live(), now, old(self).ttl()),
    {
        let ttl = self.tcp_stream_ttl;
        let keys = keys_of(&self.conversations);
        let ghost orig = self.conversations@;
        let ghost name = self.interface_name@;
        let mut removed: Vec<Conversation> = Vec::new();
        let mut i: usize = 0;
        while i < keys.len()
            invariant
                i <= keys@.len(),
                keys@.to_set() == orig.dom(),
                keys@.no_duplicates(),
                keys_consistent(orig),
                ttl == self.tcp_stream_ttl,
                name == self.interface_name@,
                forall|k: u32| #[trigger] self.conversations@.contains_key(k) ==> orig.contains_key(k)
                    && self.conversations@[k] == orig[k],
                forall|k: u32|
                    #[trigger] orig.contains_key(k) ==> (self.conversations@.contains_key(k) <==> !(
                    keys@.take(i as int).contains(k) && expired_at(orig, k, now, ttl))),
                pairs_unique(removed@),
                forall|j: int|
                    0 <= j < removed@.len() ==> {
                        let k = pair_key((#[trigger] removed@[j]).port_pair);
                        &&& orig.contains_key(k)
                        &&& removed@[j] == orig[k]
                        &&& keys@.take(i as int).contains(k)
                        &&& expired_at(orig, k, now, ttl)
                    },
                forall|k: u32|
                    #[trigger] orig.contains_key(k) && keys@.take(i as int).contains(k) && expired_at(orig, k, now, ttl)
                        ==> holds_pair(removed@, orig[k].port_pair),
            decreases keys@.len() - i,
        {
            let k = keys[i];
            let ghost done = keys@.take(i as int);
            let ghost next = keys@.take(i as int + 1);
            proof {
                assert(keys@.to_set().contains(k));
                assert(!done.contains(k)) by {
                    if done.contains(k) {
                        let q = choose|q: int| 0 <= q < done.len() && done[q] == k;
                        assert(keys@[q] == keys@[i as int]);
                    }
                }
                assert(next =~= done.push(k));
                assert forall|x: u32| #[trigger] next.contains(x) == (done.contains(x) || x == k) by {
                    if next.contains(x) && x != k {
                        let q = choose|q: int| 0 <= q < next.len() && next[q] == x;
                        assert(done[q] == x);
                    }
                    if x == k {
                        assert(next[i as int] == k);
                    }
                }
            }
            let expired_now = match self.conversations.get(&k) {
                Some(c) => conversation_expired(c, now, ttl),
                None => false,
            };
            if expired_now {
                let ghost before = removed@;
                match self.conversations.remove(&k) {
                    Some(c) => {
                        proof {
                            assert(c == orig[k]);
                            assert(!holds_pair(before, c.port_pair)) by {
                                if holds_pair(before, c.port_pair) {
                                    let j = choose|j: int| 0 <= j < before.len() && (#[trigger] before[j]).port_pair == c.port_pair;
                                    assert(pair_key(before[j].port_pair) == k);
                                }
                            }
                            lemma_live_push(before, c);
                        }
                        removed.push(c);
                        proof {
                            assert(removed@[before.len() as int] == c);
                            assert forall|j: int| 0 <= j < before.len() implies #[trigger] removed@[j] == before[j] by {}
                            assert(holds_pair(removed@, c.port_pair));
                        }
                    },
                    None => {},
                }
            }
            i = i + 1;
        }
        proof {
            assert(keys@.take(keys@.len() as int) =~= keys@);
            assert forall|k: u32| keys@.contains(k) == orig.contains_key(k) by {
                assert(keys@.to_set().contains(k) == keys@.contains(k));
            }
            let old_live = keyed_live(orig);
            assert(self.live() =~= unexpired_part(old_live, now, ttl));
            assert(live_map(removed@) =~= expired_part(old_live, now, ttl)) by {
                assert forall|p: PortPair| #[trigger] holds_pair(removed@, p) == (orig.contains_key(pair_key(p)) && expired_at(orig, pair_key(p), now, ttl)) by {
                    if holds_pair(removed@, p) {
                        let j = choose|j: int| 0 <= j < removed@.len() && (#[trigger] removed@[j]).port_pair == p;
                    }
                    if orig.contains_key(pair_key(p)) && expired_at(orig, pair_key(p), now, ttl) {
                        lemma_pair_key_injective(p, orig[pair_key(p)].port_pair);
                    }
                }
                assert forall|p: PortPair| #[trigger] live_map(removed@).contains_key(p) implies live_map(removed@)[p] == expired_part(old_live, now, ttl)[p] by {
                    let j = choose|j: int| 0 <= j < removed@.len() && (#[trigger] removed@[j]).port_pair == p;
                    lemma_index_of(removed@, j);
                }
            }
        }
        removed
    }

    /// Hands off the conversations that expired by the current time (see `reap_expired`).
    pub fn manage_tcp_streams(&mut self) -> (r: Vec<Conversation>)
        requires
            old(self).wf(),
        ensures
            final(self).wf(),
            final(self).ttl() == old(self).ttl(),
            final(self).interface() == old(self).interface(),
            pairs_unique(r@),
            exists|now: i64|
                final(self).live() == #[trigger] unexpired_part(old(self).live(), now, old(self).ttl())
                    && live_map(r@) == expired_part(old(self).live(), now, old(self).ttl()),
    {
        let now = now_millis();
        self.reap_expired(now)
    }
}

} // verus!
