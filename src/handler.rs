//! Building the presented form of stored streams, and checking rule requests.
use vstd::prelude::*;

use crate::clock::{format_timestamp, timestamp_text};
use crate::domain::{self, direction_name, PacketDirection, ServiceWithRules};
use crate::highlight::{build_texts_with_colors, highlighted};
use crate::rules::{collect_borders, compile_pattern, from_rule_of, gathered, pattern_compiles};
use crate::types::{AppError, Packet, Rule, RuleWithBorders, Stream, StreamWithPackets};

verus! {

/// The display form of an instant, empty where it cannot be shown.
pub open spec fn shown_time(ms: i64) -> Seq<char> {
    match timestamp_text(ms as int) {
        Some(t) => t,
        None => Seq::empty(),
    }
}

/// The display form of an instant, empty where it cannot be shown.
pub fn show_time(ms: i64) -> (r: String)
    ensures
        r@ == shown_time(ms),
{
    match format_timestamp(ms) {
        Some(s) => s,
        None => String::new(),
    }
}

/// The earliest capture time of a non-empty list of packets.
pub open spec fn earliest(ps: Seq<domain::Packet>) -> i64
    decreases ps.len(),
{
    if ps.len() <= 1 {
        ps[0].at
    } else {
        let e = earliest(ps.drop_last());
        if ps.last().at < e {
            ps.last().at
        } else {
            e
        }
    }
}

/// The latest capture time of a non-empty list of packets.
pub open spec fn latest(ps: Seq<domain::Packet>) -> i64
    decreases ps.len(),
{
    if ps.len() <= 1 {
        ps[0].at
    } else {
        let e = latest(ps.drop_last());
        if ps.last().at > e {
            ps.last().at
        } else {
            e
        }
    }
}

/// `earliest` and `latest` are the least and the greatest capture time.
pub proof fn lemma_time_bounds(ps: Seq<domain::Packet>)
    requires
        ps.len() > 0,
    ensures
        earliest(ps) <= latest(ps),
        forall|k: int| 0 <= k < ps.len() ==> earliest(ps) <= (#[trigger] ps[k]).at <= latest(ps),
        exists|k: int| 0 <= k < ps.len() && (#[trigger] ps[k]).at == earliest(ps),
        exists|k: int| 0 <= k < ps.len() && (#[trigger] ps[k]).at == latest(ps),
    decreases ps.len(),
{
    if ps.len() > 1 {
        let init = ps.drop_last();
        lemma_time_bounds(init);
        assert forall|k: int| 0 <= k < ps.len() implies earliest(ps) <= (#[trigger] ps[k]).at <= latest(ps) by {
            if k < ps.len() - 1 {
                assert(ps[k] == init[k]);
            }
        }
        if ps.last().at >= earliest(init) {
            let k = choose|k: int| 0 <= k < init.len() && (#[trigger] init[k]).at == earliest(init);
            assert(ps[k] == init[k]);
        } else {
            assert(ps[ps.len() - 1] == ps.last());
        }
        if ps.last().at <= latest(init) {
            let k = choose|k: int| 0 <= k < init.len() && (#[trigger] init[k]).at == latest(init);
            assert(ps[k] == init[k]);
        } else {
            assert(ps[ps.len() - 1] == ps.last());
        }
    } else {
        assert(ps[0].at == earliest(ps));
    }
}

/// The earliest and latest capture times of `packets`, or `None` when there is none.
pub fn time_bounds(packets: &Vec<domain::Packet>) -> (r: Option<(i64, i64)>)
    ensures
        r is None <==> packets@.len() == 0,
        r matches Some((s, e)) ==> s == earliest(packets@) && e == latest(packets@),
{
    if packets.len() == 0 {
        return None;
    }
    let mut s = packets[0].at;
    let mut e = packets[0].at;
    let mut k: usize = 1;
    while k < packets.len()
        invariant
            1 <= k <= packets@.len(),
            s == earliest(packets@.take(k as int)),
            e == latest(packets@.take(k as int)),
        decreases packets@.len() - k,
    {
        let t = packets[k].at;
        proof {
            let next = packets@.take(k as int + 1);
            assert(next.drop_last() =~= packets@.take(k as int));
            assert(next.last() == packets@[k as int]);
        }
        if t < s {
            s = t;
        }
        if t > e {
            e = t;
        }
        k = k + 1;
    }
    proof {
        assert(packets@.take(packets@.len() as int) =~= packets@);
    }
    Some((s, e))
}

/// The ids of a list of presented rules.
pub open spec fn ids_of(rs: Seq<Rule>) -> Set<i64> {
    Set::new(|id: i64| exists|k: int| 0 <= k < rs.len() && (#[trigger] rs[k]).id == id)
}

/// The ids of the rules behind a list of hits.
pub open spec fn hit_ids(bs: Seq<RuleWithBorders>) -> Set<i64> {
    Set::new(|id: i64| exists|k: int| 0 <= k < bs.len() && (#[trigger] bs[k]).rule.id == id)
}

/// `x` is one of the rules of `pool`.
pub open spec fn drawn_from(x: Rule, pool: Seq<Rule>) -> bool {
    exists|j: int| 0 <= j < pool.len() && pool[j] == x
}

/// The rules behind a list of hits.
pub open spec fn hit_rules(bs: Seq<RuleWithBorders>) -> Seq<Rule> {
    bs.map_values(|b: RuleWithBorders| b.rule)
}

/// The ids of a list of presented rules strictly increase.
pub open spec fn ids_ascending(rs: Seq<Rule>) -> bool {
    forall|a: int, b: int| 0 <= a < b < rs.len() ==> (#[trigger] rs[a]).id < (#[trigger] rs[b]).id
}

/// Adds `rule` to a list kept in ascending id order, unless its id is already there.
pub fn add_rule(acc: &mut Vec<Rule>, rule: &Rule)
    requires
        ids_ascending(old(acc)@),
    ensures
        ids_ascending(final(acc)@),
        ids_of(final(acc)@) == ids_of(old(acc)@).insert(rule.id),
        forall|k: int|
            0 <= k < final(acc)@.len() ==> (#[trigger] final(acc)@[k]) == *rule || drawn_from(
                final(acc)@[k],
                old(acc)@,
            ),
{
    let ghost before = acc@;
    let mut j: usize = 0;
    while j < acc.len() && acc[j].id < rule.id
        invariant
            acc@ == before,
            j <= acc@.len(),
            forall|k: int| 0 <= k < j ==> (#[trigger] acc@[k]).id < rule.id,
        decreases acc@.len() - j,
    {
        j = j + 1;
    }
    if j < acc.len() && acc[j].id == rule.id {
        proof {
            assert(ids_of(acc@) =~= ids_of(before).insert(rule.id)) by {
                assert(acc@[j as int].id == rule.id);
            }
            assert forall|k: int| 0 <= k < acc@.len() implies (#[trigger] acc@[k]) == *rule || drawn_from(
                acc@[k],
                before,
            ) by {
                assert(before[k] == acc@[k]);
            }
        }
        return;
    }
    acc.insert(j, rule.copy());
    proof {
        let n = acc@;
        assert(n == before.insert(j as int, *rule));
        assert forall|a: int, b: int| 0 <= a < b < n.len() implies (#[trigger] n[a]).id < (#[trigger] n[b]).id by {
            if j < before.len() {
                assert(before[j as int].id > rule.id);
            }
            if b < j {
                assert(n[a] == before[a] && n[b] == before[b]);
            } else if b == j {
                assert(n[a] == before[a]);
            } else if a < j {
                assert(n[a] == before[a] && n[b] == before[b - 1]);
                assert(before[j as int].id <= before[b - 1].id);
            } else if a == j {
                assert(n[b] == before[b - 1]);
                assert(before[j as int].id <= before[b - 1].id);
            } else {
                assert(n[a] == before[a - 1] && n[b] == before[b - 1]);
            }
        }
        assert(ids_of(n) =~= ids_of(before).insert(rule.id)) by {
            assert forall|id: i64| ids_of(before).insert(rule.id).contains(id) implies ids_of(n).contains(id) by {
                if id == rule.id {
                    assert(n[j as int].id == id);
                } else {
                    let k = choose|k: int| 0 <= k < before.len() && (#[trigger] before[k]).id == id;
                    if k < j {
                        assert(n[k] == before[k]);
                    } else {
                        assert(n[k + 1] == before[k]);
                    }
                }
            }
            assert forall|id: i64| ids_of(n).contains(id) implies ids_of(before).insert(rule.id).contains(id) by {
                let k = choose|k: int| 0 <= k < n.len() && (#[trigger] n[k]).id == id;
                if k < j {
                    assert(n[k] == before[k]);
                } else if k > j {
                    assert(n[k] == before[k - 1]);
                }
            }
        }
        assert forall|k: int| 0 <= k < n.len() implies (#[trigger] n[k]) == *rule || drawn_from(
            n[k],
            before,
        ) by {
            if k < j {
                assert(before[k] == n[k]);
            } else if k > j {
                assert(before[k - 1] == n[k]);
            }
        }
    }
}

/// Adds the rules behind `hits` to a list kept in ascending id order, once per id.
pub fn add_hit_rules(acc: &mut Vec<Rule>, hits: &Vec<RuleWithBorders>)
    requires
        ids_ascending(old(acc)@),
    ensures
        ids_ascending(final(acc)@),
        ids_of(final(acc)@) == ids_of(old(acc)@) + hit_ids(hits@),
        forall|k: int|
            0 <= k < final(acc)@.len() ==> drawn_from(#[trigger] final(acc)@[k], old(acc)@)
                || drawn_from(final(acc)@[k], hit_rules(hits@)),
{
    let ghost start = acc@;
    proof {
        assert forall|k: int| 0 <= k < acc@.len() implies drawn_from(#[trigger] acc@[k], start) by {
            assert(start[k] == acc@[k]);
        }
        assert(hit_ids(hits@.take(0)) =~= Set::<i64>::empty());
        assert(ids_of(start) + Set::<i64>::empty() =~= ids_of(start));
    }
    let mut i: usize = 0;
    while i < hits.len()
        invariant
            i <= hits@.len(),
            ids_ascending(acc@),
            ids_of(acc@) == ids_of(start) + hit_ids(hits@.take(i as int)),
            forall|k: int|
                0 <= k < acc@.len() ==> drawn_from(#[trigger] acc@[k], start) || drawn_from(
                    acc@[k],
                    hit_rules(hits@.take(i as int)),
                ),
        decreases hits@.len() - i,
    {
        let ghost prev = acc@;
        add_rule(acc, &hits[i].rule);
        proof {
            assert(hit_ids(hits@.take(i as int + 1)) =~= hit_ids(hits@.take(i as int)).insert(hits@[i as int].rule.id)) by {
                let t = hits@.take(i as int + 1);
                assert(t[i as int] == hits@[i as int]);
                assert forall|id: i64| hit_ids(t).contains(id) implies hit_ids(hits@.take(i as int)).insert(hits@[i as int].rule.id).contains(id) by {
                    let k = choose|k: int| 0 <= k < t.len() && (#[trigger] t[k]).rule.id == id;
                    if k < i {
                        assert(hits@.take(i as int)[k] == t[k]);
                    }
                }
                assert forall|id: i64| hit_ids(hits@.take(i as int)).contains(id) implies hit_ids(t).contains(id) by {
                    let k = choose|k: int| 0 <= k < i && (#[trigger] hits@.take(i as int)[k]).rule.id == id;
                    assert(t[k] == hits@.take(i as int)[k]);
                }
            }
            assert(ids_of(acc@) =~= ids_of(start) + hit_ids(hits@.take(i as int + 1)));
            let hr = hit_rules(hits@.take(i as int));
            let hr2 = hit_rules(hits@.take(i as int + 1));
            assert(hr2 =~= hr.push(hits@[i as int].rule));
            assert forall|k: int| 0 <= k < acc@.len() implies drawn_from(#[trigger] acc@[k], start)
                || drawn_from(acc@[k], hr2) by {
                if acc@[k] == hits@[i as int].rule {
                    assert(hr2[i as int] == acc@[k]);
                } else {
                    assert(drawn_from(acc@[k], prev));
                    let m = choose|m: int| 0 <= m < prev.len() && prev[m] == acc@[k];
                    assert(drawn_from(prev[m], start) || drawn_from(prev[m], hr));
                    if drawn_from(prev[m], hr) {
                        let q = choose|q: int| 0 <= q < hr.len() && hr[q] == prev[m];
                        assert(hr2[q] == hr[q]);
                    }
                }
            }
        }
        i = i + 1;
    }
    proof {
        assert(hits@.take(hits@.len() as int) =~= hits@);
    }
}

/// The ids of the rules behind every list of hits in `hits`.
pub open spec fn all_hit_ids(hits: Seq<Seq<RuleWithBorders>>) -> Set<i64>
    decreases hits.len(),
{
    if hits.len() == 0 {
        Set::empty()
    } else {
        all_hit_ids(hits.drop_last()) + hit_ids(hits.last())
    }
}

/// The rules behind every list of hits in `hits`, in order.
pub open spec fn all_hit_rules(hits: Seq<Seq<RuleWithBorders>>) -> Seq<Rule>
    decreases hits.len(),
{
    if hits.len() == 0 {
        Seq::empty()
    } else {
        all_hit_rules(hits.drop_last()) + hit_rules(hits.last())
    }
}

/// `v` presents the stored payload `p` highlighted by the hits `hits`: the
/// matches of the rules of `rules` for the payload's direction, rule by rule.
pub open spec fn presents_packet(
    v: Packet,
    p: domain::Packet,
    rules: Seq<domain::Rule>,
    hits: Seq<RuleWithBorders>,
) -> bool {
    &&& v.direction@ == direction_name(p.direction)
    &&& v.at@ == shown_time(p.at)
    &&& highlighted(p.payload@, hits, v.payload@)
    &&& gathered(rules, p.direction, p.payload@, hits)
    &&& forall|j: int|
        0 <= j < hits.len() ==> from_rule_of(#[trigger] hits[j], rules, p.direction) && 0
            <= hits[j].start <= hits[j].end <= p.payload@.len()
}

/// `v` presents `stream` with its `packets`, the service name `name` and the
/// service's `rules`, the payloads having been hit by `hits`.
pub open spec fn presents_stream_with(
    v: StreamWithPackets,
    stream: domain::Stream,
    packets: Seq<domain::Packet>,
    name: Seq<char>,
    rules: Seq<domain::Rule>,
    hits: Seq<Seq<RuleWithBorders>>,
) -> bool {
    &&& v.stream.id == stream.id
    &&& v.stream.service_port == stream.service_port
    &&& v.stream.service_name@ == name
    &&& packets.len() > 0 ==> v.stream.started_at@ == shown_time(earliest(packets))
        && v.stream.ended_at@ == shown_time(latest(packets))
    &&& packets.len() == 0 ==> v.stream.started_at@.len() == 0 && v.stream.ended_at@.len() == 0
    &&& v.packets@.len() == packets.len()
    &&& hits.len() == packets.len()
    &&& forall|k: int|
        0 <= k < packets.len() ==> presents_packet(#[trigger] v.packets@[k], packets[k], rules, hits[k])
    &&& ids_ascending(v.stream.rules@)
    &&& ids_of(v.stream.rules@) == all_hit_ids(hits)
    &&& forall|k: int|
        0 <= k < v.stream.rules@.len() ==> drawn_from(#[trigger] v.stream.rules@[k], all_hit_rules(hits))
}

/// `v` presents `stream`: every payload highlighted by the rules of its
/// direction, the rules that hit listed once each in ascending id order.
pub open spec fn presents_stream(
    v: StreamWithPackets,
    stream: domain::Stream,
    packets: Seq<domain::Packet>,
    name: Seq<char>,
    rules: Seq<domain::Rule>,
) -> bool {
    exists|hits: Seq<Seq<RuleWithBorders>>| #[trigger] presents_stream_with(v, stream, packets, name, rules, hits)
}

/// Builds the presented form of a stored stream of the service named
/// `service_name` with the rules `rules`.
pub fn build_stream_view(
    stream: &domain::Stream,
    packets: &Vec<domain::Packet>,
    service_name: &String,
    rules: &Vec<domain::Rule>,
) -> (r: StreamWithPackets)
    requires
        forall|k: int| 0 <= k < packets@.len() ==> (#[trigger] packets@[k]).payload@.len() <= i64::MAX,
    ensures
        presents_stream(r, *stream, packets@, service_name@, rules@),
{
    let mut views: Vec<Packet> = Vec::new();
    let mut listed: Vec<Rule> = Vec::new();
    let ghost mut hits: Seq<Seq<RuleWithBorders>> = Seq::empty();
    let mut k: usize = 0;
    proof {
        assert(ids_of(listed@) =~= Set::<i64>::empty());
    }
    while k < packets.len()
        invariant
            k <= packets@.len(),
            forall|j: int| 0 <= j < packets@.len() ==> (#[trigger] packets@[j]).payload@.len() <= i64::MAX,
            views@.len() == k,
            hits.len() == k,
            forall|j: int| 0 <= j < k ==> presents_packet(#[trigger] views@[j], packets@[j], rules@, hits[j]),
            ids_ascending(listed@),
            ids_of(listed@) == all_hit_ids(hits),
            forall|j: int| 0 <= j < listed@.len() ==> drawn_from(#[trigger] listed@[j], all_hit_rules(hits)),
        decreases packets@.len() - k,
    {
        let p = &packets[k];
        let borders = collect_borders(rules, p.direction, p.payload.as_slice());
        let segs = build_texts_with_colors(p.payload.as_slice(), &borders);
        let ghost prev = listed@;
        add_hit_rules(&mut listed, &borders);
        let ghost prev_views = views@;
        views.push(Packet { payload: segs, direction: p.direction.to_text(), at: show_time(p.at) });
        let ghost old_hits = hits;
        proof {
            hits = hits.push(borders@);
            assert(hits.drop_last() =~= old_hits);
            assert(all_hit_rules(hits) == all_hit_rules(old_hits) + hit_rules(borders@));
            assert forall|j: int| 0 <= j < k + 1 implies presents_packet(#[trigger] views@[j], packets@[j], rules@, hits[j]) by {
                if j < k {
                    assert(views@[j] == prev_views[j]);
                }
            }
            assert(ids_of(listed@) =~= all_hit_ids(hits));
            assert forall|j: int| 0 <= j < listed@.len() implies drawn_from(#[trigger] listed@[j], all_hit_rules(hits)) by {
                let a = all_hit_rules(old_hits);
                let b = hit_rules(borders@);
                if drawn_from(listed@[j], prev) {
                    let m = choose|m: int| 0 <= m < prev.len() && prev[m] == listed@[j];
                    assert(drawn_from(prev[m], a));
                    let q = choose|q: int| 0 <= q < a.len() && a[q] == prev[m];
                    assert((a + b)[q] == a[q]);
                } else {
                    let q = choose|q: int| 0 <= q < b.len() && b[q] == listed@[j];
                    assert((a + b)[a.len() + q] == b[q]);
                }
            }
        }
        k = k + 1;
    }
    let (started_at, ended_at) = match time_bounds(packets) {
        Some((s, e)) => (show_time(s), show_time(e)),
        None => (String::new(), String::new()),
    };
    let r = StreamWithPackets {
        stream: Stream {
            id: stream.id,
            service_name: service_name.clone(),
            service_port: stream.service_port,
            rules: listed,
            started_at,
            ended_at,
        },
        packets: views,
    };
    assert(presents_stream_with(r, *stream, packets@, service_name@, rules@, hits));
    r
}

/// `i` is the first service of `services` with port `port`.
pub open spec fn first_with_port(services: Seq<ServiceWithRules>, port: i32, i: int) -> bool {
    &&& 0 <= i < services.len()
    &&& services[i].service.port == port
    &&& forall|j: int| 0 <= j < i ==> (#[trigger] services[j]).service.port != port
}

/// No service of `services` has port `port`.
pub open spec fn no_service_with_port(services: Seq<ServiceWithRules>, port: i32) -> bool {
    forall|j: int| 0 <= j < services.len() ==> (#[trigger] services[j]).service.port != port
}

/// The position of the first service with port `port`.
pub fn find_service(services: &Vec<ServiceWithRules>, port: i32) -> (r: Option<usize>)
    ensures
        r matches Some(i) ==> first_with_port(services@, port, i as int),
        r is None ==> no_service_with_port(services@, port),
{
    let mut i: usize = 0;
    while i < services.len()
        invariant
            i <= services@.len(),
            forall|j: int| 0 <= j < i ==> (#[trigger] services@[j]).service.port != port,
        decreases services@.len() - i,
    {
        if services[i].service.port == port {
            return Some(i);
        }
        i = i + 1;
    }
    None
}

/// `v` presents `stream` with the name and rules of the first service on its
/// port, or with no name and no rule when no service has that port.
pub open spec fn presents_for_services(
    v: StreamWithPackets,
    services: Seq<ServiceWithRules>,
    stream: domain::Stream,
    packets: Seq<domain::Packet>,
) -> bool {
    ||| exists|i: int|
        first_with_port(services, stream.service_port, i) && #[trigger] presents_stream(
            v,
            stream,
            packets,
            services[i].service.name@,
            services[i].rules@,
        )
    ||| no_service_with_port(services, stream.service_port) && presents_stream(
        v,
        stream,
        packets,
        Seq::empty(),
        Seq::empty(),
    )
}

/// Builds the presented form of each stored stream, in the given order, with
/// the rules of the service on its port.
pub fn build_stream_views(
    streams: &Vec<(domain::Stream, Vec<domain::Packet>)>,
    services: &Vec<ServiceWithRules>,
) -> (r: Vec<StreamWithPackets>)
    requires
        forall|k: int, j: int|
            0 <= k < streams@.len() && 0 <= j < streams@[k].1@.len() ==> (#[trigger] streams@[k].1@[j]).payload@.len()
                <= i64::MAX,
    ensures
        r@.len() == streams@.len(),
        forall|k: int|
            0 <= k < r@.len() ==> presents_for_services(
                #[trigger] r@[k],
                services@,
                streams@[k].0,
                streams@[k].1@,
            ),
{
    let mut r: Vec<StreamWithPackets> = Vec::new();
    let no_rules: Vec<domain::Rule> = Vec::new();
    let no_name = String::new();
    let mut k: usize = 0;
    while k < streams.len()
        invariant
            k <= streams@.len(),
            r@.len() == k,
            no_rules@.len() == 0,
            no_name@.len() == 0,
            forall|a: int, j: int|
                0 <= a < streams@.len() && 0 <= j < streams@[a].1@.len() ==> (#[trigger] streams@[a].1@[j]).payload@.len()
                    <= i64::MAX,
            forall|a: int|
                0 <= a < k ==> presents_for_services(#[trigger] r@[a], services@, streams@[a].0, streams@[a].1@),
        decreases streams@.len() - k,
    {
        let (stream, packets) = &streams[k];
        assert(forall|j: int| 0 <= j < packets@.len() ==> (#[trigger] packets@[j]).payload@.len() <= i64::MAX) by {
            assert forall|j: int| 0 <= j < packets@.len() implies (#[trigger] packets@[j]).payload@.len() <= i64::MAX by {
                assert(packets@[j] == streams@[k as int].1@[j]);
            }
        }
        let view = match find_service(services, stream.service_port) {
            Some(i) => build_stream_view(stream, packets, &services[i].service.name, &services[i].rules),
            None => {
                assert(no_name@ =~= Seq::<char>::empty());
                assert(no_rules@ =~= Seq::<domain::Rule>::empty());
                build_stream_view(stream, packets, &no_name, &no_rules)
            },
        };
        r.push(view);
        k = k + 1;
    }
    r
}

/// The message shown for an unknown direction name.
pub open spec fn invalid_direction_message() -> Seq<char> {
    "Невалидное значение у поля `packet_direction`"@
}

/// The message shown for a pattern that does not compile.
pub open spec fn invalid_pattern_message() -> Seq<char> {
    "Невалидное регулярное выражение"@
}

/// Turns a submitted rule into a rule with id `id`: the direction must be a
/// direction name and the pattern must compile, else it is a bad request.
pub fn rule_from_request(req: &Rule, id: i64) -> (r: Result<domain::Rule, AppError>)
    ensures
        req.packet_direction@ != "IN"@ && req.packet_direction@ != "OUT"@ ==> (r matches Err(
            AppError::BadRequest(m, _),
        ) && m@ == invalid_direction_message()),
        (req.packet_direction@ == "IN"@ || req.packet_direction@ == "OUT"@) && !pattern_compiles(
            req.regexp@,
        ) ==> (r matches Err(AppError::BadRequest(m, _)) && m@ == invalid_pattern_message()),
        r is Ok <==> (req.packet_direction@ == "IN"@ || req.packet_direction@ == "OUT"@)
            && pattern_compiles(req.regexp@),
        r matches Ok(rule) ==> {
            &&& rule.id == id
            &&& rule.name@ == req.name@
            &&& rule.regexp@ == req.regexp@
            &&& rule.color@ == req.color@
            &&& direction_name(rule.packet_direction) == req.packet_direction@
        },
{
    proof {
        reveal_strlit("IN");
        reveal_strlit("OUT");
        assert("IN"@.len() != "OUT"@.len());
    }
    let packet_direction = match PacketDirection::from_str(req.packet_direction.as_str()) {
        Some(d) => d,
        None => {
            return Err(
                AppError::BadRequest(
                    "Невалидное значение у поля `packet_direction`".to_owned(),
                    "invalid packet_direction".to_owned(),
                ),
            );
        },
    };
    if !compile_pattern(req.regexp.as_str()) {
        return Err(
            AppError::BadRequest(
                "Невалидное регулярное выражение".to_owned(),
                "invalid regexp".to_owned(),
            ),
        );
    }
    Ok(
        domain::Rule {
            id,
            name: req.name.clone(),
            packet_direction,
            regexp: req.regexp.clone(),
            color: req.color.clone(),
        },
    )
}

} // verus!
