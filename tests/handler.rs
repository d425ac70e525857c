use stream_sniffer::domain::{self, PacketDirection, Service, ServiceWithRules};
use stream_sniffer::handler::{add_rule, build_stream_views, find_service, show_time, time_bounds};
use stream_sniffer::types::{
    self, AppError, AppResponse, GetLastStreamsRequest, Rule, Rules, Services, StreamWithPackets,
    TextWithColor,
};

fn stored(at: i64, direction: PacketDirection, payload: &[u8]) -> domain::Packet {
    domain::Packet {
        id: 0,
        direction,
        payload: payload.to_vec(),
        stream_id: 1,
        at,
    }
}

fn rule(id: i64, direction: PacketDirection, pattern: &str, color: &str) -> domain::Rule {
    domain::Rule {
        id,
        name: format!("rule{}", id),
        packet_direction: direction,
        regexp: pattern.to_string(),
        color: color.to_string(),
    }
}

fn service(id: i64, name: &str, port: i32, rules: Vec<domain::Rule>) -> ServiceWithRules {
    ServiceWithRules {
        service: Service { id, name: name.to_string(), port },
        rules,
    }
}

fn runs(segs: &[TextWithColor]) -> Vec<(Vec<u8>, String)> {
    segs.iter().map(|s| (s.text.clone(), s.color.clone())).collect()
}

fn run(text: &[u8], color: &str) -> (Vec<u8>, String) {
    (text.to_vec(), color.to_string())
}

fn shown(id: i64) -> Rule {
    Rule {
        id,
        name: format!("rule{}", id),
        packet_direction: "IN".to_string(),
        regexp: String::new(),
        color: "red".to_string(),
    }
}

#[test]
fn time_bounds_are_the_earliest_and_latest_times() {
    let packets = vec![
        stored(30, PacketDirection::IN, b""),
        stored(10, PacketDirection::OUT, b""),
        stored(50, PacketDirection::IN, b""),
        stored(20, PacketDirection::IN, b""),
    ];
    assert_eq!(time_bounds(&packets), Some((10, 50)));
    assert_eq!(time_bounds(&vec![stored(-5, PacketDirection::IN, b"")]), Some((-5, -5)));
    assert_eq!(time_bounds(&vec![]), None);
}

#[test]
fn times_are_shown_as_day_month_year_with_milliseconds() {
    assert_eq!(show_time(947638923004), "12/01/2000 01:02:03.004");
    assert_eq!(show_time(0), "01/01/1970 00:00:00.000");
    assert_eq!(show_time(i64::MAX), "");
}

#[test]
fn streams_are_presented_with_the_rules_of_their_service() {
    let services = vec![
        service(1, "other", 9090, vec![rule(1, PacketDirection::IN, "GET", "green")]),
        service(
            2,
            "web",
            8080,
            vec![
                rule(7, PacketDirection::IN, r"flag\{[a-z]+\}", "red"),
                rule(3, PacketDirection::IN, "GET", "blue"),
                rule(5, PacketDirection::OUT, r"flag\{[a-z]+\}", "yellow"),
                rule(4, PacketDirection::IN, "never", "pink"),
            ],
        ),
    ];
    let streams = vec![(
        domain::Stream { id: 11, service_port: 8080 },
        vec![
            stored(947638923004, PacketDirection::IN, b"GET /flag{x}"),
            stored(947638923001, PacketDirection::OUT, b"ok"),
        ],
    )];
    let views: Vec<StreamWithPackets> = build_stream_views(&streams, &services);
    assert_eq!(views.len(), 1);
    let v = &views[0];
    assert_eq!(v.stream.id, 11);
    assert_eq!(v.stream.service_name, "web");
    assert_eq!(v.stream.service_port, 8080);
    assert_eq!(v.stream.started_at, "12/01/2000 01:02:03.001");
    assert_eq!(v.stream.ended_at, "12/01/2000 01:02:03.004");
    let ids: Vec<i64> = v.stream.rules.iter().map(|r| r.id).collect();
    assert_eq!(ids, vec![3, 7]);
    assert_eq!(v.stream.rules[1].color, "red");
    assert_eq!(v.packets.len(), 2);
    assert_eq!(
        runs(&v.packets[0].payload),
        vec![run(b"GET", "blue"), run(b" /", ""), run(b"flag{x}", "red")]
    );
    assert_eq!(v.packets[0].direction, "IN");
    assert_eq!(v.packets[0].at, "12/01/2000 01:02:03.004");
    assert_eq!(runs(&v.packets[1].payload), vec![run(b"ok", "")]);
    assert_eq!(v.packets[1].direction, "OUT");
}

#[test]
fn stream_of_an_unknown_port_has_no_name_and_no_rules() {
    let services = vec![service(1, "web", 8080, vec![rule(1, PacketDirection::IN, "a", "red")])];
    let streams = vec![
        (domain::Stream { id: 1, service_port: 22 }, vec![stored(0, PacketDirection::IN, b"abc")]),
        (domain::Stream { id: 2, service_port: 8080 }, vec![]),
    ];
    let views = build_stream_views(&streams, &services);
    assert_eq!(views.len(), 2);
    assert_eq!(views[0].stream.service_name, "");
    assert!(views[0].stream.rules.is_empty());
    assert_eq!(runs(&views[0].packets[0].payload), vec![run(b"abc", "")]);
    assert_eq!(views[1].stream.service_name, "web");
    assert!(views[1].packets.is_empty());
    assert_eq!(views[1].stream.started_at, "");
    assert_eq!(views[1].stream.ended_at, "");
}

#[test]
fn first_service_on_a_port_is_found() {
    let services = vec![
        service(1, "a", 1, vec![]),
        service(2, "b", 2, vec![]),
        service(3, "c", 2, vec![]),
    ];
    assert_eq!(find_service(&services, 2), Some(1));
    assert_eq!(find_service(&services, 3), None);
}

#[test]
fn rules_are_listed_once_in_ascending_id_order() {
    let mut acc: Vec<Rule> = Vec::new();
    for id in [5, 2, 9, 2, 5, 1] {
        add_rule(&mut acc, &shown(id));
    }
    let ids: Vec<i64> = acc.iter().map(|r| r.id).collect();
    assert_eq!(ids, vec![1, 2, 5, 9]);
}

#[test]
fn limit_below_one_is_a_bad_request() {
    let e = GetLastStreamsRequest { limit: 0 }.validate().unwrap_err();
    assert_eq!(e.status_code(), 400);
    assert_eq!(e.message(), "Невалидное значение у поля `limit`");
    assert!(GetLastStreamsRequest { limit: -3 }.validate().is_err());
    assert!(GetLastStreamsRequest { limit: 1 }.validate().is_ok());
}

#[test]
fn errors_and_responses_have_their_status() {
    let internal = AppError::InternalServerError("db down".to_string());
    assert_eq!(internal.status_code(), 500);
    assert_eq!(internal.message(), "Внутренняя ошибка");
    assert_eq!(internal.detail(), "db down");
    let bad = AppError::BadRequest("nope".to_string(), "why".to_string());
    assert_eq!(bad.status_code(), 400);
    assert_eq!(bad.message(), "nope");
    assert_eq!(bad.detail(), "why");
    assert_eq!(AppResponse::OK.status_code(), 200);
    assert_eq!(AppResponse::CREATED.status_code(), 201);
}

#[test]
fn direction_names_round_trip() {
    assert_eq!(PacketDirection::from_str("IN"), Some(PacketDirection::IN));
    assert_eq!(PacketDirection::from_str("OUT"), Some(PacketDirection::OUT));
    assert_eq!(PacketDirection::from_str("in"), None);
    assert_eq!(PacketDirection::from_str(""), None);
    assert_eq!(PacketDirection::IN.to_text(), "IN");
    assert_eq!(PacketDirection::OUT.to_text(), "OUT");
}

#[test]
fn services_wrap_a_list() {
    let list = vec![Service { id: 1, name: "web".to_string(), port: 80 }];
    let Services(inner) = Services::from(list.clone());
    assert_eq!(inner, list);
}

#[test]
fn streams_are_equal_by_id() {
    let a = domain::Stream { id: 4, service_port: 80 };
    let b = domain::Stream { id: 4, service_port: 8080 };
    let c = domain::Stream { id: 5, service_port: 80 };
    assert!(a == b);
    assert!(a != c);
}

#[test]
fn rules_are_presented_in_order() {
    let rules = vec![
        rule(2, PacketDirection::OUT, "a+", "red"),
        rule(1, PacketDirection::IN, "b", "blue"),
    ];
    let Rules(shown) = Rules::from_domain(&rules);
    let got: Vec<(i64, String, String, String, String)> = shown
        .iter()
        .map(|r| (r.id, r.name.clone(), r.packet_direction.clone(), r.regexp.clone(), r.color.clone()))
        .collect();
    assert_eq!(
        got,
        vec![
            (2, "rule2".to_string(), "OUT".to_string(), "a+".to_string(), "red".to_string()),
            (1, "rule1".to_string(), "IN".to_string(), "b".to_string(), "blue".to_string()),
        ]
    );
}

#[test]
fn service_with_rules_is_presented() {
    let s = service(3, "web", 8080, vec![rule(9, PacketDirection::IN, "x", "green")]);
    let shown = types::ServiceWithRules::from_domain(&s);
    assert_eq!(shown.service, Service { id: 3, name: "web".to_string(), port: 8080 });
    assert_eq!(shown.rules.0.len(), 1);
    assert_eq!(shown.rules.0[0].id, 9);
    assert_eq!(shown.rules.0[0].packet_direction, "IN");
}
