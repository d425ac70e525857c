use stream_sniffer::domain::{PacketDirection, Service};
use stream_sniffer::store::{group_services_with_rules, rule_from_row, rules_from_rows, RuleRow, ServiceRuleRow};
use stream_sniffer::types::AppError;

fn rule_row(id: i64, pattern: &str) -> RuleRow {
    RuleRow {
        id,
        name: format!("rule{}", id),
        packet_direction: PacketDirection::IN,
        regexp: pattern.to_string(),
        color: "red".to_string(),
    }
}

fn service(id: i64, name: &str, port: i32) -> Service {
    Service { id, name: name.to_string(), port }
}

fn row(s: Service, rule: Option<RuleRow>) -> ServiceRuleRow {
    ServiceRuleRow { service: s, rule }
}

#[test]
fn stored_rule_is_compiled() {
    let r = rule_from_row(&rule_row(4, "fl[a]g")).unwrap();
    assert_eq!(r.id, 4);
    assert_eq!(r.name, "rule4");
    assert_eq!(r.color, "red");
    assert_eq!(r.packet_direction, PacketDirection::IN);
    assert_eq!(r.regexp, "fl[a]g");
    assert!(rule_from_row(&rule_row(4, "fl(ag")).is_none());
}

#[test]
fn stored_rules_are_compiled_in_order() {
    let rules = rules_from_rows(&vec![rule_row(2, "a"), rule_row(1, "b")]).ok().unwrap();
    let ids: Vec<i64> = rules.iter().map(|r| r.id).collect();
    assert_eq!(ids, vec![2, 1]);
}

#[test]
fn stored_rule_that_does_not_compile_is_an_internal_error() {
    match rules_from_rows(&vec![rule_row(2, "a"), rule_row(1, "[")]) {
        Err(e @ AppError::InternalServerError(_)) => assert_eq!(e.status_code(), 500),
        _ => panic!("expected an internal error"),
    }
}

#[test]
fn rows_are_grouped_by_service_in_id_order() {
    let rows = vec![
        row(service(2, "b", 8081), Some(rule_row(10, "x"))),
        row(service(1, "a", 8080), None),
        row(service(2, "b", 8081), Some(rule_row(11, "y"))),
        row(service(3, "c", 8082), Some(rule_row(0, "("))),
    ];
    let groups = group_services_with_rules(&rows).ok().unwrap();
    let got: Vec<(Service, Vec<i64>)> = groups
        .iter()
        .map(|g| (g.service.clone(), g.rules.iter().map(|r| r.id).collect()))
        .collect();
    assert_eq!(
        got,
        vec![
            (service(1, "a", 8080), vec![]),
            (service(2, "b", 8081), vec![10, 11]),
            (service(3, "c", 8082), vec![]),
        ]
    );
}

#[test]
fn grouping_fails_on_a_stored_pattern_that_does_not_compile() {
    let rows = vec![
        row(service(1, "a", 8080), Some(rule_row(5, "ok"))),
        row(service(1, "a", 8080), Some(rule_row(6, "(("))),
    ];
    assert!(matches!(
        group_services_with_rules(&rows),
        Err(AppError::InternalServerError(_))
    ));
}
