use stream_sniffer::highlight::build_texts_with_colors;
use stream_sniffer::types::{Rule, RuleWithBorders, TextWithColor};

fn shown_rule(id: i64, color: &str) -> Rule {
    Rule {
        id,
        name: format!("rule{}", id),
        packet_direction: "IN".to_string(),
        regexp: String::new(),
        color: color.to_string(),
    }
}

fn hit(id: i64, color: &str, start: i64, end: i64) -> RuleWithBorders {
    RuleWithBorders { rule: shown_rule(id, color), start, end }
}

fn runs(segs: &[TextWithColor]) -> Vec<(Vec<u8>, String)> {
    segs.iter().map(|s| (s.text.clone(), s.color.clone())).collect()
}

fn run(text: &[u8], color: &str) -> (Vec<u8>, String) {
    (text.to_vec(), color.to_string())
}

fn assert_lossless_and_minimal(payload: &[u8], segs: &[TextWithColor]) {
    let joined: Vec<u8> = segs.iter().flat_map(|s| s.text.iter().copied()).collect();
    assert_eq!(joined, payload.to_vec());
    for s in segs {
        assert!(!s.text.is_empty());
    }
    for w in segs.windows(2) {
        assert_ne!(w[0].color, w[1].color);
    }
}

#[test]
fn overlap_later_rule_wins() {
    let payload = b"0123456789";
    let hits = vec![hit(1, "red", 0, 5), hit(2, "blue", 3, 8)];
    let segs = build_texts_with_colors(payload, &hits);
    assert_eq!(
        runs(&segs),
        vec![run(b"012", "red"), run(b"34567", "blue"), run(b"89", "")]
    );
}

#[test]
fn overlap_order_of_hits_decides_not_position() {
    let payload = b"0123456789";
    let hits = vec![hit(2, "blue", 3, 8), hit(1, "red", 0, 5)];
    let segs = build_texts_with_colors(payload, &hits);
    assert_eq!(
        runs(&segs),
        vec![run(b"01234", "red"), run(b"567", "blue"), run(b"89", "")]
    );
}

#[test]
fn no_hits_give_one_uncolored_run() {
    let segs = build_texts_with_colors(b"hello world", &vec![]);
    assert_eq!(runs(&segs), vec![run(b"hello world", "")]);
}

#[test]
fn no_hits_on_empty_payload_give_one_empty_run() {
    let segs = build_texts_with_colors(b"", &vec![]);
    assert_eq!(runs(&segs), vec![run(b"", "")]);
}

#[test]
fn hits_on_empty_payload_give_no_run() {
    let segs = build_texts_with_colors(b"", &vec![hit(1, "red", 0, 0)]);
    assert!(segs.is_empty());
}

#[test]
fn zero_width_hit_leaves_payload_uncolored() {
    let segs = build_texts_with_colors(b"abc", &vec![hit(1, "red", 1, 1)]);
    assert_eq!(runs(&segs), vec![run(b"abc", "")]);
}

#[test]
fn hit_spanning_whole_payload() {
    let segs = build_texts_with_colors(b"abc", &vec![hit(1, "red", 0, 3)]);
    assert_eq!(runs(&segs), vec![run(b"abc", "red")]);
}

#[test]
fn hits_touching_first_and_last_byte() {
    let hits = vec![hit(1, "red", 0, 1), hit(2, "red", 5, 6)];
    let segs = build_texts_with_colors(b"abcdef", &hits);
    assert_eq!(
        runs(&segs),
        vec![run(b"a", "red"), run(b"bcde", ""), run(b"f", "red")]
    );
}

#[test]
fn neighbouring_hits_of_one_color_share_a_run() {
    let hits = vec![hit(1, "red", 0, 2), hit(2, "red", 2, 4)];
    let segs = build_texts_with_colors(b"abcd", &hits);
    assert_eq!(runs(&segs), vec![run(b"abcd", "red")]);
}

#[test]
fn hits_outside_the_payload_are_cut() {
    let hits = vec![hit(1, "red", -5, 2), hit(2, "blue", 4, 100)];
    let segs = build_texts_with_colors(b"abcdef", &hits);
    assert_eq!(
        runs(&segs),
        vec![run(b"ab", "red"), run(b"cd", ""), run(b"ef", "blue")]
    );
}

#[test]
fn dense_overlapping_hits_on_binary_payload_are_lossless() {
    let payload: Vec<u8> = (0u8..=255).collect();
    let hits = vec![
        hit(1, "red", 0, 40),
        hit(2, "blue", 30, 90),
        hit(3, "red", 85, 86),
        hit(4, "green", 100, 100),
        hit(5, "green", 120, 256),
        hit(6, "red", 200, 210),
        hit(7, "", 250, 253),
    ];
    let segs = build_texts_with_colors(&payload, &hits);
    assert_lossless_and_minimal(&payload, &segs);
    assert_eq!(segs[0].color, "red");
    assert_eq!(segs[0].text.len(), 30);
    assert_eq!(segs.last().unwrap().color, "green");
    assert_eq!(segs.last().unwrap().text, vec![253u8, 254, 255]);
}
