//! Running rules over payloads: regex hits, their collection, and highlighting.
use regex::bytes::Regex;
use vstd::prelude::*;

use crate::domain::{self, direction_name, PacketDirection};
use crate::highlight::{build_texts_with_colors, color_at, highlighted, joined_text, painted};
use crate::types::{Rule, RuleWithBorders, TextWithColor};

verus! {

/// Whether `pattern` compiles under the default limits of the regex engine.
pub uninterp spec fn pattern_compiles(pattern: Seq<char>) -> bool;

/// The byte ranges `[start, end)` of the successive non-overlapping matches of
/// the compiled `pattern` in `haystack`, leftmost first.
pub uninterp spec fn pattern_spans(pattern: Seq<char>, haystack: Seq<u8>) -> Seq<(usize, usize)>;

/// Relies on regex's `bytes::Regex::new`: it fails exactly on patterns that are
/// invalid or exceed the default size limit, which depends on the pattern alone.
#[verifier::external_body]
pub(crate) fn compile_pattern(pattern: &str) -> (r: bool)
    ensures
        r == pattern_compiles(pattern@),
{
    Regex::new(pattern).is_ok()
}

/// Relies on regex's `bytes::Regex::new` (as in `compile_pattern`) and
/// `bytes::Regex::find_iter`: successive non-overlapping matches, each a
/// half-open byte range of the haystack; they depend on the pattern and the
/// haystack alone.
#[verifier::external_body]
fn match_spans(pattern: &str, haystack: &[u8]) -> (r: Option<Vec<(usize, usize)>>)
    ensures
        r is Some == pattern_compiles(pattern@),
        r matches Some(v) ==> v@ == pattern_spans(pattern@, haystack@),
        r matches Some(v) ==> forall|k: int|
            0 <= k < v@.len() ==> v@[k].0 <= v@[k].1 && v@[k].1 <= haystack@.len(),
        r matches Some(v) ==> forall|k: int| 0 <= k < v@.len() - 1 ==> v@[k].1 <= v@[k + 1].0,
{
    match Regex::new(pattern) {
        Ok(re) => Some(re.find_iter(haystack).map(|m| (m.start(), m.end())).collect()),
        Err(_) => None,
    }
}

/// `shown` presents `rule` field for field, the direction by its name.
pub open spec fn presents_rule(shown: Rule, rule: domain::Rule) -> bool {
    &&& shown.id == rule.id
    &&& shown.name@ == rule.name@
    &&& shown.packet_direction@ == direction_name(rule.packet_direction)
    &&& shown.regexp@ == rule.regexp@
    &&& shown.color@ == rule.color@
}

impl Rule {
    /// A field-by-field copy.
    pub fn copy(&self) -> (r: Rule)
        ensures
            r == *self,
    {
        Rule {
            id: self.id,
            name: self.name.clone(),
            packet_direction: self.packet_direction.clone(),
            regexp: self.regexp.clone(),
            color: self.color.clone(),
        }
    }

    /// The presented form of a rule: id, name, pattern and color as they
    /// are, the direction by its name.
    pub fn from_domain(rule: &domain::Rule) -> (r: Rule)
        ensures
            presents_rule(r, *rule),
    {
        Rule {
            id: rule.id,
            name: rule.name.clone(),
            packet_direction: rule.packet_direction.to_text(),
            regexp: rule.regexp.clone(),
            color: rule.color.clone(),
        }
    }
}

/// The hits of `rule` at the byte ranges `spans`, in their order.
pub fn borders_for_rule(rule: &Rule, spans: &Vec<(usize, usize)>) -> (r: Vec<RuleWithBorders>)
    requires
        forall|k: int| 0 <= k < spans@.len() ==> spans@[k].1 <= i64::MAX && spans@[k].0 <= i64::MAX,
    ensures
        r@.len() == spans@.len(),
        forall|k: int|
            0 <= k < r@.len() ==> {
                &&& (#[trigger] r@[k]).start == spans@[k].0 as i64
                &&& r@[k].end == spans@[k].1 as i64
                &&& r@[k].rule == *rule
            },
{
    let mut r: Vec<RuleWithBorders> = Vec::new();
    let mut k: usize = 0;
    while k < spans.len()
        invariant
            k <= spans@.len(),
            r@.len() == k,
            forall|j: int| 0 <= j < spans@.len() ==> spans@[j].1 <= i64::MAX && spans@[j].0 <= i64::MAX,
            forall|j: int|
                0 <= j < k ==> {
                    &&& (#[trigger] r@[j]).start == spans@[j].0 as i64
                    &&& r@[j].end == spans@[j].1 as i64
                    &&& r@[j].rule == *rule
                },
        decreases spans@.len() - k,
    {
        let (start, end) = spans[k];
        r.push(RuleWithBorders { rule: rule.copy(), start: start as i64, end: end as i64 });
        k = k + 1;
    }
    r
}

/// `hits` are the matches of `rule`'s pattern in `payload`, in the order the
/// engine finds them, each presented with the rule; none when the pattern
/// does not compile.
pub open spec fn hits_of_rule(rule: domain::Rule, hits: Seq<RuleWithBorders>, payload: Seq<u8>) -> bool {
    let spans = pattern_spans(rule.regexp@, payload);
    &&& hits.len() == (if pattern_compiles(rule.regexp@) {
        spans.len()
    } else {
        0
    })
    &&& forall|k: int|
        0 <= k < hits.len() ==> {
            &&& presents_rule((#[trigger] hits[k]).rule, rule)
            &&& hits[k].start == spans[k].0 as i64
            &&& hits[k].end == spans[k].1 as i64
            &&& 0 <= hits[k].start <= hits[k].end <= payload.len()
        }
}

/// `r` is the hits of `rules` for direction `d`, rule by rule: `parts[i]`
/// holds the hits of rule `i`, none for a rule of the other direction.
pub open spec fn collected(
    parts: Seq<Seq<RuleWithBorders>>,
    rules: Seq<domain::Rule>,
    d: PacketDirection,
    payload: Seq<u8>,
    r: Seq<RuleWithBorders>,
) -> bool {
    &&& parts.len() == rules.len()
    &&& forall|i: int|
        0 <= i < rules.len() ==> if (#[trigger] rules[i]).packet_direction == d {
            hits_of_rule(rules[i], parts[i], payload)
        } else {
            parts[i].len() == 0
        }
    &&& r == parts.flatten()
}

/// `bs` are the matches in `payload` of the rules of `rules` for direction
/// `d`, rule by rule in the order of `rules`.
pub open spec fn gathered(rules: Seq<domain::Rule>, d: PacketDirection, payload: Seq<u8>, bs: Seq<RuleWithBorders>) -> bool {
    exists|parts: Seq<Seq<RuleWithBorders>>| #[trigger] collected(parts, rules, d, payload, bs)
}

/// Whether the hit `b` comes from one of `rules` that applies to direction `d`.
pub open spec fn from_rule_of(b: RuleWithBorders, rules: Seq<domain::Rule>, d: PacketDirection) -> bool {
    exists|i: int|
        0 <= i < rules.len() && (#[trigger] rules[i]).packet_direction == d && rules[i].id == b.rule.id
            && rules[i].color@ == b.rule.color@
}

/// The matches of one rule in `payload`, in the order the engine finds them.
pub fn rule_hits(rule: &domain::Rule, payload: &[u8]) -> (r: Vec<RuleWithBorders>)
    requires
        payload@.len() <= i64::MAX,
    ensures
        hits_of_rule(*rule, r@, payload@),
{
    match match_spans(rule.regexp.as_str(), payload) {
        Some(spans) => {
            let shown = Rule::from_domain(rule);
            borders_for_rule(&shown, &spans)
        },
        None => Vec::new(),
    }
}

proof fn lemma_hits_from_rule(rules: Seq<domain::Rule>, i: int, d: PacketDirection, hits: Seq<RuleWithBorders>, payload: Seq<u8>)
    requires
        0 <= i < rules.len(),
        rules[i].packet_direction == d,
        hits_of_rule(rules[i], hits, payload),
    ensures
        forall|k: int|
            0 <= k < hits.len() ==> from_rule_of(#[trigger] hits[k], rules, d) && 0 <= hits[k].start
                <= hits[k].end <= payload.len(),
{
    assert forall|k: int| 0 <= k < hits.len() implies from_rule_of(#[trigger] hits[k], rules, d) by {
        assert(rules[i].id == hits[k].rule.id);
    }
}

/// The hits of every rule of direction `direction` in `payload`, rule by rule
/// in the order of `rules`; rules of the other direction are skipped.
#[verifier::rlimit(40)]
pub fn collect_borders(rules: &Vec<domain::Rule>, direction: PacketDirection, payload: &[u8]) -> (r: Vec<
    RuleWithBorders,
>)
    requires
        payload@.len() <= i64::MAX,
    ensures
        gathered(rules@, direction, payload@, r@),
        forall|k: int|
            0 <= k < r@.len() ==> {
                &&& from_rule_of(#[trigger] r@[k], rules@, direction)
                &&& 0 <= r@[k].start <= r@[k].end <= payload@.len()
            },
{
    let mut r: Vec<RuleWithBorders> = Vec::new();
    let ghost mut parts: Seq<Seq<RuleWithBorders>> = Seq::empty();
    let mut i: usize = 0;
    while i < rules.len()
        invariant
            i <= rules@.len(),
            payload@.len() <= i64::MAX,
            parts.len() == i,
            forall|j: int|
                0 <= j < i ==> if (#[trigger] rules@[j]).packet_direction == direction {
                    hits_of_rule(rules@[j], parts[j], payload@)
                } else {
                    parts[j].len() == 0
                },
            r@ == parts.flatten(),
            forall|k: int|
                0 <= k < r@.len() ==> {
                    &&& from_rule_of(#[trigger] r@[k], rules@, direction)
                    &&& 0 <= r@[k].start <= r@[k].end <= payload@.len()
                },
        decreases rules@.len() - i,
    {
        let rule = &rules[i];
        let ghost old_parts = parts;
        let ghost before = r@;
        let ghost mut added = Seq::<RuleWithBorders>::empty();
        if rule.packet_direction == direction {
            let mut hits = rule_hits(rule, payload);
            proof {
                added = hits@;
                lemma_hits_from_rule(rules@, i as int, direction, added, payload@);
            }
            r.append(&mut hits);
        }
        proof {
            parts = parts.push(added);
            Seq::lemma_flatten_push(old_parts, added);
            assert(r@ =~= before + added);
            assert forall|k: int| 0 <= k < r@.len() implies {
                &&& from_rule_of(#[trigger] r@[k], rules@, direction)
                &&& 0 <= r@[k].start <= r@[k].end <= payload@.len()
            } by {
                if k >= before.len() {
                    assert(r@[k] == added[k - before.len()]);
                } else {
                    assert(r@[k] == before[k]);
                }
            }
            assert forall|j: int| 0 <= j < i + 1 implies if (#[trigger] rules@[j]).packet_direction == direction {
                hits_of_rule(rules@[j], parts[j], payload@)
            } else {
                parts[j].len() == 0
            } by {
                if j < i {
                    assert(parts[j] == old_parts[j]);
                }
            }
        }
        i = i + 1;
    }
    assert(collected(parts, rules@, direction, payload@, r@));
    r
}

/// Highlights `payload` with the matches of the rules of its direction, rule
/// by rule (a later match wins a byte). The runs concatenate to the payload,
/// and are colored only by rules of that direction.
pub fn highlight_payload(rules: &Vec<domain::Rule>, direction: PacketDirection, payload: &[u8]) -> (r: Vec<
    TextWithColor,
>)
    requires
        payload@.len() <= i64::MAX,
    ensures
        exists|bs: Seq<RuleWithBorders>|
            gathered(rules@, direction, payload@, bs) && #[trigger] highlighted(payload@, bs, r@),
        joined_text(r@) == payload@,
        forall|k: int|
            0 <= k < r@.len() ==> (#[trigger] r@[k]).color@.len() == 0 || exists|i: int|
                0 <= i < rules@.len() && (#[trigger] rules@[i]).packet_direction == direction
                    && rules@[i].color@ == r@[k].color@,
{
    let borders = collect_borders(rules, direction, payload);
    let r = build_texts_with_colors(payload, &borders);
    proof {
        crate::highlight::lemma_highlight_lossless(payload@, borders@, r@);
        if borders@.len() > 0 {
            assert forall|k: int| 0 <= k < r@.len() implies (#[trigger] r@[k]).color@.len() == 0
                || exists|i: int|
                0 <= i < rules@.len() && (#[trigger] rules@[i]).packet_direction == direction
                    && rules@[i].color@ == r@[k].color@ by {
                crate::highlight::lemma_run_colors_painted(r@, k);
                let p = choose|p: int| 0 <= p < painted(r@).len() && painted(r@)[p] == r@[k].color@;
                assert(painted(r@)[p] == color_at(borders@, p));
                let c = crate::highlight::last_cover(borders@, p);
                if c >= 0 {
                    crate::highlight::lemma_last_cover_bounds(borders@, p);
                    assert(from_rule_of(borders@[c], rules@, direction));
                }
            }
        }
    }
    r
}

} // verus!
