//! Turning rows read from the service store into services and checked rules.
use vstd::prelude::*;

use crate::domain::{self, PacketDirection, Service, ServiceWithRules};
use crate::rules::{compile_pattern, pattern_compiles};
use crate::types::AppError;

verus! {

/// A stored rule, with its pattern as text.
#[derive(Clone, Debug)]
pub struct RuleRow {
    pub id: i64,
    pub name: String,
    pub packet_direction: PacketDirection,
    pub regexp: String,
    pub color: String,
}

/// A service joined with one of its rules; a service without rules comes as
/// one row with no rule, and a rule id of 0 also stands for no rule.
#[derive(Clone, Debug)]
pub struct ServiceRuleRow {
    pub service: Service,
    pub rule: Option<RuleRow>,
}

/// `rule` is the rule stored as `row`.
pub open spec fn built_from(rule: domain::Rule, row: RuleRow) -> bool {
    &&& rule.id == row.id
    &&& rule.name@ == row.name@
    &&& rule.packet_direction == row.packet_direction
    &&& rule.regexp@ == row.regexp@
    &&& rule.color@ == row.color@
}

/// Checks a stored rule; `None` when its pattern does not compile.
pub fn rule_from_row(row: &RuleRow) -> (r: Option<domain::Rule>)
    ensures
        r is Some <==> pattern_compiles(row.regexp@),
        r matches Some(rule) ==> built_from(rule, *row),
{
    if compile_pattern(row.regexp.as_str()) {
        Some(
            domain::Rule {
                id: row.id,
                name: row.name.clone(),
                packet_direction: row.packet_direction,
                regexp: row.regexp.clone(),
                color: row.color.clone(),
            },
        )
    } else {
        None
    }
}

/// The detail of the error for a stored pattern that does not compile.
pub open spec fn invalid_stored_pattern() -> Seq<char> {
    "stored rule pattern does not compile"@
}

/// Checks stored rules in order; a pattern that does not compile is an internal error.
pub fn rules_from_rows(rows: &Vec<RuleRow>) -> (r: Result<Vec<domain::Rule>, AppError>)
    ensures
        r is Ok <==> forall|k: int| 0 <= k < rows@.len() ==> pattern_compiles(#[trigger] rows@[k].regexp@),
        r matches Err(e) ==> e is InternalServerError,
        r matches Ok(rules) ==> rules@.len() == rows@.len() && forall|k: int|
            0 <= k < rows@.len() ==> built_from(#[trigger] rules@[k], rows@[k]),
{
    let mut rules: Vec<domain::Rule> = Vec::new();
    let mut k: usize = 0;
    while k < rows.len()
        invariant
            k <= rows@.len(),
            rules@.len() == k,
            forall|j: int| 0 <= j < k ==> pattern_compiles(#[trigger] rows@[j].regexp@),
            forall|j: int| 0 <= j < k ==> built_from(#[trigger] rules@[j], rows@[j]),
        decreases rows@.len() - k,
    {
        match rule_from_row(&rows[k]) {
            Some(rule) => rules.push(rule),
            None => {
                return Err(AppError::InternalServerError("stored rule pattern does not compile".to_owned()));
            },
        }
        k = k + 1;
    }
    Ok(rules)
}

/// The row stands for a rule: it has one and its id is not 0.
pub open spec fn carries_rule(row: ServiceRuleRow) -> bool {
    match row.rule {
        Some(rr) => rr.id != 0,
        None => false,
    }
}

/// The pattern of the row's rule (empty without one).
pub open spec fn row_pattern(row: ServiceRuleRow) -> Seq<char> {
    match row.rule {
        Some(rr) => rr.regexp@,
        None => Seq::empty(),
    }
}

/// Every rule that the rows stand for has a pattern that compiles.
pub open spec fn rows_compile(rows: Seq<ServiceRuleRow>) -> bool {
    forall|k: int| 0 <= k < rows.len() && carries_rule(#[trigger] rows[k]) ==> pattern_compiles(row_pattern(rows[k]))
}

/// The rules that the rows of service `id` stand for, in row order.
pub open spec fn rules_for(rows: Seq<ServiceRuleRow>, id: i64) -> Seq<RuleRow>
    decreases rows.len(),
{
    if rows.len() == 0 {
        Seq::empty()
    } else {
        let prev = rules_for(rows.drop_last(), id);
        let last = rows.last();
        match last.rule {
            Some(rr) => if last.service.id == id && rr.id != 0 {
                prev.push(rr)
            } else {
                prev
            },
            None => prev,
        }
    }
}

/// `rules` are the rules stored as `rows`, in order.
pub open spec fn rules_match(rules: Seq<domain::Rule>, rows: Seq<RuleRow>) -> bool {
    &&& rules.len() == rows.len()
    &&& forall|j: int| 0 <= j < rows.len() ==> built_from(#[trigger] rules[j], rows[j])
}

/// The groups are in strictly ascending service id order.
#[verifier::opaque]
pub open spec fn groups_ordered(groups: Seq<ServiceWithRules>) -> bool {
    forall|a: int, b: int|
        0 <= a < b < groups.len() ==> (#[trigger] groups[a]).service.id < (#[trigger] groups[b]).service.id
}

/// Each group holds the service of one of the rows.
#[verifier::opaque]
pub open spec fn groups_from_rows(groups: Seq<ServiceWithRules>, rows: Seq<ServiceRuleRow>) -> bool {
    forall|g: int| 0 <= g < groups.len() ==> exists|m: int| 0 <= m < rows.len() && (#[trigger] rows[m]).service == (#[trigger] groups[g]).service
}

/// Each row's service id has a group.
#[verifier::opaque]
pub open spec fn rows_grouped(groups: Seq<ServiceWithRules>, rows: Seq<ServiceRuleRow>) -> bool {
    forall|m: int| 0 <= m < rows.len() ==> exists|g: int| 0 <= g < groups.len() && (#[trigger] groups[g]).service.id == (#[trigger] rows[m]).service.id
}

/// Each group holds the rules of the rows of its service, in row order.
#[verifier::opaque]
pub open spec fn groups_rules(groups: Seq<ServiceWithRules>, rows: Seq<ServiceRuleRow>) -> bool {
    forall|g: int| 0 <= g < groups.len() ==> rules_match((#[trigger] groups[g]).rules@, rules_for(rows, groups[g].service.id))
}

/// `groups` holds one entry per service id of `rows`, in ascending id order,
/// each with the service of one of its rows and the rules of its rows in order.
pub open spec fn groups_match(groups: Seq<ServiceWithRules>, rows: Seq<ServiceRuleRow>) -> bool {
    &&& groups_ordered(groups)
    &&& groups_from_rows(groups, rows)
    &&& rows_grouped(groups, rows)
    &&& groups_rules(groups, rows)
}

proof fn lemma_rules_for_absent(rows: Seq<ServiceRuleRow>, id: i64)
    requires
        forall|m: int| 0 <= m < rows.len() ==> (#[trigger] rows[m]).service.id != id,
    ensures
        rules_for(rows, id) == Seq::<RuleRow>::empty(),
    decreases rows.len(),
{
    if rows.len() > 0 {
        let init = rows.drop_last();
        assert forall|m: int| 0 <= m < init.len() implies (#[trigger] init[m]).service.id != id by {
            assert(init[m] == rows[m]);
        }
        lemma_rules_for_absent(init, id);
    }
}

/// The stored rule of a row, checked, when the row stands for a rule.
fn row_rule(row: &ServiceRuleRow) -> (r: Result<Option<domain::Rule>, AppError>)
    ensures
        r is Err <==> carries_rule(*row) && !pattern_compiles(row_pattern(*row)),
        r matches Err(e) ==> e is InternalServerError,
        r matches Ok(None) ==> !carries_rule(*row),
        r matches Ok(Some(rule)) ==> carries_rule(*row) && (row.rule matches Some(rr) && built_from(rule, rr)),
{
    match &row.rule {
        Some(rr) => {
            if rr.id == 0 {
                Ok(None)
            } else {
                match rule_from_row(rr) {
                    Some(rule) => Ok(Some(rule)),
                    None => Err(AppError::InternalServerError("stored rule pattern does not compile".to_owned())),
                }
            }
        },
        None => Ok(None),
    }
}

proof fn lemma_rules_for_step(pre: Seq<ServiceRuleRow>, row: ServiceRuleRow, q: i64)
    ensures
        rules_for(pre.push(row), q) == if row.service.id == q && carries_rule(row) {
            rules_for(pre, q).push(row.rule->0)
        } else {
            rules_for(pre, q)
        },
{
    assert(pre.push(row).drop_last() =~= pre);
    assert(pre.push(row).last() == row);
}

proof fn lemma_group_extended(
    old_groups: Seq<ServiceWithRules>,
    n: Seq<ServiceWithRules>,
    pre: Seq<ServiceRuleRow>,
    row: ServiceRuleRow,
    j: int,
)
    requires
        groups_match(old_groups, pre),
        0 <= j < old_groups.len(),
        old_groups[j].service.id == row.service.id,
        n.len() == old_groups.len(),
        forall|g: int| 0 <= g < n.len() && g != j ==> n[g] == old_groups[g],
        n[j].service == old_groups[j].service,
        rules_match(n[j].rules@, rules_for(pre.push(row), row.service.id)),
    ensures
        groups_match(n, pre.push(row)),
{
    reveal(groups_ordered);
    reveal(groups_from_rows);
    reveal(rows_grouped);
    reveal(groups_rules);
    let next = pre.push(row);
    let id = row.service.id;
    assert forall|m: int| 0 <= m < pre.len() implies #[trigger] next[m] == pre[m] by {}
    assert forall|g: int| 0 <= g < n.len() implies n[g].service == old_groups[g].service by {}
    assert forall|a: int, b: int| 0 <= a < b < n.len() implies (#[trigger] n[a]).service.id < (#[trigger] n[b]).service.id by {
        assert(old_groups[a].service.id < old_groups[b].service.id);
    }
    assert forall|g: int| 0 <= g < n.len() implies exists|m: int| 0 <= m < next.len() && (#[trigger] next[m]).service == (#[trigger] n[g]).service by {
        let m = choose|m: int| 0 <= m < pre.len() && (#[trigger] pre[m]).service == old_groups[g].service;
        assert(next[m] == pre[m]);
    }
    assert forall|m: int| 0 <= m < next.len() implies exists|g: int| 0 <= g < n.len() && (#[trigger] n[g]).service.id == (#[trigger] next[m]).service.id by {
        if m < pre.len() {
            let g = choose|g: int| 0 <= g < old_groups.len() && (#[trigger] old_groups[g]).service.id == pre[m].service.id;
            assert(n[g].service == old_groups[g].service);
        } else {
            assert(n[j].service.id == next[m].service.id);
        }
    }
    assert forall|g: int| 0 <= g < n.len() implies rules_match((#[trigger] n[g]).rules@, rules_for(next, n[g].service.id)) by {
        if g != j {
            assert(n[g] == old_groups[g]);
            assert(old_groups[g].service.id != id) by {
                if g < j {
                    assert(old_groups[g].service.id < old_groups[j].service.id);
                } else {
                    assert(old_groups[j].service.id < old_groups[g].service.id);
                }
            }
            lemma_rules_for_step(pre, row, old_groups[g].service.id);
        }
    }
}

proof fn lemma_groups_disjoint_from(old_groups: Seq<ServiceWithRules>, id: i64, j: int)
    requires
        groups_ordered(old_groups),
        0 <= j <= old_groups.len(),
        forall|a: int| 0 <= a < j ==> (#[trigger] old_groups[a]).service.id < id,
        j < old_groups.len() ==> old_groups[j].service.id > id,
    ensures
        forall|g: int| 0 <= g < old_groups.len() ==> (#[trigger] old_groups[g]).service.id != id,
        forall|g: int| j <= g < old_groups.len() ==> (#[trigger] old_groups[g]).service.id > id,
{
    reveal(groups_ordered);
    assert forall|g: int| j <= g < old_groups.len() implies (#[trigger] old_groups[g]).service.id > id by {
        if g > j {
            assert(old_groups[j].service.id < old_groups[g].service.id);
        }
    }
}

proof fn lemma_inserted_ordered(old_groups: Seq<ServiceWithRules>, ng: ServiceWithRules, j: int)
    requires
        groups_ordered(old_groups),
        0 <= j <= old_groups.len(),
        forall|a: int| 0 <= a < j ==> (#[trigger] old_groups[a]).service.id < ng.service.id,
        forall|g: int| j <= g < old_groups.len() ==> (#[trigger] old_groups[g]).service.id > ng.service.id,
    ensures
        groups_ordered(old_groups.insert(j, ng)),
{
    reveal(groups_ordered);
    let n = old_groups.insert(j, ng);
    assert forall|a: int, b: int| 0 <= a < b < n.len() implies (#[trigger] n[a]).service.id < (#[trigger] n[b]).service.id by {
        if b < j {
            assert(n[a] == old_groups[a] && n[b] == old_groups[b]);
        } else if b == j {
            assert(n[a] == old_groups[a]);
        } else if a < j {
            assert(n[a] == old_groups[a] && n[b] == old_groups[b - 1]);
        } else if a == j {
            assert(n[b] == old_groups[b - 1]);
        } else {
            assert(n[a] == old_groups[a - 1] && n[b] == old_groups[b - 1]);
        }
    }
}

proof fn lemma_inserted_covers(
    old_groups: Seq<ServiceWithRules>,
    ng: ServiceWithRules,
    pre: Seq<ServiceRuleRow>,
    row: ServiceRuleRow,
    j: int,
)
    requires
        groups_from_rows(old_groups, pre),
        rows_grouped(old_groups, pre),
        0 <= j <= old_groups.len(),
        ng.service == row.service,
    ensures
        groups_from_rows(old_groups.insert(j, ng), pre.push(row)),
        rows_grouped(old_groups.insert(j, ng), pre.push(row)),
{
    reveal(groups_from_rows);
    reveal(rows_grouped);
    let next = pre.push(row);
    let n = old_groups.insert(j, ng);
    assert forall|m: int| 0 <= m < pre.len() implies #[trigger] next[m] == pre[m] by {}
    assert(next[pre.len() as int] == row);
    assert forall|g: int| 0 <= g < n.len() implies exists|m: int| 0 <= m < next.len() && (#[trigger] next[m]).service == (#[trigger] n[g]).service by {
        if g == j {
            assert(next[pre.len() as int].service == n[g].service);
        } else {
            let og = if g < j { g } else { g - 1 };
            assert(n[g] == old_groups[og]);
            let m = choose|m: int| 0 <= m < pre.len() && (#[trigger] pre[m]).service == old_groups[og].service;
            assert(next[m] == pre[m]);
        }
    }
    assert forall|m: int| 0 <= m < next.len() implies exists|g: int| 0 <= g < n.len() && (#[trigger] n[g]).service.id == (#[trigger] next[m]).service.id by {
        if m < pre.len() {
            let g = choose|g: int| 0 <= g < old_groups.len() && (#[trigger] old_groups[g]).service.id == pre[m].service.id;
            if g < j {
                assert(n[g] == old_groups[g]);
            } else {
                assert(n[g + 1] == old_groups[g]);
            }
        } else {
            assert(n[j].service.id == next[m].service.id);
        }
    }
}

proof fn lemma_inserted_rules(
    old_groups: Seq<ServiceWithRules>,
    ng: ServiceWithRules,
    pre: Seq<ServiceRuleRow>,
    row: ServiceRuleRow,
    j: int,
)
    requires
        groups_rules(old_groups, pre),
        0 <= j <= old_groups.len(),
        forall|g: int| 0 <= g < old_groups.len() ==> (#[trigger] old_groups[g]).service.id != row.service.id,
        ng.service == row.service,
        rules_match(ng.rules@, rules_for(pre.push(row), row.service.id)),
    ensures
        groups_rules(old_groups.insert(j, ng), pre.push(row)),
{
    reveal(groups_rules);
    let n = old_groups.insert(j, ng);
    assert forall|g: int| 0 <= g < n.len() implies rules_match((#[trigger] n[g]).rules@, rules_for(pre.push(row), n[g].service.id)) by {
        if g != j {
            let og = if g < j { g } else { g - 1 };
            assert(n[g] == old_groups[og]);
            lemma_rules_for_step(pre, row, old_groups[og].service.id);
        }
    }
}

proof fn lemma_group_inserted(
    old_groups: Seq<ServiceWithRules>,
    ng: ServiceWithRules,
    pre: Seq<ServiceRuleRow>,
    row: ServiceRuleRow,
    j: int,
)
    requires
        groups_match(old_groups, pre),
        0 <= j <= old_groups.len(),
        forall|a: int| 0 <= a < j ==> (#[trigger] old_groups[a]).service.id < row.service.id,
        j < old_groups.len() ==> old_groups[j].service.id > row.service.id,
        ng.service == row.service,
        rules_match(ng.rules@, rules_for(pre.push(row), row.service.id)),
    ensures
        groups_match(old_groups.insert(j, ng), pre.push(row)),
{
    lemma_groups_disjoint_from(old_groups, row.service.id, j);
    lemma_inserted_ordered(old_groups, ng, j);
    lemma_inserted_covers(old_groups, ng, pre, row, j);
    lemma_inserted_rules(old_groups, ng, pre, row, j);
}

/// Groups joined service and rule rows by service, in ascending service id
/// order, each service with the rules of its rows in row order; a stored
/// pattern that does not compile is an internal error.
pub fn group_services_with_rules(rows: &Vec<ServiceRuleRow>) -> (r: Result<Vec<ServiceWithRules>, AppError>)
    ensures
        r is Ok <==> rows_compile(rows@),
        r matches Err(e) ==> e is InternalServerError,
        r matches Ok(groups) ==> groups_match(groups@, rows@),
{
    let mut groups: Vec<ServiceWithRules> = Vec::new();
    let mut k: usize = 0;
    proof {
        assert(rows@.take(0) =~= Seq::<ServiceRuleRow>::empty());
        reveal(groups_ordered);
        reveal(groups_from_rows);
        reveal(rows_grouped);
        reveal(groups_rules);
    }
    while k < rows.len()
        invariant
            k <= rows@.len(),
            groups_match(groups@, rows@.take(k as int)),
            rows_compile(rows@.take(k as int)),
        decreases rows@.len() - k,
    {
        let row = &rows[k];
        let id = row.service.id;
        let ghost pre = rows@.take(k as int);
        let ghost old_groups = groups@;
        proof {
            assert(rows@.take(k as int + 1) =~= pre.push(*row));
        }
        let rule = match row_rule(row) {
            Ok(rule) => rule,
            Err(e) => {
                proof {
                    assert(!rows_compile(rows@)) by {
                        assert(carries_rule(rows@[k as int]));
                    }
                }
                return Err(e);
            },
        };
        proof {
            let next = pre.push(*row);
            assert(rows_compile(next)) by {
                assert forall|m: int| 0 <= m < next.len() && carries_rule(#[trigger] next[m]) implies pattern_compiles(row_pattern(next[m])) by {
                    if m < pre.len() {
                        assert(next[m] == pre[m]);
                    }
                }
            }
            lemma_rules_for_step(pre, *row, id);
        }
        let mut j: usize = 0;
        while j < groups.len() && groups[j].service.id < id
            invariant
                groups@ == old_groups,
                j <= groups@.len(),
                forall|a: int| 0 <= a < j ==> (#[trigger] groups@[a]).service.id < id,
            decreases groups@.len() - j,
        {
            j = j + 1;
        }
        if j < groups.len() && groups[j].service.id == id {
            match rule {
                Some(x) => {
                    let mut rs: Vec<domain::Rule> = Vec::new();
                    std::mem::swap(&mut rs, &mut groups[j].rules);
                    let ghost before_rs = rs@;
                    rs.push(x);
                    proof {
                        lemma_group_rules_at(old_groups, pre, j as int);
                        assert(before_rs == old_groups[j as int].rules@);
                        let want = rules_for(pre.push(*row), id);
                        assert(want == rules_for(pre, id).push(row.rule->0));
                        assert forall|q: int| 0 <= q < want.len() implies built_from(#[trigger] rs@[q], want[q]) by {
                            if q < before_rs.len() {
                                assert(rs@[q] == before_rs[q]);
                            }
                        }
                    }
                    groups[j].rules = rs;
                },
                None => {
                    proof {
                        lemma_group_rules_at(old_groups, pre, j as int);
                    }
                },
            }
            proof {
                assert(rules_match(groups@[j as int].rules@, rules_for(pre.push(*row), id)));
                lemma_group_extended(old_groups, groups@, pre, *row, j as int);
            }
        } else {
            let mut rs: Vec<domain::Rule> = Vec::new();
            match rule {
                Some(x) => rs.push(x),
                None => {},
            }
            let service = Service { id: row.service.id, name: row.service.name.clone(), port: row.service.port };
            let ghost ng = ServiceWithRules { service, rules: rs };
            proof {
                lemma_rules_for_absent_of_groups(old_groups, pre, id, j as int);
                assert(rules_match(rs@, rules_for(pre.push(*row), id)));
            }
            groups.insert(j, ServiceWithRules { service, rules: rs });
            proof {
                lemma_group_inserted(old_groups, ng, pre, *row, j as int);
            }
        }
        k = k + 1;
    }
    proof {
        assert(rows@.take(rows@.len() as int) =~= rows@);
    }
    Ok(groups)
}

proof fn lemma_group_rules_at(groups: Seq<ServiceWithRules>, rows: Seq<ServiceRuleRow>, j: int)
    requires
        groups_rules(groups, rows),
        0 <= j < groups.len(),
    ensures
        rules_match(groups[j].rules@, rules_for(rows, groups[j].service.id)),
{
    reveal(groups_rules);
}

proof fn lemma_rules_for_absent_of_groups(groups: Seq<ServiceWithRules>, pre: Seq<ServiceRuleRow>, id: i64, j: int)
    requires
        groups_match(groups, pre),
        0 <= j <= groups.len(),
        forall|a: int| 0 <= a < j ==> (#[trigger] groups[a]).service.id < id,
        j < groups.len() ==> groups[j].service.id != id,
        j < groups.len() ==> groups[j].service.id >= id,
    ensures
        rules_for(pre, id) == Seq::<RuleRow>::empty(),
{
    reveal(groups_ordered);
    reveal(rows_grouped);
    assert forall|m: int| 0 <= m < pre.len() implies (#[trigger] pre[m]).service.id != id by {
        let g = choose|g: int| 0 <= g < groups.len() && (#[trigger] groups[g]).service.id == pre[m].service.id;
        if g >= j {
            assert(groups[j].service.id <= groups[g].service.id);
        }
    }
    lemma_rules_for_absent(pre, id);
}

} // verus!
