//! Plain data exchanged with the presentation layer.
use vstd::prelude::*;

use crate::domain;
pub use crate::domain::Service;

verus! {

/// A rule as it is presented: every field in textual form.
#[derive(Clone, Debug, PartialEq, Eq, Hash)]
pub struct Rule {
    pub id: i64,
    pub name: String,
    pub packet_direction: String,
    pub regexp: String,
    pub color: String,
}

/// One hit of a rule in a payload: the half-open byte range `[start, end)`.
#[derive(Clone, Debug)]
pub struct RuleWithBorders {
    pub rule: Rule,
    pub start: i64,
    pub end: i64,
}

/// A run of payload bytes that share one display color (empty: no highlight).
#[derive(Clone, Debug)]
pub struct TextWithColor {
    pub text: Vec<u8>,
    pub color: String,
}

/// A stored payload as presented: its colored runs, direction and capture time.
#[derive(Clone, Debug)]
pub struct Packet {
    pub payload: Vec<TextWithColor>,
    pub direction: String,
    pub at: String,
}

/// A stream as presented: its service, the rules that hit it, and its time span.
#[derive(Clone, Debug)]
pub struct Stream {
    pub id: i64,
    pub service_name: String,
    pub service_port: i32,
    pub rules: Vec<Rule>,
    pub started_at: String,
    pub ended_at: String,
}

/// A presented stream with its presented payloads, in stored order.
#[derive(Clone, Debug)]
pub struct StreamWithPackets {
    pub stream: Stream,
    pub packets: Vec<Packet>,
}

/// The outcome of a request that returns no body.
#[derive(Clone, Copy, Debug, PartialEq, Eq, Structural)]
pub enum AppResponse {
    OK,
    CREATED,
}

impl AppResponse {
    /// The HTTP status of the outcome.
    pub fn status_code(&self) -> (r: u16)
        ensures
            *self == AppResponse::OK ==> r == 200,
            *self == AppResponse::CREATED ==> r == 201,
    {
        match self {
            AppResponse::OK => 200,
            AppResponse::CREATED => 201,
        }
    }
}

/// A failed request: an internal fault (with its detail), or a bad request
/// (with the message shown to the client, and its detail).
#[derive(Clone, Debug)]
pub enum AppError {
    InternalServerError(String),
    BadRequest(String, String),
}

/// The message shown to the client for an internal fault.
pub open spec fn internal_error_message() -> Seq<char> {
    "Внутренняя ошибка"@
}

impl AppError {
    /// The HTTP status of the error.
    pub fn status_code(&self) -> (r: u16)
        ensures
            self is InternalServerError ==> r == 500,
            self is BadRequest ==> r == 400,
    {
        match self {
            AppError::InternalServerError(_) => 500,
            AppError::BadRequest(_, _) => 400,
        }
    }

    /// The message shown to the client: a fixed text for internal faults, the
    /// given message for bad requests.
    pub fn message(&self) -> (r: String)
        ensures
            self is InternalServerError ==> r@ == internal_error_message(),
            self matches AppError::BadRequest(m, _) ==> r@ == m@,
    {
        match self {
            AppError::InternalServerError(_) => "Внутренняя ошибка".to_owned(),
            AppError::BadRequest(m, _) => m.clone(),
        }
    }

    /// The detail that is logged, not shown.
    pub fn detail(&self) -> (r: String)
        ensures
            self matches AppError::InternalServerError(d) ==> r@ == d@,
            self matches AppError::BadRequest(_, d) ==> r@ == d@,
    {
        match self {
            AppError::InternalServerError(d) => d.clone(),
            AppError::BadRequest(_, d) => d.clone(),
        }
    }
}

/// A list of services as presented.
#[derive(Clone, Debug)]
pub struct Services(pub Vec<Service>);

impl From<Vec<Service>> for Services {
    fn from(services: Vec<Service>) -> (r: Services) {
        Services(services)
    }
}

impl vstd::std_specs::convert::FromSpecImpl<Vec<Service>> for Services {
    open spec fn obeys_from_spec() -> bool {
        true
    }

    open spec fn from_spec(services: Vec<Service>) -> Services {
        Services(services)
    }
}

/// A request for the latest streams.
#[derive(Clone, Debug)]
pub struct GetLastStreamsRequest {
    pub limit: i64,
}

/// The message shown for an invalid `limit`.
pub open spec fn invalid_limit_message() -> Seq<char> {
    "Невалидное значение у поля `limit`"@
}

impl GetLastStreamsRequest {
    /// Accepts a limit of at least one stream; anything less is a bad request.
    pub fn validate(&self) -> (r: Result<(), AppError>)
        ensures
            r is Ok <==> self.limit >= 1,
            r matches Err(AppError::BadRequest(m, _)) ==> m@ == invalid_limit_message(),
            r matches Err(e) ==> e is BadRequest,
    {
        if self.limit < 1 {
            Err(AppError::BadRequest("Невалидное значение у поля `limit`".to_owned(), "invalid limit".to_owned()))
        } else {
            Ok(())
        }
    }
}

/// A request for the streams of some services, after a given stream.
#[derive(Clone, Debug)]
pub struct GetStreamsByServiceIDsRequest {
    pub service_ids: Vec<i32>,
    pub last_stream_id: i64,
}

/// A request to create or update a service and attach rules to it.
#[derive(Clone, Debug)]
pub struct UpsertServiceRequest {
    pub service: Service,
    pub rule_ids: Vec<i64>,
}

/// A request to delete a service.
#[derive(Clone, Copy, Debug)]
pub struct DeleteServiceRequest {
    pub service_id: i64,
}

/// A request to delete a rule.
#[derive(Clone, Copy, Debug)]
pub struct DeleteRuleRequest {
    pub rule_id: i64,
}

/// A request to detach one rule from a service.
#[derive(Clone, Copy, Debug)]
pub struct DeleteServiceToRuleRequest {
    pub service_id: i64,
    pub rule_id: i64,
}

/// A request to detach rules from a service.
#[derive(Clone, Debug)]
pub struct DeleteServiceToRulesRequest {
    pub service_id: i64,
    pub rule_ids: Vec<i64>,
}

/// A list of rules as presented.
#[derive(Clone, Debug)]
pub struct Rules(pub Vec<Rule>);

impl Rules {
    /// The presented form of each rule, in order.
    pub fn from_domain(rules: &Vec<domain::Rule>) -> (r: Rules)
        ensures
            r.0@.len() == rules@.len(),
            forall|k: int|
                0 <= k < rules@.len() ==> {
                    &&& (#[trigger] r.0@[k]).id == rules@[k].id
                    &&& r.0@[k].name@ == rules@[k].name@
                    &&& r.0@[k].packet_direction@ == domain::direction_name(rules@[k].packet_direction)
                    &&& r.0@[k].regexp@ == rules@[k].regexp@
                    &&& r.0@[k].color@ == rules@[k].color@
                },
    {
        let mut shown: Vec<Rule> = Vec::new();
        let mut k: usize = 0;
        while k < rules.len()
            invariant
                k <= rules@.len(),
                shown@.len() == k,
                forall|j: int|
                    0 <= j < k ==> {
                        &&& (#[trigger] shown@[j]).id == rules@[j].id
                        &&& shown@[j].name@ == rules@[j].name@
                        &&& shown@[j].packet_direction@ == domain::direction_name(rules@[j].packet_direction)
                        &&& shown@[j].regexp@ == rules@[j].regexp@
                        &&& shown@[j].color@ == rules@[j].color@
                    },
            decreases rules@.len() - k,
        {
            shown.push(Rule::from_domain(&rules[k]));
            k = k + 1;
        }
        Rules(shown)
    }
}

/// A service with its rules, as presented.
#[derive(Clone, Debug)]
pub struct ServiceWithRules {
    pub service: Service,
    pub rules: Rules,
}

impl ServiceWithRules {
    /// The presented form of a service and its rules.
    pub fn from_domain(s: &domain::ServiceWithRules) -> (r: ServiceWithRules)
        ensures
            r.service == s.service,
            r.rules.0@.len() == s.rules@.len(),
            forall|k: int|
                0 <= k < s.rules@.len() ==> {
                    &&& (#[trigger] r.rules.0@[k]).id == s.rules@[k].id
                    &&& r.rules.0@[k].name@ == s.rules@[k].name@
                    &&& r.rules.0@[k].packet_direction@ == domain::direction_name(s.rules@[k].packet_direction)
                    &&& r.rules.0@[k].regexp@ == s.rules@[k].regexp@
                    &&& r.rules.0@[k].color@ == s.rules@[k].color@
                },
    {
        ServiceWithRules {
            service: Service { id: s.service.id, name: s.service.name.clone(), port: s.service.port },
            rules: Rules::from_domain(&s.rules),
        }
    }
}

/// A request to create a rule.
#[derive(Clone, Debug)]
pub struct CreateRuleRequest {
    pub rule: Rule,
}

/// A request to update a rule.
#[derive(Clone, Debug)]
pub struct UpdateRuleRequest {
    pub rule: Rule,
}

/// A request to create a rule or replace the one with the same id.
#[derive(Clone, Debug)]
pub struct UpsertRuleRequest {
    pub rule: Rule,
}

/// The latest streams, presented.
#[derive(Clone, Debug)]
pub struct GetLastStreamsResponse {
    pub stream_with_packets: Vec<StreamWithPackets>,
}

/// The streams of some services, presented.
#[derive(Clone, Debug)]
pub struct GetStreamsByServiceIDsResponse {
    pub stream_with_packets: Vec<StreamWithPackets>,
}

/// Every rule, presented.
#[derive(Clone, Debug)]
pub struct GetRulesResponse {
    pub rules: Rules,
}

/// Every service with its rules, presented.
#[derive(Clone, Debug)]
pub struct GetServicesResponse {
    pub services_with_rules: Vec<ServiceWithRules>,
}

} // verus!
