//! Core domain values: traffic direction, services, rules and stored streams.
use vstd::prelude::*;

verus! {

/// Which way a captured payload travelled relative to the watched service.
#[derive(Clone, Copy, Debug, PartialEq, Eq, Structural)]
pub enum PacketDirection {
    /// Towards the watched port (a request).
    IN,
    /// Away from the watched port (a response).
    OUT,
}

/// The textual name of a direction.
pub open spec fn direction_name(d: PacketDirection) -> Seq<char> {
    match d {
        PacketDirection::IN => "IN"@,
        PacketDirection::OUT => "OUT"@,
    }
}

impl PacketDirection {
    /// Parses the textual name of a direction; any other text gives `None`.
    pub fn from_str(s: &str) -> (r: Option<PacketDirection>)
        ensures
            r == Some(PacketDirection::IN) <==> s@ == "IN"@,
            r == Some(PacketDirection::OUT) <==> s@ == "OUT"@,
            r is None <==> (s@ != "IN"@ && s@ != "OUT"@),
    {
        proof {
            reveal_strlit("IN");
            reveal_strlit("OUT");
            assert("IN"@.len() != "OUT"@.len());
        }
        let owned = s.to_owned();
        if owned == "IN".to_owned() {
            Some(PacketDirection::IN)
        } else if owned == "OUT".to_owned() {
            Some(PacketDirection::OUT)
        } else {
            None
        }
    }

    /// The textual name of this direction.
    pub fn to_text(&self) -> (r: String)
        ensures
            r@ == direction_name(*self),
    {
        match self {
            PacketDirection::IN => "IN".to_owned(),
            PacketDirection::OUT => "OUT".to_owned(),
        }
    }
}

/// A monitored service: the unit that groups rules, keyed by its port.
#[derive(Clone, Debug, PartialEq, Eq, Hash, PartialOrd, Ord)]
pub struct Service {
    pub id: i64,
    pub name: String,
    pub port: i32,
}

/// A highlighting rule: a byte-oriented regular expression, given by its
/// pattern text, that applies to payloads of one direction, and the color its
/// matches are shown in.
#[derive(Debug)]
pub struct Rule {
    pub id: i64,
    pub name: String,
    pub packet_direction: PacketDirection,
    pub regexp: String,
    pub color: String,
}

/// A service together with the rules attached to it, in their stored order.
#[derive(Debug)]
pub struct ServiceWithRules {
    pub service: Service,
    pub rules: Vec<Rule>,
}

/// A finalised stream as stored: its id and the port of its service.
/// Two streams are the same stream when their ids are equal.
#[derive(Clone, Copy, Debug)]
pub struct Stream {
    pub id: i64,
    pub service_port: i32,
}

impl PartialEq for Stream {
    fn eq(&self, other: &Stream) -> (r: bool) {
        self.id == other.id
    }
}

impl vstd::std_specs::cmp::PartialEqSpecImpl for Stream {
    open spec fn obeys_eq_spec() -> bool {
        true
    }

    open spec fn eq_spec(&self, other: &Stream) -> bool {
        self.id == other.id
    }
}

/// A stored payload of a stream; `at` is in milliseconds since the epoch.
#[derive(Clone, Debug)]
pub struct Packet {
    pub id: i64,
    pub direction: PacketDirection,
    pub payload: Vec<u8>,
    pub stream_id: i64,
    pub at: i64,
}

} // verus!
