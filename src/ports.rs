//! The set of watched service ports, and the direction of a TCP segment relative to it.
use std::collections::HashSet;

use vstd::prelude::*;

use crate::domain::PacketDirection;

verus! {

broadcast use vstd::std_specs::hash::group_hash_axioms;

/// A TCP conversation, oriented towards the service: `dst` is the watched
/// port, `src` the remote (usually ephemeral) one.
#[derive(Clone, Copy, Debug, PartialEq, Eq, Hash, Structural)]
pub struct PortPair {
    pub src: u16,
    pub dst: u16,
}

/// The ports currently of interest.
pub struct PortRegistry {
    ports: HashSet<u16>,
}

impl View for PortRegistry {
    type V = Set<u16>;

    closed spec fn view(&self) -> Set<u16> {
        self.ports@
    }
}

impl PortRegistry {
    /// A registry watching no port.
    pub fn new() -> (r: PortRegistry)
        ensures
            r@ == Set::<u16>::empty(),
    {
        PortRegistry { ports: HashSet::new() }
    }

    /// Starts watching `port`.
    pub fn register(&mut self, port: u16)
        ensures
            final(self)@ == old(self)@.insert(port),
    {
        self.ports.insert(port);
    }

    /// Stops watching `port`.
    pub fn unregister(&mut self, port: u16)
        ensures
            final(self)@ == old(self)@.remove(port),
    {
        self.ports.remove(&port);
    }

    /// Starts watching the port of a service; a number outside the TCP port
    /// range is not a port and is refused.
    pub fn watch_service(&mut self, port: i32) -> (r: bool)
        ensures
            r == (0 <= port <= 65535),
            r ==> final(self)@ == old(self)@.insert(port as u16),
            !r ==> final(self)@ == old(self)@,
    {
        if 0 <= port && port <= 65535 {
            self.register(port as u16);
            true
        } else {
            false
        }
    }

    /// Stops watching the port of a deleted service; a number outside the TCP
    /// port range is not a port and changes nothing.
    pub fn unwatch_service(&mut self, port: i32) -> (r: bool)
        ensures
            r == (0 <= port <= 65535),
            r ==> final(self)@ == old(self)@.remove(port as u16),
            !r ==> final(self)@ == old(self)@,
    {
        if 0 <= port && port <= 65535 {
            self.unregister(port as u16);
            true
        } else {
            false
        }
    }

    /// Whether `port` is watched.
    pub fn contains(&self, port: u16) -> (r: bool)
        ensures
            r == self@.contains(port),
    {
        self.ports.contains(&port)
    }
}

/// The conversation and direction of a segment from `source` to `destination`,
/// or `None` when neither port is watched. A watched destination wins.
pub open spec fn classification(watched: Set<u16>, source: u16, destination: u16) -> Option<
    (PortPair, PacketDirection),
> {
    if watched.contains(destination) {
        Some((PortPair { src: source, dst: destination }, PacketDirection::IN))
    } else if watched.contains(source) {
        Some((PortPair { src: destination, dst: source }, PacketDirection::OUT))
    } else {
        None
    }
}

/// Classifies a segment from `source_port` to `destination_port` against the registry.
pub fn classify(ports: &PortRegistry, source_port: u16, destination_port: u16) -> (r: Option<
    (PortPair, PacketDirection),
>)
    ensures
        r == classification(ports@, source_port, destination_port),
{
    if ports.contains(destination_port) {
        Some((PortPair { src: source_port, dst: destination_port }, PacketDirection::IN))
    } else if ports.contains(source_port) {
        Some((PortPair { src: destination_port, dst: source_port }, PacketDirection::OUT))
    } else {
        None
    }
}

/// Direction normalisation: with the service port `service` watched and the
/// remote port `remote` not watched, a segment towards the service is `IN`, one
/// from it is `OUT`, both have `service` as `dst`, and both give the same pair.
pub proof fn lemma_direction_normalization(watched: Set<u16>, service: u16, remote: u16)
    requires
        watched.contains(service),
        !watched.contains(remote),
    ensures
        classification(watched, remote, service) == Some(
            (PortPair { src: remote, dst: service }, PacketDirection::IN),
        ),
        classification(watched, service, remote) == Some(
            (PortPair { src: remote, dst: service }, PacketDirection::OUT),
        ),
{
}

/// A watched destination always gives an inbound segment whose `dst` is that port.
pub proof fn lemma_watched_destination_is_inbound(watched: Set<u16>, source: u16, destination: u16)
    requires
        watched.contains(destination),
    ensures
        classification(watched, source, destination) == Some(
            (PortPair { src: source, dst: destination }, PacketDirection::IN),
        ),
{
}

} // verus!
