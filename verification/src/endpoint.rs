//! Plain descriptions of what the datagram endpoint is asked to do and of what
//! it reports back. Opening sockets is the caller's business; which options a
//! socket gets, and what a failure means for the role, is decided here.

use crate::stats::PeerAddress;
use vstd::prelude::*;

verus! {

/// Interface index that leaves the choice of interface to the system.
pub const DEFAULT_INTERFACE: u32 = 0;

/// How long one wait for a reply lasts before the receiver looks again.
pub const RECEIVE_TIMEOUT_MS: u64 = 500;

/// The exact address a datagram came from, as the socket reported it.
#[derive(Clone, Copy, Debug, PartialEq, Eq, Structural)]
pub struct SourceAddress {
    /// The 128 address bits, most significant first.
    pub ip: u128,
    pub port: u16,
    pub flowinfo: u32,
    pub scope_id: u32,
}

impl SourceAddress {
    /// The peer the statistics attribute this source to: its address without
    /// the port.
    pub open spec fn peer_spec(self) -> PeerAddress {
        PeerAddress { ip: self.ip }
    }

    /// The peer the statistics attribute this source to.
    pub fn peer(&self) -> (p: PeerAddress)
        ensures
            p == self.peer_spec(),
    {
        PeerAddress { ip: self.ip }
    }
}

/// What went wrong at the endpoint.
#[derive(Clone, Copy, Debug, PartialEq, Eq, Structural)]
pub enum EndpointError {
    /// The socket could not be created, configured or bound. Fatal.
    BindFailed,
    /// The multicast group could not be joined. Fatal.
    JoinFailed,
    /// One datagram could not be sent. The loop goes on.
    SendFailed,
    /// Nothing arrived within the wait. Expected and frequent.
    Timeout,
    /// Receiving failed for another reason. The loop goes on.
    RecvFailed,
}

impl EndpointError {
    /// Whether the role cannot go on after this error.
    pub open spec fn is_fatal_spec(self) -> bool {
        self == EndpointError::BindFailed || self == EndpointError::JoinFailed
    }

    /// Whether the role cannot go on after this error: only the failures of
    /// setting the socket up are fatal.
    pub fn is_fatal(&self) -> (fatal: bool)
        ensures
            fatal == self.is_fatal_spec(),
    {
        match self {
            EndpointError::BindFailed => true,
            EndpointError::JoinFailed => true,
            EndpointError::SendFailed => false,
            EndpointError::Timeout => false,
            EndpointError::RecvFailed => false,
        }
    }
}

/// The kinds of I/O failure that a receive tells apart.
#[derive(Clone, Copy, Debug, PartialEq, Eq, Structural)]
pub enum IoFailure {
    /// The operation would have blocked.
    WouldBlock,
    /// The wait ran out.
    TimedOut,
    /// Anything else.
    Other,
}

/// The error a failed receive stands for.
pub open spec fn receive_error_spec(failure: IoFailure) -> EndpointError {
    match failure {
        IoFailure::WouldBlock => EndpointError::Timeout,
        IoFailure::TimedOut => EndpointError::Timeout,
        IoFailure::Other => EndpointError::RecvFailed,
    }
}

/// Tells a wait that merely ran out from a receive that really failed.
pub fn receive_error(failure: IoFailure) -> (e: EndpointError)
    ensures
        e == receive_error_spec(failure),
        !e.is_fatal_spec(),
{
    match failure {
        IoFailure::WouldBlock => EndpointError::Timeout,
        IoFailure::TimedOut => EndpointError::Timeout,
        IoFailure::Other => EndpointError::RecvFailed,
    }
}

/// What one receive came back with.
#[derive(Debug)]
pub enum Received {
    /// A datagram, with the address it came from.
    Datagram { payload: Vec<u8>, source: SourceAddress },
    /// No datagram.
    Failed(IoFailure),
}

/// [`Received`] as plain sequences.
pub enum ReceivedView {
    Datagram { payload: Seq<u8>, source: SourceAddress },
    Failed(IoFailure),
}

impl View for Received {
    type V = ReceivedView;

    open spec fn view(&self) -> ReceivedView {
        match self {
            Received::Datagram { payload, source } => ReceivedView::Datagram {
                payload: payload@,
                source: *source,
            },
            Received::Failed(f) => ReceivedView::Failed(*f),
        }
    }
}

/// What an attempt to send comes to: the bytes written, or `SendFailed`.
pub open spec fn send_result_spec(written: Option<usize>) -> Result<usize, EndpointError> {
    match written {
        Some(n) => Ok(n),
        None => Err(EndpointError::SendFailed),
    }
}

/// Makes the outcome of a send of what the socket reported: the number of
/// bytes written, or nothing where the send failed. A failed send is never
/// fatal.
pub fn send_result(written: Option<usize>) -> (r: Result<usize, EndpointError>)
    ensures
        r == send_result_spec(written),
        r matches Err(e) ==> !e.is_fatal_spec(),
{
    match written {
        Some(n) => Ok(n),
        None => Err(EndpointError::SendFailed),
    }
}

/// The steps of setting a socket up, in the order they are taken.
#[derive(Clone, Copy, Debug, PartialEq, Eq, Structural)]
pub enum SetupStep {
    Create,
    ReuseAddress,
    ReusePort,
    Bind,
    JoinGroup,
    Loopback,
    OutboundInterface,
    Blocking,
    ReadTimeout,
}

/// What the failure of a setup step means; `None` where it is passed over.
pub open spec fn setup_failure_spec(step: SetupStep) -> Option<EndpointError> {
    match step {
        SetupStep::ReusePort => None,
        SetupStep::Loopback => None,
        SetupStep::ReadTimeout => None,
        SetupStep::JoinGroup => Some(EndpointError::JoinFailed),
        _ => Some(EndpointError::BindFailed),
    }
}

/// What the failure of a setup step means for the role. Port reuse,
/// loopback and the read timeout are conveniences: their failure is passed
/// over. Failing to
/// join the group is `JoinFailed`; every other step is part of binding.
pub fn setup_failure(step: SetupStep) -> (e: Option<EndpointError>)
    ensures
        e == setup_failure_spec(step),
        e matches Some(err) ==> err.is_fatal_spec(),
{
    match step {
        SetupStep::ReusePort => None,
        SetupStep::Loopback => None,
        SetupStep::ReadTimeout => None,
        SetupStep::JoinGroup => Some(EndpointError::JoinFailed),
        SetupStep::Create => Some(EndpointError::BindFailed),
        SetupStep::ReuseAddress => Some(EndpointError::BindFailed),
        SetupStep::Bind => Some(EndpointError::BindFailed),
        SetupStep::OutboundInterface => Some(EndpointError::BindFailed),
        SetupStep::Blocking => Some(EndpointError::BindFailed),
    }
}

/// Everything the caller needs to open and configure one socket. The socket
/// is always an IPv6 datagram socket bound to the wildcard address.
#[derive(Clone, Copy, Debug, PartialEq, Eq, Structural)]
pub struct SocketPlan {
    /// Local port; zero asks the system for an ephemeral one.
    pub port: u16,
    /// Let several listeners share the address.
    pub reuse_address: bool,
    /// Let several listeners share the port, where the platform can.
    pub reuse_port: bool,
    /// Interface on which to join the group, if the socket joins it.
    pub join_on: Option<u32>,
    /// Ask for multicast sent from this host to be heard on it too.
    pub loopback: bool,
    /// Interface that outbound multicast leaves by, if one is to be set.
    pub outbound_interface: Option<u32>,
    /// Upper bound of one receive, in milliseconds; `None` waits forever.
    pub read_timeout_ms: Option<u64>,
}

/// The listening socket of the server role.
pub open spec fn server_plan_spec(port: u16, interface: u32, loopback: bool) -> SocketPlan {
    SocketPlan {
        port,
        reuse_address: true,
        reuse_port: true,
        join_on: Some(interface),
        loopback,
        outbound_interface: None,
        read_timeout_ms: None,
    }
}

/// Plans the server's socket: bound to `port`, shareable, joined to the group
/// on `interface`, receiving without a time limit; with loopback if asked
/// for.
pub fn server_plan(port: u16, interface: u32, loopback: bool) -> (plan: SocketPlan)
    ensures
        plan == server_plan_spec(port, interface, loopback),
{
    SocketPlan {
        port,
        reuse_address: true,
        reuse_port: true,
        join_on: Some(interface),
        loopback,
        outbound_interface: None,
        read_timeout_ms: None,
    }
}

/// The sending socket of the client role.
pub open spec fn client_send_plan_spec(interface: u32) -> SocketPlan {
    SocketPlan {
        port: 0,
        reuse_address: true,
        reuse_port: true,
        join_on: None,
        loopback: false,
        outbound_interface: if interface == DEFAULT_INTERFACE {
            None
        } else {
            Some(interface)
        },
        read_timeout_ms: None,
    }
}

/// Plans the client's sending socket: an ephemeral port, and the outbound
/// multicast interface set only when `interface` is not the default.
pub fn client_send_plan(interface: u32) -> (plan: SocketPlan)
    ensures
        plan == client_send_plan_spec(interface),
{
    SocketPlan {
        port: 0,
        reuse_address: true,
        reuse_port: true,
        join_on: None,
        loopback: false,
        outbound_interface: if interface == DEFAULT_INTERFACE {
            None
        } else {
            Some(interface)
        },
        read_timeout_ms: None,
    }
}

/// The receiving socket of the client role.
pub open spec fn client_receive_plan_spec() -> SocketPlan {
    SocketPlan {
        port: 0,
        reuse_address: true,
        reuse_port: true,
        join_on: None,
        loopback: false,
        outbound_interface: None,
        read_timeout_ms: Some(RECEIVE_TIMEOUT_MS),
    }
}

/// Plans the client's receiving socket: an ephemeral port and a bounded wait.
pub fn client_receive_plan() -> (plan: SocketPlan)
    ensures
        plan == client_receive_plan_spec(),
{
    SocketPlan {
        port: 0,
        reuse_address: true,
        reuse_port: true,
        join_on: None,
        loopback: false,
        outbound_interface: None,
        read_timeout_ms: Some(RECEIVE_TIMEOUT_MS),
    }
}

} // verus!
