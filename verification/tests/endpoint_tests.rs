use mcast_probe::endpoint::{
    client_receive_plan, client_send_plan, receive_error, send_result, server_plan, setup_failure,
    EndpointError, IoFailure, SetupStep, SocketPlan, DEFAULT_INTERFACE, RECEIVE_TIMEOUT_MS,
};

#[test]
fn the_server_socket_is_bound_shared_and_joined() {
    assert_eq!(
        server_plan(12345, 3, false),
        SocketPlan {
            port: 12345,
            reuse_address: true,
            reuse_port: true,
            join_on: Some(3),
            loopback: false,
            outbound_interface: None,
            read_timeout_ms: None,
        }
    );
    assert_eq!(server_plan(1, DEFAULT_INTERFACE, false).join_on, Some(0));
    assert!(server_plan(1, 2, true).loopback);
    assert!(!client_send_plan(2).loopback);
    assert!(!client_receive_plan().loopback);
}

#[test]
fn the_client_sets_the_outbound_interface_only_when_one_is_chosen() {
    assert_eq!(client_send_plan(DEFAULT_INTERFACE).outbound_interface, None);
    assert_eq!(client_send_plan(4).outbound_interface, Some(4));
    let plan = client_send_plan(4);
    assert_eq!(plan.port, 0);
    assert_eq!(plan.join_on, None);
    assert!(plan.reuse_address);
    assert_eq!(plan.read_timeout_ms, None);
}

#[test]
fn the_client_receives_with_a_bounded_wait() {
    let plan = client_receive_plan();
    assert_eq!(plan.port, 0);
    assert_eq!(plan.read_timeout_ms, Some(RECEIVE_TIMEOUT_MS));
    assert_eq!(RECEIVE_TIMEOUT_MS, 500);
    assert_eq!(plan.join_on, None);
    assert_eq!(plan.outbound_interface, None);
}

#[test]
fn a_wait_that_ran_out_is_no_failure() {
    assert_eq!(receive_error(IoFailure::WouldBlock), EndpointError::Timeout);
    assert_eq!(receive_error(IoFailure::TimedOut), EndpointError::Timeout);
    assert_eq!(receive_error(IoFailure::Other), EndpointError::RecvFailed);
}

#[test]
fn only_setup_errors_are_fatal() {
    assert!(EndpointError::BindFailed.is_fatal());
    assert!(EndpointError::JoinFailed.is_fatal());
    assert!(!EndpointError::SendFailed.is_fatal());
    assert!(!EndpointError::Timeout.is_fatal());
    assert!(!EndpointError::RecvFailed.is_fatal());
}

#[test]
fn setup_failures() {
    assert_eq!(setup_failure(SetupStep::Create), Some(EndpointError::BindFailed));
    assert_eq!(setup_failure(SetupStep::ReuseAddress), Some(EndpointError::BindFailed));
    assert_eq!(setup_failure(SetupStep::ReusePort), None);
    assert_eq!(setup_failure(SetupStep::Bind), Some(EndpointError::BindFailed));
    assert_eq!(setup_failure(SetupStep::JoinGroup), Some(EndpointError::JoinFailed));
    assert_eq!(setup_failure(SetupStep::Loopback), None);
    assert_eq!(setup_failure(SetupStep::OutboundInterface), Some(EndpointError::BindFailed));
    assert_eq!(setup_failure(SetupStep::Blocking), Some(EndpointError::BindFailed));
    assert_eq!(setup_failure(SetupStep::ReadTimeout), None);
}

#[test]
fn a_failed_send_is_send_failed_and_not_fatal() {
    assert_eq!(send_result(Some(4)), Ok(4));
    assert_eq!(send_result(Some(0)), Ok(0));
    assert_eq!(send_result(None), Err(EndpointError::SendFailed));
    assert!(!send_result(None).unwrap_err().is_fatal());
}
