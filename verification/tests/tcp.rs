use easytier::tcp::{
    connect_from, inflight_bytes, metrics, AcceptError, AcceptStep, BindOutcome, IpVersion,
    TcpTunnelConnector, TcpTunnelListener, TunnelMetrics, TCP_MTU_BYTES,
};

#[test]
fn listeners_take_the_port_they_are_bound_to() {
    for addr in ["tcp://0.0.0.0:0", "tcp://[::]:0"] {
        let mut listener = TcpTunnelListener::new(addr.to_string());
        assert!(!listener.is_listening());
        listener.begin_listen();
        assert_eq!(listener.local_port(), Some(0));
        assert!(listener.bound_to(40123));
        assert_eq!(listener.local_port(), Some(40123));
        listener.end_listen();
        assert!(listener.is_listening());
        let url = url::Url::parse(&listener.local_url()).unwrap();
        assert_eq!(url.port().unwrap(), 40123);
        listener.begin_listen();
        assert!(!listener.is_listening());
    }
}

#[test]
fn some_urls_have_no_port() {
    for addr in ["mailto:someone@example.net", "no url"] {
        let mut listener = TcpTunnelListener::new(addr.to_string());
        assert!(!listener.bound_to(1));
        assert_eq!(listener.local_url(), addr);
        assert_eq!(listener.local_port(), None);
    }
}

#[test]
fn errors_of_one_connection_do_not_stop_the_listener() {
    let listener = TcpTunnelListener::new("tcp://127.0.0.1:1".to_string());
    assert_eq!(listener.accept_step(Ok(())), AcceptStep::Done);
    for e in [
        AcceptError::NotConnected,
        AcceptError::ConnectionAborted,
        AcceptError::ConnectionRefused,
        AcceptError::ConnectionReset,
    ] {
        assert_eq!(listener.accept_step(Err(e)), AcceptStep::Retry);
    }
    assert_eq!(listener.accept_step(Err(AcceptError::Other)), AcceptStep::Fail);
}

#[test]
fn tunnels_know_their_ends() {
    let listener = TcpTunnelListener::new("tcp://127.0.0.1:31016".to_string());
    let info = listener.accepted("tcp://127.0.0.1:5".to_string());
    assert_eq!(info.tunnel_type, "tcp");
    assert_eq!(info.local_addr.unwrap(), "tcp://127.0.0.1:31016");
    assert_eq!(info.remote_addr.unwrap(), "tcp://127.0.0.1:5");
    let connector = TcpTunnelConnector::new("tcp://127.0.0.1:31016".to_string());
    let info = connector.connected("tcp://127.0.0.1:5".to_string());
    assert_eq!(info.tunnel_type, "tcp");
    assert_eq!(info.local_addr.unwrap(), "tcp://127.0.0.1:5");
    assert_eq!(info.remote_addr.unwrap(), "tcp://127.0.0.1:31016");
}

#[test]
fn connectors_are_set_up() {
    let mut c = TcpTunnelConnector::new("tcp://127.0.0.1:11013".to_string());
    assert_eq!(c.remote_url(), "tcp://127.0.0.1:11013");
    assert!(c.default_bind());
    assert_eq!(c.ip_version(), IpVersion::Both);
    c.set_bind_addrs(vec!["127.0.0.1:0".to_string()]);
    c.set_ip_version(IpVersion::V6);
    assert!(!c.default_bind());
    assert_eq!(c.bind_addrs(), &vec!["127.0.0.1:0".to_string()]);
    assert_eq!(c.ip_version(), IpVersion::V6);
}

#[test]
fn connections_start_from_the_bound_addresses() {
    let (bound, no_socket, not_bound) =
        (BindOutcome::Bound, BindOutcome::NoSocket, BindOutcome::NotBound);
    assert_eq!(connect_from(&vec![bound, not_bound, bound]), Some(vec![0, 2]));
    assert_eq!(connect_from(&vec![not_bound]), Some(vec![]));
    assert_eq!(connect_from(&vec![bound, no_socket, bound]), None);
}

#[test]
fn metrics_tell_the_send_queue() {
    assert!(metrics(0, 10).is_some());
    assert!(metrics(-1, 0).is_some());
    assert_eq!(metrics(0, 10), Some(TunnelMetrics { inflight_bytes: Some(10) }));
    assert_eq!(inflight_bytes(-1, 10), None);
    assert_eq!(inflight_bytes(0, 1234), Some(1234));
    assert_eq!(inflight_bytes(0, -1), Some(-1i32 as u64));
    assert_eq!(inflight_bytes(0, i32::MIN), Some(i32::MIN as u64));
    assert_eq!(TCP_MTU_BYTES, 2000);
}
