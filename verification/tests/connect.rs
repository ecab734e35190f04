use tunshell::connect::{
    client_config, plan_connection, proxy_reply, proxy_request, route, server_name, ConnectError,
    ProxyError, RelayTarget, Route, KEEPALIVE_SECS,
};

fn target(host: &str, disable: bool) -> RelayTarget {
    RelayTarget {
        host: host.to_string(),
        port: 443,
        dangerous_disable_relay_server_verification: disable,
    }
}

#[test]
fn proxy_is_asked_for_the_relay() {
    assert_eq!(proxy_request("relay.tunshell.com", 5000), "CONNECT relay.tunshell.com:5000 HTTP/1.1\n\n");
    assert_eq!(proxy_request("::1", 0), "CONNECT ::1:0 HTTP/1.1\n\n");
    assert_eq!(proxy_request("h", 65535), "CONNECT h:65535 HTTP/1.1\n\n");
}

#[test]
fn route_goes_over_the_proxy_that_is_named() {
    match route(&target("relay", false), Some("proxy:3128".to_string())) {
        Route::Proxy { address, request } => {
            assert_eq!(address, "proxy:3128");
            assert_eq!(request, "CONNECT relay:443 HTTP/1.1\n\n");
        }
        other => panic!("{:?}", other),
    }
    match route(&target("relay", false), None) {
        Route::Direct { host, port } => {
            assert_eq!(host, "relay");
            assert_eq!(port, 443);
        }
        other => panic!("{:?}", other),
    }
}

#[test]
fn proxy_grants_with_status_200() {
    for text in [
        "HTTP/1.1 200 Connection established\r\n\r\n",
        "HTTP/1.0 200 OK",
        "junk HTTP/1.1 2000",
    ] {
        assert!(proxy_reply(text.as_bytes().to_vec()).is_ok(), "{}", text);
    }
}

#[test]
fn proxy_faults_are_told_apart() {
    match proxy_reply(vec![]) {
        Err(e) => {
            assert!(matches!(e, ProxyError::NoResponse));
            assert_eq!(e.message(), "Failed to read response from http proxy");
        }
        Ok(()) => panic!(),
    }
    match proxy_reply(vec![0x48, 0xff]) {
        Err(e) => {
            assert!(matches!(e, ProxyError::NotUtf8));
            assert_eq!(e.message(), "failed to parse proxy response");
        }
        Ok(()) => panic!(),
    }
    for text in ["HTTP/1.1 407 Proxy Authentication Required", "HTTP/1.1  200", "HTTP/2 200", "h\u{e9}"] {
        match proxy_reply(text.as_bytes().to_vec()) {
            Err(e) => assert_eq!(
                e.message(),
                format!("invalid response returned from http proxy: {}", text)
            ),
            Ok(()) => panic!("{}", text),
        }
    }
}

#[test]
fn names_of_servers() {
    for host in ["relay.tunshell.com", "127.0.0.1", "::1", "a_b.example"] {
        match server_name(host) {
            Ok(name) => assert_eq!(name.to_str(), host),
            Err(e) => panic!("{}: {:?}", host, e),
        }
    }
    for host in ["", "-a.example", "a..b", "relay:443", "h\u{e9}"] {
        match server_name(host) {
            Ok(_) => panic!("{}", host),
            Err(e) => {
                assert_eq!(e, ConnectError::ServerName);
                assert_eq!(e.message(), "invalid dns name");
            }
        }
    }
}

#[test]
fn public_roots_make_a_client() {
    let config = match client_config() {
        Ok(config) => config,
        Err(e) => panic!("{}", e.message()),
    };
    assert!(config.alpn_protocols.is_empty());
    assert!(!config.client_auth_cert_resolver.has_certs());
    assert_eq!(ConnectError::TlsConfig.message(), "failed to build tls config");
}

#[test]
fn certificate_is_checked_unless_the_user_says_otherwise() {
    for disable in [false, true] {
        match plan_connection(&target("relay.tunshell.com", disable), None) {
            Ok(plan) => {
                assert_eq!(plan.verify, !disable);
                assert_eq!(plan.server_name.to_str(), "relay.tunshell.com");
                assert!(matches!(plan.route, Route::Direct { .. }));
            }
            Err(e) => panic!("{:?}", e),
        }
    }
    match plan_connection(&target("no name", false), None) {
        Ok(_) => panic!(),
        Err(e) => assert_eq!(e, ConnectError::ServerName),
    }
    assert_eq!(KEEPALIVE_SECS, 30);
}
