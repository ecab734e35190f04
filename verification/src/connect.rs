//! The way from a client to its relay: whether the relay's certificate is checked, whether a
//! proxy stands in between, and what is asked of the proxy.
use rustls::pki_types::ServerName;
use rustls::ClientConfig;
use vstd::prelude::*;
use vstd::string::*;

use crate::text::{
    contains, decimal, decode, has_word, law_decimal_distinct, law_found_word_is_there,
    law_word_is_found, push_decimal, utf8_text,
};
use crate::tls::{build_client_config, parse_server_name, server_name_of, trusts_public_roots};

verus! {

/// After how many seconds of silence the connection is probed.
pub const KEEPALIVE_SECS: u64 = 30;

/// The variable that names the proxy to go through.
pub const PROXY_VAR: &'static str = "HTTP_PROXY";

/// The relay that a client connects to.
pub struct RelayTarget {
    pub host: String,
    pub port: u16,
    /// The user asked that the relay's certificate not be checked.
    pub dangerous_disable_relay_server_verification: bool,
}

/// How the relay is reached.
#[derive(Debug)]
pub enum Route {
    /// Over the proxy at `address`, which is sent `request` first.
    Proxy { address: String, request: String },
    /// At once.
    Direct { host: String, port: u16 },
}

/// What a proxy is asked for.
pub open spec fn request_text(host: Seq<char>, port: u16) -> Seq<char> {
    "CONNECT "@ + host + ":"@ + decimal(port as nat) + " HTTP/1.1\n\n"@
}

/// What a proxy is asked for.
pub fn proxy_request(host: &str, port: u16) -> (s: String)
    ensures
        s@ == request_text(host@, port),
        s@ == "CONNECT "@ + host@ + ":"@ + decimal(port as nat) + " HTTP/1.1\n\n"@,
{
    let mut s = String::new();
    s.append("CONNECT ");
    s.append(host);
    s.append(":");
    push_decimal(&mut s, port as u64);
    s.append(" HTTP/1.1\n\n");
    assert(s@ == request_text(host@, port));
    s
}

/// `route` leads to `target`, over the proxy that the environment names if it names one.
pub open spec fn leads_to(route: Route, target: RelayTarget, http_proxy: Option<String>) -> bool {
    match http_proxy {
        Some(proxy) => route matches Route::Proxy { address, request } && address == proxy
            && request@ == request_text(target.host@, target.port),
        None => route matches Route::Direct { host, port } && host@ == target.host@ && port
            == target.port,
    }
}

/// How `target` is reached, where `http_proxy` is the proxy that the environment names.
pub fn route(target: &RelayTarget, http_proxy: Option<String>) -> (r: Route)
    ensures
        leads_to(r, *target, http_proxy),
        match http_proxy {
            Some(proxy) => {
                &&& r matches Route::Proxy { address, request }
                &&& address@ == proxy@
                &&& request@ == "CONNECT "@ + target.host@ + ":"@ + decimal(target.port as nat)
                    + " HTTP/1.1\n\n"@
            },
            None => {
                &&& r matches Route::Direct { host, port }
                &&& host@ == target.host@
                &&& port == target.port
            },
        },
{
    match http_proxy {
        Some(address) => Route::Proxy {
            address,
            request: proxy_request(target.host.as_str(), target.port),
        },
        None => Route::Direct { host: target.host.clone(), port: target.port },
    }
}

/// Without a proxy the way to a target is its own host and its own port.
pub proof fn law_direct_route_is_the_target(route: Route, target: RelayTarget)
    requires
        leads_to(route, target, None),
    ensures
        route matches Route::Direct { host, port } && host@ == target.host@ && port == target.port,
{
}

/// With a proxy the way leads to the address of the proxy, which is asked for the target's own host
/// and port.
pub proof fn law_proxied_route_asks_for_the_target(route: Route, target: RelayTarget, proxy: String)
    requires
        leads_to(route, target, Some(proxy)),
    ensures
        route matches Route::Proxy { address, request } && address@ == proxy@ && request@
            == "CONNECT "@ + target.host@ + ":"@ + decimal(target.port as nat)
            + " HTTP/1.1\n\n"@,
{
}

/// Ways to targets of different ports are different, with a proxy and without.
pub proof fn law_ports_are_told_apart(
    a: Route,
    a_target: RelayTarget,
    b: Route,
    b_target: RelayTarget,
    http_proxy: Option<String>,
)
    requires
        leads_to(a, a_target, http_proxy),
        leads_to(b, b_target, http_proxy),
        a_target.host@ == b_target.host@,
        a_target.port != b_target.port,
    ensures
        a != b,
{
    if http_proxy is Some && a == b {
        let front = "CONNECT "@ + a_target.host@ + ":"@;
        let da = decimal(a_target.port as nat);
        let db = decimal(b_target.port as nat);
        let tail = " HTTP/1.1\n\n"@;
        let n = front.len() as int;
        law_decimal_distinct(a_target.port as nat, b_target.port as nat);
        assert((front + da + tail).len() == n + da.len() + tail.len());
        assert((front + db + tail).len() == n + db.len() + tail.len());
        assert((front + da + tail).subrange(n, n + da.len()) =~= da);
        assert((front + db + tail).subrange(n, n + db.len()) =~= db);
    }
}

/// Why a proxy's answer is of no use.
#[derive(Debug)]
pub enum ProxyError {
    /// There is none.
    NoResponse,
    /// It is not text.
    NotUtf8,
    /// It does not grant the request.
    Refused(String),
}

impl ProxyError {
    /// What is told of the failure.
    pub open spec fn text(&self) -> Seq<char> {
        match self {
            ProxyError::NoResponse => "Failed to read response from http proxy"@,
            ProxyError::NotUtf8 => "failed to parse proxy response"@,
            ProxyError::Refused(response) => "invalid response returned from http proxy: "@
                + response@,
        }
    }

    /// What is told of the failure.
    pub fn message(&self) -> (s: String)
        ensures
            s@ == self.text(),
            self matches ProxyError::Refused(response) ==> s@
                == "invalid response returned from http proxy: "@ + response@,
    {
        match self {
            ProxyError::NoResponse => "Failed to read response from http proxy".to_owned(),
            ProxyError::NotUtf8 => "failed to parse proxy response".to_owned(),
            ProxyError::Refused(response) => crate::text::join(
                "invalid response returned from http proxy: ",
                response.as_str(),
            ),
        }
    }
}

/// A proxy's answer that grants the request.
pub open spec fn grants(response: Seq<char>) -> bool {
    has_word(response, "HTTP/1.1 200"@) || has_word(response, "HTTP/1.0 200"@)
}

/// A proxy's answer grants the request if its status stands in it, wherever, in either version of
/// the protocol, and not otherwise.
pub proof fn law_status_200_grants(before: Seq<char>, after: Seq<char>, response: Seq<char>)
    ensures
        grants(before + "HTTP/1.1 200"@ + after),
        grants(before + "HTTP/1.0 200"@ + after),
        grants(response) ==> exists|a: Seq<char>, b: Seq<char>|
            response == #[trigger] (a + "HTTP/1.1 200"@ + b) || response == a + "HTTP/1.0 200"@ + b,
{
    law_word_is_found(before, "HTTP/1.1 200"@, after);
    law_word_is_found(before, "HTTP/1.0 200"@, after);
    law_found_word_is_there(response, "HTTP/1.1 200"@);
    law_found_word_is_there(response, "HTTP/1.0 200"@);
    if has_word(response, "HTTP/1.0 200"@) {
        let (a, b) = choose|a: Seq<char>, b: Seq<char>|
            response == #[trigger] (a + "HTTP/1.0 200"@ + b);
        let witness = a + "HTTP/1.1 200"@ + b;
        assert(witness == a + "HTTP/1.1 200"@ + b);
    }
}

/// What a proxy's answer, as it was read, means.
pub fn proxy_reply(read: Vec<u8>) -> (r: Result<(), ProxyError>)
    ensures
        match r {
            Ok(_) => read@.len() > 0 && (utf8_text(read@) matches Some(t) && grants(t)),
            Err(ProxyError::NoResponse) => read@.len() == 0,
            Err(ProxyError::NotUtf8) => read@.len() > 0 && utf8_text(read@) is None,
            Err(ProxyError::Refused(response)) => read@.len() > 0 && utf8_text(read@) == Some(
                response@,
            ) && !grants(response@),
        },
        r is Ok <==> (utf8_text(read@) matches Some(t) && (has_word(t, "HTTP/1.1 200"@)
            || has_word(t, "HTTP/1.0 200"@)) && read@.len() > 0),
{
    if read.len() == 0 {
        return Err(ProxyError::NoResponse);
    }
    match decode(read) {
        None => Err(ProxyError::NotUtf8),
        Some(response) => {
            if contains(response.as_str(), "HTTP/1.1 200") || contains(
                response.as_str(),
                "HTTP/1.0 200",
            ) {
                Ok(())
            } else {
                Err(ProxyError::Refused(response))
            }
        },
    }
}

/// Why no connection can be tried.
#[derive(Clone, Copy, Debug, PartialEq, Eq, Structural)]
pub enum ConnectError {
    /// The TLS library refused its settings.
    TlsConfig,
    /// The relay's host is no name of a server.
    ServerName,
}

impl ConnectError {
    /// What is told of the failure.
    pub open spec fn text(self) -> Seq<char> {
        match self {
            ConnectError::TlsConfig => "failed to build tls config"@,
            ConnectError::ServerName => "invalid dns name"@,
        }
    }

    /// What is told of the failure.
    pub fn message(self) -> (s: &'static str)
        ensures
            s@ == self.text(),
    {
        match self {
            ConnectError::TlsConfig => "failed to build tls config",
            ConnectError::ServerName => "invalid dns name",
        }
    }
}

/// The settings of a client's end of TLS, which trust the public roots.
pub fn client_config() -> (r: Result<ClientConfig, ConnectError>)
    ensures
        r is Ok,
        r matches Ok(config) ==> trusts_public_roots(config),
{
    match build_client_config() {
        Ok(config) => Ok(config),
        Err(_) => Err(ConnectError::TlsConfig),
    }
}

/// The name under which the server at `host` is asked for.
pub fn server_name(host: &str) -> (r: Result<ServerName<'static>, ConnectError>)
    ensures
        match r {
            Ok(name) => server_name_of(host@) == Some(name),
            Err(e) => server_name_of(host@) is None && e is ServerName,
        },
{
    match parse_server_name(host.to_owned()) {
        Ok(name) => Ok(name),
        Err(_) => Err(ConnectError::ServerName),
    }
}

/// A connection to be tried.
pub struct ConnectPlan {
    pub tls_config: ClientConfig,
    /// Whether the relay's certificate is checked.
    pub verify: bool,
    pub server_name: ServerName<'static>,
    pub route: Route,
}

/// A connection to `target`, from the settings and the name that are at hand.
pub fn plan(
    target: &RelayTarget,
    http_proxy: Option<String>,
    tls_config: ClientConfig,
    name: Result<ServerName<'static>, ConnectError>,
) -> (r: Result<ConnectPlan, ConnectError>)
    ensures
        match name {
            Err(e) => r == Err::<ConnectPlan, ConnectError>(e),
            Ok(server_name) => r matches Ok(p) && p.tls_config == tls_config && p.server_name
                == server_name && p.verify == !target.dangerous_disable_relay_server_verification
                && leads_to(p.route, *target, http_proxy) && (http_proxy is None ==> (
            p.route matches Route::Direct { host, port } && host@ == target.host@ && port
                == target.port)),
        },
{
    match name {
        Err(e) => Err(e),
        Ok(server_name) => Ok(
            ConnectPlan {
                tls_config,
                verify: !target.dangerous_disable_relay_server_verification,
                server_name,
                route: route(target, http_proxy),
            },
        ),
    }
}

/// A connection to `target`, where `http_proxy` is the proxy that the environment names.
pub fn plan_connection(target: &RelayTarget, http_proxy: Option<String>) -> (r: Result<
    ConnectPlan,
    ConnectError,
>)
    ensures
        match r {
            Ok(p) => {
                &&& trusts_public_roots(p.tls_config)
                &&& server_name_of(target.host@) == Some(p.server_name)
                &&& p.verify == !target.dangerous_disable_relay_server_verification
                &&& leads_to(p.route, *target, http_proxy)
                &&& match http_proxy {
                    Some(proxy) => {
                        &&& p.route matches Route::Proxy { address, request }
                        &&& address@ == proxy@
                        &&& request@ == "CONNECT "@ + target.host@ + ":"@ + decimal(
                            target.port as nat,
                        ) + " HTTP/1.1\n\n"@
                    },
                    None => {
                        &&& p.route matches Route::Direct { host, port }
                        &&& host@ == target.host@
                        &&& port == target.port
                    },
                }
            },
            Err(e) => server_name_of(target.host@) is None && e is ServerName,
        },
{
    match client_config() {
        Err(e) => Err(e),
        Ok(tls_config) => plan(
            target,
            http_proxy,
            tls_config,
            server_name(target.host.as_str()),
        ),
    }
}

} // verus!
