use vstd::prelude::*;
use crate::document::{Document, DocumentView};

verus! {

/// One header of an HTTP response.
pub struct HttpHeader {
    pub name: String,
    pub value: String,
}

/// The address of a server.
pub struct DummyIP {
    pub ipv4: String,
}

/// The endpoint an HTTP response was served from.
pub struct TlsEndpoint {
    pub ip: DummyIP,
    pub port_number: u16,
    pub port_protocol: String,
    pub domain_name: String,
    pub server_name_indication_used: bool,
    pub start_tls_protocol: String,
}

/// A record of one HTTP transaction: where it was served from, and the
/// response it gave.
pub struct HttpServer {
    pub tls_endpoint: TlsEndpoint,
    pub http_body: String,
    pub http_headers: Vec<HttpHeader>,
    pub http_version: String,
    pub http_status_code: u64,
    pub http_status_message: String,
    pub http_path: String,
}

/// The decimal digit `d`, for `d < 10`.
pub open spec fn digit_char(d: nat) -> char {
    seq!['0', '1', '2', '3', '4', '5', '6', '7', '8', '9'][d as int]
}

/// `n` written in decimal, without leading zeros.
pub open spec fn decimal(n: nat) -> Seq<char>
    decreases n,
{
    if n < 10 {
        seq![digit_char(n)]
    } else {
        decimal(n / 10).push(digit_char(n % 10))
    }
}

/// The host part of the address: the domain name, or the IPv4 address
/// where the domain name is empty.
pub open spec fn host_of(e: &TlsEndpoint) -> Seq<char> {
    if e.domain_name@.len() > 0 {
        e.domain_name@
    } else {
        e.ip.ipv4@
    }
}

/// `https` on port 443, `http` on any other port.
pub open spec fn scheme_of(port: u16) -> Seq<char> {
    if port == 443 {
        seq!['h', 't', 't', 'p', 's']
    } else {
        seq!['h', 't', 't', 'p']
    }
}

/// The URL that names a record: `scheme://host:port/path`.
pub open spec fn record_url(h: &HttpServer) -> Seq<char> {
    scheme_of(h.tls_endpoint.port_number) + seq![':', '/', '/'] + host_of(&h.tls_endpoint) + seq![
        ':',
    ] + decimal(h.tls_endpoint.port_number as nat) + seq!['/'] + h.http_path@
}

fn digit_str(d: u16) -> (r: &'static str)
    requires
        d < 10,
    ensures
        r@ == seq![digit_char(d as nat)],
{
    proof {
        reveal_strlit("0");
        reveal_strlit("1");
        reveal_strlit("2");
        reveal_strlit("3");
        reveal_strlit("4");
        reveal_strlit("5");
        reveal_strlit("6");
        reveal_strlit("7");
        reveal_strlit("8");
        reveal_strlit("9");
    }
    let r = match d {
        0 => "0",
        1 => "1",
        2 => "2",
        3 => "3",
        4 => "4",
        5 => "5",
        6 => "6",
        7 => "7",
        8 => "8",
        _ => "9",
    };
    assert(r@ =~= seq![digit_char(d as nat)]);
    r
}

/// Writes `n` in decimal.
pub fn decimal_string(n: u16) -> (r: String)
    ensures
        r@ == decimal(n as nat),
    decreases n,
{
    if n < 10 {
        digit_str(n).to_owned()
    } else {
        let mut s = decimal_string(n / 10);
        s.append(digit_str(n % 10));
        s
    }
}

impl Document {
    /// The document of an HTTP record: named by the record's URL, with the
    /// response body as its text.
    pub fn from_http(http: HttpServer) -> (r: Document)
        ensures
            r@ == (DocumentView { id: record_url(&http), text: http.http_body@ }),
    {
        let ghost h = http;
        let endpoint = http.tls_endpoint;
        let host = if !endpoint.domain_name.as_str().is_empty() {
            endpoint.domain_name
        } else {
            endpoint.ip.ipv4
        };
        proof {
            reveal_strlit("https://");
            reveal_strlit("http://");
            reveal_strlit(":");
            reveal_strlit("/");
        }
        let mut url = if endpoint.port_number == 443 {
            "https://".to_owned()
        } else {
            "http://".to_owned()
        };
        url.append(host.as_str());
        url.append(":");
        let port = decimal_string(endpoint.port_number);
        url.append(port.as_str());
        url.append("/");
        url.append(http.http_path.as_str());
        assert(url@ =~= record_url(&h));
        Document::new(url, http.http_body)
    }
}

} // verus!
