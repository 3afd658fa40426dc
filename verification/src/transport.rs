//! The pure parts of the upstream dispatcher: address-scheme and host:port
//! parsing, synthetic RCODE responses, DNS-over-HTTPS framing, and the
//! IPv4/CIDR classification the final rule relies on. The sockets, TLS,
//! QUIC and HTTP transports themselves live outside the library and are
//! driven by these decisions.

use vstd::prelude::*;
use vstd::string::*;
use hickory_proto::op::Message;
use crate::dns::{
    build_rcode_response, spec_msg_answer_count, spec_msg_authoritative, spec_msg_id,
    spec_msg_is_response, spec_msg_opcode, spec_msg_questions, spec_msg_rcode,
    spec_msg_recursion_available, spec_msg_recursion_desired,
};
use crate::text::{
    parse_u64, spec_all_digits, spec_digits_val, spec_eq_ci, spec_starts_with, spec_trim,
    str_eq_ci, str_starts_with, str_trim, spec_split_char, split_char,
};

verus! {

/// The transport an upstream address implies.
#[derive(Debug, Clone, Copy, PartialEq, Eq, Structural)]
pub enum Protocol {
    Udp,
    Tcp,
    Dot,
    Doh,
    Doq,
    /// A synthetic response carrying this response code; never touches the
    /// network.
    Rcode(u16),
}

/// The response code an `rcode://` suffix denotes: a mnemonic up to ASCII
/// case, else a 16-bit number, else NXDOMAIN.
pub open spec fn spec_rcode_of(t: Seq<char>) -> u16 {
    if spec_eq_ci(t, "NOERROR"@) {
        0u16
    } else if spec_eq_ci(t, "FORMERR"@) {
        1u16
    } else if spec_eq_ci(t, "SERVFAIL"@) {
        2u16
    } else if spec_eq_ci(t, "NXDOMAIN"@) {
        3u16
    } else if spec_eq_ci(t, "NOTIMP"@) {
        4u16
    } else if spec_eq_ci(t, "REFUSED"@) {
        5u16
    } else if t.len() > 0 && spec_all_digits(t) && spec_digits_val(t) <= u16::MAX {
        spec_digits_val(t) as u16
    } else {
        3u16
    }
}

/// The transport of an upstream address: decided by its scheme prefix,
/// defaulting to plain UDP.
pub open spec fn spec_parse_protocol(s: Seq<char>) -> Protocol {
    if spec_starts_with(s, "rcode://"@) {
        Protocol::Rcode(spec_rcode_of(s.subrange("rcode://"@.len() as int, s.len() as int)))
    } else if spec_starts_with(s, "quic://"@) || spec_starts_with(s, "doq://"@) {
        Protocol::Doq
    } else if spec_starts_with(s, "https://"@) {
        Protocol::Doh
    } else if spec_starts_with(s, "tls://"@) {
        Protocol::Dot
    } else if spec_starts_with(s, "tcp://"@) {
        Protocol::Tcp
    } else {
        Protocol::Udp
    }
}

fn rcode_of(t: &str) -> (r: u16)
    ensures
        r == spec_rcode_of(t@),
{
    if str_eq_ci(t, "NOERROR") {
        0
    } else if str_eq_ci(t, "FORMERR") {
        1
    } else if str_eq_ci(t, "SERVFAIL") {
        2
    } else if str_eq_ci(t, "NXDOMAIN") {
        3
    } else if str_eq_ci(t, "NOTIMP") {
        4
    } else if str_eq_ci(t, "REFUSED") {
        5
    } else {
        match parse_u64(t) {
            Some(v) => {
                if v <= 65535 {
                    v as u16
                } else {
                    3
                }
            },
            None => 3,
        }
    }
}

/// The transport implied by an upstream address.
pub fn parse_protocol(addr: &str) -> (r: Protocol)
    ensures
        r == spec_parse_protocol(addr@),
{
    if str_starts_with(addr, "rcode://") {
        let n = addr.unicode_len();
        proof {
            reveal_strlit("rcode://");
        }
        let rest = addr.substring_char(8, n);
        proof {
            assert(rest@ == addr@.subrange("rcode://"@.len() as int, addr@.len() as int));
        }
        Protocol::Rcode(rcode_of(rest))
    } else if str_starts_with(addr, "quic://") || str_starts_with(addr, "doq://") {
        Protocol::Doq
    } else if str_starts_with(addr, "https://") {
        Protocol::Doh
    } else if str_starts_with(addr, "tls://") {
        Protocol::Dot
    } else if str_starts_with(addr, "tcp://") {
        Protocol::Tcp
    } else {
        Protocol::Udp
    }
}

/// A synthetic response for the request: the request's id, opcode,
/// recursion-desired flag and questions, the given response code (codes
/// above REFUSED collapse to SERVFAIL), no answer records, `authoritative`
/// false and `recursion-available` true. Built without any network traffic.
pub fn create_rcode_response(request: &Message, rcode: u16) -> (r: Message)
    ensures
        spec_msg_id(r) == spec_msg_id(*request),
        spec_msg_rcode(r) == if rcode <= 5 {
            rcode
        } else {
            2u16
        },
        spec_msg_questions(r) == spec_msg_questions(*request),
        spec_msg_answer_count(r) == 0,
        spec_msg_opcode(r) == spec_msg_opcode(*request),
        spec_msg_is_response(r) == true,
        spec_msg_authoritative(r) == false,
        spec_msg_recursion_desired(r) == spec_msg_recursion_desired(*request),
        spec_msg_recursion_available(r) == true,
{
    let rc = if rcode <= 5 {
        rcode
    } else {
        2
    };
    build_rcode_response(request, rc)
}

/// The stream-framing rule of TCP and DoT responses: a length is accepted
/// iff it is positive and at most 4096.
pub fn tcp_len_ok(len: u16) -> (r: bool)
    ensures
        r == (1 <= len && len <= 4096),
{
    1 <= len && len <= 4096
}

/// DNS-over-QUIC cannot be chained through a SOCKS5 proxy: such a pairing
/// must be rejected explicitly.
pub fn doq_with_proxy_rejected(p: Protocol, has_proxy: bool) -> (r: bool)
    ensures
        r == (p == Protocol::Doq && has_proxy),
{
    match p {
        Protocol::Doq => has_proxy,
        _ => false,
    }
}

// --- host and port parsing ---

/// One scheme prefix stripped, if present.
pub open spec fn spec_strip_prefix(s: Seq<char>, p: Seq<char>) -> Seq<char> {
    if spec_starts_with(s, p) {
        s.subrange(p.len() as int, s.len() as int)
    } else {
        s
    }
}

/// The plain-transport schemes stripped, one after the other.
pub open spec fn spec_strip_schemes(s: Seq<char>) -> Seq<char> {
    spec_strip_prefix(
        spec_strip_prefix(
            spec_strip_prefix(spec_strip_prefix(spec_strip_prefix(s, "udp://"@), "tcp://"@), "tls://"@),
            "doq://"@,
        ),
        "quic://"@,
    )
}

/// The host and port of an upstream address: HTTPS addresses keep their
/// whole URL with port 443; otherwise the scheme is stripped, the part
/// after the last colon must be a 16-bit port, and a colon-free address
/// gets port 53. `None` where the port does not parse.
pub open spec fn spec_parse_address(s: Seq<char>) -> Option<(Seq<char>, u16)> {
    if spec_starts_with(s, "https://"@) {
        Some((s, 443u16))
    } else {
        let c = spec_strip_schemes(s);
        if c.contains(':') {
            let i = choose|i: int| 0 <= i < c.len() && c[i] == ':' && forall|j: int| i < j < c.len() ==> c[j] != ':';
            let port = c.subrange(i + 1, c.len() as int);
            if port.len() > 0 && spec_all_digits(port) && spec_digits_val(port) <= u16::MAX {
                Some((c.subrange(0, i), spec_digits_val(port) as u16))
            } else {
                None
            }
        } else {
            Some((c, 53u16))
        }
    }
}

fn strip_prefix_exec<'a>(s: &'a str, p: &str) -> (r: &'a str)
    ensures
        r@ == spec_strip_prefix(s@, p@),
{
    if str_starts_with(s, p) {
        let n = s.unicode_len();
        let m = p.unicode_len();
        s.substring_char(m, n)
    } else {
        s
    }
}

/// Parse `host:port` out of an upstream address.
pub fn parse_address(addr: &str) -> (r: Option<(String, u16)>)
    ensures
        match r {
            Some(p) => spec_parse_address(addr@) == Some((p.0@, p.1)),
            None => spec_parse_address(addr@) is None,
        },
{
    if str_starts_with(addr, "https://") {
        return Some((String::from_str(addr), 443));
    }
    let c0 = strip_prefix_exec(addr, "udp://");
    let c1 = strip_prefix_exec(c0, "tcp://");
    let c2 = strip_prefix_exec(c1, "tls://");
    let c3 = strip_prefix_exec(c2, "doq://");
    let c = strip_prefix_exec(c3, "quic://");
    match crate::text::str_rfind_char(c, ':') {
        Some(i) => {
            proof {
                let cv = c@;
                assert(cv.contains(':')) by {
                    assert(cv[i as int] == ':');
                }
                let w = choose|w: int|
                    0 <= w < cv.len() && cv[w] == ':' && forall|j: int| w < j < cv.len() ==> cv[j] != ':';
                if w != i as int {
                    assert(cv[w] == ':');
                    assert(cv[i as int] == ':');
                }
            }
            let n = c.unicode_len();
            let port_str = c.substring_char(i + 1, n);
            match parse_u64(port_str) {
                Some(v) => {
                    if v <= 65535 {
                        let host = c.substring_char(0, i);
                        Some((String::from_str(host), v as u16))
                    } else {
                        None
                    }
                },
                None => None,
            }
        },
        None => Some((String::from_str(c), 53)),
    }
}

// --- IPv4 and CIDR classification ---

/// An IPv4 octet: one to three digits, no leading zero unless `0`, at most
/// 255.
pub open spec fn spec_octet_ok(p: Seq<char>) -> bool {
    &&& p.len() > 0
    &&& spec_all_digits(p)
    &&& (p.len() == 1 || p[0] != '0')
    &&& spec_digits_val(p) <= 255
}

/// A dotted-quad IPv4 address as its 32-bit value.
pub open spec fn spec_parse_ipv4(s: Seq<char>) -> Option<u32> {
    let parts = spec_split_char(s, '.');
    if parts.len() == 4 && spec_octet_ok(parts[0]) && spec_octet_ok(parts[1]) && spec_octet_ok(
        parts[2],
    ) && spec_octet_ok(parts[3]) {
        Some(
            (spec_digits_val(parts[0]) * 0x1000000 + spec_digits_val(parts[1]) * 0x10000
                + spec_digits_val(parts[2]) * 0x100 + spec_digits_val(parts[3])) as u32,
        )
    } else {
        None
    }
}

fn parse_octet(p: &str) -> (r: Option<u8>)
    ensures
        match r {
            Some(v) => spec_octet_ok(p@) && v == spec_digits_val(p@),
            None => !spec_octet_ok(p@),
        },
{
    let n = p.unicode_len();
    if n == 0 {
        return None;
    }
    if n > 1 && p.get_char(0) == '0' {
        return None;
    }
    match parse_u64(p) {
        Some(v) => {
            if v <= 255 {
                Some(v as u8)
            } else {
                None
            }
        },
        None => {
            proof {
                if spec_octet_ok(p@) {
                    assert(spec_digits_val(p@) <= 255);
                }
            }
            None
        },
    }
}

/// Parse a dotted-quad IPv4 address.
pub fn parse_ipv4(s: &str) -> (r: Option<u32>)
    ensures
        r == spec_parse_ipv4(s@),
{
    let parts = split_char(s, '.');
    if parts.len() != 4 {
        proof {
            assert(parts.deep_view().len() != 4);
        }
        return None;
    }
    proof {
        assert(parts.deep_view()[0] == parts@[0]@ && parts.deep_view()[1] == parts@[1]@
            && parts.deep_view()[2] == parts@[2]@ && parts.deep_view()[3] == parts@[3]@);
    }
    let a = match parse_octet(parts[0].as_str()) {
        Some(v) => v,
        None => {
            return None;
        },
    };
    let b = match parse_octet(parts[1].as_str()) {
        Some(v) => v,
        None => {
            return None;
        },
    };
    let c = match parse_octet(parts[2].as_str()) {
        Some(v) => v,
        None => {
            return None;
        },
    };
    let d = match parse_octet(parts[3].as_str()) {
        Some(v) => v,
        None => {
            return None;
        },
    };
    Some((a as u32) * 0x1000000 + (b as u32) * 0x10000 + (c as u32) * 0x100 + (d as u32))
}

/// The network mask of a prefix length; prefixes above 32 mask nothing and
/// match no address.
pub open spec fn spec_prefix_mask(prefix: u64) -> u32 {
    if prefix == 0 {
        0u32
    } else {
        (0xFFFF_FFFFu32 << ((32 - prefix) as u32)) as u32
    }
}

/// Whether the address lies in `net/prefix`.
pub open spec fn spec_ip_in_cidr(ip: u32, cidr: Seq<char>) -> bool {
    let parts = spec_split_char(cidr, '/');
    &&& parts.len() == 2
    &&& spec_parse_ipv4(parts[0]) is Some
    &&& parts[1].len() > 0 && spec_all_digits(parts[1])
    &&& spec_digits_val(parts[1]) <= 32
    &&& {
        let net = spec_parse_ipv4(parts[0])->0;
        let mask = spec_prefix_mask(spec_digits_val(parts[1]) as u64);
        ip & mask == net & mask
    }
}

/// Whether the address lies in the CIDR range written `a.b.c.d/n`.
pub fn ip_in_cidr(ip: u32, cidr: &str) -> (r: bool)
    ensures
        r == spec_ip_in_cidr(ip, cidr@),
{
    let parts = split_char(cidr, '/');
    if parts.len() != 2 {
        return false;
    }
    proof {
        assert(parts.deep_view()[0] == parts@[0]@ && parts.deep_view()[1] == parts@[1]@);
    }
    let net = match parse_ipv4(parts[0].as_str()) {
        Some(v) => v,
        None => {
            return false;
        },
    };
    let prefix = match parse_u64(parts[1].as_str()) {
        Some(v) => v,
        None => {
            return false;
        },
    };
    if prefix > 32 {
        return false;
    }
    let mask: u32 = if prefix == 0 {
        0
    } else {
        0xFFFF_FFFFu32 << ((32 - prefix) as u32)
    };
    ip & mask == net & mask
}

/// One CIDR-list line `|<CIDR>|<country>|...` names this address as CN:
/// the line must have at least the two fields after its leading bar, and
/// the country field, trimmed, must read `CN` up to case.
pub open spec fn spec_line_names_cn(ip: u32, line: Seq<char>) -> bool {
    let parts = spec_split_char(line, '|');
    &&& parts.len() >= 3
    &&& spec_eq_ci(spec_trim(parts[2]), "CN"@)
    &&& spec_ip_in_cidr(ip, spec_trim(parts[1]))
}

/// Whether an IP string is IPv4 and covered by a CN-tagged CIDR of the
/// list. Addresses that do not parse as IPv4 (IPv6 among them) never are.
pub open spec fn spec_ip_in_cn_list(ip: Seq<char>, cidr_list: Seq<Seq<char>>) -> bool {
    match spec_parse_ipv4(ip) {
        Some(v) => exists|i: int|
            0 <= i < cidr_list.len() && spec_line_names_cn(v, #[trigger] cidr_list[i]),
        None => false,
    }
}

/// Whether the IP string is covered by a CN-tagged CIDR entry of the list.
pub fn is_ip_in_cidr_list(ip: &str, cidr_list: &Vec<String>) -> (r: bool)
    ensures
        r == spec_ip_in_cn_list(ip@, cidr_list.deep_view()),
{
    let v = match parse_ipv4(ip) {
        Some(v) => v,
        None => {
            return false;
        },
    };
    let mut i: usize = 0;
    while i < cidr_list.len()
        invariant
            i <= cidr_list@.len(),
            spec_parse_ipv4(ip@) == Some(v),
            forall|j: int|
                0 <= j < i ==> !spec_line_names_cn(v, #[trigger] cidr_list.deep_view()[j]),
        decreases cidr_list@.len() - i,
    {
        let entry = &cidr_list[i];
        proof {
            assert(cidr_list.deep_view()[i as int] == entry@);
        }
        let parts = split_char(entry.as_str(), '|');
        if parts.len() >= 3 {
            proof {
                assert(parts.deep_view()[1] == parts@[1]@ && parts.deep_view()[2] == parts@[2]@);
            }
            let country = str_trim(parts[2].as_str());
            if str_eq_ci(country, "CN") {
                let cidr = str_trim(parts[1].as_str());
                if ip_in_cidr(v, cidr) {
                    proof {
                        assert(spec_line_names_cn(v, cidr_list.deep_view()[i as int]));
                    }
                    return true;
                }
            }
        }
        i += 1;
    }
    false
}

/// The final rule keeps the primary answer iff some answer address is
/// CN-tagged.
pub fn any_ip_in_cn_list(ips: &Vec<String>, cidr_list: &Vec<String>) -> (r: bool)
    ensures
        r == exists|i: int|
            0 <= i < ips.deep_view().len() && spec_ip_in_cn_list(
                #[trigger] ips.deep_view()[i],
                cidr_list.deep_view(),
            ),
{
    let mut i: usize = 0;
    while i < ips.len()
        invariant
            i <= ips@.len(),
            forall|j: int|
                0 <= j < i ==> !spec_ip_in_cn_list(
                    #[trigger] ips.deep_view()[j],
                    cidr_list.deep_view(),
                ),
        decreases ips@.len() - i,
    {
        proof {
            assert(ips.deep_view()[i as int] == ips@[i as int]@);
        }
        if is_ip_in_cidr_list(ips[i].as_str(), cidr_list) {
            return true;
        }
        i += 1;
    }
    false
}

// --- DNS-over-HTTPS framing ---

/// What base64's URL-safe, unpadded engine encodes these bytes to.
pub uninterp spec fn spec_b64url_of(b: Seq<u8>) -> Seq<char>;

/// Relies on base64's URL_SAFE_NO_PAD engine: the encoding is a function
/// of the bytes alone.
#[verifier::external_body]
fn b64url_nopad(b: &[u8]) -> (r: String)
    ensures
        r@ == spec_b64url_of(b@),
{
    base64::Engine::encode(&base64::engine::general_purpose::URL_SAFE_NO_PAD, b)
}

/// The query string of a DNS-over-HTTPS GET: the wire request, base64url
/// encoded without padding.
pub fn doh_query_param(wire: &[u8]) -> (r: String)
    ensures
        r@ == spec_b64url_of(wire@),
{
    b64url_nopad(wire)
}

/// The bytes of a bootstrap DoH request: a minimal HTTP/1.1 GET carrying
/// the encoded query, the original host, the DNS accept header, and a
/// close directive.
pub open spec fn spec_doh_request(path: Seq<char>, host: Seq<char>, b64: Seq<char>) -> Seq<char> {
    "GET "@ + path + "?dns="@ + b64 + " HTTP/1.1\r\nHost: "@ + host
        + "\r\nAccept: application/dns-message\r\nConnection: close\r\n\r\n"@
}

/// Build the HTTP/1.1 request line and headers of a bootstrap DoH GET.
pub fn doh_http_request(path: &str, host: &str, dns_b64: &str) -> (r: String)
    ensures
        r@ == spec_doh_request(path@, host@, dns_b64@),
{
    let mut r = String::from_str("GET ");
    r.append(path);
    r.append("?dns=");
    r.append(dns_b64);
    r.append(" HTTP/1.1\r\nHost: ");
    r.append(host);
    r.append("\r\nAccept: application/dns-message\r\nConnection: close\r\n\r\n");
    proof {
        assert(r@ =~= spec_doh_request(path@, host@, dns_b64@));
    }
    r
}

/// `pat` occurs in the bytes `s` at position `i`.
pub open spec fn spec_bytes_at(s: Seq<u8>, pat: Seq<u8>, i: int) -> bool {
    0 <= i && i + pat.len() <= s.len() && s.subrange(i, i + pat.len()) == pat
}

/// The header/body separator of an HTTP/1.1 response.
pub open spec fn spec_crlf2() -> Seq<u8> {
    seq![13u8, 10u8, 13u8, 10u8]
}

/// A line break.
pub open spec fn spec_crlf() -> Seq<u8> {
    seq![13u8, 10u8]
}

/// The ASCII bytes of `200`.
pub open spec fn spec_http_200() -> Seq<u8> {
    seq![50u8, 48u8, 48u8]
}

/// The first occurrence of `pat` in `data`, if any.
fn find_bytes(data: &[u8], pat: &[u8]) -> (r: Option<usize>)
    requires
        pat@.len() >= 1,
    ensures
        match r {
            Some(i) => spec_bytes_at(data@, pat@, i as int) && forall|j: int|
                0 <= j < i ==> !spec_bytes_at(data@, pat@, j),
            None => forall|j: int| !spec_bytes_at(data@, pat@, j),
        },
{
    let n = data.len();
    let m = pat.len();
    if m > n {
        proof {
            assert forall|j: int| !spec_bytes_at(data@, pat@, j) by {}
        }
        return None;
    }
    let limit = n - m;
    let mut pos: usize = 0;
    loop
        invariant
            pos <= limit,
            limit == n - m,
            1 <= m <= n,
            n == data@.len(),
            m == pat@.len(),
            forall|j: int| 0 <= j < pos ==> !spec_bytes_at(data@, pat@, j),
        ensures
            forall|j: int| 0 <= j <= limit ==> !spec_bytes_at(data@, pat@, j),
        decreases limit - pos,
    {
        let mut k: usize = 0;
        let mut matched = true;
        while k < m
            invariant
                k <= m,
                pos <= limit,
                limit == n - m,
                n == data@.len(),
                m == pat@.len(),
                matched ==> forall|a: int| 0 <= a < k ==> data@[pos + a] == #[trigger] pat@[a],
                !matched ==> exists|a: int| 0 <= a < k && data@[pos + a] != #[trigger] pat@[a],
            decreases m - k,
        {
            if data[pos + k] != pat[k] {
                matched = false;
            }
            k += 1;
        }
        if matched {
            proof {
                assert(data@.subrange(pos as int, pos + m) =~= pat@);
                assert(spec_bytes_at(data@, pat@, pos as int));
            }
            return Some(pos);
        }
        proof {
            if spec_bytes_at(data@, pat@, pos as int) {
                let a = choose|a: int| 0 <= a < m && data@[pos + a] != #[trigger] pat@[a];
                assert(data@.subrange(pos as int, pos + m)[a] == data@[pos + a]);
                assert(false);
            }
        }
        if pos == limit {
            break ;
        }
        pos += 1;
    }
    proof {
        assert forall|j: int| !spec_bytes_at(data@, pat@, j) by {
            if 0 <= j <= limit as int {
            }
        }
    }
    None
}

/// Errors of splitting a bootstrap DoH response.
#[derive(Debug, Clone, Copy, PartialEq, Eq, Structural)]
pub enum HttpError {
    MissingSeparator,
    BadStatus,
}

/// The status line of a response is everything before the first line
/// break, and it must carry `200`.
pub open spec fn spec_status_ok(data: Seq<u8>) -> bool {
    exists|f: int|
        #![auto]
        spec_bytes_at(data, spec_crlf(), f) && (forall|g: int|
            0 <= g < f ==> !spec_bytes_at(data, spec_crlf(), g)) && (exists|k: int|
            spec_bytes_at(data.subrange(0, f), spec_http_200(), k))
}

/// Split a bootstrap DoH response into its body, on bytes: the body is
/// everything after the first blank line, taken only when the status line
/// carries `200`.
pub fn doh_extract_body(data: &[u8]) -> (r: Result<Vec<u8>, HttpError>)
    ensures
        match r {
            Ok(body) => exists|i: int|
                #![auto]
                spec_bytes_at(data@, spec_crlf2(), i) && (forall|j: int|
                    0 <= j < i ==> !spec_bytes_at(data@, spec_crlf2(), j)) && body@
                    == data@.subrange(i + 4, data@.len() as int) && spec_status_ok(data@),
            Err(e) => (e == HttpError::MissingSeparator && forall|i: int|
                !spec_bytes_at(data@, spec_crlf2(), i)) || (e == HttpError::BadStatus
                && !spec_status_ok(data@)),
        },
{
    let sep: Vec<u8> = vec![13u8, 10u8, 13u8, 10u8];
    proof {
        assert(sep@ =~= spec_crlf2());
    }
    let i = match find_bytes(data, sep.as_slice()) {
        Some(i) => i,
        None => {
            return Err(HttpError::MissingSeparator);
        },
    };
    let crlf: Vec<u8> = vec![13u8, 10u8];
    proof {
        assert(crlf@ =~= spec_crlf());
    }
    let f = match find_bytes(data, crlf.as_slice()) {
        Some(f) => f,
        None => {
            proof {
                assert(spec_bytes_at(data@, spec_crlf2(), i as int));
                assert(data@.subrange(i as int, i + 2) =~= spec_crlf());
                assert(spec_bytes_at(data@, spec_crlf(), i as int));
                assert(false);
            }
            return Err(HttpError::MissingSeparator);
        },
    };
    let mut line: Vec<u8> = Vec::new();
    let mut k: usize = 0;
    while k < f
        invariant
            k <= f,
            f + 2 <= data@.len(),
            line@ == data@.subrange(0, k as int),
        decreases f - k,
    {
        line.push(data[k]);
        proof {
            assert(line@ =~= data@.subrange(0, k + 1));
        }
        k += 1;
    }
    let two_hundred: Vec<u8> = vec![50u8, 48u8, 48u8];
    proof {
        assert(two_hundred@ =~= spec_http_200());
    }
    let ok = match find_bytes(line.as_slice(), two_hundred.as_slice()) {
        Some(_) => true,
        None => false,
    };
    if !ok {
        proof {
            assert(line@ == data@.subrange(0, f as int));
            if spec_status_ok(data@) {
                let f2 = choose|f2: int|
                    #![auto]
                    spec_bytes_at(data@, spec_crlf(), f2) && (forall|g: int|
                        0 <= g < f2 ==> !spec_bytes_at(data@, spec_crlf(), g)) && (exists|k2: int|
                        spec_bytes_at(data@.subrange(0, f2), spec_http_200(), k2));
                assert(f2 == f as int);
            }
        }
        return Err(HttpError::BadStatus);
    }
    let n = data.len();
    let mut body: Vec<u8> = Vec::new();
    let mut k: usize = i + 4;
    while k < n
        invariant
            i + 4 <= k <= n,
            n == data@.len(),
            body@ == data@.subrange(i + 4, k as int),
        decreases n - k,
    {
        body.push(data[k]);
        proof {
            assert(body@ =~= data@.subrange(i + 4, k + 1));
        }
        k += 1;
    }
    proof {
        assert(line@ == data@.subrange(0, f as int));
        assert(spec_status_ok(data@));
    }
    Ok(body)
}

/// The host, port and path of a DoH URL: the scheme must be `https://`,
/// the authority ends at the first slash, the port sits after the first
/// colon of the authority (443 when absent), and a missing path reads as
/// `/dns-query`.
pub open spec fn spec_parse_doh_url(s: Seq<char>) -> Option<(Seq<char>, u16, Seq<char>)> {
    if !spec_starts_with(s, "https://"@) {
        None
    } else {
        let rest = s.subrange("https://"@.len() as int, s.len() as int);
        let hp = if rest.contains('/') {
            let sl = choose|sl: int|
                0 <= sl < rest.len() && rest[sl] == '/' && forall|j: int| 0 <= j < sl ==> rest[j] != '/';
            rest.subrange(0, sl)
        } else {
            rest
        };
        let path = if rest.contains('/') {
            let sl = choose|sl: int|
                0 <= sl < rest.len() && rest[sl] == '/' && forall|j: int| 0 <= j < sl ==> rest[j] != '/';
            rest.subrange(sl, rest.len() as int)
        } else {
            "/dns-query"@
        };
        if hp.contains(':') {
            let ci = choose|ci: int|
                0 <= ci < hp.len() && hp[ci] == ':' && forall|j: int| 0 <= j < ci ==> hp[j] != ':';
            let port = hp.subrange(ci + 1, hp.len() as int);
            if port.len() > 0 && spec_all_digits(port) && spec_digits_val(port) <= u16::MAX {
                Some((hp.subrange(0, ci), spec_digits_val(port) as u16, path))
            } else {
                None
            }
        } else {
            Some((hp, 443u16, path))
        }
    }
}

/// Parse a DoH URL into host, port and path.
pub fn parse_doh_url(url: &str) -> (r: Option<(String, u16, String)>)
    ensures
        match r {
            Some(p) => spec_parse_doh_url(url@) == Some((p.0@, p.1, p.2@)),
            None => spec_parse_doh_url(url@) is None,
        },
{
    if !str_starts_with(url, "https://") {
        return None;
    }
    let n = url.unicode_len();
    proof {
        reveal_strlit("https://");
    }
    let rest = url.substring_char(8, n);
    proof {
        assert(rest@ == url@.subrange("https://"@.len() as int, url@.len() as int));
    }
    let rn = rest.unicode_len();
    let (hp, path) = match crate::text::str_find_char(rest, '/') {
        Some(sl) => {
            proof {
                assert(rest@.contains('/')) by {
                    assert(rest@[sl as int] == '/');
                }
                let w = choose|w: int|
                    0 <= w < rest@.len() && rest@[w] == '/' && forall|j: int|
                        0 <= j < w ==> rest@[j] != '/';
                if w != sl as int {
                    assert(rest@[w] == '/');
                }
            }
            (rest.substring_char(0, sl), String::from_str(rest.substring_char(sl, rn)))
        },
        None => (rest, String::from_str("/dns-query")),
    };
    match crate::text::str_find_char(hp, ':') {
        Some(ci) => {
            proof {
                assert(hp@.contains(':')) by {
                    assert(hp@[ci as int] == ':');
                }
                let w = choose|w: int|
                    0 <= w < hp@.len() && hp@[w] == ':' && forall|j: int| 0 <= j < w ==> hp@[j] != ':';
                if w != ci as int {
                    assert(hp@[w] == ':');
                }
            }
            let hn = hp.unicode_len();
            let port_str = hp.substring_char(ci + 1, hn);
            match parse_u64(port_str) {
                Some(v) => {
                    if v <= 65535 {
                        let host = hp.substring_char(0, ci);
                        Some((String::from_str(host), v as u16, path))
                    } else {
                        None
                    }
                },
                None => None,
            }
        },
        None => Some((String::from_str(hp), 443, path)),
    }
}

} // verus!
