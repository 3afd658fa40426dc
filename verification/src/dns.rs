//! The wire codec boundary: DNS messages are parsed, serialized and read
//! through `hickory_proto`, behind trusted declarations. Every fact the rest
//! of the library uses about a message goes through the named accessors
//! below, so the contracts stay honest about what is assumed.

use vstd::prelude::*;
use hickory_proto::op::Message;

verus! {

#[verifier::external_type_specification]
#[verifier::external_body]
pub struct ExMessage(Message);

/// Errors of the wire codec.
#[derive(Debug, Clone, Copy, PartialEq, Eq, Structural)]
pub enum DnsError {
    Malformed,
    Encode,
}

/// What `Message::from_vec` makes of these bytes; `None` where parsing fails.
pub uninterp spec fn spec_parse_message(b: Seq<u8>) -> Option<Message>;

/// What `Message::to_vec` returns for this message; `None` where encoding
/// fails.
pub uninterp spec fn spec_msg_wire(m: Message) -> Option<Seq<u8>>;

/// What `Message::id` returns.
pub uninterp spec fn spec_msg_id(m: Message) -> u16;

/// What `Message::response_code` returns, as the 16-bit code.
pub uninterp spec fn spec_msg_rcode(m: Message) -> u16;

/// What `Message::queries` holds: each question's name (UTF-8 rendering)
/// and record type.
pub uninterp spec fn spec_msg_questions(m: Message) -> Seq<(Seq<char>, u16)>;

/// What `Message::answers` holds: the display rendering of each answer's
/// rdata, for answers that carry data.
pub uninterp spec fn spec_msg_answer_rdata(m: Message) -> Seq<Seq<char>>;

/// How many records `Message::answers` holds.
pub uninterp spec fn spec_msg_answer_count(m: Message) -> usize;

/// The TTLs of all answer, authority and additional records, in order.
pub uninterp spec fn spec_msg_ttls(m: Message) -> Seq<u32>;

/// What `Message::op_code` returns, as its 8-bit code.
pub uninterp spec fn spec_msg_opcode(m: Message) -> u8;

/// What `Message::message_type` returns: whether this is a response.
pub uninterp spec fn spec_msg_is_response(m: Message) -> bool;

/// What `Message::authoritative` returns.
pub uninterp spec fn spec_msg_authoritative(m: Message) -> bool;

/// What `Message::recursion_desired` returns.
pub uninterp spec fn spec_msg_recursion_desired(m: Message) -> bool;

/// What `Message::recursion_available` returns.
pub uninterp spec fn spec_msg_recursion_available(m: Message) -> bool;

/// The queried name: the first question's name, if there is a question.
pub open spec fn spec_msg_qname(m: Message) -> Option<Seq<char>> {
    if spec_msg_questions(m).len() > 0 {
        Some(spec_msg_questions(m)[0].0)
    } else {
        None
    }
}

/// Relies on Message::from_vec: parses wire bytes; deterministic in them.
#[verifier::external_body]
pub fn parse_dns(buf: &[u8]) -> (r: Result<Message, DnsError>)
    ensures
        match r {
            Ok(m) => spec_parse_message(buf@) == Some(m),
            Err(e) => spec_parse_message(buf@) is None && e == DnsError::Malformed,
        },
{
    match Message::from_vec(buf) {
        Ok(m) => Ok(m),
        Err(_) => Err(DnsError::Malformed),
    }
}

/// Relies on Message::to_vec: serializes to wire bytes; deterministic in
/// the message.
#[verifier::external_body]
pub fn encode_dns(msg: &Message) -> (r: Result<Vec<u8>, DnsError>)
    ensures
        match r {
            Ok(v) => spec_msg_wire(*msg) == Some(v@),
            Err(e) => spec_msg_wire(*msg) is None && e == DnsError::Encode,
        },
{
    match msg.to_vec() {
        Ok(v) => Ok(v),
        Err(_) => Err(DnsError::Encode),
    }
}

/// Relies on Message::queries and Name::to_utf8: the first question's name.
#[verifier::external_body]
pub fn get_qname(msg: &Message) -> (r: Option<String>)
    ensures
        match r {
            Some(s) => spec_msg_qname(*msg) == Some(s@),
            None => spec_msg_qname(*msg) is None,
        },
{
    match msg.queries().first() {
        Some(q) => Some(q.name().to_utf8()),
        None => None,
    }
}

/// Relies on Message::id.
#[verifier::external_body]
pub fn message_id(msg: &Message) -> (r: u16)
    ensures
        r == spec_msg_id(*msg),
{
    msg.id()
}

/// Relies on Message::response_code and its 16-bit rendering.
#[verifier::external_body]
pub fn message_rcode(msg: &Message) -> (r: u16)
    ensures
        r == spec_msg_rcode(*msg),
{
    u16::from(msg.response_code())
}

/// Relies on Message::queries, Name::to_utf8 and the 16-bit record type.
#[verifier::external_body]
pub fn message_questions(msg: &Message) -> (r: Vec<(String, u16)>)
    ensures
        r.deep_view() == spec_msg_questions(*msg),
{
    let mut out = Vec::new();
    for q in msg.queries() {
        out.push((q.name().to_utf8(), u16::from(q.query_type())));
    }
    out
}

/// Relies on Message::answers: how many answer records there are.
#[verifier::external_body]
pub fn answer_count(msg: &Message) -> (r: usize)
    ensures
        r == spec_msg_answer_count(*msg),
{
    msg.answers().len()
}

/// Relies on Message::answers and the display rendering of rdata.
#[verifier::external_body]
pub fn answer_rdata_strings(msg: &Message) -> (r: Vec<String>)
    ensures
        r.deep_view() == spec_msg_answer_rdata(*msg),
{
    let mut out = Vec::new();
    for rec in msg.answers() {
        match rec.data() {
            Some(rdata) => out.push(format!("{}", rdata)),
            None => {},
        }
    }
    out
}

/// Relies on Record::ttl over the answer, authority and additional sections.
#[verifier::external_body]
pub fn message_ttls(msg: &Message) -> (r: Vec<u32>)
    ensures
        r@ == spec_msg_ttls(*msg),
{
    let mut out = Vec::new();
    for rec in msg.answers() {
        out.push(rec.ttl());
    }
    for rec in msg.name_servers() {
        out.push(rec.ttl());
    }
    for rec in msg.additionals() {
        out.push(rec.ttl());
    }
    out
}

/// Relies on Message::op_code and its 8-bit rendering.
#[verifier::external_body]
pub fn message_opcode(msg: &Message) -> (r: u8)
    ensures
        r == spec_msg_opcode(*msg),
{
    u8::from(msg.op_code())
}

/// Relies on Message::message_type.
#[verifier::external_body]
pub fn message_is_response(msg: &Message) -> (r: bool)
    ensures
        r == spec_msg_is_response(*msg),
{
    msg.message_type() == hickory_proto::op::MessageType::Response
}

/// Relies on Message::authoritative.
#[verifier::external_body]
pub fn message_authoritative(msg: &Message) -> (r: bool)
    ensures
        r == spec_msg_authoritative(*msg),
{
    msg.authoritative()
}

/// Relies on Message::recursion_desired.
#[verifier::external_body]
pub fn message_recursion_desired(msg: &Message) -> (r: bool)
    ensures
        r == spec_msg_recursion_desired(*msg),
{
    msg.recursion_desired()
}

/// Relies on Message::recursion_available.
#[verifier::external_body]
pub fn message_recursion_available(msg: &Message) -> (r: bool)
    ensures
        r == spec_msg_recursion_available(*msg),
{
    msg.recursion_available()
}

/// Relies on Message's derived Clone: the copy equals the original.
#[verifier::external_body]
pub fn clone_message(msg: &Message) -> (r: Message)
    ensures
        r == *msg,
{
    msg.clone()
}

/// Relies on Message and Header setters: a response carrying the request's
/// id, opcode, recursion-desired flag and questions, the given response
/// code, no answers, `authoritative` false and `recursion-available` true.
#[verifier::external_body]
pub fn build_rcode_response(request: &Message, rcode: u16) -> (r: Message)
    requires
        rcode <= 5,
    ensures
        spec_msg_id(r) == spec_msg_id(*request),
        spec_msg_rcode(r) == rcode,
        spec_msg_questions(r) == spec_msg_questions(*request),
        spec_msg_answer_count(r) == 0,
        spec_msg_answer_rdata(r) == Seq::<Seq<char>>::empty(),
        spec_msg_opcode(r) == spec_msg_opcode(*request),
        spec_msg_is_response(r) == true,
        spec_msg_authoritative(r) == false,
        spec_msg_recursion_desired(r) == spec_msg_recursion_desired(*request),
        spec_msg_recursion_available(r) == true,
{
    let mut response = Message::new();
    let mut header = hickory_proto::op::Header::new();
    header.set_id(request.id());
    header.set_message_type(hickory_proto::op::MessageType::Response);
    header.set_op_code(request.op_code());
    header.set_response_code(<hickory_proto::op::ResponseCode as core::convert::From<u16>>::from(rcode));
    header.set_authoritative(false);
    header.set_recursion_desired(request.recursion_desired());
    header.set_recursion_available(true);
    response.set_header(header);
    for query in request.queries() {
        response.add_query(query.clone());
    }
    response
}

// --- verified readings of a message ---

/// The running minimum of the positive TTLs seen so far; `None` while no
/// record has had a positive TTL.
pub open spec fn spec_min_pos_ttl(ttls: Seq<u32>, acc: Option<u32>) -> Option<u32>
    decreases ttls.len(),
{
    if ttls.len() == 0 {
        acc
    } else {
        let next = if ttls[0] > 0 && (acc is None || ttls[0] < acc->0) {
            Some(ttls[0])
        } else {
            acc
        };
        spec_min_pos_ttl(ttls.subrange(1, ttls.len() as int), next)
    }
}

/// The smallest positive record TTL of a response; 300 seconds only when no
/// record carries a positive TTL.
pub open spec fn spec_extract_min_ttl(m: Message) -> u64 {
    match spec_min_pos_ttl(spec_msg_ttls(m), None) {
        Some(v) => v as u64,
        None => 300u64,
    }
}

/// The smallest positive record TTL of `response`, defaulting to 300 when
/// there is none.
pub fn extract_min_ttl(response: &Message) -> (r: u64)
    ensures
        r == spec_extract_min_ttl(*response),
{
    let ttls = message_ttls(response);
    let mut acc: Option<u32> = None;
    let mut i: usize = 0;
    proof {
        assert(ttls@.subrange(0, ttls@.len() as int) =~= ttls@);
    }
    while i < ttls.len()
        invariant
            i <= ttls@.len(),
            ttls@ == spec_msg_ttls(*response),
            spec_min_pos_ttl(spec_msg_ttls(*response), None) == spec_min_pos_ttl(
                ttls@.subrange(i as int, ttls@.len() as int),
                acc,
            ),
        decreases ttls@.len() - i,
    {
        proof {
            let t = ttls@.subrange(i as int, ttls@.len() as int);
            assert(t[0] == ttls@[i as int]);
            assert(t.subrange(1, t.len() as int) =~= ttls@.subrange(i + 1, ttls@.len() as int));
        }
        let ttl = ttls[i];
        let replace = ttl > 0 && match acc {
            Some(m) => ttl < m,
            None => true,
        };
        if replace {
            acc = Some(ttl);
        }
        i += 1;
    }
    proof {
        assert(ttls@.subrange(ttls@.len() as int, ttls@.len() as int) =~= Seq::<u32>::empty());
    }
    match acc {
        Some(v) => v as u64,
        None => 300,
    }
}

/// The answer rdata renderings that look like addresses: those containing a
/// dot or a colon.
pub open spec fn spec_extract_ips(m: Message) -> Seq<Seq<char>> {
    spec_msg_answer_rdata(m).filter(|s: Seq<char>| s.contains('.') || s.contains(':'))
}

/// The IP-shaped answer strings of a response.
pub fn extract_ips_from_response(response: &Message) -> (r: Vec<String>)
    ensures
        r.deep_view() == spec_extract_ips(*response),
{
    broadcast use vstd::seq_lib::group_filter_ensures;

    let all = answer_rdata_strings(response);
    let mut out: Vec<String> = Vec::new();
    let mut i: usize = 0;
    proof {
        assert(all.deep_view().subrange(0, 0) =~= Seq::<Seq<char>>::empty());
        reveal(Seq::filter);
    }
    while i < all.len()
        invariant
            i <= all@.len(),
            all.deep_view() == spec_msg_answer_rdata(*response),
            out.deep_view() == all.deep_view().subrange(0, i as int).filter(
                |s: Seq<char>| s.contains('.') || s.contains(':'),
            ),
        decreases all@.len() - i,
    {
        let ghost prefix = all.deep_view().subrange(0, i as int);
        let ghost old_out = out.deep_view();
        let keep = crate::text::str_contains_char(all[i].as_str(), '.')
            || crate::text::str_contains_char(all[i].as_str(), ':');
        if keep {
            let s = all[i].clone();
            out.push(s);
        }
        proof {
            let pred = |s: Seq<char>| s.contains('.') || s.contains(':');
            assert(prefix.push(all.deep_view()[i as int]) =~= all.deep_view().subrange(0, i + 1));
            Seq::lemma_filter_push(prefix, all.deep_view()[i as int], pred);
            if keep {
                assert(out.deep_view() =~= old_out.push(all.deep_view()[i as int]));
            }
        }
        i += 1;
    }
    proof {
        assert(all.deep_view().subrange(0, all@.len() as int) =~= all.deep_view());
    }
    out
}

} // verus!
