//! DNS messages: what the resolver reads of them, and the responses it writes
//! itself.

use hickory_proto::op::{Message, OpCode, Query};
use hickory_proto::rr::rdata::A;
use hickory_proto::rr::{Name, RData, Record};
use vstd::prelude::*;

use crate::octets::{be16, be32, from_be16, lemma_be16, lemma_from_be16};

verus! {

/// The record type of an IPv4 address.
pub const TYPE_A: u16 = 1;

/// The internet class.
pub const CLASS_IN: u16 = 1;

/// The length of a message's header.
pub const HEADER_LEN: usize = 12;

/// A question. `labels` is the name as the message spells it, `name` the same name
/// in presentation format.
pub struct Question {
    pub labels: Vec<Vec<u8>>,
    pub name: String,
    pub qtype: u16,
    pub qclass: u16,
}

#[verifier::ext_equal]
pub struct QuestionView {
    pub labels: Seq<Seq<u8>>,
    pub name: Seq<char>,
    pub qtype: u16,
    pub qclass: u16,
}

impl View for Question {
    type V = QuestionView;

    open spec fn view(&self) -> QuestionView {
        QuestionView {
            labels: self.labels@.map_values(|l: Vec<u8>| l@),
            name: self.name@,
            qtype: self.qtype,
            qclass: self.qclass,
        }
    }
}

/// What the resolver reads of a message to answer it, or to find out what it answers.
pub struct DecodedMessage {
    pub id: u16,
    pub op_code: u8,
    pub recursion_desired: bool,
    pub questions: Vec<Question>,
}

#[verifier::ext_equal]
pub struct MessageView {
    pub id: u16,
    pub op_code: u8,
    pub recursion_desired: bool,
    pub questions: Seq<QuestionView>,
}

impl View for DecodedMessage {
    type V = MessageView;

    open spec fn view(&self) -> MessageView {
        MessageView {
            id: self.id,
            op_code: self.op_code,
            recursion_desired: self.recursion_desired,
            questions: self.questions@.map_values(|q: Question| q@),
        }
    }
}

/// A record of the authority section: its time to live and, if it is an SOA, the
/// zone's time to live for negative answers.
#[derive(Clone, Copy)]
pub struct Authority {
    pub ttl: u32,
    pub soa_minimum: Option<u32>,
}

/// What the resolver reads of a response to find out for how long it is valid.
pub struct RecordTtls {
    pub response_code: u16,
    pub answers: Vec<u32>,
    pub authorities: Vec<Authority>,
}

#[verifier::ext_equal]
pub struct TtlsView {
    pub response_code: u16,
    pub answers: Seq<u32>,
    pub authorities: Seq<Authority>,
}

impl View for RecordTtls {
    type V = TtlsView;

    open spec fn view(&self) -> TtlsView {
        TtlsView {
            response_code: self.response_code,
            answers: self.answers@,
            authorities: self.authorities@,
        }
    }
}

/// The wire format of a name: each label behind its length, and a zero at the end.
pub open spec fn name_wire(labels: Seq<Seq<u8>>) -> Seq<u8>
    decreases labels.len(),
{
    if labels.len() == 0 {
        seq![0u8]
    } else {
        seq![labels[0].len() as u8] + labels[0] + name_wire(labels.drop_first())
    }
}

/// Labels that make up a name: of 1 to 63 bytes each, and 255 in wire format.
pub open spec fn labels_ok(labels: Seq<Seq<u8>>) -> bool {
    &&& forall|i: int| 0 <= i < labels.len() ==> 1 <= (#[trigger] labels[i]).len() <= 63
    &&& name_wire(labels).len() <= 255
}

/// What `hickory_proto` reads out of a message's bytes, or the text of its error.
pub uninterp spec fn decoded_message(raw: Seq<u8>) -> Result<(MessageView, TtlsView), Seq<char>>;

/// What a message is read to be, but for how long it is valid.
pub open spec fn message_in(raw: Seq<u8>) -> Result<MessageView, Seq<char>> {
    match decoded_message(raw) {
        Ok(m) => Ok(m.0),
        Err(e) => Err(e),
    }
}

/// Whether a message could be what `raw` was decoded to: its header fields are
/// where the wire format has them, its questions are as many as the header says,
/// and their names are valid ones, with a dot at the end.
pub open spec fn message_of(m: MessageView, raw: Seq<u8>) -> bool {
    &&& raw.len() >= HEADER_LEN
    &&& m.id == from_be16(raw[0], raw[1])
    &&& m.op_code == raw[2] / 8 % 16
    &&& m.recursion_desired == (raw[2] % 2 == 1)
    &&& m.questions.len() == from_be16(raw[4], raw[5])
    &&& forall|i: int| #![trigger m.questions[i]] 0 <= i < m.questions.len() ==> {
        &&& labels_ok(m.questions[i].labels)
        &&& m.questions[i].name.len() > 0
        &&& m.questions[i].name.last() == '.'
    }
}

/// `Message::from_vec` of `hickory_proto` reads a message. Header fields and
/// questions are as in `message_of`; what else is read, and when reading fails,
/// has no short statement and goes by a name. `Name::to_ascii` gives the
/// presentation format, and the error is handed on as its text.
#[verifier::external_body]
pub(crate) fn decode_message(raw: &[u8]) -> (r: Result<DecodedMessage, String>)
    ensures
        match r {
            Ok(m) => message_in(raw@) == Ok::<MessageView, Seq<char>>(m@) && message_of(m@, raw@),
            Err(e) => message_in(raw@) == Err::<MessageView, Seq<char>>(e@),
        },
{
    let m = Message::from_vec(raw).map_err(|e| e.to_string())?;
    let question = |q: &Query| Question {
        labels: q.name.iter().map(|l| l.to_vec()).collect(),
        name: q.name.to_ascii(),
        qtype: q.query_type.into(),
        qclass: q.query_class.into(),
    };
    Ok(DecodedMessage {
        id: m.metadata.id,
        op_code: m.metadata.op_code.into(),
        recursion_desired: m.metadata.recursion_desired,
        questions: m.queries.iter().map(question).collect() })
}

/// `Message::from_vec` of `hickory_proto` reads a message: here, its response code,
/// the times to live of its answers, and its authority section. They go by the same
/// name as the rest of what is read.
#[verifier::external_body]
pub(crate) fn decode_ttls(raw: &[u8]) -> (r: Result<RecordTtls, String>)
    ensures
        match r {
            Ok(t) => decoded_message(raw@) is Ok && decoded_message(raw@)->Ok_0.1 == t@,
            Err(_) => decoded_message(raw@) is Err,
        },
{
    let m = Message::from_vec(raw).map_err(|e| e.to_string())?;
    let minimum = |d: &RData| match d {
        RData::SOA(soa) => Some(soa.minimum),
        _ => None,
    };
    let authority = |r: &Record| Authority { ttl: r.ttl, soa_minimum: minimum(&r.data) };
    Ok(RecordTtls {
        response_code: m.metadata.response_code.into(),
        answers: m.answers.iter().map(|r| r.ttl).collect(),
        authorities: m.authorities.iter().map(authority).collect(),
    })
}

/// An IPv4 address record for the name that was asked for.
#[derive(Clone, Copy)]
pub struct Answer {
    pub ttl: u32,
    pub ip: [u8; 4],
}

pub const NO_ERROR: u16 = 0;

pub const FORM_ERR: u16 = 1;

pub const SERV_FAIL: u16 = 2;

pub const NX_DOMAIN: u16 = 3;

/// A response that the resolver makes up itself.
pub struct Response<'a> {
    pub id: u16,
    pub op_code: u8,
    pub recursion_desired: bool,
    pub recursion_available: bool,
    pub response_code: u16,
    pub question: &'a Question,
    pub answer: Option<Answer>,
}

/// The header of a response: the id, the flags, and the number of questions and
/// answers.
pub open spec fn header_wire(
    id: u16,
    op_code: u8,
    recursion_desired: bool,
    recursion_available: bool,
    response_code: u16,
    questions: u16,
    answers: u16,
) -> Seq<u8> {
    be16(id) + seq![
        (128 + op_code * 8 + if recursion_desired {
            1int
        } else {
            0
        }) as u8,
        (if recursion_available {
            128int
        } else {
            0
        } + response_code) as u8,
    ] + be16(questions) + be16(answers) + be16(0) + be16(0)
}

/// An error response: a header with nothing behind it.
pub open spec fn error_wire(id: u16, op_code: u8, response_code: u16) -> Seq<u8> {
    header_wire(id, op_code, false, false, response_code, 0, 0)
}

pub open spec fn question_wire(question: QuestionView) -> Seq<u8> {
    name_wire(question.labels) + be16(question.qtype) + be16(question.qclass)
}

/// An address record. Its name is the one in the question, and so a pointer to
/// there, unless it is the root, which is shorter than a pointer.
pub open spec fn answer_wire(question: QuestionView, answer: Answer) -> Seq<u8> {
    (if question.labels.len() == 0 {
        seq![0u8]
    } else {
        seq![0xC0u8, 12u8]
    }) + be16(TYPE_A) + be16(CLASS_IN) + be32(answer.ttl) + be16(4) + answer.ip@
}

pub open spec fn response_wire(
    id: u16,
    op_code: u8,
    recursion_desired: bool,
    recursion_available: bool,
    response_code: u16,
    question: QuestionView,
    answer: Option<Answer>,
) -> Seq<u8> {
    match answer {
        None => header_wire(
            id,
            op_code,
            recursion_desired,
            recursion_available,
            response_code,
            1,
            0,
        ) + question_wire(question),
        Some(a) => header_wire(
            id,
            op_code,
            recursion_desired,
            recursion_available,
            response_code,
            1,
            1,
        ) + question_wire(question) + answer_wire(question, a),
    }
}

impl<'a> Response<'a> {
    pub open spec fn wf(&self) -> bool {
        self.op_code < 16 && self.response_code < 16 && labels_ok(self.question@.labels)
    }

    /// The response as it goes over the wire.
    pub open spec fn wire(&self) -> Seq<u8> {
        response_wire(
            self.id,
            self.op_code,
            self.recursion_desired,
            self.recursion_available,
            self.response_code,
            self.question@,
            self.answer,
        )
    }
}

/// `Message::to_vec` of `hickory_proto` on a response with one question and at
/// most one address record: it always succeeds, and what it writes is
/// `Response::wire`.
#[verifier::external_body]
fn encode_response(r: &Response) -> (w: Option<Vec<u8>>)
    requires
        r.wf(),
    ensures
        w is Some,
        w->0@ == r.wire(),
{
    let name = Name::from_labels(r.question.labels.clone()).ok()?;
    let mut m = Message::response(r.id, OpCode::from_u8(r.op_code));
    m.metadata.recursion_desired = r.recursion_desired;
    m.metadata.recursion_available = r.recursion_available;
    m.metadata.response_code = r.response_code.into();
    m.add_answers(r.answer.iter().map(|a| {
        Record::from_rdata(name.clone(), a.ttl, RData::A(A(a.ip.into())))
    }));
    let mut query = Query::query(name, r.question.qtype.into());
    query.set_query_class(r.question.qclass.into());
    m.add_query(query);
    m.to_vec().ok()
}

/// `Message::to_vec` of `hickory_proto` on what `Message::error_msg` makes, a
/// header with an error code and nothing else: it always succeeds, and what it
/// writes is `error_wire`.
#[verifier::external_body]
fn encode_error(id: u16, op_code: u8, response_code: u16) -> (w: Option<Vec<u8>>)
    requires
        op_code < 16,
        response_code < 16,
    ensures
        w is Some,
        w->0@ == error_wire(id, op_code, response_code),
{
    Message::error_msg(id, OpCode::from_u8(op_code), response_code.into()).to_vec().ok()
}

/// An error response.
pub fn error_response(id: u16, op_code: u8, response_code: u16) -> (r: Vec<u8>)
    requires
        op_code < 16,
        response_code < 16,
    ensures
        r@ == error_wire(id, op_code, response_code),
{
    match encode_error(id, op_code, response_code) {
        Some(wire) => wire,
        None => Vec::new(),
    }
}

/// The response's bytes, or a SERVFAIL if they cannot be written.
pub fn encode_or_servfail(response: &Response) -> (r: Vec<u8>)
    requires
        response.wf(),
    ensures
        r@ == response.wire(),
{
    match encode_response(response) {
        Some(wire) => wire,
        None => error_response(response.id, response.op_code, SERV_FAIL),
    }
}

/// What `hickory_proto` writes for the message that it reads out of `raw`, or the
/// text of its error.
pub uninterp spec fn reencoded_message(raw: Seq<u8>) -> Result<Seq<u8>, Seq<char>>;

/// `Message::to_vec` of `hickory_proto` on what `Message::from_vec` reads. A name
/// stands for the result. It is no longer than 65535 bytes, and begins with the
/// same id as `raw`. What cannot be read cannot be written.
#[verifier::external_body]
pub(crate) fn reencode_message(raw: &[u8]) -> (r: Result<Vec<u8>, String>)
    ensures
        match r {
            Ok(w) => {
                &&& reencoded_message(raw@) == Ok::<Seq<u8>, Seq<char>>(w@)
                &&& decoded_message(raw@) is Ok
                &&& HEADER_LEN <= w@.len() <= 65535
                &&& raw@.len() >= HEADER_LEN
                &&& w@[0] == raw@[0]
                &&& w@[1] == raw@[1]
            },
            Err(e) => reencoded_message(raw@) == Err::<Seq<u8>, Seq<char>>(e@),
        },
{
    Message::from_vec(raw).map_err(|e| e.to_string())?.to_vec().map_err(|e| e.to_string())
}

/// `wire` with the id replaced, if it is long enough to have one.
pub open spec fn with_id(wire: Seq<u8>, id: u16) -> Seq<u8> {
    if wire.len() >= 2 {
        be16(id) + wire.skip(2)
    } else {
        wire
    }
}

/// Replaces the id of a message.
pub fn set_id(wire: &mut Vec<u8>, id: u16)
    ensures
        final(wire)@ == with_id(old(wire)@, id),
{
    if wire.len() >= 2 {
        wire.set(0, (id / 256) as u8);
        wire.set(1, (id % 256) as u8);
        assert(wire@ =~= be16(id) + old(wire)@.skip(2));
    }
}

/// The id in the first two bytes of a message, or 0 if there are none.
pub open spec fn id_of(raw: Seq<u8>) -> u16 {
    if raw.len() >= 2 {
        from_be16(raw[0], raw[1])
    } else {
        0
    }
}

pub fn raw_id(raw: &[u8]) -> (r: u16)
    ensures
        r == id_of(raw@),
{
    if raw.len() >= 2 {
        raw[0] as u16 * 256 + raw[1] as u16
    } else {
        0
    }
}

/// The message's id is replaced, and nothing else.
pub proof fn law_set_id(wire: Seq<u8>, id: u16, other: u16)
    requires
        wire.len() >= 2,
    ensures
        id_of(with_id(wire, id)) == id,
        with_id(wire, id).skip(2) == wire.skip(2),
        with_id(with_id(wire, other), id) == with_id(wire, id),
        with_id(wire, id_of(wire)) == wire,
{
    lemma_be16(id);
    lemma_from_be16(wire[0], wire[1]);
    assert(with_id(wire, id).skip(2) =~= wire.skip(2));
    assert(with_id(with_id(wire, other), id) =~= with_id(wire, id));
    assert(with_id(wire, id_of(wire)) =~= wire);
}

/// An ASCII capital letter as a small one, any other byte as it is.
pub open spec fn lower_byte(b: u8) -> u8 {
    if 65 <= b <= 90 {
        (b + 32) as u8
    } else {
        b
    }
}

/// Two labels are the same but for the case of ASCII letters.
pub open spec fn same_label(a: Seq<u8>, b: Seq<u8>) -> bool {
    a.map_values(|c: u8| lower_byte(c)) == b.map_values(|c: u8| lower_byte(c))
}

/// Two names are the same: label by label, but for the case of ASCII letters.
pub open spec fn same_name(a: Seq<Seq<u8>>, b: Seq<Seq<u8>>) -> bool {
    a.len() == b.len() && forall|i: int| 0 <= i < a.len() ==> #[trigger] same_label(a[i], b[i])
}

/// Two questions ask the same.
pub open spec fn same_question(a: QuestionView, b: QuestionView) -> bool {
    same_name(a.labels, b.labels) && a.qtype == b.qtype && a.qclass == b.qclass
}

pub open spec fn same_questions(a: Seq<QuestionView>, b: Seq<QuestionView>) -> bool {
    a.len() == b.len() && forall|i: int| 0 <= i < a.len() ==> #[trigger] same_question(a[i], b[i])
}

fn to_lower_byte(b: u8) -> (r: u8)
    ensures
        r == lower_byte(b),
{
    if 65 <= b && b <= 90 {
        b + 32
    } else {
        b
    }
}

fn labels_match(a: &Vec<u8>, b: &Vec<u8>) -> (r: bool)
    ensures
        r == same_label(a@, b@),
{
    let n: usize = a.len();
    let ghost la = a@.map_values(|c: u8| lower_byte(c));
    let ghost lb = b@.map_values(|c: u8| lower_byte(c));
    if n != b.len() {
        assert(la.len() != lb.len());
        return false;
    }
    let mut i: usize = 0;
    while i < n
        invariant
            i <= n,
            n == a@.len(),
            n == b@.len(),
            la == a@.map_values(|c: u8| lower_byte(c)),
            lb == b@.map_values(|c: u8| lower_byte(c)),
            forall|j: int| 0 <= j < i ==> la[j] == lb[j],
        decreases n - i,
    {
        if to_lower_byte(a[i]) != to_lower_byte(b[i]) {
            assert(la[i as int] != lb[i as int]);
            return false;
        }
        i = i + 1;
    }
    assert(la =~= lb);
    true
}

impl Question {
    /// Whether the two ask the same.
    pub fn matches(&self, other: &Question) -> (r: bool)
        ensures
            r == same_question(self@, other@),
    {
        let n: usize = self.labels.len();
        if n != other.labels.len() || self.qtype != other.qtype || self.qclass != other.qclass {
            return false;
        }
        let mut i: usize = 0;
        while i < n
            invariant
                i <= n,
                n == self.labels@.len(),
                n == other.labels@.len(),
                self.qtype == other.qtype,
                self.qclass == other.qclass,
                forall|j: int|
                    0 <= j < i ==> #[trigger] same_label(self@.labels[j], other@.labels[j]),
            decreases n - i,
        {
            if !labels_match(&self.labels[i], &other.labels[i]) {
                assert(!same_label(self@.labels[i as int], other@.labels[i as int]));
                return false;
            }
            i = i + 1;
        }
        true
    }
}

/// Whether two lists of questions ask the same.
pub fn questions_match(a: &Vec<Question>, b: &Vec<Question>) -> (r: bool)
    ensures
        r == same_questions(
            a@.map_values(|q: Question| q@),
            b@.map_values(|q: Question| q@),
        ),
{
    let ghost va = a@.map_values(|q: Question| q@);
    let ghost vb = b@.map_values(|q: Question| q@);
    let n: usize = a.len();
    if n != b.len() {
        return false;
    }
    let mut i: usize = 0;
    while i < n
        invariant
            i <= n,
            n == a@.len(),
            n == b@.len(),
            va == a@.map_values(|q: Question| q@),
            vb == b@.map_values(|q: Question| q@),
            forall|j: int| 0 <= j < i ==> #[trigger] same_question(va[j], vb[j]),
        decreases n - i,
    {
        if !a[i].matches(&b[i]) {
            assert(!same_question(va[i as int], vb[i as int]));
            return false;
        }
        i = i + 1;
    }
    true
}

/// Something too short to have an id is left as it is.
pub proof fn law_short_messages_have_no_id(wire: Seq<u8>, id: u16)
    requires
        wire.len() < 2,
    ensures
        with_id(wire, id) == wire,
        id_of(wire) == 0,
{
}

} // verus!
