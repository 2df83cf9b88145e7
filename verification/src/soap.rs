use vstd::prelude::*;
use vstd::slice::slice_subrange;
use vstd::string::StringExecFns;

use quick_xml::events::Event;
use quick_xml::Reader;

use crate::protocols::{protocol_response, response_text};
use crate::text::{bytes_equal, utf8_text};

verus! {

/// The part of a qualified XML name after its last `:`; the whole name when it has
/// no `:`.
pub open spec fn local_part(name: Seq<u8>) -> Seq<u8>
    decreases name.len(),
{
    if name.len() == 0 {
        Seq::empty()
    } else if name.last() == 58 {
        Seq::empty()
    } else {
        local_part(name.drop_last()).push(name.last())
    }
}

/// When no `:` follows position `j`, the local part is the local part of the first `j`
/// bytes followed by the rest.
pub proof fn lemma_local_part_suffix(s: Seq<u8>, j: int)
    requires
        0 <= j <= s.len(),
        forall|k: int| j <= k < s.len() ==> s[k] != 58,
    ensures
        local_part(s) == local_part(s.take(j)) + s.skip(j),
    decreases s.len(),
{
    if j == s.len() {
        assert(s.take(j) =~= s);
        assert(s.skip(j) =~= Seq::<u8>::empty());
        assert(local_part(s) + Seq::<u8>::empty() =~= local_part(s));
    } else {
        let init = s.drop_last();
        assert(forall|k: int| j <= k < init.len() ==> init[k] == s[k]);
        lemma_local_part_suffix(init, j);
        assert(init.take(j) =~= s.take(j));
        assert(s.skip(j) =~= init.skip(j).push(s.last()));
        assert(local_part(s) == local_part(init).push(s.last()));
        assert((local_part(init.take(j)) + init.skip(j)).push(s.last()) =~= local_part(
            init.take(j),
        ) + init.skip(j).push(s.last()));
    }
}

/// The local part of a qualified XML name: what follows its last `:`.
pub fn local_name(name: &[u8]) -> (r: &[u8])
    ensures
        r@ == local_part(name@),
{
    let n = name.len();
    let mut j: usize = n;
    while j > 0 && name[j - 1] != 58u8
        invariant
            j <= n,
            n == name@.len(),
            forall|k: int| j <= k < n ==> name@[k] != 58,
        decreases j,
    {
        j = j - 1;
    }
    proof {
        lemma_local_part_suffix(name@, j as int);
        if j == 0 {
            assert(name@.take(0) =~= Seq::<u8>::empty());
        } else {
            assert(name@.take(j as int).last() == 58);
        }
        assert(name@.skip(j as int) =~= name@.subrange(j as int, n as int));
        assert(Seq::<u8>::empty() + name@.skip(j as int) =~= name@.skip(j as int));
    }
    slice_subrange(name, j, n)
}

/// The XML text before the message in an acknowledgement.
pub const ACK_PREFIX: &'static str = "<?xml version=\"1.0\" encoding=\"UTF-8\"?>\n<soap:Envelope xmlns:soap=\"http://schemas.xmlsoap.org/soap/envelope/\">\n  <soap:Body>\n    <PingResponse>\n      <Message>";

/// The XML text after the message in an acknowledgement.
pub const ACK_SUFFIX: &'static str = "</Message>\n    </PingResponse>\n  </soap:Body>\n</soap:Envelope>";

/// A SOAP envelope whose body is a `PingResponse` holding `message`, inserted as it is.
pub open spec fn acknowledgement_text(message: Seq<char>) -> Seq<char> {
    ACK_PREFIX@ + message + ACK_SUFFIX@
}

/// Builds the SOAP envelope that acknowledges a ping with `message`.
pub fn acknowledgement(message: String) -> (r: String)
    ensures
        r@ == acknowledgement_text(message@),
{
    let mut text = String::from_str(ACK_PREFIX);
    text.append(message.as_str());
    text.append(ACK_SUFFIX);
    text
}


/// `Envelope`.
pub open spec fn envelope_name() -> Seq<u8> {
    seq![69u8, 110u8, 118u8, 101u8, 108u8, 111u8, 112u8, 101u8]
}

/// `Body`.
pub open spec fn body_name() -> Seq<u8> {
    seq![66u8, 111u8, 100u8, 121u8]
}

/// `PingRequest`.
pub open spec fn ping_request_name() -> Seq<u8> {
    seq![80u8, 105u8, 110u8, 103u8, 82u8, 101u8, 113u8, 117u8, 101u8, 115u8, 116u8]
}

/// `Message`.
pub open spec fn message_name() -> Seq<u8> {
    seq![77u8, 101u8, 115u8, 115u8, 97u8, 103u8, 101u8]
}

/// One event read from an XML reader: element names as raw bytes, text content as its
/// raw (still escaped) bytes.
pub enum XmlEvent {
    Start(Vec<u8>),
    End(Vec<u8>),
    Text(Vec<u8>),
    Eof,
    Failed,
    Other,
}

/// Where the ping scan stands: which of `Envelope`, `Body`, `PingRequest` and
/// `Message` it is inside of, and the message text gathered so far.
pub struct PingModel {
    pub envelope: bool,
    pub soap_body: bool,
    pub ping_request: bool,
    pub message: bool,
    pub payload: Seq<char>,
}

/// What one event does to the ping scan: it goes on in a new state, or it ends with a
/// result.
pub enum PingStep {
    Continue(PingModel),
    Finish(Option<Seq<char>>),
}

/// The state before any event.
pub open spec fn initial_model() -> PingModel {
    PingModel {
        envelope: false,
        soap_body: false,
        ping_request: false,
        message: false,
        payload: Seq::empty(),
    }
}

/// The result when the scan ends normally: the gathered message text when an envelope
/// and a ping request were seen, `None` otherwise.
pub open spec fn final_payload(st: PingModel) -> Option<Seq<char>> {
    if st.envelope && st.ping_request {
        Some(st.payload)
    } else {
        None
    }
}

/// One step of the ping scan. A start tag named (locally) `Envelope` enters the
/// envelope; `Body` inside an envelope enters the body; `PingRequest` inside a body
/// enters the request; `Message` inside a request enters the message. An end tag
/// `Body` or `Message` leaves it, `Envelope` ends the scan. Text inside a message is
/// gathered; text that cannot be decoded or unescaped ends the scan with `None`, as does a reader
/// error. The end of input ends the scan.
pub open spec fn ping_step(st: PingModel, input: XmlEvent) -> PingStep {
    match input {
        XmlEvent::Start(name) => {
            let n = local_part(name@);
            if n == envelope_name() {
                PingStep::Continue(PingModel { envelope: true, ..st })
            } else if n == body_name() && st.envelope {
                PingStep::Continue(PingModel { soap_body: true, ..st })
            } else if n == ping_request_name() && st.soap_body {
                PingStep::Continue(PingModel { ping_request: true, ..st })
            } else if n == message_name() && st.ping_request {
                PingStep::Continue(PingModel { message: true, ..st })
            } else {
                PingStep::Continue(st)
            }
        },
        XmlEvent::End(name) => {
            let n = local_part(name@);
            if n == body_name() {
                PingStep::Continue(PingModel { soap_body: false, ..st })
            } else if n == message_name() {
                PingStep::Continue(PingModel { message: false, ..st })
            } else if n == envelope_name() {
                PingStep::Finish(final_payload(st))
            } else {
                PingStep::Continue(st)
            }
        },
        XmlEvent::Text(raw) => {
            if st.message {
                match decoded_text(raw@) {
                    Some(t) => PingStep::Continue(PingModel { payload: st.payload + t, ..st }),
                    None => PingStep::Finish(None),
                }
            } else {
                PingStep::Continue(st)
            }
        },
        XmlEvent::Eof => PingStep::Finish(final_payload(st)),
        XmlEvent::Failed => PingStep::Finish(None),
        XmlEvent::Other => PingStep::Continue(st),
    }
}

/// The result of the ping scan from `st` over `events`; running out of events counts as
/// the end of input.
pub open spec fn ping_outcome(st: PingModel, events: Seq<XmlEvent>) -> Option<Seq<char>>
    decreases events.len(),
{
    if events.len() == 0 {
        final_payload(st)
    } else {
        match ping_step(st, events[0]) {
            PingStep::Finish(result) => result,
            PingStep::Continue(next) => ping_outcome(next, events.drop_first()),
        }
    }
}

/// The text of an optional string.
pub open spec fn string_view(s: Option<String>) -> Option<Seq<char>> {
    match s {
        Some(t) => Some(t@),
        None => None,
    }
}

/// Whether `input` is a text event whose content is well-formed UTF-8 holding no `&`.
pub open spec fn is_plain_text(input: XmlEvent) -> bool {
    match input {
        XmlEvent::Text(raw) => vstd::utf8::valid_utf8(raw@) && !raw@.contains(38u8),
        _ => false,
    }
}

/// The raw content of a text event.
pub open spec fn text_bytes(input: XmlEvent) -> Seq<u8> {
    match input {
        XmlEvent::Text(raw) => raw@,
        _ => Seq::empty(),
    }
}

/// `st` with `text` added to the gathered message text.
pub open spec fn with_text(st: PingModel, text: Seq<char>) -> PingModel {
    PingModel { payload: st.payload + text, ..st }
}

/// The running state of the ping scan.
pub struct PingScan {
    pub envelope: bool,
    pub soap_body: bool,
    pub ping_request: bool,
    pub message: bool,
    pub payload: String,
}

impl View for PingScan {
    type V = PingModel;

    open spec fn view(&self) -> PingModel {
        PingModel {
            envelope: self.envelope,
            soap_body: self.soap_body,
            ping_request: self.ping_request,
            message: self.message,
            payload: self.payload@,
        }
    }
}

impl PingScan {
    /// A scan that has seen nothing yet.
    pub fn new() -> (r: PingScan)
        ensures
            r@ == initial_model(),
    {
        PingScan {
            envelope: false,
            soap_body: false,
            ping_request: false,
            message: false,
            payload: String::new(),
        }
    }

    /// The result of a scan that ends here normally.
    pub fn finish(self) -> (r: Option<String>)
        ensures
            string_view(r) == final_payload(self@),
    {
        if self.envelope && self.ping_request {
            Some(self.payload)
        } else {
            None
        }
    }

    /// Feeds one event to the scan: `None` when the scan goes on, `Some(result)` when it
    /// has ended.
    pub fn step(&mut self, input: &XmlEvent) -> (r: Option<Option<String>>)
        ensures
            match ping_step(old(self)@, *input) {
                PingStep::Continue(next) => r is None && final(self)@ == next,
                PingStep::Finish(result) => r matches Some(o) && string_view(o) == result,
            },
            old(self).message && is_plain_text(*input) ==> r is None && final(self)@
                == with_text(old(self)@, vstd::utf8::decode_utf8(text_bytes(*input))),
    {
        let envelope: Vec<u8> = vec![69u8, 110u8, 118u8, 101u8, 108u8, 111u8, 112u8, 101u8];
        let body: Vec<u8> = vec![66u8, 111u8, 100u8, 121u8];
        let ping_request: Vec<u8> = vec![
            80u8, 105u8, 110u8, 103u8, 82u8, 101u8, 113u8, 117u8, 101u8, 115u8, 116u8,
        ];
        let message: Vec<u8> = vec![77u8, 101u8, 115u8, 115u8, 97u8, 103u8, 101u8];
        assert(envelope@ =~= envelope_name());
        assert(body@ =~= body_name());
        assert(ping_request@ =~= ping_request_name());
        assert(message@ =~= message_name());
        match input {
            XmlEvent::Start(name) => {
                let n = local_name(name.as_slice());
                if bytes_equal(n, envelope.as_slice()) {
                    self.envelope = true;
                } else if bytes_equal(n, body.as_slice()) && self.envelope {
                    self.soap_body = true;
                } else if bytes_equal(n, ping_request.as_slice()) && self.soap_body {
                    self.ping_request = true;
                } else if bytes_equal(n, message.as_slice()) && self.ping_request {
                    self.message = true;
                }
                None
            },
            XmlEvent::End(name) => {
                let n = local_name(name.as_slice());
                if bytes_equal(n, body.as_slice()) {
                    self.soap_body = false;
                    None
                } else if bytes_equal(n, message.as_slice()) {
                    self.message = false;
                    None
                } else if bytes_equal(n, envelope.as_slice()) {
                    Some(self.result_now())
                } else {
                    None
                }
            },
            XmlEvent::Text(raw) => {
                if self.message {
                    match decode_text(raw.as_slice()) {
                        Some(t) => {
                            self.payload.append(t.as_str());
                            None
                        },
                        None => Some(None),
                    }
                } else {
                    None
                }
            },
            XmlEvent::Eof => Some(self.result_now()),
            XmlEvent::Failed => Some(None),
            XmlEvent::Other => None,
        }
    }

    /// The result of a scan that ends here normally, leaving the scan as it is.
    fn result_now(&self) -> (r: Option<String>)
        ensures
            string_view(r) == final_payload(self@),
    {
        if self.envelope && self.ping_request {
            Some(self.payload.clone())
        } else {
            None
        }
    }
}

/// The payload of a SOAP ping request, given the XML events of the request in order
/// (ending the scan at the end of the list if no event ended it before).
pub fn ping_payload_of(events: &Vec<XmlEvent>) -> (r: Option<String>)
    ensures
        string_view(r) == ping_outcome(initial_model(), events@),
{
    let mut scan = PingScan::new();
    let n = events.len();
    let mut i: usize = 0;
    assert(events@.skip(0) =~= events@);
    while i < n
        invariant
            i <= n,
            n == events@.len(),
            ping_outcome(initial_model(), events@) == ping_outcome(scan@, events@.skip(i as int)),
        decreases n - i,
    {
        assert(events@.skip(i as int)[0] == events@[i as int]);
        assert(events@.skip(i as int).drop_first() =~= events@.skip(i + 1));
        match scan.step(&events[i]) {
            Some(result) => {
                return result;
            },
            None => {},
        }
        i = i + 1;
    }
    assert(events@.skip(n as int) =~= Seq::<XmlEvent>::empty());
    scan.finish()
}


#[verifier::external_type_specification]
#[verifier::external_body]
#[verifier::reject_recursive_types(R)]
pub struct ExXmlReader<R>(quick_xml::Reader<R>);

/// The event that the `(index + 1)`-th read of a quick-xml reader over `body`, with
/// text trimming turned on before the first read, yields, converted as `read_xml_event`
/// converts it. Reading is deterministic: the events depend on `body` alone.
pub uninterp spec fn xml_event(body: Seq<u8>, index: nat) -> XmlEvent;

/// The first `n` events that a trimming reader yields for `body`.
pub open spec fn body_events(body: Seq<u8>, n: nat) -> Seq<XmlEvent> {
    Seq::new(n, |i: int| xml_event(body, i as nat))
}

/// A quick-xml reader over a byte slice, with the bytes it reads, whether text trimming
/// was turned on before any read, and how many events it has yielded. Only the wrappers
/// below create or advance it.
pub struct XmlCursor<'a> {
    reader: Reader<&'a [u8]>,
    body: Ghost<Seq<u8>>,
    trimmed: Ghost<bool>,
    reads: Ghost<nat>,
}

impl<'a> XmlCursor<'a> {
    /// The bytes the reader reads.
    pub closed spec fn body(&self) -> Seq<u8> {
        self.body@
    }

    /// Whether text trimming was turned on before the first read.
    pub closed spec fn trimmed(&self) -> bool {
        self.trimmed@
    }

    /// How many events the reader has yielded.
    pub closed spec fn reads(&self) -> nat {
        self.reads@
    }
}

/// Whether an event ends the document: the end of input, or a reading error.
pub open spec fn is_document_end(e: XmlEvent) -> bool {
    e is Eof || e is Failed
}

/// Wraps `Reader::from_reader`: a reader over `body` that has read nothing yet, with
/// the default configuration (no trimming). As its source shows, every event that it
/// yields before the end of input or an error consumes at least one byte of `body`, so
/// within `body.len() + 1` reads it reaches the end of input or an error.
#[verifier::external_body]
fn open_xml<'a>(body: &'a [u8]) -> (c: XmlCursor<'a>)
    ensures
        c.body() == body@,
        !c.trimmed(),
        c.reads() == 0,
        exists|i: nat| i <= c.body().len() && is_document_end(#[trigger] xml_event(c.body(), i)),
{
    XmlCursor { reader: Reader::from_reader(body), body: Ghost(body@), trimmed: Ghost(false), reads: Ghost(0) }
}

/// Wraps `Config::trim_text(true)` on the reader's `config_mut()`: turns on the
/// trimming of white space around text, before anything is read.
#[verifier::external_body]
fn trim_text(cursor: &mut XmlCursor)
    requires
        old(cursor).reads() == 0,
    ensures
        final(cursor).body() == old(cursor).body(),
        final(cursor).reads() == 0,
        final(cursor).trimmed(),
{
    cursor.reader.config_mut().trim_text(true);
    cursor.trimmed = Ghost(true);
}

/// Wraps `Reader::read_event_into`: the next event of the document, with start and end
/// tags reduced to their names, text to its raw content, and a reading error to
/// `Failed`; it is the event named by `xml_event` for this read.
#[verifier::external_body]
fn read_xml_event(cursor: &mut XmlCursor) -> (r: XmlEvent)
    requires
        old(cursor).trimmed(),
    ensures
        r == xml_event(old(cursor).body(), old(cursor).reads()),
        final(cursor).body() == old(cursor).body(),
        final(cursor).trimmed(),
        final(cursor).reads() == old(cursor).reads() + 1,
{
    let mut buffer = Vec::new();
    let event = match cursor.reader.read_event_into(&mut buffer) {
        Ok(Event::Start(e)) => XmlEvent::Start(e.name().as_ref().to_vec()),
        Ok(Event::End(e)) => XmlEvent::End(e.name().as_ref().to_vec()),
        Ok(Event::Text(e)) => XmlEvent::Text(e.into_inner().into_owned()),
        Ok(Event::Eof) => XmlEvent::Eof,
        Ok(_) => XmlEvent::Other,
        Err(_) => XmlEvent::Failed,
    };
    cursor.reads = Ghost(cursor.reads@ + 1);
    event
}

/// What `quick_xml::escape::unescape` gives for `raw`: the text with its entity and
/// character references replaced, or `None` when a reference is malformed or unknown.
pub uninterp spec fn xml_unescaped(raw: Seq<char>) -> Option<Seq<char>>;

/// Wraps `quick_xml::escape::unescape`. Its result is named by `xml_unescaped`; as its
/// source shows, text without any `&` comes back unchanged.
#[verifier::external_body]
fn unescape_text(raw: &str) -> (r: Option<String>)
    ensures
        string_view(r) == xml_unescaped(raw@),
        !raw@.contains('&') ==> string_view(r) == Some(raw@),
{
    quick_xml::escape::unescape(raw).ok().map(|text| text.into_owned())
}

/// Text holding `&` is encoded with the byte `&`.
pub proof fn lemma_encoded_ampersand(t: Seq<char>)
    requires
        t.contains('&'),
    ensures
        vstd::utf8::encode_utf8(t).contains(38u8),
    decreases t.len(),
{
    let e = vstd::utf8::encode_utf8(t);
    let head = vstd::utf8::encode_scalar(t[0] as u32);
    let rest = vstd::utf8::encode_utf8(t.drop_first());
    assert(e == head + rest);
    if t[0] == '&' {
        assert(('&' as u32) == 38u32);
        assert(((38u32 & 0x7F) as u8) == 38u8) by (bit_vector);
        assert(head == seq![38u8]);
        assert(e[0] == 38u8);
    } else {
        let k = choose|k: int| 0 <= k < t.len() && t[k] == '&';
        assert(t.drop_first()[k - 1] == '&');
        lemma_encoded_ampersand(t.drop_first());
        let j = choose|j: int| 0 <= j < rest.len() && rest[j] == 38u8;
        assert(e[head.len() + j] == 38u8);
    }
}

/// Decodes text content the way a text event is unescaped: as UTF-8, then with its
/// references replaced. Well-formed UTF-8 with no `&` comes back as the text it
/// encodes, whatever characters that text holds.
fn decode_text(raw: &[u8]) -> (r: Option<String>)
    ensures
        string_view(r) == decoded_text(raw@),
        vstd::utf8::valid_utf8(raw@) && !raw@.contains(38u8) ==> string_view(r) == Some(
            vstd::utf8::decode_utf8(raw@),
        ),
{
    match utf8_text(raw) {
        Some(t) => {
            proof {
                vstd::utf8::encode_utf8_decode_utf8(t@);
                if t@.contains('&') {
                    lemma_encoded_ampersand(t@);
                }
            }
            unescape_text(t)
        },
        None => None,
    }
}

/// What a text event's raw content reads as: decoded as UTF-8, then unescaped; `None`
/// when either fails.
pub open spec fn decoded_text(raw: Seq<u8>) -> Option<Seq<char>> {
    match utf8_text_view(raw) {
        Some(t) => xml_unescaped(t),
        None => None,
    }
}

/// The text that UTF-8 bytes encode, when they are well-formed.
pub open spec fn utf8_text_view(raw: Seq<u8>) -> Option<Seq<char>> {
    if vstd::utf8::valid_utf8(raw) {
        Some(vstd::utf8::decode_utf8(raw))
    } else {
        None
    }
}

/// How many events are read at most. Every event that quick-xml yields before the end
/// of the document consumes at least one byte of it, so the end is reached within
/// this many reads.
pub open spec fn event_budget(body: Seq<u8>) -> nat {
    body.len() + 1
}

/// The result of the ping scan over the events that a trimming reader yields for
/// `body`, read at most `event_budget(body)` times.
pub open spec fn ping_result(body: Seq<u8>) -> Option<Seq<char>> {
    ping_outcome(initial_model(), body_events(body, event_budget(body)))
}

/// The message text of a SOAP ping request: the text inside
/// `Envelope`/`Body`/`PingRequest`/`Message`, when the document holds an envelope and a
/// ping request and reads without error. It runs the ping scan over the events that
/// quick-xml, trimming text, reads from `body`.
pub fn ping_payload(body: &[u8]) -> (r: Option<String>)
    ensures
        string_view(r) == ping_result(body@),
        forall|n: nat|
            n > body@.len() ==> string_view(r) == #[trigger] ping_outcome(
                initial_model(),
                body_events(body@, n),
            ),
{
    let mut cursor = open_xml(body);
    proof {
        let e = choose|i: nat| i <= body@.len() && is_document_end(#[trigger] xml_event(body@, i));
        assert forall|n: nat| n > body@.len() implies ping_result(body@) == #[trigger] ping_outcome(
            initial_model(),
            body_events(body@, n),
        ) by {
            lemma_scan_reads_whole_document(body@, e, n);
        }
    }
    trim_text(&mut cursor);
    let mut scan = PingScan::new();
    let budget: u128 = body.len() as u128;
    let mut reads: u128 = 0;
    let ghost all = body_events(body@, event_budget(body@));
    assert(all.skip(0) =~= all);
    while reads <= budget
        invariant
            reads <= budget + 1,
            budget == body@.len(),
            budget <= 0xffff_ffff_ffff_ffff,
            all == body_events(body@, event_budget(body@)),
            forall|n: nat|
                n > body@.len() ==> ping_result(body@) == #[trigger] ping_outcome(
                    initial_model(),
                    body_events(body@, n),
                ),
            cursor.body() == body@,
            cursor.trimmed(),
            cursor.reads() == reads,
            ping_outcome(initial_model(), all) == ping_outcome(scan@, all.skip(reads as int)),
        decreases budget + 1 - reads,
    {
        let input = read_xml_event(&mut cursor);
        proof {
            assert(all.skip(reads as int)[0] == input);
            assert(all.skip(reads as int).drop_first() =~= all.skip(reads + 1));
        }
        match scan.step(&input) {
            Some(result) => {
                return result;
            },
            None => {},
        }
        reads = reads + 1;
    }
    assert(all.skip(reads as int) =~= Seq::<XmlEvent>::empty());
    scan.finish()
}

/// The reply body for a request that is not a SOAP ping.
pub const NOT_SOAP_TEXT: &'static str = "Request received, but it was not recognized as SOAP";

/// The content type of an acknowledgement.
pub const XML_CONTENT_TYPE: &'static str = "text/xml; charset=utf-8";

/// The content type of the reply to a request that is not a SOAP ping.
pub const TEXT_CONTENT_TYPE: &'static str = "text/plain; charset=utf-8";

/// What the SOAP endpoint answers: an HTTP status, a content type and a body, and
/// whether the exchange counts as a success.
pub struct SoapReply {
    pub status: u16,
    pub content_type: String,
    pub body: String,
    pub success: bool,
}

/// Answers a SOAP request: a ping is acknowledged with status 200 and an XML envelope
/// holding `SOAP message`; anything else gets status 400 and a plain-text explanation.
pub fn soap_reply(body: &[u8]) -> (r: SoapReply)
    ensures
        r.status == (if r.success { 200u16 } else { 400u16 }),
        r.success ==> r.content_type@ == XML_CONTENT_TYPE@ && r.body@ == acknowledgement_text(
            response_text("SOAP"@),
        ),
        !r.success ==> r.content_type@ == TEXT_CONTENT_TYPE@ && r.body@ == NOT_SOAP_TEXT@,
        r.success == ping_result(body@) is Some,
{
    let payload = ping_payload(body);
    match payload {
        None => SoapReply {
            status: 400,
            content_type: String::from_str(TEXT_CONTENT_TYPE),
            body: String::from_str(NOT_SOAP_TEXT),
            success: false,
        },
        Some(_) => SoapReply {
            status: 200,
            content_type: String::from_str(XML_CONTENT_TYPE),
            body: acknowledgement(protocol_response("SOAP")),
            success: true,
        },
    }
}


/// Whether `input` is a start tag whose local name is `name`.
pub open spec fn is_start_of(input: XmlEvent, name: Seq<u8>) -> bool {
    input matches XmlEvent::Start(n) && local_part(n@) == name
}

/// Whether `input` is an end tag whose local name is `name`.
pub open spec fn is_end_of(input: XmlEvent, name: Seq<u8>) -> bool {
    input matches XmlEvent::End(n) && local_part(n@) == name
}

/// A ping request, `Envelope` / `Body` / `PingRequest` / `Message` holding one text,
/// with each element closed in turn (whatever namespace prefixes the names carry), is
/// recognised, and its payload is that text.
pub proof fn ping_request_yields_its_message(events: Seq<XmlEvent>, text: Seq<char>)
    requires
        events.len() == 9,
        is_start_of(events[0], envelope_name()),
        is_start_of(events[1], body_name()),
        is_start_of(events[2], ping_request_name()),
        is_start_of(events[3], message_name()),
        events[4] matches XmlEvent::Text(raw) && decoded_text(raw@) == Some(text),
        is_end_of(events[5], message_name()),
        is_end_of(events[6], ping_request_name()),
        is_end_of(events[7], body_name()),
        is_end_of(events[8], envelope_name()),
    ensures
        ping_outcome(initial_model(), events) == Some(text),
{
    let e = envelope_name();
    let b = body_name();
    let p = ping_request_name();
    let m = message_name();
    assert(e != b && e != p && e != m && b != p && b != m && p != m) by {
        assert(e.len() != b.len() && e.len() != p.len() && b.len() != p.len());
        assert(b.len() != m.len() && p.len() != m.len());
        assert(e[0] != m[0]);
    }
    let s0 = initial_model();
    let s1 = PingModel { envelope: true, ..s0 };
    let s2 = PingModel { soap_body: true, ..s1 };
    let s3 = PingModel { ping_request: true, ..s2 };
    let s4 = PingModel { message: true, ..s3 };
    let s5 = PingModel { payload: s4.payload + text, ..s4 };
    let s6 = PingModel { message: false, ..s5 };
    let s8 = PingModel { soap_body: false, ..s6 };
    assert(Seq::<char>::empty() + text =~= text);
    let i1 = events.drop_first();
    let i2 = i1.drop_first();
    let i3 = i2.drop_first();
    let i4 = i3.drop_first();
    let i5 = i4.drop_first();
    let i6 = i5.drop_first();
    let i7 = i6.drop_first();
    let i8 = i7.drop_first();
    assert(ping_outcome(s8, i8) == Some(text));
    assert(ping_outcome(s6, i7) == Some(text));
    assert(ping_outcome(s6, i6) == Some(text));
    assert(ping_outcome(s5, i5) == Some(text));
    assert(ping_outcome(s4, i4) == Some(text));
    assert(ping_outcome(s3, i3) == Some(text));
    assert(ping_outcome(s2, i2) == Some(text));
    assert(ping_outcome(s1, i1) == Some(text));
}


/// Whether the ping scan from `st` ends at one of `events`.
pub open spec fn finishes_within(st: PingModel, events: Seq<XmlEvent>) -> bool
    decreases events.len(),
{
    events.len() > 0 && match ping_step(st, events[0]) {
        PingStep::Finish(_) => true,
        PingStep::Continue(next) => finishes_within(next, events.drop_first()),
    }
}

/// Once the ping scan has ended (at a closing `Envelope`, the end of input, or an
/// error), events after that point change nothing.
pub proof fn scan_ignores_events_after_end(
    st: PingModel,
    events: Seq<XmlEvent>,
    more: Seq<XmlEvent>,
)
    requires
        finishes_within(st, events),
    ensures
        ping_outcome(st, events + more) == ping_outcome(st, events),
    decreases events.len(),
{
    assert((events + more)[0] == events[0]);
    match ping_step(st, events[0]) {
        PingStep::Finish(_) => {},
        PingStep::Continue(next) => {
            assert((events + more).drop_first() =~= events.drop_first() + more);
            scan_ignores_events_after_end(next, events.drop_first(), more);
        },
    }
}


/// A scan over events that hold the end of the document ends within them.
pub proof fn lemma_scan_ends_at_document_end(st: PingModel, events: Seq<XmlEvent>, i: int)
    requires
        0 <= i < events.len(),
        is_document_end(events[i]),
    ensures
        finishes_within(st, events),
    decreases events.len(),
{
    match ping_step(st, events[0]) {
        PingStep::Finish(_) => {},
        PingStep::Continue(next) => {
            assert(i > 0);
            assert(events.drop_first()[i - 1] == events[i]);
            lemma_scan_ends_at_document_end(next, events.drop_first(), i - 1);
        },
    }
}

/// When the document ends (end of input or an error) at read `e`, no later than read
/// `body.len()`, the ping scan reads it to that end: the result over any number of
/// reads beyond `body.len()` is the same, so no cap on the number of events is felt.
pub proof fn lemma_scan_reads_whole_document(body: Seq<u8>, e: nat, n: nat)
    requires
        e <= body.len(),
        is_document_end(xml_event(body, e)),
        n > body.len(),
    ensures
        ping_outcome(initial_model(), body_events(body, n)) == ping_result(body),
{
    let prefix = body_events(body, e + 1);
    lemma_scan_ends_at_document_end(initial_model(), prefix, e as int);
    let a = body_events(body, n);
    let b = body_events(body, event_budget(body));
    assert(a =~= prefix + a.skip(e + 1int));
    assert(b =~= prefix + b.skip(e + 1int));
    scan_ignores_events_after_end(initial_model(), prefix, a.skip(e + 1int));
    scan_ignores_events_after_end(initial_model(), prefix, b.skip(e + 1int));
}

/// A start or end tag whose local name is none of `Envelope`, `Body`, `PingRequest`
/// and `Message` changes nothing: the scan goes on in the same state, and inserting
/// such a tag anywhere into the events leaves the result as it was.
pub proof fn other_tags_are_ignored(st: PingModel, name: Vec<u8>, rest: Seq<XmlEvent>)
    requires
        local_part(name@) != seq![69u8, 110u8, 118u8, 101u8, 108u8, 111u8, 112u8, 101u8],
        local_part(name@) != seq![66u8, 111u8, 100u8, 121u8],
        local_part(name@) != seq![
            80u8, 105u8, 110u8, 103u8, 82u8, 101u8, 113u8, 117u8, 101u8, 115u8, 116u8,
        ],
        local_part(name@) != seq![77u8, 101u8, 115u8, 115u8, 97u8, 103u8, 101u8],
    ensures
        ping_step(st, XmlEvent::Start(name)) == PingStep::Continue(st),
        ping_step(st, XmlEvent::End(name)) == PingStep::Continue(st),
        ping_outcome(st, seq![XmlEvent::Start(name)] + rest) == ping_outcome(st, rest),
        ping_outcome(st, seq![XmlEvent::End(name)] + rest) == ping_outcome(st, rest),
{
    assert((seq![XmlEvent::Start(name)] + rest)[0] == XmlEvent::Start(name));
    assert((seq![XmlEvent::Start(name)] + rest).drop_first() =~= rest);
    assert((seq![XmlEvent::End(name)] + rest)[0] == XmlEvent::End(name));
    assert((seq![XmlEvent::End(name)] + rest).drop_first() =~= rest);
}

} // verus!
