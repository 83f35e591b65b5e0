//! What comes before a session: the PROXY line, the Fake TLS hellos, and the client's handshake.

use vstd::prelude::*;

use crate::proxy::fake_tls::{
    build_server_hello, unix_seconds, verify_client_hello_at, TLS_RECORD_HANDSHAKE,
};
use crate::proxy::utils::HANDSHAKE_LEN;
use crate::proxy::fake_tls;

verus! {

/// How long the proxy waits for each part of what a client sends first, in seconds.
pub const HANDSHAKE_TIMEOUT_SECS: u64 = 10;

/// What happens while a client is greeted.
#[derive(Debug)]
pub enum GreetingEvent {
    /// The bytes that were asked for.
    Read(Vec<u8>),
    /// Reading failed. The buffer holds what came before, and zeros behind.
    ReadFailed(Vec<u8>),
    /// The bytes did not come in time.
    TimedOut,
    /// What was to be sent is sent.
    Sent,
    /// It could not be sent.
    SendFailed,
}

/// What is done to greet a client.
#[derive(Debug)]
pub enum GreetingAction {
    /// Read `len` bytes, within `HANDSHAKE_TIMEOUT_SECS` if `timed`.
    Read { len: usize, timed: bool },
    /// Send the server hello.
    SendHello(Vec<u8>),
    /// From here on the stream carries records: read `len` bytes out of them, within
    /// `HANDSHAKE_TIMEOUT_SECS`.
    ReadRecords { len: usize },
    /// Send this answer and close the connection.
    SendLast(String),
    /// Pass the connection on to port 443 of the masking domain: first the bytes that were read,
    /// then whatever the client sends, and back what comes from there.
    PassOn { domain: String, seen: Vec<u8> },
    /// The client's handshake is there.
    Handshake(Vec<u8>),
    /// Close the connection.
    End,
}

/// How far the greeting of a client has come.
#[derive(Debug)]
pub enum GreetingStage {
    ProxyLine,
    FirstByte,
    TlsHeader,
    /// The header of the client hello's record is there.
    TlsBody(Vec<u8>),
    TlsHello,
    TlsHandshake,
    /// The first byte of the client's handshake is there.
    PlainHandshake(u8),
    Ended,
}

/// The greeting of one client. `masking` is the Fake TLS domain, empty if there is none.
#[derive(Debug)]
pub struct Greeting {
    pub masking: String,
    pub stage: GreetingStage,
}

/// The answer to a client that does not speak TLS where TLS is expected.
pub open spec fn redirect_answer(domain: Seq<char>) -> Seq<char> {
    "HTTP/1.1 301 Moved Permanently\r\nLocation: https://"@ + domain
        + "/\r\nContent-Length: 0\r\nConnection: close\r\n\r\n"@
}

/// How long the body of a client hello's record is, by the last two bytes of its header.
pub open spec fn hello_body_len(header: Seq<u8>) -> nat {
    (256 * header[3] + header[4]) as nat
}

impl GreetingStage {
    /// How many bytes a stage waits for.
    pub open spec fn wants(self) -> nat {
        match self {
            GreetingStage::ProxyLine => 1,
            GreetingStage::FirstByte => 1,
            GreetingStage::TlsHeader => 4,
            GreetingStage::TlsBody(header) => hello_body_len(header@),
            GreetingStage::TlsHandshake => 64,
            GreetingStage::PlainHandshake(_) => 63,
            _ => 0,
        }
    }

    /// A record's header has five bytes.
    pub open spec fn wf(self) -> bool {
        self matches GreetingStage::TlsBody(header) ==> header@.len() == 5
    }
}

impl GreetingEvent {
    /// The bytes that were read, if any.
    pub open spec fn bytes(self) -> Option<Seq<u8>> {
        match self {
            GreetingEvent::Read(b) => Some(b@),
            GreetingEvent::ReadFailed(b) => Some(b@),
            _ => None,
        }
    }
}

impl Greeting {
    /// Begins to greet a client: with the PROXY line, if there is one.
    pub fn start(proxy_protocol: bool, masking: &str) -> (out: (Greeting, GreetingAction))
        ensures
            out.0.masking@ == masking@,
            out.0.stage.wf(),
            out.1 == (GreetingAction::Read { len: 1, timed: !proxy_protocol }),
            proxy_protocol ==> out.0.stage is ProxyLine,
            !proxy_protocol ==> out.0.stage is FirstByte,
    {
        let stage = if proxy_protocol {
            GreetingStage::ProxyLine
        } else {
            GreetingStage::FirstByte
        };
        (
            Greeting { masking: masking.to_owned(), stage },
            GreetingAction::Read { len: 1, timed: !proxy_protocol },
        )
    }

    fn end(&mut self) -> (action: GreetingAction)
        ensures
            action is End,
            final(self).stage is Ended,
            final(self).masking == old(self).masking,
    {
        self.stage = GreetingStage::Ended;
        GreetingAction::End
    }

    /// Answers a client hello that was verified with this outcome: with the server hello on
    /// success. Else the connection is passed on to the masking domain.
    pub fn answer_hello(
        &mut self,
        secret: &[u8],
        hello: Vec<u8>,
        checked: Option<([u8; 32], [u8; 32], i64)>,
    ) -> (action: GreetingAction)
        ensures
            final(self).masking == old(self).masking,
            match checked {
                None => {
                    &&& action matches GreetingAction::PassOn { domain, seen }
                    &&& domain@ == old(self).masking@
                    &&& seen@ == hello@
                    &&& final(self).stage is Ended
                },
                Some((client_random, session_id, _)) => {
                    &&& action matches GreetingAction::SendHello(answer)
                    &&& fake_tls::is_answer(answer@, secret@, client_random@, session_id@)
                    &&& final(self).stage is TlsHello
                },
            },
    {
        match checked {
            Some((client_random, session_id, _)) => {
                let answer = build_server_hello(secret, &client_random, &session_id);
                self.stage = GreetingStage::TlsHello;
                GreetingAction::SendHello(answer)
            },
            None => {
                self.stage = GreetingStage::Ended;
                GreetingAction::PassOn { domain: self.masking.clone(), seen: hello }
            },
        }
    }

    /// The client hello, if this event completes it.
    pub open spec fn whole_hello(self, event: GreetingEvent) -> Option<Seq<u8>> {
        match (self.stage, event.bytes()) {
            (GreetingStage::TlsBody(header), Some(b)) => Some(header@ + b),
            _ => None,
        }
    }

    /// What a step does: the greeting stands at `after` then, and `action` is to be done next.
    pub open spec fn steps(
        self,
        secret: Seq<u8>,
        event: GreetingEvent,
        action: GreetingAction,
        after: Greeting,
    ) -> bool {
        &&& after.stage.wf()
        &&& after.masking == self.masking
        &&& match event.bytes() {
            None => if event is Sent && self.stage is TlsHello {
                &&& action == (GreetingAction::ReadRecords { len: 64 })
                &&& after.stage is TlsHandshake
            } else {
                &&& action is End
                &&& after.stage is Ended
            },
            Some(b) => match self.stage {
                GreetingStage::ProxyLine => if event is ReadFailed {
                    &&& action is End
                    &&& after.stage is Ended
                } else if b[0] == 0x0a {
                    &&& action == (GreetingAction::Read { len: 1, timed: true })
                    &&& after.stage is FirstByte
                } else {
                    &&& action == (GreetingAction::Read { len: 1, timed: false })
                    &&& after.stage is ProxyLine
                },
                GreetingStage::FirstByte => if self.masking@.len() == 0 {
                    &&& action == (GreetingAction::Read { len: 63, timed: true })
                    &&& after.stage == GreetingStage::PlainHandshake(b[0])
                } else if b[0] == TLS_RECORD_HANDSHAKE {
                    &&& action == (GreetingAction::Read { len: 4, timed: true })
                    &&& after.stage is TlsHeader
                } else {
                    &&& action matches GreetingAction::SendLast(answer)
                    &&& answer@ == redirect_answer(self.masking@)
                    &&& after.stage is Ended
                },
                GreetingStage::TlsHeader => {
                    &&& after.stage matches GreetingStage::TlsBody(header)
                    &&& header@ == seq![TLS_RECORD_HANDSHAKE] + b
                    &&& action == (GreetingAction::Read {
                        len: hello_body_len(header@) as usize,
                        timed: true,
                    })
                },
                GreetingStage::TlsBody(header) => match action {
                    GreetingAction::SendHello(answer) => {
                        &&& fake_tls::is_authentic(header@ + b, secret)
                        &&& fake_tls::is_answer(
                            answer@,
                            secret,
                            (header@ + b).subrange(11, 43),
                            fake_tls::hello_session_id(header@ + b),
                        )
                        &&& after.stage is TlsHello
                    },
                    _ => {
                        &&& action matches GreetingAction::PassOn { domain, seen }
                        &&& domain@ == self.masking@
                        &&& seen@ == header@ + b
                        &&& after.stage is Ended
                    },
                },
                GreetingStage::TlsHandshake => {
                    &&& action matches GreetingAction::Handshake(handshake)
                    &&& handshake@ == b
                    &&& after.stage is Ended
                },
                GreetingStage::PlainHandshake(first) => {
                    &&& action matches GreetingAction::Handshake(handshake)
                    &&& handshake@ == seq![first] + b
                    &&& after.stage is Ended
                },
                _ => {
                    &&& action is End
                    &&& after.stage is Ended
                },
            },
        }
    }

    /// Takes an event at the machine's time `now`, in seconds since 1970, none if it cannot be
    /// told, and says what is to be done next. The PROXY line is read up to its end. A client
    /// whose first byte opens a TLS record has to prove that it knows the secret, if there is a
    /// Fake TLS domain: its hello is answered exactly if it is authentic and its time is close
    /// enough to `now`, else its connection is passed on to that domain. Any other client is sent
    /// to that domain then.
    ///
    /// The answer to a hello depends on chance.
    #[verifier::rlimit(40)]
    pub fn step_at(&mut self, secret: &[u8], event: GreetingEvent, now: Option<u64>) -> (action:
        GreetingAction)
        requires
            old(self).stage.wf(),
            event.bytes() matches Some(b) ==> b.len() == old(self).stage.wants(),
        ensures
            old(self).steps(secret@, event, action, *final(self)),
            old(self).whole_hello(event) matches Some(hello) ==> {
                action is SendHello <==> (now matches Some(t) && fake_tls::is_authentic(
                    hello,
                    secret@,
                ) && fake_tls::is_timely(fake_tls::hello_time(hello, secret@), t as int))
            },
    {
        let failed: bool = match &event {
            GreetingEvent::ReadFailed(_) => true,
            _ => false,
        };
        let sent: bool = match &event {
            GreetingEvent::Sent => true,
            _ => false,
        };
        let b: Vec<u8> = match event {
            GreetingEvent::Read(b) => b,
            GreetingEvent::ReadFailed(b) => b,
            _ => {
                if sent {
                    if let GreetingStage::TlsHello = &self.stage {
                        self.stage = GreetingStage::TlsHandshake;
                        return GreetingAction::ReadRecords { len: HANDSHAKE_LEN };
                    }
                }
                return self.end();
            },
        };
        match &self.stage {
            GreetingStage::ProxyLine => {
                if failed {
                    return self.end();
                }
                if b[0] == 0x0a {
                    self.stage = GreetingStage::FirstByte;
                    GreetingAction::Read { len: 1, timed: true }
                } else {
                    GreetingAction::Read { len: 1, timed: false }
                }
            },
            GreetingStage::FirstByte => {
                if self.masking.as_str().is_empty() {
                    self.stage = GreetingStage::PlainHandshake(b[0]);
                    return GreetingAction::Read { len: HANDSHAKE_LEN - 1, timed: true };
                }
                if b[0] == TLS_RECORD_HANDSHAKE {
                    self.stage = GreetingStage::TlsHeader;
                    return GreetingAction::Read { len: 4, timed: true };
                }
                let mut answer = "HTTP/1.1 301 Moved Permanently\r\nLocation: https://".to_owned();
                answer.append(self.masking.as_str());
                answer.append("/\r\nContent-Length: 0\r\nConnection: close\r\n\r\n");
                self.stage = GreetingStage::Ended;
                GreetingAction::SendLast(answer)
            },
            GreetingStage::TlsHeader => {
                let mut header: Vec<u8> = Vec::new();
                header.push(TLS_RECORD_HANDSHAKE);
                header.extend_from_slice(b.as_slice());
                assert(header@ =~= seq![TLS_RECORD_HANDSHAKE] + b@);
                let len: usize = 256 * header[3] as usize + header[4] as usize;
                self.stage = GreetingStage::TlsBody(header);
                GreetingAction::Read { len, timed: true }
            },
            GreetingStage::TlsBody(header) => {
                let mut hello: Vec<u8> = vstd::slice::slice_to_vec(header.as_slice());
                hello.extend_from_slice(b.as_slice());
                assert(hello@ =~= header@ + b@);
                let checked = match now {
                    Some(t) => verify_client_hello_at(hello.as_slice(), secret, t),
                    None => None,
                };
                self.answer_hello(secret, hello, checked)
            },
            GreetingStage::TlsHandshake => {
                self.stage = GreetingStage::Ended;
                GreetingAction::Handshake(b)
            },
            GreetingStage::PlainHandshake(first) => {
                let mut handshake: Vec<u8> = Vec::new();
                handshake.push(*first);
                handshake.extend_from_slice(b.as_slice());
                assert(handshake@ =~= seq![*first] + b@);
                self.stage = GreetingStage::Ended;
                GreetingAction::Handshake(handshake)
            },
            _ => self.end(),
        }
    }

    /// Takes an event and says what is to be done next, with `step_at`, at the time that the
    /// machine's clock says. That time is not known here, so that an authentic hello may be too
    /// old or too new to be answered.
    pub fn step(&mut self, secret: &[u8], event: GreetingEvent) -> (action: GreetingAction)
        requires
            old(self).stage.wf(),
            event.bytes() matches Some(b) ==> b.len() == old(self).stage.wants(),
        ensures
            old(self).steps(secret@, event, action, *final(self)),
    {
        let now = unix_seconds();
        self.step_at(secret, event, now)
    }
}

/// A client of a proxy without a Fake TLS domain: the first byte that it sends and the 63 bytes
/// behind it are its handshake, as they came.
pub proof fn law_plain_client(
    start: Greeting,
    secret: Seq<u8>,
    first: GreetingEvent,
    then: GreetingEvent,
    asked: GreetingAction,
    between: Greeting,
    last: GreetingAction,
    end: Greeting,
)
    requires
        start.stage is FirstByte,
        start.masking@.len() == 0,
        first.bytes() is Some,
        first.bytes()->0.len() == 1,
        then.bytes() is Some,
        then.bytes()->0.len() == 63,
        start.steps(secret, first, asked, between),
        between.steps(secret, then, last, end),
    ensures
        asked == (GreetingAction::Read { len: 63, timed: true }),
        last matches GreetingAction::Handshake(handshake) && handshake@ == first.bytes()->0
            + then.bytes()->0,
        end.stage is Ended,
{
    assert(seq![first.bytes()->0[0]] =~= first.bytes()->0);
}

/// A client of a proxy with a Fake TLS domain that starts with a TLS record: the two last bytes of
/// the record's header, the high one first, say how much is read. If that is a hello of a client
/// that knows the secret it may be answered, with an answer that proves that the proxy knows it
/// too; else all that was read is passed on to the domain, and nothing is lost of it.
pub proof fn law_tls_client(
    start: Greeting,
    secret: Seq<u8>,
    first: GreetingEvent,
    header: GreetingEvent,
    body: GreetingEvent,
    asked: GreetingAction,
    one: Greeting,
    asked_more: GreetingAction,
    two: Greeting,
    last: GreetingAction,
    end: Greeting,
)
    requires
        start.stage is FirstByte,
        start.masking@.len() > 0,
        first.bytes() == Some(seq![0x16u8]),
        header.bytes() is Some,
        header.bytes()->0.len() == 4,
        body.bytes() is Some,
        start.steps(secret, first, asked, one),
        one.steps(secret, header, asked_more, two),
        two.steps(secret, body, last, end),
    ensures
        asked == (GreetingAction::Read { len: 4, timed: true }),
        ({
            let h = header.bytes()->0;
            asked_more == (GreetingAction::Read {
                len: (256 * h[2] + h[3]) as usize,
                timed: true,
            })
        }),
        ({
            let hello = seq![0x16u8] + header.bytes()->0 + body.bytes()->0;
            match last {
                GreetingAction::SendHello(answer) => {
                    &&& fake_tls::is_authentic(hello, secret)
                    &&& fake_tls::is_answer(
                        answer@,
                        secret,
                        hello.subrange(11, 43),
                        fake_tls::hello_session_id(hello),
                    )
                },
                GreetingAction::PassOn { domain, seen } => {
                    &&& domain@ == start.masking@
                    &&& seen@ == hello
                },
                _ => false,
            }
        }),
{
}

/// A hello that is answered is followed by 64 bytes out of records, which are the client's
/// handshake, as they came.
pub proof fn law_answered_client(
    start: Greeting,
    secret: Seq<u8>,
    then: GreetingEvent,
    asked: GreetingAction,
    between: Greeting,
    last: GreetingAction,
    end: Greeting,
)
    requires
        start.stage is TlsHello,
        then.bytes() is Some,
        start.steps(secret, GreetingEvent::Sent, asked, between),
        between.steps(secret, then, last, end),
    ensures
        asked == (GreetingAction::ReadRecords { len: 64 }),
        last matches GreetingAction::Handshake(handshake) && handshake@ == then.bytes()->0,
{
}

/// The rest of how a client is greeted. The PROXY line is read byte by byte up to its line feed,
/// without a limit in time. Where TLS is expected, a client that starts otherwise is sent to the
/// domain. A client that takes too long, or that cannot be sent to, is dropped.
pub proof fn law_other_clients(
    start: Greeting,
    secret: Seq<u8>,
    event: GreetingEvent,
    action: GreetingAction,
    end: Greeting,
)
    requires
        start.steps(secret, event, action, end),
    ensures
        end.masking@ == start.masking@,
        event is TimedOut || event is SendFailed ==> action is End && end.stage is Ended,
        event is Sent && start.stage !is TlsHello ==> action is End && end.stage is Ended,
        start.stage is ProxyLine ==> match event {
            GreetingEvent::Read(b) => if b@[0] == '\n' as u8 {
                action == (GreetingAction::Read { len: 1, timed: true }) && end.stage is FirstByte
            } else {
                action == (GreetingAction::Read { len: 1, timed: false }) && end.stage is ProxyLine
            },
            _ => action is End,
        },
        start.stage is FirstByte && start.masking@.len() > 0 ==> (event.bytes() matches Some(b)
            ==> (b[0] != 0x16 ==> (action matches GreetingAction::SendLast(answer) && answer@
            == "HTTP/1.1 301 Moved Permanently\r\nLocation: https://"@ + start.masking@
            + "/\r\nContent-Length: 0\r\nConnection: close\r\n\r\n"@))),
{
}

/// The bytes that an event brings, how many each stage asks for, and when a hello is complete.
pub proof fn law_greeting_reads(g: Greeting, b: Vec<u8>, header: Vec<u8>, first: u8)
    ensures
        GreetingEvent::Read(b).bytes() == Some(b@),
        GreetingEvent::ReadFailed(b).bytes() == Some(b@),
        GreetingEvent::TimedOut.bytes() is None,
        GreetingEvent::Sent.bytes() is None,
        GreetingEvent::SendFailed.bytes() is None,
        GreetingStage::ProxyLine.wants() == 1,
        GreetingStage::FirstByte.wants() == 1,
        GreetingStage::TlsHeader.wants() == 4,
        GreetingStage::TlsBody(header).wants() == 256 * header@[3] + header@[4],
        GreetingStage::TlsHandshake.wants() == 64,
        GreetingStage::PlainHandshake(first).wants() == 63,
        HANDSHAKE_TIMEOUT_SECS == 10,
        g.stage == GreetingStage::TlsBody(header) ==> g.whole_hello(GreetingEvent::Read(b)) == Some(
            header@ + b@,
        ) && g.whole_hello(GreetingEvent::ReadFailed(b)) == Some(header@ + b@),
        !(g.stage is TlsBody) ==> g.whole_hello(GreetingEvent::Read(b)) is None,
{
}

} // verus!
