use vstd::prelude::*;

use crate::codec::{FrameHeader, Violation, violation_close_code};
use crate::frame::{encoded_frame, Frame, Message, CONTROL_HEADER_LEN};
use crate::opcode::{valid_on_wire, CloseCode, Opcode};
use crate::utf8::{utf8_run, valid_text, Utf8State};

verus! {

/// 64 MiB.
pub const DEFAULT_MAX_MESSAGE_SIZE: usize = 67108864;

/// 16 MiB.
pub const DEFAULT_MAX_FRAME_SIZE: usize = 16777216;

/// 128 KiB.
pub const DEFAULT_READ_BUFFER_CAPACITY: usize = 131072;

/// Limits a client works under.
#[derive(Clone, Copy, Debug, PartialEq, Eq, Structural)]
pub struct Config {
    /// Largest payload of a complete message, fragments together.
    pub max_message_size: usize,
    /// Largest payload of a single frame.
    pub max_frame_size: usize,
    /// Capacity of the buffer that frames are read into.
    pub read_buffer_capacity: usize,
}

impl Config {
    pub fn new() -> (r: Config)
        ensures
            r.max_message_size == DEFAULT_MAX_MESSAGE_SIZE,
            r.max_frame_size == DEFAULT_MAX_FRAME_SIZE,
            r.read_buffer_capacity == DEFAULT_READ_BUFFER_CAPACITY,
    {
        Config {
            max_message_size: DEFAULT_MAX_MESSAGE_SIZE,
            max_frame_size: DEFAULT_MAX_FRAME_SIZE,
            read_buffer_capacity: DEFAULT_READ_BUFFER_CAPACITY,
        }
    }
}

impl Default for Config {
    fn default() -> (r: Config)
        ensures
            r.max_message_size == DEFAULT_MAX_MESSAGE_SIZE,
            r.max_frame_size == DEFAULT_MAX_FRAME_SIZE,
            r.read_buffer_capacity == DEFAULT_READ_BUFFER_CAPACITY,
    {
        Config::new()
    }
}

/// Whether a fragmented message is being put together, and of which kind.
#[derive(Clone, Copy, Debug, PartialEq, Eq, Structural)]
pub enum RecvState {
    Idle,
    Assembling(Message),
}

/// How far the close handshake has gone.
#[derive(Clone, Copy, Debug, PartialEq, Eq, Structural)]
pub enum CloseState {
    Open,
    CloseSent,
    CloseReceived,
    Closed,
}

/// What the caller does after a frame has been taken in.
#[derive(Clone, Copy, Debug, PartialEq, Eq, Structural)]
pub enum Action {
    /// Read the next frame.
    Continue,
    /// The message buffer holds a complete message of this kind.
    Deliver(Message),
    /// Send a Pong carrying the received Ping's payload, then read on.
    SendPong,
    /// Send a Close carrying the received close body back; the connection
    /// is then closed.
    EchoClose,
    /// The peer answered our Close; the connection is closed.
    Closed,
    /// The peer broke a rule: send a Close with the violation's status code
    /// and report the violation.
    Fail(Violation),
    /// The message grew past the configured maximum: send a Close with
    /// status 1009 and report it.
    TooBig,
}

/// The protocol state of a client connection, apart from its transport.
#[derive(Clone, Copy, Debug, PartialEq, Eq, Structural)]
pub struct ClientState {
    pub config: Config,
    pub recv: RecvState,
    pub close: CloseState,
    /// Where the UTF-8 check of the text message being assembled stands.
    pub text: Utf8State,
    /// Status code of the close frame received from the peer, if it had one.
    pub peer_code: Option<u16>,
}

/// The big-endian 16-bit number in the first two bytes of `p`.
pub open spec fn be16(p: Seq<u8>) -> u16 {
    (p[0] as nat * 256 + p[1] as nat) as u16
}

/// The rule that a received close body breaks, if any: a body is empty, or
/// a status code that may appear on the wire followed by UTF-8 text.
pub open spec fn close_body_violation(p: Seq<u8>) -> Option<Violation> {
    if p.len() == 1 {
        Some(Violation::InvalidCloseBody)
    } else if p.len() >= 2 && !valid_on_wire(be16(p)) {
        Some(Violation::InvalidCloseCode)
    } else if p.len() >= 2 && !valid_text(p.skip(2)) {
        Some(Violation::InvalidCloseReason)
    } else {
        None
    }
}

/// The state once the connection has been given up.
pub open spec fn failed(s: ClientState) -> ClientState {
    ClientState { recv: RecvState::Idle, close: CloseState::Closed, text: Utf8State::Ready, ..s }
}

/// A data frame's payload `p` joins the `prior` bytes of a message of kind
/// `kind`, whose UTF-8 check stood at `text0`.
pub open spec fn data_step(
    s: ClientState,
    prior: Seq<u8>,
    kind: Message,
    fin: bool,
    p: Seq<u8>,
    text0: Utf8State,
) -> (ClientState, Seq<u8>, Action) {
    if prior.len() + p.len() > s.config.max_message_size {
        (failed(s), prior, Action::TooBig)
    } else {
        let nb = prior + p;
        let t = if kind is Text {
            utf8_run(text0, p)
        } else {
            Utf8State::Ready
        };
        if fin {
            if kind is Text && t != Utf8State::Ready {
                (failed(s), nb, Action::Fail(Violation::InvalidUtf8))
            } else {
                (
                    ClientState { recv: RecvState::Idle, text: Utf8State::Ready, ..s },
                    nb,
                    Action::Deliver(kind),
                )
            }
        } else {
            if kind is Text && t == Utf8State::Invalid {
                (failed(s), nb, Action::Fail(Violation::InvalidUtf8))
            } else {
                (ClientState { recv: RecvState::Assembling(kind), text: t, ..s }, nb, Action::Continue)
            }
        }
    }
}

/// The state, message buffer and action after a frame with header `h` and
/// (unmasked) payload `p` arrives in state `s` with message buffer `buf`.
pub open spec fn step(s: ClientState, buf: Seq<u8>, h: FrameHeader, p: Seq<u8>) -> (
    ClientState,
    Seq<u8>,
    Action,
) {
    if h.masked {
        (failed(s), buf, Action::Fail(Violation::MaskedServerFrame))
    } else if h.length > s.config.max_frame_size {
        (failed(s), buf, Action::Fail(Violation::FrameTooLarge))
    } else {
        match h.opcode {
            Opcode::Ping => (s, buf, Action::SendPong),
            Opcode::Pong => (s, buf, Action::Continue),
            Opcode::Close => match close_body_violation(p) {
                Some(v) => (failed(s), buf, Action::Fail(v)),
                None => (
                    ClientState {
                        recv: RecvState::Idle,
                        close: CloseState::Closed,
                        text: Utf8State::Ready,
                        peer_code: if p.len() >= 2 {
                            Some(be16(p))
                        } else {
                            None
                        },
                        ..s
                    },
                    buf,
                    if s.close is Open {
                        Action::EchoClose
                    } else {
                        Action::Closed
                    },
                ),
            },
            Opcode::Text | Opcode::Binary => {
                let kind = if h.opcode is Text {
                    Message::Text
                } else {
                    Message::Binary
                };
                if s.recv is Assembling {
                    (failed(s), buf, Action::Fail(Violation::InterleavedData))
                } else {
                    data_step(s, seq![], kind, h.fin, p, Utf8State::Ready)
                }
            },
            Opcode::Continuation => match s.recv {
                RecvState::Idle => (failed(s), buf, Action::Fail(Violation::UnexpectedContinuation)),
                RecvState::Assembling(kind) => data_step(s, buf, kind, h.fin, p, s.text),
            },
        }
    }
}

fn append_bytes(buf: &mut Vec<u8>, p: &[u8])
    ensures
        final(buf)@ == old(buf)@ + p@,
{
    let mut i: usize = 0;
    while i < p.len()
        invariant
            i <= p@.len(),
            buf@ == old(buf)@ + p@.take(i as int),
        decreases p@.len() - i,
    {
        buf.push(p[i]);
        i = i + 1;
        assert(buf@ =~= old(buf)@ + p@.take(i as int));
    }
    assert(p@.take(i as int) =~= p@);
}

impl ClientState {
    /// A freshly connected client: open, with no message in progress.
    pub fn new(config: Config) -> (r: ClientState)
        ensures
            r.config == config,
            r.recv == RecvState::Idle,
            r.close == CloseState::Open,
            r.text == Utf8State::Ready,
            r.peer_code == None::<u16>,
    {
        ClientState {
            config,
            recv: RecvState::Idle,
            close: CloseState::Open,
            text: Utf8State::Ready,
            peer_code: None,
        }
    }

    pub fn is_closed(&self) -> (r: bool)
        ensures
            r == (self.close is Closed),
    {
        matches!(self.close, CloseState::Closed)
    }

    /// Records that we sent a Close of our own; a later Close from the peer
    /// then ends the handshake without an echo.
    pub fn close_sent(&mut self)
        ensures
            *final(self) == (if old(self).close is Open {
                ClientState { close: CloseState::CloseSent, ..*old(self) }
            } else {
                *old(self)
            }),
    {
        if matches!(self.close, CloseState::Open) {
            self.close = CloseState::CloseSent;
        }
    }

    /// The rule that a server frame's header breaks before its payload is
    /// read: a server never masks, and no frame exceeds the frame limit.
    pub fn header_violation(&self, h: &FrameHeader) -> (r: Option<Violation>)
        ensures
            r == (if h.masked {
                Some(Violation::MaskedServerFrame)
            } else if h.length > self.config.max_frame_size {
                Some(Violation::FrameTooLarge)
            } else {
                None::<Violation>
            }),
    {
        if h.masked {
            Some(Violation::MaskedServerFrame)
        } else if h.length > self.config.max_frame_size as u64 {
            Some(Violation::FrameTooLarge)
        } else {
            None
        }
    }

    /// Gives the connection up after a violation or a failed transport.
    pub fn fail(&mut self)
        ensures
            *final(self) == failed(*old(self)),
    {
        self.recv = RecvState::Idle;
        self.close = CloseState::Closed;
        self.text = Utf8State::Ready;
    }

    fn data_frame(
        &mut self,
        buf: &mut Vec<u8>,
        kind: Message,
        fin: bool,
        p: &[u8],
        text0: Utf8State,
    ) -> (r: Action)
        ensures
            (*final(self), final(buf)@, r) == data_step(*old(self), old(buf)@, kind, fin, p@, text0),
    {
        let max = self.config.max_message_size;
        if buf.len() > max || p.len() > max - buf.len() {
            self.fail();
            return Action::TooBig;
        }
        append_bytes(buf, p);
        let t = if matches!(kind, Message::Text) {
            text0.feed(p)
        } else {
            Utf8State::Ready
        };
        if fin {
            if matches!(kind, Message::Text) && t != Utf8State::Ready {
                self.fail();
                Action::Fail(Violation::InvalidUtf8)
            } else {
                self.recv = RecvState::Idle;
                self.text = Utf8State::Ready;
                Action::Deliver(kind)
            }
        } else {
            if matches!(kind, Message::Text) && t == Utf8State::Invalid {
                self.fail();
                Action::Fail(Violation::InvalidUtf8)
            } else {
                self.recv = RecvState::Assembling(kind);
                self.text = t;
                Action::Continue
            }
        }
    }

    /// Takes in one received frame: header `h` and its payload, unmasked.
    /// `buf` is the message buffer; payload bytes of data frames accumulate
    /// in it until a message is complete.
    pub fn on_frame(&mut self, h: &FrameHeader, payload: &[u8], buf: &mut Vec<u8>) -> (r: Action)
        ensures
            (*final(self), final(buf)@, r) == step(*old(self), old(buf)@, *h, payload@),
    {
        if let Some(v) = self.header_violation(h) {
            self.fail();
            return Action::Fail(v);
        }
        match h.opcode {
            Opcode::Ping => Action::SendPong,
            Opcode::Pong => Action::Continue,
            Opcode::Close => match check_close_body(payload) {
                Some(v) => {
                    self.fail();
                    Action::Fail(v)
                },
                None => {
                    let was_open = matches!(self.close, CloseState::Open);
                    self.recv = RecvState::Idle;
                    self.close = CloseState::Closed;
                    self.text = Utf8State::Ready;
                    self.peer_code = if payload.len() >= 2 {
                        Some(payload[0] as u16 * 256 + payload[1] as u16)
                    } else {
                        None
                    };
                    if was_open {
                        Action::EchoClose
                    } else {
                        Action::Closed
                    }
                },
            },
            Opcode::Text | Opcode::Binary => {
                let kind = if matches!(h.opcode, Opcode::Text) {
                    Message::Text
                } else {
                    Message::Binary
                };
                if matches!(self.recv, RecvState::Assembling(_)) {
                    self.fail();
                    Action::Fail(Violation::InterleavedData)
                } else {
                    buf.clear();
                    self.data_frame(buf, kind, h.fin, payload, Utf8State::Ready)
                }
            },
            Opcode::Continuation => match self.recv {
                RecvState::Idle => {
                    self.fail();
                    Action::Fail(Violation::UnexpectedContinuation)
                },
                RecvState::Assembling(kind) => {
                    let t = self.text;
                    self.data_frame(buf, kind, h.fin, payload, t)
                },
            },
        }
    }
}

/// The rule that a received close body breaks, if any.
pub fn check_close_body(p: &[u8]) -> (r: Option<Violation>)
    ensures
        r == close_body_violation(p@),
{
    if p.len() == 1 {
        return Some(Violation::InvalidCloseBody);
    }
    if p.len() >= 2 {
        let code: u16 = p[0] as u16 * 256 + p[1] as u16;
        if !CloseCode::is_valid_on_wire(code) {
            return Some(Violation::InvalidCloseCode);
        }
        let (_, reason) = p.split_at(2);
        assert(reason@ =~= p@.skip(2));
        if !crate::utf8::is_valid_text(reason) {
            return Some(Violation::InvalidCloseReason);
        }
    }
    None
}

/// The bytes of a single control frame (FIN set) with `payload` as its body.
pub fn control_frame(opcode: Opcode, payload: &[u8], mask: [u8; 4]) -> (r: Vec<u8>)
    requires
        payload@.len() <= 125,
    ensures
        r@ == encoded_frame(true, opcode, payload@, mask@),
{
    let mut data: Vec<u8> = Vec::new();
    append_bytes(&mut data, payload);
    let mut k: usize = 0;
    while k < CONTROL_HEADER_LEN
        invariant
            k <= CONTROL_HEADER_LEN,
            data@.len() == payload@.len() + k,
            data@.take(payload@.len() as int) == payload@,
        decreases CONTROL_HEADER_LEN - k,
    {
        data.push(0u8);
        k = k + 1;
        assert(data@.take(payload@.len() as int) =~= payload@);
    }
    let frame = Frame { fin: true, opcode };
    frame.encode_control_slice(data.as_mut_slice(), mask);
    data
}

/// The bytes of a message sent as a single frame (FIN set).
pub fn message_frame(opcode: Opcode, payload: &[u8], mask: [u8; 4]) -> (r: Vec<u8>)
    requires
        payload@.len() + 14 <= usize::MAX,
    ensures
        r@ == encoded_frame(true, opcode, payload@, mask@),
{
    let mut data: Vec<u8> = Vec::new();
    append_bytes(&mut data, payload);
    let frame = Frame { fin: true, opcode };
    frame.encode_vec(&mut data, mask);
    data
}

/// The header of part `k` of a message of kind `kind` sent in `n` parts:
/// the first carries the message's opcode, the others are continuations,
/// and only the last has FIN set.
pub open spec fn fragment_header(kind: Message, k: int, n: int, len: nat) -> FrameHeader {
    FrameHeader {
        fin: k == n - 1,
        opcode: if k == 0 {
            if kind is Text {
                Opcode::Text
            } else {
                Opcode::Binary
            }
        } else {
            Opcode::Continuation
        },
        masked: false,
        length: len as u64,
        mask: None,
        header_len: 2,
    }
}

/// The first `k` parts, joined.
pub open spec fn joined(parts: Seq<Seq<u8>>, k: nat) -> Seq<u8>
    decreases k,
{
    if k == 0 || k > parts.len() {
        seq![]
    } else {
        joined(parts, (k - 1) as nat) + parts[k - 1]
    }
}

/// The outcome of receiving the first `k` parts of a fragmented message,
/// stopping at the first action other than `Continue`.
pub open spec fn feed_fragments(
    s: ClientState,
    buf: Seq<u8>,
    kind: Message,
    parts: Seq<Seq<u8>>,
    k: nat,
) -> (ClientState, Seq<u8>, Action)
    decreases k,
{
    if k == 0 {
        (s, buf, Action::Continue)
    } else {
        let prev = feed_fragments(s, buf, kind, parts, (k - 1) as nat);
        if prev.2 is Continue {
            step(
                prev.0,
                prev.1,
                fragment_header(kind, k - 1, parts.len() as int, parts[k - 1].len()),
                parts[k - 1],
            )
        } else {
            prev
        }
    }
}

proof fn lemma_joined_prefix(parts: Seq<Seq<u8>>, k: nat, n: nat)
    requires
        k <= n <= parts.len(),
    ensures
        joined(parts, k).len() <= joined(parts, n).len(),
        joined(parts, n).take(joined(parts, k).len() as int) == joined(parts, k),
    decreases n,
{
    if k < n {
        lemma_joined_prefix(parts, k, (n - 1) as nat);
        let a = joined(parts, k);
        let b = joined(parts, (n - 1) as nat);
        assert(joined(parts, n) == b + parts[n - 1]);
        assert(joined(parts, n).take(a.len() as int) =~= b.take(a.len() as int));
    } else {
        assert(joined(parts, n).take(joined(parts, k).len() as int) =~= joined(parts, k));
    }
}

/// The assembling state after `k` parts, none of them the last.
pub open spec fn assembling_after(s: ClientState, kind: Message, parts: Seq<Seq<u8>>, k: nat) -> (
    ClientState,
    Seq<u8>,
    Action,
) {
    (
        ClientState {
            recv: RecvState::Assembling(kind),
            text: if kind is Text {
                utf8_run(Utf8State::Ready, joined(parts, k))
            } else {
                Utf8State::Ready
            },
            ..s
        },
        joined(parts, k),
        Action::Continue,
    )
}

proof fn lemma_feed_parts(s: ClientState, buf: Seq<u8>, kind: Message, parts: Seq<Seq<u8>>, k: nat)
    requires
        s.recv is Idle,
        1 <= k < parts.len(),
        forall|i: int| 0 <= i < parts.len() ==> parts[i].len() <= s.config.max_frame_size,
        joined(parts, parts.len()).len() <= s.config.max_message_size,
        kind is Text ==> valid_text(joined(parts, parts.len())),
    ensures
        feed_fragments(s, buf, kind, parts, k) == assembling_after(s, kind, parts, k),
    decreases k,
{
    let n = parts.len();
    lemma_joined_prefix(parts, k, n);
    let all = joined(parts, n);
    let pre = joined(parts, k);
    assert(all == pre + all.skip(pre.len() as int)) by {
        assert(all =~= all.take(pre.len() as int) + all.skip(pre.len() as int));
    }
    if kind is Text {
        crate::utf8::lemma_valid_prefix(pre, all.skip(pre.len() as int));
    }
    let p = parts[k - 1];
    let hdr = fragment_header(kind, k - 1, n as int, p.len());
    assert(p.len() <= s.config.max_frame_size);
    assert(hdr.length == p.len());
    assert(!hdr.fin);
    if k == 1 {
        assert(pre =~= seq![] + p);
        assert(feed_fragments(s, buf, kind, parts, 0) == (s, buf, Action::Continue));
        assert(step(s, buf, hdr, p) == data_step(s, seq![], kind, false, p, Utf8State::Ready));
        assert(utf8_run(Utf8State::Ready, seq![]) == Utf8State::Ready);
        crate::utf8::lemma_run_concat(Utf8State::Ready, seq![], p);
    } else {
        lemma_feed_parts(s, buf, kind, parts, (k - 1) as nat);
        let prev = joined(parts, (k - 1) as nat);
        let st = assembling_after(s, kind, parts, (k - 1) as nat).0;
        assert(pre == prev + p);
        crate::utf8::lemma_run_concat(Utf8State::Ready, prev, p);
        assert(step(st, prev, hdr, p) == data_step(st, prev, kind, false, p, st.text));
    }
}

/// A message sent as parts (the first with the message's opcode and FIN
/// clear, then continuations, the last with FIN set) is delivered whole:
/// the message buffer then holds the parts joined, and the client is idle
/// again. Parts must fit the frame limit, the whole the message limit, and a
/// text message must be well-formed UTF-8.
pub proof fn lemma_fragments_reassemble(
    s: ClientState,
    buf: Seq<u8>,
    kind: Message,
    parts: Seq<Seq<u8>>,
)
    requires
        s.recv is Idle,
        parts.len() >= 1,
        forall|i: int| 0 <= i < parts.len() ==> parts[i].len() <= s.config.max_frame_size,
        joined(parts, parts.len()).len() <= s.config.max_message_size,
        kind is Text ==> valid_text(joined(parts, parts.len())),
    ensures
        feed_fragments(s, buf, kind, parts, parts.len()) == (
            ClientState { recv: RecvState::Idle, text: Utf8State::Ready, ..s },
            joined(parts, parts.len()),
            Action::Deliver(kind),
        ),
{
    let n = parts.len();
    let p = parts[n - 1];
    let hdr = fragment_header(kind, n - 1, n as int, p.len());
    assert(p.len() <= s.config.max_frame_size);
    assert(hdr.length == p.len());
    assert(hdr.fin);
    lemma_joined_prefix(parts, n, n);
    if n == 1 {
        assert(joined(parts, 1) =~= seq![] + p);
        assert(feed_fragments(s, buf, kind, parts, 0) == (s, buf, Action::Continue));
        assert(step(s, buf, hdr, p) == data_step(s, seq![], kind, true, p, Utf8State::Ready));
        crate::utf8::lemma_run_concat(Utf8State::Ready, seq![], p);
        assert(seq![] + p =~= p);
    } else {
        lemma_feed_parts(s, buf, kind, parts, (n - 1) as nat);
        let prev = joined(parts, (n - 1) as nat);
        let st = assembling_after(s, kind, parts, (n - 1) as nat).0;
        assert(joined(parts, n) == prev + p);
        crate::utf8::lemma_run_concat(Utf8State::Ready, prev, p);
        assert(step(st, prev, hdr, p) == data_step(st, prev, kind, true, p, st.text));
    }
}

/// A text message that is not well-formed UTF-8 is refused as a violation
/// answered with status 1007, and the connection is given up.
pub proof fn lemma_invalid_text_refused(s: ClientState, buf: Seq<u8>, h: FrameHeader, p: Seq<u8>)
    requires
        s.recv is Idle,
        h.opcode is Text,
        h.fin,
        !h.masked,
        h.length <= s.config.max_frame_size,
        p.len() <= s.config.max_message_size,
        !valid_text(p),
    ensures
        step(s, buf, h, p) == (failed(s), p, Action::Fail(Violation::InvalidUtf8)),
        violation_close_code(Violation::InvalidUtf8) == 1007,
{
    assert(seq![] + p =~= p);
}

proof fn lemma_text_parts_progress(s: ClientState, buf: Seq<u8>, parts: Seq<Seq<u8>>, k: nat)
    requires
        s.recv is Idle,
        1 <= k <= parts.len(),
        forall|i: int| 0 <= i < parts.len() ==> parts[i].len() <= s.config.max_frame_size,
        joined(parts, parts.len()).len() <= s.config.max_message_size,
    ensures
        ({
            let r = feed_fragments(s, buf, Message::Text, parts, k);
            ||| (k < parts.len() && r == assembling_after(s, Message::Text, parts, k))
            ||| r.2 == Action::Fail(Violation::InvalidUtf8)
            ||| (k == parts.len() && valid_text(joined(parts, k)))
        }),
    decreases k,
{
    let n = parts.len();
    let p = parts[k - 1];
    let hdr = fragment_header(Message::Text, k - 1, n as int, p.len());
    assert(p.len() <= s.config.max_frame_size);
    assert(hdr.length == p.len());
    lemma_joined_prefix(parts, k, n);
    let pre = joined(parts, k);
    if k == 1 {
        assert(pre =~= seq![] + p);
        assert(feed_fragments(s, buf, Message::Text, parts, 0) == (s, buf, Action::Continue));
        assert(step(s, buf, hdr, p) == data_step(
            s,
            seq![],
            Message::Text,
            hdr.fin,
            p,
            Utf8State::Ready,
        ));
        crate::utf8::lemma_run_concat(Utf8State::Ready, seq![], p);
        assert(seq![] + p =~= p);
    } else {
        lemma_text_parts_progress(s, buf, parts, (k - 1) as nat);
        let prev = joined(parts, (k - 1) as nat);
        assert(pre == prev + p);
        crate::utf8::lemma_run_concat(Utf8State::Ready, prev, p);
        let r = feed_fragments(s, buf, Message::Text, parts, (k - 1) as nat);
        if r == assembling_after(s, Message::Text, parts, (k - 1) as nat) {
            let st = r.0;
            assert(step(st, prev, hdr, p) == data_step(st, prev, Message::Text, hdr.fin, p, st.text));
        }
    }
}

/// A text message that is not well-formed UTF-8, sent in any number of
/// parts, is refused as a violation answered with status 1007, at the latest
/// when its last part arrives.
pub proof fn lemma_invalid_fragmented_text_refused(
    s: ClientState,
    buf: Seq<u8>,
    parts: Seq<Seq<u8>>,
)
    requires
        s.recv is Idle,
        parts.len() >= 1,
        forall|i: int| 0 <= i < parts.len() ==> parts[i].len() <= s.config.max_frame_size,
        joined(parts, parts.len()).len() <= s.config.max_message_size,
        !valid_text(joined(parts, parts.len())),
    ensures
        feed_fragments(s, buf, Message::Text, parts, parts.len()).2 == Action::Fail(
            Violation::InvalidUtf8,
        ),
        violation_close_code(Violation::InvalidUtf8) == 1007,
{
    lemma_text_parts_progress(s, buf, parts, parts.len());
}

/// A received Close whose status code is one of 999, 1004, 1005, 1006,
/// 1016, 2000 or 5000 is refused with status 1002.
pub proof fn lemma_close_code_refused(s: ClientState, buf: Seq<u8>, h: FrameHeader, p: Seq<u8>)
    requires
        h.opcode is Close,
        !h.masked,
        h.length <= s.config.max_frame_size,
        p.len() >= 2,
        be16(p) == 999 || be16(p) == 1004 || be16(p) == 1005 || be16(p) == 1006 || be16(p)
            == 1016 || be16(p) == 2000 || be16(p) == 5000,
    ensures
        step(s, buf, h, p) == (failed(s), buf, Action::Fail(Violation::InvalidCloseCode)),
        violation_close_code(Violation::InvalidCloseCode) == 1002,
{
}

/// A received Ping is answered with a Pong whose payload is exactly the
/// Ping's, and changes nothing else.
pub proof fn lemma_ping_answered(
    s: ClientState,
    buf: Seq<u8>,
    h: FrameHeader,
    p: Seq<u8>,
    mask: [u8; 4],
)
    requires
        h.opcode is Ping,
        !h.masked,
        h.length <= s.config.max_frame_size,
    ensures
        step(s, buf, h, p) == (s, buf, Action::SendPong),
        p.len() <= 125 ==> {
            let e = encoded_frame(true, Opcode::Pong, p, mask@);
            let hd = crate::codec::parse_spec(e)->Ok_0;
            &&& crate::codec::parse_spec(e) is Ok
            &&& hd.opcode == Opcode::Pong
            &&& hd.fin
            &&& crate::mask::masked(e.subrange(hd.header_len as int, e.len() as int), mask@) == p
        },
{
    if p.len() <= 125 {
        crate::codec::lemma_round_trip(true, Opcode::Pong, p, mask);
    }
}

} // verus!
