//! The session: one connection's registration / keep-alive state machine.
//!
//! A `Comms` owns the transport state machine and the frame buffer.  On a
//! read-readiness event it appends whatever the transport produced, drains
//! every complete frame, parses each frame and dispatches the results in
//! strict arrival order.  A conforming keep-alive ping is answered
//! immediately and surfaces nothing; the first other inbound message
//! triggers the registration handshake, exactly once.  Writes the session
//! decides on are returned as wire lines for the embedder to send.

use vstd::prelude::*;

use crate::frame::FrameView;
use crate::frame::MsgBuf;
use crate::frame::RawFrame;
use crate::frame::frame_views;
use crate::frame::frames_of;
use crate::frame::rest_of;
use crate::frame::strip_denied;
use crate::msg::Cmd;
use crate::msg::CmdView;
use crate::msg::Msg;
use crate::msg::MsgView;
use crate::msg::param_views;
use crate::msg::parse_msg;
use crate::msg::render_wire;
use crate::stream::ConnPhase;
use crate::stream::HsEvent;
use crate::stream::IoErrorKind;
use crate::stream::ReadEvent;
use crate::stream::ReadEventView;
use crate::stream::Stream;
use crate::stream::StreamErr;

verus! {

/// Registration progress of one session.  The transition happens exactly
/// once, from `Introducing` to `SteadyState`, when the first inbound
/// message that is not a conforming keep-alive ping is processed.
#[derive(Debug, PartialEq, Eq, Clone)]
pub enum SessionState {
    Introducing { nick: Vec<u8>, hostname: Vec<u8>, realname: Vec<u8> },
    SteadyState,
}

/// The abstract value of a session state.
pub enum StateView {
    Introducing { nick: Seq<u8>, hostname: Seq<u8>, realname: Seq<u8> },
    SteadyState,
}

impl View for SessionState {
    type V = StateView;

    open spec fn view(&self) -> StateView {
        match self {
            SessionState::Introducing { nick, hostname, realname } => StateView::Introducing {
                nick: nick@,
                hostname: hostname@,
                realname: realname@,
            },
            SessionState::SteadyState => StateView::SteadyState,
        }
    }
}

/// Why a result reports a failure (the taxonomy of this layer).
#[derive(Debug, PartialEq, Eq, Clone)]
pub enum CommsErr {
    /// A terminal transport condition.
    Transport(StreamErr),
    /// A write the session asked for could not be completed; constructed by
    /// the embedder that performs the writes.
    WriteFailed,
    /// A line feed arrived without its preceding carriage return.
    FrameFormat,
    /// One message body did not match the grammar; never fatal.
    Parse,
}

/// One result surfaced to the caller.
#[derive(Debug, PartialEq, Eq, Clone)]
pub enum CommsRet {
    /// Clean peer close: terminal, but not an error.
    Disconnected,
    Failure { err: CommsErr },
    /// A message with an origin prefix: from a named peer.
    IncomingMsg { pfx: Vec<u8>, cmd: Cmd, args: Vec<Vec<u8>> },
    /// A message without a prefix is assumed to originate from the
    /// connection it was received on: an echo of this connection's output.
    SentMsg { cmd: Cmd, args: Vec<Vec<u8>> },
}

/// The abstract value of one result.
#[verifier::ext_equal]
pub enum CommsRetView {
    Disconnected,
    Failure { err: CommsErr },
    IncomingMsg { pfx: Seq<u8>, cmd: CmdView, args: Seq<Seq<u8>> },
    SentMsg { cmd: CmdView, args: Seq<Seq<u8>> },
}

impl View for CommsRet {
    type V = CommsRetView;

    open spec fn view(&self) -> CommsRetView {
        match self {
            CommsRet::Disconnected => CommsRetView::Disconnected,
            CommsRet::Failure { err } => CommsRetView::Failure { err: *err },
            CommsRet::IncomingMsg { pfx, cmd, args } => CommsRetView::IncomingMsg {
                pfx: pfx@,
                cmd: cmd@,
                args: param_views(args@),
            },
            CommsRet::SentMsg { cmd, args } => CommsRetView::SentMsg {
                cmd: cmd@,
                args: param_views(args@),
            },
        }
    }
}

/// The abstract values of a result vector.
pub open spec fn ret_views(v: Seq<CommsRet>) -> Seq<CommsRetView> {
    v.map_values(|x: CommsRet| x@)
}

pub open spec fn ping_verb() -> Seq<u8> {
    seq![80u8, 73u8, 78u8, 71u8]
}

pub open spec fn pong_verb() -> Seq<u8> {
    seq![80u8, 79u8, 78u8, 71u8]
}

pub open spec fn user_verb() -> Seq<u8> {
    seq![85u8, 83u8, 69u8, 82u8]
}

pub open spec fn nick_verb() -> Seq<u8> {
    seq![78u8, 73u8, 67u8, 75u8]
}

/// A conforming keep-alive probe: the ping verb with exactly one parameter.
pub open spec fn is_ping(m: MsgView) -> bool {
    m.cmd == CmdView::Str(ping_verb()) && m.params.len() == 1
}

/// The keep-alive reply line echoing `param`.
pub open spec fn pong_wire(param: Seq<u8>) -> Seq<u8> {
    render_wire(MsgView { pfx: None, cmd: CmdView::Str(pong_verb()), params: seq![param] })
}

/// The identity line of the registration handshake.
pub open spec fn user_wire(hostname: Seq<u8>, realname: Seq<u8>) -> Seq<u8> {
    render_wire(
        MsgView { pfx: None, cmd: CmdView::Str(user_verb()), params: seq![hostname, realname] },
    )
}

/// The nickname line of the registration handshake.
pub open spec fn nick_wire(nick: Seq<u8>) -> Seq<u8> {
    render_wire(MsgView { pfx: None, cmd: CmdView::Str(nick_verb()), params: seq![nick] })
}

/// The registration handshake: identity line, then nickname line.
pub open spec fn handshake_wires(nick: Seq<u8>, hostname: Seq<u8>, realname: Seq<u8>) -> Seq<
    Seq<u8>,
> {
    seq![user_wire(hostname, realname), nick_wire(nick)]
}

/// The effect of dispatching inbound frames: the state afterwards, the
/// results surfaced to the caller, and the wire lines to write, in order.
#[verifier::ext_equal]
pub struct Dispatch {
    pub state: StateView,
    pub rets: Seq<CommsRetView>,
    pub outs: Seq<Seq<u8>>,
}

/// Dispatch policy for one parsed message.
pub open spec fn step_msg(st: StateView, m: MsgView) -> Dispatch {
    if is_ping(m) {
        Dispatch { state: st, rets: Seq::empty(), outs: seq![pong_wire(m.params[0])] }
    } else {
        let outs = match st {
            StateView::Introducing { nick, hostname, realname } => handshake_wires(
                nick,
                hostname,
                realname,
            ),
            StateView::SteadyState => Seq::empty(),
        };
        let ret = match m.pfx {
            None => CommsRetView::SentMsg { cmd: m.cmd, args: m.params },
            Some(p) => CommsRetView::IncomingMsg { pfx: p, cmd: m.cmd, args: m.params },
        };
        Dispatch { state: StateView::SteadyState, rets: seq![ret], outs: outs }
    }
}

/// Dispatch policy for one drained frame.
pub open spec fn step_frame(st: StateView, f: FrameView) -> Dispatch {
    match f {
        FrameView::Malformed => Dispatch {
            state: st,
            rets: seq![CommsRetView::Failure { err: CommsErr::FrameFormat }],
            outs: Seq::empty(),
        },
        FrameView::Line(b) => match parse_msg(b) {
            None => Dispatch {
                state: st,
                rets: seq![CommsRetView::Failure { err: CommsErr::Parse }],
                outs: Seq::empty(),
            },
            Some(m) => step_msg(st, m),
        },
    }
}

/// Dispatching a frame sequence, in order.
pub open spec fn run_frames(st: StateView, fs: Seq<FrameView>) -> Dispatch
    decreases fs.len(),
{
    if fs.len() == 0 {
        Dispatch { state: st, rets: Seq::empty(), outs: Seq::empty() }
    } else {
        let d = step_frame(st, fs.first());
        let rest = run_frames(d.state, fs.drop_first());
        Dispatch { state: rest.state, rets: d.rets + rest.rets, outs: d.outs + rest.outs }
    }
}

/// The combined effect of one read-readiness event on a session.
#[verifier::ext_equal]
pub struct SessionStep {
    pub state: StateView,
    pub buf: Seq<u8>,
    pub rets: Seq<CommsRetView>,
    pub outs: Seq<Seq<u8>>,
}

/// What one read-readiness event does to a session: data is ingested,
/// framed and dispatched; a clean close surfaces exactly one Disconnected
/// result; the try-again signal surfaces nothing; failures surface exactly
/// one typed error result.  Nothing but data touches the frame buffer.
pub open spec fn read_step(st: StateView, buf: Seq<u8>, ev: ReadEventView) -> SessionStep {
    match ev {
        ReadEventView::Data(bytes) => {
            let b1 = buf + strip_denied(bytes);
            let d = run_frames(st, frames_of(b1));
            SessionStep { state: d.state, buf: rest_of(b1), rets: d.rets, outs: d.outs }
        },
        ReadEventView::Eof => SessionStep {
            state: st,
            buf: buf,
            rets: seq![CommsRetView::Disconnected],
            outs: Seq::empty(),
        },
        ReadEventView::WouldBlock => SessionStep {
            state: st,
            buf: buf,
            rets: Seq::empty(),
            outs: Seq::empty(),
        },
        ReadEventView::Failed => SessionStep {
            state: st,
            buf: buf,
            rets: seq![
                CommsRetView::Failure {
                    err: CommsErr::Transport(StreamErr::IoError(IoErrorKind::Other)),
                },
            ],
            outs: Seq::empty(),
        },
        ReadEventView::HsStep(h) => match h {
            HsEvent::Failed => SessionStep {
                state: st,
                buf: buf,
                rets: seq![CommsRetView::Failure { err: CommsErr::Transport(StreamErr::TlsError) }],
                outs: Seq::empty(),
            },
            _ => SessionStep { state: st, buf: buf, rets: Seq::empty(), outs: Seq::empty() },
        },
    }
}

/// The abstract value of a session.
#[verifier::ext_equal]
pub struct CommsView {
    pub stream: Stream,
    pub state: StateView,
    pub buf: Seq<u8>,
    pub serv_name: Seq<u8>,
}

/// One connection's session: transport, frame buffer, and registration
/// state.  Created on connect; destroyed on close or error.
pub struct Comms {
    stream: Stream,
    state: SessionState,
    msg_buf: MsgBuf,
    /// The label the caller knows this connection under.
    pub serv_name: Vec<u8>,
}

impl View for Comms {
    type V = CommsView;

    closed spec fn view(&self) -> CommsView {
        CommsView {
            stream: self.stream,
            state: self.state@,
            buf: self.msg_buf@,
            serv_name: self.serv_name@,
        }
    }
}

fn is_ping_msg(m: &Msg) -> (r: bool)
    ensures
        r == is_ping(m@),
{
    match &m.cmd {
        Cmd::Str(v) => {
            if m.params.len() == 1 && v.len() == 4 {
                let r = v[0] == 80 && v[1] == 73 && v[2] == 78 && v[3] == 71;
                proof {
                    if r {
                        assert(v@ =~= ping_verb());
                    } else {
                        if v@ == ping_verb() {
                            assert(v@[0] == 80 && v@[1] == 73 && v@[2] == 78 && v@[3] == 71);
                        }
                    }
                }
                r
            } else {
                proof {
                    if m@.cmd == CmdView::Str(ping_verb()) {
                        assert(v@ == ping_verb());
                        assert(v@.len() == 4);
                    }
                }
                false
            }
        },
        Cmd::Num(_) => false,
    }
}

fn make_verb(a: u8, b: u8, c: u8, d: u8) -> (r: Vec<u8>)
    ensures
        r@ == seq![a, b, c, d],
{
    let mut v: Vec<u8> = Vec::new();
    v.push(a);
    v.push(b);
    v.push(c);
    v.push(d);
    proof {
        assert(v@ =~= seq![a, b, c, d]);
    }
    v
}

fn pong_wire_exec(param: Vec<u8>) -> (r: Vec<u8>)
    ensures
        r@ == pong_wire(param@),
{
    let verb = make_verb(80, 79, 78, 71);
    let ghost pv = param@;
    let mut params: Vec<Vec<u8>> = Vec::new();
    params.push(param);
    let m = Msg { pfx: None, cmd: Cmd::Str(verb), params: params };
    proof {
        assert(verb@ =~= pong_verb());
        assert(m@.params =~= seq![pv]);
        assert(m@ =~~= (MsgView { pfx: None, cmd: CmdView::Str(pong_verb()), params: seq![pv] }));
    }
    m.render()
}

fn user_wire_exec(hostname: &Vec<u8>, realname: &Vec<u8>) -> (r: Vec<u8>)
    ensures
        r@ == user_wire(hostname@, realname@),
{
    let verb = make_verb(85, 83, 69, 82);
    let mut params: Vec<Vec<u8>> = Vec::new();
    params.push(hostname.clone());
    params.push(realname.clone());
    let m = Msg { pfx: None, cmd: Cmd::Str(verb), params: params };
    proof {
        assert(verb@ =~= user_verb());
        assert(m@.params =~= seq![hostname@, realname@]);
        assert(m@ =~~= (MsgView {
            pfx: None,
            cmd: CmdView::Str(user_verb()),
            params: seq![hostname@, realname@],
        }));
    }
    m.render()
}

fn nick_wire_exec(nick: &Vec<u8>) -> (r: Vec<u8>)
    ensures
        r@ == nick_wire(nick@),
{
    let verb = make_verb(78, 73, 67, 75);
    let mut params: Vec<Vec<u8>> = Vec::new();
    params.push(nick.clone());
    let m = Msg { pfx: None, cmd: Cmd::Str(verb), params: params };
    proof {
        assert(verb@ =~= nick_verb());
        assert(m@.params =~= seq![nick@]);
        assert(m@ =~~= (MsgView {
            pfx: None,
            cmd: CmdView::Str(nick_verb()),
            params: seq![nick@],
        }));
    }
    m.render()
}

impl Comms {
    /// A fresh session over a just-connected transport, still owing its
    /// registration handshake, with an empty frame buffer.
    pub fn new(
        stream: Stream,
        serv_name: Vec<u8>,
        nick: Vec<u8>,
        hostname: Vec<u8>,
        realname: Vec<u8>,
    ) -> (r: Comms)
        ensures
            r@.stream == stream,
            r@.state == (StateView::Introducing {
                nick: nick@,
                hostname: hostname@,
                realname: realname@,
            }),
            r@.buf == Seq::<u8>::empty(),
            r@.serv_name == serv_name@,
    {
        Comms {
            stream: stream,
            state: SessionState::Introducing { nick, hostname, realname },
            msg_buf: MsgBuf::new(),
            serv_name: serv_name,
        }
    }

    /// The reactor token of this session's transport.
    pub fn get_tok(&self) -> (r: usize)
        ensures
            r == self@.stream.spec_tok(),
    {
        self.stream.get_tok()
    }

    /// Whether the transport may still see readiness events (the reactor
    /// contract forbids them after a terminal condition).
    pub fn is_active(&self) -> (r: bool)
        ensures
            r == (self@.stream.phase() != ConnPhase::Closed),
    {
        match &self.stream {
            Stream::Tcp { phase, .. } => !matches!(phase, ConnPhase::Closed),
            Stream::Tls { phase, .. } => !matches!(phase, ConnPhase::Closed),
        }
    }

    /// Whether readiness events must still drive the encrypted handshake.
    pub fn is_handshaking(&self) -> (r: bool)
        ensures
            r == self@.stream.handshaking(),
    {
        self.stream.is_handshaking()
    }

    /// Applies the dispatch policy to one parsed message.
    fn dispatch_msg(&mut self, m: Msg, rets: &mut Vec<CommsRet>, outs: &mut Vec<Vec<u8>>)
        ensures
            ({
                let d = step_msg(old(self)@.state, m@);
                &&& final(self)@.state == d.state
                &&& ret_views(final(rets)@) == ret_views(old(rets)@) + d.rets
                &&& param_views(final(outs)@) == param_views(old(outs)@) + d.outs
                &&& final(self)@.buf == old(self)@.buf
                &&& final(self)@.stream == old(self)@.stream
                &&& final(self)@.serv_name == old(self)@.serv_name
            }),
    {
        let ghost d = step_msg(old(self)@.state, m@);
        let ghost m0 = m@;
        if is_ping_msg(&m) {
            let mut mm = m;
            let p = mm.params.remove(0);
            proof {
                assert(p@ == m0.params[0]);
            }
            let w = pong_wire_exec(p);
            outs.push(w);
            proof {
                assert(ret_views(rets@) =~= ret_views(old(rets)@) + d.rets);
                assert(param_views(outs@) =~= param_views(old(outs)@) + d.outs);
            }
            return ;
        }
        match &self.state {
            SessionState::Introducing { nick, hostname, realname } => {
                let uw = user_wire_exec(hostname, realname);
                let nw = nick_wire_exec(nick);
                outs.push(uw);
                outs.push(nw);
                proof {
                    assert(param_views(outs@) =~= param_views(old(outs)@) + d.outs);
                }
            },
            SessionState::SteadyState => {
                proof {
                    assert(param_views(outs@) =~= param_views(old(outs)@) + d.outs);
                }
            },
        }
        self.state = SessionState::SteadyState;
        let Msg { pfx, cmd, params } = m;
        match pfx {
            Some(p) => {
                rets.push(CommsRet::IncomingMsg { pfx: p, cmd: cmd, args: params });
            },
            None => {
                rets.push(CommsRet::SentMsg { cmd: cmd, args: params });
            },
        }
        proof {
            assert(ret_views(rets@) =~= ret_views(old(rets)@) + d.rets);
        }
    }

    /// Parses and dispatches drained frames, in strict arrival order.
    #[verifier::rlimit(60)]
    fn handle_frames(&mut self, frames: Vec<RawFrame>, rets: &mut Vec<CommsRet>, outs: &mut Vec<
        Vec<u8>,
    >)
        ensures
            ({
                let d = run_frames(old(self)@.state, frame_views(frames@));
                &&& final(self)@.state == d.state
                &&& ret_views(final(rets)@) == ret_views(old(rets)@) + d.rets
                &&& param_views(final(outs)@) == param_views(old(outs)@) + d.outs
                &&& final(self)@.buf == old(self)@.buf
                &&& final(self)@.stream == old(self)@.stream
                &&& final(self)@.serv_name == old(self)@.serv_name
            }),
    {
        let ghost st0 = old(self)@.state;
        let ghost fv = frame_views(frames@);
        let n = frames.len();
        proof {
            assert(fv.subrange(0, 0) =~= Seq::<FrameView>::empty());
            assert(ret_views(rets@) =~= ret_views(old(rets)@) + run_frames(
                st0,
                fv.subrange(0, 0),
            ).rets);
            assert(param_views(outs@) =~= param_views(old(outs)@) + run_frames(
                st0,
                fv.subrange(0, 0),
            ).outs);
        }
        let mut q: usize = 0;
        while q < n
            invariant
                q <= n,
                n == frames@.len(),
                fv == frame_views(frames@),
                st0 == old(self)@.state,
                self@.state == run_frames(st0, fv.subrange(0, q as int)).state,
                ret_views(rets@) == ret_views(old(rets)@) + run_frames(
                    st0,
                    fv.subrange(0, q as int),
                ).rets,
                param_views(outs@) == param_views(old(outs)@) + run_frames(
                    st0,
                    fv.subrange(0, q as int),
                ).outs,
                self@.buf == old(self)@.buf,
                self@.stream == old(self)@.stream,
                self@.serv_name == old(self)@.serv_name,
            decreases n - q,
        {
            let ghost dcur = run_frames(st0, fv.subrange(0, q as int));
            let ghost dn = step_frame(dcur.state, fv[q as int]);
            let ghost rets_before = rets@;
            let ghost outs_before = outs@;
            match &frames[q] {
                RawFrame::Malformed => {
                    rets.push(CommsRet::Failure { err: CommsErr::FrameFormat });
                    proof {
                        assert(fv[q as int] == FrameView::Malformed);
                        assert(ret_views(rets@) =~= ret_views(rets_before) + dn.rets);
                        assert(param_views(outs@) =~= param_views(outs_before) + dn.outs);
                    }
                },
                RawFrame::Line(bytes) => {
                    proof {
                        assert(fv[q as int] == FrameView::Line(bytes@));
                    }
                    match Msg::parse(bytes.as_slice()) {
                        Err(_) => {
                            rets.push(CommsRet::Failure { err: CommsErr::Parse });
                            proof {
                                assert(ret_views(rets@) =~= ret_views(rets_before) + dn.rets);
                                assert(param_views(outs@) =~= param_views(outs_before) + dn.outs);
                            }
                        },
                        Ok(m) => {
                            self.dispatch_msg(m, rets, outs);
                            proof {
                                assert(dn == step_msg(dcur.state, m@));
                            }
                        },
                    }
                },
            }
            q = q + 1;
            proof {
                assert(fv.subrange(0, q as int) =~= fv.subrange(0, q as int - 1) + seq![
                    fv[q as int - 1],
                ]);
                lemma_dispatch_order(st0, fv.subrange(0, q as int - 1), seq![fv[q as int - 1]]);
                lemma_run_one(dcur.state, fv[q as int - 1]);
                assert(ret_views(old(rets)@) + (dcur.rets + dn.rets) =~= (ret_views(old(rets)@)
                    + dcur.rets) + dn.rets);
                assert(param_views(old(outs)@) + (dcur.outs + dn.outs) =~= (param_views(old(outs)@)
                    + dcur.outs) + dn.outs);
            }
        }
        proof {
            assert(fv.subrange(0, n as int) =~= fv);
        }
    }

    /// Handles one read-readiness event for this session's transport and
    /// returns the results to surface, in arrival order, together with the
    /// wire lines the session wants written (keep-alive replies and the
    /// registration handshake), in order.  Called only between connect and
    /// the first terminal condition.
    pub fn read_incoming_msg(&mut self, ev: ReadEvent) -> (r: (Vec<CommsRet>, Vec<Vec<u8>>))
        requires
            old(self)@.stream.phase() != ConnPhase::Closed,
            old(self)@.stream.fits_read(ev),
        ensures
            ({
                let st = read_step(old(self)@.state, old(self)@.buf, ev@);
                &&& ret_views(r.0@) == st.rets
                &&& param_views(r.1@) == st.outs
                &&& final(self)@.state == st.state
                &&& final(self)@.buf == st.buf
                &&& final(self)@.serv_name == old(self)@.serv_name
            }),
            final(self)@.stream.spec_tok() == old(self)@.stream.spec_tok(),
            final(self)@.stream.is_tls() == old(self)@.stream.is_tls(),
            match ev@ {
                ReadEventView::Data(_) => final(self)@.stream.phase() == ConnPhase::Ready
                    && !(final(self)@.stream.handshaking()),
                ReadEventView::Eof => final(self)@.stream.phase() == ConnPhase::Closed,
                ReadEventView::WouldBlock => final(self)@.stream == old(self)@.stream,
                ReadEventView::Failed => final(self)@.stream.phase() == ConnPhase::Closed,
                ReadEventView::HsStep(h) => match h {
                    HsEvent::Done => final(self)@.stream.phase() == ConnPhase::Ready
                        && !(final(self)@.stream.handshaking()),
                    HsEvent::Again => final(self)@.stream == old(self)@.stream,
                    HsEvent::Failed => final(self)@.stream.phase() == ConnPhase::Closed,
                },
            },
    {
        let mut rets: Vec<CommsRet> = Vec::new();
        let mut outs: Vec<Vec<u8>> = Vec::new();
        let ghost st = read_step(old(self)@.state, old(self)@.buf, ev@);
        match self.stream.read_ready(ev) {
            Ok(bytes) => {
                self.msg_buf.append(bytes.as_slice());
                let frames = self.msg_buf.drain_frames();
                self.handle_frames(frames, &mut rets, &mut outs);
                proof {
                    assert(ret_views(rets@) =~= st.rets);
                    assert(param_views(outs@) =~= st.outs);
                }
            },
            Err(e) => {
                if e.is_would_block() {
                    proof {
                        assert(ret_views(rets@) =~= st.rets);
                        assert(param_views(outs@) =~= st.outs);
                    }
                } else {
                    match e {
                        StreamErr::ConnectionClosed => {
                            rets.push(CommsRet::Disconnected);
                        },
                        _ => {
                            rets.push(CommsRet::Failure { err: CommsErr::Transport(e) });
                        },
                    }
                    proof {
                        assert(ret_views(rets@) =~= st.rets);
                        assert(param_views(outs@) =~= st.outs);
                    }
                }
            },
        }
        (rets, outs)
    }
}

proof fn lemma_run_one(st: StateView, f: FrameView)
    ensures
        run_frames(st, seq![f]) == step_frame(st, f),
{
    let fs = seq![f];
    assert(fs.first() == f);
    assert(fs.drop_first() =~= Seq::<FrameView>::empty());
    let d = step_frame(st, f);
    let rest = run_frames(d.state, fs.drop_first());
    assert(run_frames(d.state, Seq::<FrameView>::empty()) == (Dispatch {
        state: d.state,
        rets: Seq::empty(),
        outs: Seq::empty(),
    }));
    assert(rest == (Dispatch {
        state: d.state,
        rets: Seq::<CommsRetView>::empty(),
        outs: Seq::<Seq<u8>>::empty(),
    }));
    assert(d.rets + Seq::<CommsRetView>::empty() =~= d.rets);
    assert(d.outs + Seq::<Seq<u8>>::empty() =~= d.outs);
    assert(run_frames(st, fs) == (Dispatch {
        state: rest.state,
        rets: d.rets + rest.rets,
        outs: d.outs + rest.outs,
    }));
    assert(run_frames(st, fs) =~~= d);
}

proof fn lemma_count_user_lines_empty()
    ensures
        count_user_lines(Seq::<Seq<u8>>::empty()) == 0,
{
}

proof fn lemma_count_user_lines_single(w: Seq<u8>)
    ensures
        count_user_lines(seq![w]) == if is_user_line(w) {
            1nat
        } else {
            0nat
        },
{
    assert(seq![w].drop_first() =~= Seq::<Seq<u8>>::empty());
    assert(count_user_lines(seq![w].drop_first()) == count_user_lines(Seq::<Seq<u8>>::empty()));
    lemma_count_user_lines_empty();
    assert(seq![w].first() == w);
}

/// Frames handed over in one read are dispatched in strict arrival order:
/// running the dispatch over `fs1 + fs2` equals running it over `fs1` and
/// then, from the state reached, over `fs2`, with results and writes
/// concatenated in that order.
pub proof fn lemma_dispatch_order(st: StateView, fs1: Seq<FrameView>, fs2: Seq<FrameView>)
    ensures
        ({
            let d1 = run_frames(st, fs1);
            let d2 = run_frames(d1.state, fs2);
            run_frames(st, fs1 + fs2) == (Dispatch {
                state: d2.state,
                rets: d1.rets + d2.rets,
                outs: d1.outs + d2.outs,
            })
        }),
    decreases fs1.len(),
{
    let d1 = run_frames(st, fs1);
    let d2 = run_frames(d1.state, fs2);
    if fs1.len() == 0 {
        assert(fs1 + fs2 =~= fs2);
        assert(d1.rets + d2.rets =~= d2.rets);
        assert(d1.outs + d2.outs =~= d2.outs);
        assert(run_frames(st, fs1 + fs2) =~~= (Dispatch {
            state: d2.state,
            rets: d1.rets + d2.rets,
            outs: d1.outs + d2.outs,
        }));
    } else {
        let f = fs1.first();
        let dh = step_frame(st, f);
        assert((fs1 + fs2).first() == f);
        assert((fs1 + fs2).drop_first() =~= fs1.drop_first() + fs2);
        lemma_dispatch_order(dh.state, fs1.drop_first(), fs2);
        let dt1 = run_frames(dh.state, fs1.drop_first());
        assert(dh.rets + (dt1.rets + d2.rets) =~= (dh.rets + dt1.rets) + d2.rets);
        assert(dh.outs + (dt1.outs + d2.outs) =~= (dh.outs + dt1.outs) + d2.outs);
        assert(run_frames(st, fs1 + fs2) =~~= (Dispatch {
            state: d2.state,
            rets: d1.rets + d2.rets,
            outs: d1.outs + d2.outs,
        }));
    }
}

/// Keep-alive transparency: a conforming ping changes no state, surfaces no
/// result, and yields exactly one pong write echoing the same parameter.
pub proof fn lemma_ping_transparent(st: StateView, m: MsgView)
    requires
        is_ping(m),
    ensures
        step_msg(st, m) == (Dispatch {
            state: st,
            rets: Seq::empty(),
            outs: seq![pong_wire(m.params[0])],
        }),
{
}

/// Whether a frame triggers the registration handshake: it parses to a
/// message that is not a conforming ping.
pub open spec fn frame_triggers(f: FrameView) -> bool {
    match f {
        FrameView::Line(b) => match parse_msg(b) {
            Some(m) => !is_ping(m),
            None => false,
        },
        FrameView::Malformed => false,
    }
}

pub open spec fn has_trigger(fs: Seq<FrameView>) -> bool {
    exists|q: int| 0 <= q < fs.len() && frame_triggers(#[trigger] fs[q])
}

/// Whether a wire line is the identity line of the registration handshake.
pub open spec fn is_user_line(w: Seq<u8>) -> bool {
    w.len() >= 4 && w.subrange(0, 4) == user_verb()
}

/// How many identity lines a write sequence holds.
pub open spec fn count_user_lines(outs: Seq<Seq<u8>>) -> nat
    decreases outs.len(),
{
    if outs.len() == 0 {
        0
    } else {
        count_user_lines(outs.drop_first()) + if is_user_line(outs.first()) {
            1nat
        } else {
            0nat
        }
    }
}

proof fn lemma_count_user_lines_concat(a: Seq<Seq<u8>>, b: Seq<Seq<u8>>)
    ensures
        count_user_lines(a + b) == count_user_lines(a) + count_user_lines(b),
    decreases a.len(),
{
    if a.len() == 0 {
        assert(a + b =~= b);
    } else {
        assert((a + b).first() == a.first());
        assert((a + b).drop_first() =~= a.drop_first() + b);
        lemma_count_user_lines_concat(a.drop_first(), b);
    }
}

proof fn lemma_wire_starts_with_verb(verb: Seq<u8>, m: MsgView)
    requires
        m.pfx is None,
        m.cmd == CmdView::Str(verb),
        verb.len() == 4,
    ensures
        render_wire(m).len() >= 4,
        render_wire(m).subrange(0, 4) == verb,
{
    let w = render_wire(m);
    assert(w.subrange(0, 4) =~= verb);
}

proof fn lemma_user_line_shapes(nick: Seq<u8>, hostname: Seq<u8>, realname: Seq<u8>, p: Seq<u8>)
    ensures
        is_user_line(user_wire(hostname, realname)),
        !is_user_line(nick_wire(nick)),
        !is_user_line(pong_wire(p)),
{
    lemma_wire_starts_with_verb(
        user_verb(),
        MsgView { pfx: None, cmd: CmdView::Str(user_verb()), params: seq![hostname, realname] },
    );
    lemma_wire_starts_with_verb(
        nick_verb(),
        MsgView { pfx: None, cmd: CmdView::Str(nick_verb()), params: seq![nick] },
    );
    lemma_wire_starts_with_verb(
        pong_verb(),
        MsgView { pfx: None, cmd: CmdView::Str(pong_verb()), params: seq![p] },
    );
    assert(nick_verb() != user_verb()) by {
        assert(nick_verb()[0] != user_verb()[0]);
    }
    assert(pong_verb() != user_verb()) by {
        assert(pong_verb()[0] != user_verb()[0]);
    }
}

proof fn lemma_steady_run(fs: Seq<FrameView>)
    ensures
        run_frames(StateView::SteadyState, fs).state is SteadyState,
        count_user_lines(run_frames(StateView::SteadyState, fs).outs) == 0,
    decreases fs.len(),
{
    if fs.len() > 0 {
        let d = step_frame(StateView::SteadyState, fs.first());
        assert(count_user_lines(d.outs) == 0) by {
            lemma_step_outs_steady(fs.first());
        }
        lemma_steady_run(fs.drop_first());
        lemma_count_user_lines_concat(
            d.outs,
            run_frames(StateView::SteadyState, fs.drop_first()).outs,
        );
    }
}

proof fn lemma_step_outs_steady(f: FrameView)
    ensures
        run_frames(StateView::SteadyState, seq![f]).state is SteadyState,
        count_user_lines(step_frame(StateView::SteadyState, f).outs) == 0,
{
    let d = step_frame(StateView::SteadyState, f);
    lemma_count_user_lines_empty();
    match f {
        FrameView::Malformed => {
            assert(count_user_lines(d.outs) == 0);
        },
        FrameView::Line(b) => {
            match parse_msg(b) {
                None => {
                    assert(count_user_lines(d.outs) == 0);
                },
                Some(m) => {
                    if is_ping(m) {
                        lemma_user_line_shapes(Seq::empty(), Seq::empty(), Seq::empty(), m.params[0]);
                        lemma_count_user_lines_single(pong_wire(m.params[0]));
                        assert(d.outs == seq![pong_wire(m.params[0])]);
                        assert(count_user_lines(d.outs) == 0);
                    } else {
                        assert(d.outs == Seq::<Seq<u8>>::empty());
                        assert(count_user_lines(d.outs) == 0);
                    }
                },
            }
        },
    }
    lemma_run_one(StateView::SteadyState, f);
}

/// Handshake-once: starting from `Introducing`, across any number of
/// inbound frames, the identity line of the registration handshake is
/// written exactly once if some frame is a message other than a conforming
/// ping, and never otherwise; and the session leaves `Introducing` exactly
/// when that happens.
pub proof fn lemma_handshake_exactly_once(
    nick: Seq<u8>,
    hostname: Seq<u8>,
    realname: Seq<u8>,
    fs: Seq<FrameView>,
)
    ensures
        ({
            let st0 = StateView::Introducing { nick, hostname, realname };
            let d = run_frames(st0, fs);
            &&& count_user_lines(d.outs) == if has_trigger(fs) {
                1nat
            } else {
                0nat
            }
            &&& (d.state is SteadyState <==> has_trigger(fs))
            &&& (!has_trigger(fs) ==> d.state == st0)
        }),
    decreases fs.len(),
{
    let st0 = StateView::Introducing { nick, hostname, realname };
    let d = run_frames(st0, fs);
    if fs.len() == 0 {
        assert(!has_trigger(fs));
        assert(count_user_lines(d.outs) == 0);
    } else {
        let f = fs.first();
        let dh = step_frame(st0, f);
        let rest = fs.drop_first();
        let dt = run_frames(dh.state, rest);
        if frame_triggers(f) {
            assert(has_trigger(fs)) by {
                assert(frame_triggers(fs[0]));
            }
            assert(dh.state is SteadyState);
            assert(dh.outs == handshake_wires(nick, hostname, realname));
            lemma_user_line_shapes(nick, hostname, realname, Seq::empty());
            assert(count_user_lines(dh.outs) == 1) by {
                assert(handshake_wires(nick, hostname, realname) =~= seq![
                    user_wire(hostname, realname),
                ] + seq![nick_wire(nick)]);
                lemma_count_user_lines_concat(
                    seq![user_wire(hostname, realname)],
                    seq![nick_wire(nick)],
                );
                lemma_count_user_lines_single(user_wire(hostname, realname));
                lemma_count_user_lines_single(nick_wire(nick));
            }
            lemma_steady_run(rest);
            lemma_count_user_lines_concat(dh.outs, dt.outs);
        } else {
            assert(dh.state == st0) by {
                match f {
                    FrameView::Malformed => {},
                    FrameView::Line(b) => {
                        match parse_msg(b) {
                            None => {},
                            Some(m) => {
                                assert(is_ping(m));
                            },
                        }
                    },
                }
            }
            assert(count_user_lines(dh.outs) == 0) by {
                lemma_count_user_lines_empty();
                match f {
                    FrameView::Malformed => {},
                    FrameView::Line(b) => {
                        match parse_msg(b) {
                            None => {},
                            Some(m) => {
                                if is_ping(m) {
                                    lemma_user_line_shapes(nick, hostname, realname, m.params[0]);
                                    lemma_count_user_lines_single(pong_wire(m.params[0]));
                                    assert(dh.outs == seq![pong_wire(m.params[0])]);
                                }
                            },
                        }
                    },
                }
            }
            lemma_handshake_exactly_once(nick, hostname, realname, rest);
            lemma_count_user_lines_concat(dh.outs, dt.outs);
            assert(has_trigger(fs) <==> has_trigger(rest)) by {
                if has_trigger(rest) {
                    let q = choose|q: int| 0 <= q < rest.len() && frame_triggers(#[trigger] rest[q]);
                    assert(fs[q + 1] == rest[q]);
                    assert(frame_triggers(fs[q + 1]));
                }
                if has_trigger(fs) {
                    let q = choose|q: int| 0 <= q < fs.len() && frame_triggers(#[trigger] fs[q]);
                    if q == 0 {
                        assert(false);
                    } else {
                        assert(rest[q - 1] == fs[q]);
                        assert(frame_triggers(rest[q - 1]));
                    }
                }
            }
        }
    }
}

} // verus!
