//! The transport state machine behind one non-blocking socket.
//!
//! A `Stream` is the closed sum over the plaintext and the encrypted
//! transport.  Both expose one contract: readiness events advance the
//! connection (and, for the encrypted variant, the handshake) and either
//! yield application bytes or a typed error.  The platform layer that owns
//! the real socket reports what it observed as a plain event; this module
//! decides what the event means for the connection and what the session
//! gets to see, so the session never special-cases encryption.

use vstd::prelude::*;

verus! {

/// The condition of an I/O failure at this layer: the normal try-again
/// signal, or anything genuinely wrong.
#[derive(Debug, PartialEq, Eq, Clone, Copy)]
pub enum IoErrorKind {
    WouldBlock,
    Other,
}

/// A typed transport error.
#[derive(Debug, PartialEq, Eq, Clone, Copy)]
pub enum StreamErr {
    IoError(IoErrorKind),
    CantResolveAddr,
    TlsError,
    ConnectionClosed,
}

impl StreamErr {
    /// Whether this error is the normal flow-control signal that just means
    /// "retry on the next readiness event".
    pub open spec fn spec_is_would_block(self) -> bool {
        self == StreamErr::IoError(IoErrorKind::WouldBlock)
    }

    pub fn is_would_block(&self) -> (r: bool)
        ensures
            r == self.spec_is_would_block(),
    {
        match self {
            StreamErr::IoError(IoErrorKind::WouldBlock) => true,
            _ => false,
        }
    }

    /// Human-readable label for this error.
    pub fn description(&self) -> (r: &'static str)
        ensures
            self is IoError ==> r@ == "I/O error"@,
            self is CantResolveAddr ==> r@ == "Can't resolve address"@,
            self is TlsError ==> r@ == "TLS error"@,
            self is ConnectionClosed ==> r@ == "Connection closed"@,
    {
        match self {
            StreamErr::IoError(_) => "I/O error",
            StreamErr::CantResolveAddr => "Can't resolve address",
            StreamErr::TlsError => "TLS error",
            StreamErr::ConnectionClosed => "Connection closed",
        }
    }
}

/// Connection progress of a transport.
#[derive(Debug, PartialEq, Eq, Clone, Copy)]
pub enum ConnPhase {
    Connecting,
    Ready,
    Closed,
}

/// Handshake progress of the encrypted transport.
#[derive(Debug, PartialEq, Eq, Clone, Copy)]
pub enum HsPhase {
    InProgress,
    Established,
    Failed,
}

/// One incremental step of the handshake as the TLS engine reported it.
#[derive(Debug, PartialEq, Eq, Clone, Copy)]
pub enum HsEvent {
    Done,
    Again,
    Failed,
}

/// What the platform layer observed when asked to fill a read buffer after
/// a read-readiness notification.
#[derive(Debug, PartialEq, Eq, Clone)]
pub enum ReadEvent {
    /// The socket produced these bytes; never empty (an empty read is Eof).
    Data(Vec<u8>),
    /// A clean zero-byte read: the peer closed the connection.
    Eof,
    WouldBlock,
    Failed,
    /// While the handshake is incomplete, readiness drives the handshake.
    HsStep(HsEvent),
}

/// The abstract value of a read event.
pub enum ReadEventView {
    Data(Seq<u8>),
    Eof,
    WouldBlock,
    Failed,
    HsStep(HsEvent),
}

impl View for ReadEvent {
    type V = ReadEventView;

    open spec fn view(&self) -> ReadEventView {
        match self {
            ReadEvent::Data(b) => ReadEventView::Data(b@),
            ReadEvent::Eof => ReadEventView::Eof,
            ReadEvent::WouldBlock => ReadEventView::WouldBlock,
            ReadEvent::Failed => ReadEventView::Failed,
            ReadEvent::HsStep(h) => ReadEventView::HsStep(*h),
        }
    }
}

/// What the platform layer observed when asked to drain pending output
/// after a write-readiness notification.
#[derive(Debug, PartialEq, Eq, Clone, Copy)]
pub enum WriteEvent {
    /// Everything pending went out.
    Flushed,
    WouldBlock,
    Failed,
    /// While the handshake is incomplete, readiness drives the handshake.
    HsStep(HsEvent),
}

/// A transport: exactly one socket, identified by a stable reactor token.
#[derive(Debug, PartialEq, Eq, Clone, Copy)]
pub enum Stream {
    Tcp { tok: usize, phase: ConnPhase },
    Tls { tok: usize, phase: ConnPhase, hs: HsPhase },
}

impl Stream {
    /// The stable token this transport is registered under.
    pub open spec fn spec_tok(self) -> usize {
        match self {
            Stream::Tcp { tok, .. } => tok,
            Stream::Tls { tok, .. } => tok,
        }
    }

    pub open spec fn phase(self) -> ConnPhase {
        match self {
            Stream::Tcp { phase, .. } => phase,
            Stream::Tls { phase, .. } => phase,
        }
    }

    pub open spec fn is_tls(self) -> bool {
        self is Tls
    }

    /// Whether the encrypted handshake is still being driven.
    pub open spec fn handshaking(self) -> bool {
        match self {
            Stream::Tcp { .. } => false,
            Stream::Tls { hs, .. } => hs is InProgress,
        }
    }

    /// Whether application bytes may flow: connection not closed and no
    /// handshake pending.
    pub open spec fn spec_established(self) -> bool {
        !self.handshaking() && self.phase() != ConnPhase::Closed
    }

    /// Which read events can arise in the current state: handshake steps
    /// exactly while handshaking, data only once the handshake is done, and
    /// data is never empty.
    pub open spec fn fits_read(self, ev: ReadEvent) -> bool {
        match ev {
            ReadEvent::HsStep(_) => self.handshaking(),
            ReadEvent::Data(b) => !self.handshaking() && b@.len() > 0,
            _ => !self.handshaking(),
        }
    }

    /// Which write events can arise in the current state.
    pub open spec fn fits_write(self, ev: WriteEvent) -> bool {
        match ev {
            WriteEvent::HsStep(_) => self.handshaking(),
            _ => !self.handshaking(),
        }
    }

    /// A freshly connected transport: connect is in progress, and the
    /// encrypted variant still owes its handshake.
    pub fn new(tok: usize, tls: bool) -> (r: Stream)
        ensures
            r.spec_tok() == tok,
            r.phase() == ConnPhase::Connecting,
            r.is_tls() == tls,
            r.handshaking() == tls,
    {
        if tls {
            Stream::Tls { tok, phase: ConnPhase::Connecting, hs: HsPhase::InProgress }
        } else {
            Stream::Tcp { tok, phase: ConnPhase::Connecting }
        }
    }

    /// The stable identifier for reactor registration and removal.
    pub fn get_tok(&self) -> (r: usize)
        ensures
            r == self.spec_tok(),
    {
        match self {
            Stream::Tcp { tok, .. } => *tok,
            Stream::Tls { tok, .. } => *tok,
        }
    }

    pub fn is_established(&self) -> (r: bool)
        ensures
            r == self.spec_established(),
    {
        match self {
            Stream::Tcp { phase, .. } => !matches!(phase, ConnPhase::Closed),
            Stream::Tls { phase, hs, .. } => !matches!(phase, ConnPhase::Closed) && !matches!(
                hs,
                HsPhase::InProgress,
            ),
        }
    }

    pub fn is_handshaking(&self) -> (r: bool)
        ensures
            r == self.handshaking(),
    {
        match self {
            Stream::Tcp { .. } => false,
            Stream::Tls { hs, .. } => matches!(hs, HsPhase::InProgress),
        }
    }

    fn set_phase(&mut self, p: ConnPhase)
        ensures
            *final(self) == (match *old(self) {
                Stream::Tcp { tok, .. } => Stream::Tcp { tok, phase: p },
                Stream::Tls { tok, hs, .. } => Stream::Tls { tok, phase: p, hs },
            }),
    {
        match self {
            Stream::Tcp { phase, .. } => {
                *phase = p;
            },
            Stream::Tls { phase, .. } => {
                *phase = p;
            },
        }
    }

    fn set_hs_done(&mut self)
        ensures
            *final(self) == (match *old(self) {
                Stream::Tcp { tok, phase } => Stream::Tcp { tok, phase },
                Stream::Tls { tok, .. } => Stream::Tls {
                    tok,
                    phase: ConnPhase::Ready,
                    hs: HsPhase::Established,
                },
            }),
    {
        match self {
            Stream::Tcp { .. } => {},
            Stream::Tls { phase, hs, .. } => {
                *phase = ConnPhase::Ready;
                *hs = HsPhase::Established;
            },
        }
    }

    fn set_hs_failed(&mut self)
        ensures
            *final(self) == (match *old(self) {
                Stream::Tcp { tok, phase } => Stream::Tcp { tok, phase },
                Stream::Tls { tok, .. } => Stream::Tls {
                    tok,
                    phase: ConnPhase::Closed,
                    hs: HsPhase::Failed,
                },
            }),
    {
        match self {
            Stream::Tcp { .. } => {},
            Stream::Tls { phase, hs, .. } => {
                *phase = ConnPhase::Closed;
                *hs = HsPhase::Failed;
            },
        }
    }

    /// Applies one read-readiness outcome.  Called only after a readiness
    /// notification for this transport's token, never before connect
    /// completed a socket and never after a terminal condition was observed.
    /// Yields the decrypted application bytes once available, the try-again
    /// signal while the handshake is incomplete or nothing is readable, and
    /// a terminal error (closing the transport) otherwise.
    pub fn read_ready(&mut self, ev: ReadEvent) -> (r: Result<Vec<u8>, StreamErr>)
        requires
            old(self).phase() != ConnPhase::Closed,
            old(self).fits_read(ev),
        ensures
            final(self).spec_tok() == old(self).spec_tok(),
            final(self).is_tls() == old(self).is_tls(),
            match ev {
                ReadEvent::Data(b) => {
                    &&& r == Ok::<Vec<u8>, StreamErr>(b)
                    &&& final(self).phase() == ConnPhase::Ready
                    &&& !final(self).handshaking()
                },
                ReadEvent::Eof => {
                    &&& r == Err::<Vec<u8>, StreamErr>(StreamErr::ConnectionClosed)
                    &&& final(self).phase() == ConnPhase::Closed
                },
                ReadEvent::WouldBlock => {
                    &&& r == Err::<Vec<u8>, StreamErr>(
                        StreamErr::IoError(IoErrorKind::WouldBlock),
                    )
                    &&& *final(self) == *old(self)
                },
                ReadEvent::Failed => {
                    &&& r == Err::<Vec<u8>, StreamErr>(StreamErr::IoError(IoErrorKind::Other))
                    &&& final(self).phase() == ConnPhase::Closed
                },
                ReadEvent::HsStep(h) => match h {
                    HsEvent::Done => {
                        &&& r == Err::<Vec<u8>, StreamErr>(
                            StreamErr::IoError(IoErrorKind::WouldBlock),
                        )
                        &&& !final(self).handshaking()
                        &&& final(self).phase() == ConnPhase::Ready
                    },
                    HsEvent::Again => {
                        &&& r == Err::<Vec<u8>, StreamErr>(
                            StreamErr::IoError(IoErrorKind::WouldBlock),
                        )
                        &&& *final(self) == *old(self)
                    },
                    HsEvent::Failed => {
                        &&& r == Err::<Vec<u8>, StreamErr>(StreamErr::TlsError)
                        &&& final(self).phase() == ConnPhase::Closed
                    },
                },
            },
    {
        match ev {
            ReadEvent::Data(b) => {
                self.set_phase(ConnPhase::Ready);
                Ok(b)
            },
            ReadEvent::Eof => {
                self.set_phase(ConnPhase::Closed);
                Err(StreamErr::ConnectionClosed)
            },
            ReadEvent::WouldBlock => Err(StreamErr::IoError(IoErrorKind::WouldBlock)),
            ReadEvent::Failed => {
                self.set_phase(ConnPhase::Closed);
                Err(StreamErr::IoError(IoErrorKind::Other))
            },
            ReadEvent::HsStep(h) => match h {
                HsEvent::Done => {
                    self.set_hs_done();
                    Err(StreamErr::IoError(IoErrorKind::WouldBlock))
                },
                HsEvent::Again => Err(StreamErr::IoError(IoErrorKind::WouldBlock)),
                HsEvent::Failed => {
                    self.set_hs_failed();
                    Err(StreamErr::TlsError)
                },
            },
        }
    }

    /// Applies one write-readiness outcome: drains pending output for the
    /// encrypted variant across as many events as it takes, completes a
    /// connect in progress, and otherwise reports the try-again signal or a
    /// terminal error.
    pub fn write_ready(&mut self, ev: WriteEvent) -> (r: Result<(), StreamErr>)
        requires
            old(self).phase() != ConnPhase::Closed,
            old(self).fits_write(ev),
        ensures
            final(self).spec_tok() == old(self).spec_tok(),
            final(self).is_tls() == old(self).is_tls(),
            match ev {
                WriteEvent::Flushed => {
                    &&& r == Ok::<(), StreamErr>(())
                    &&& final(self).phase() == ConnPhase::Ready
                    &&& !final(self).handshaking()
                },
                WriteEvent::WouldBlock => {
                    &&& r == Err::<(), StreamErr>(StreamErr::IoError(IoErrorKind::WouldBlock))
                    &&& *final(self) == *old(self)
                },
                WriteEvent::Failed => {
                    &&& r == Err::<(), StreamErr>(StreamErr::IoError(IoErrorKind::Other))
                    &&& final(self).phase() == ConnPhase::Closed
                },
                WriteEvent::HsStep(h) => match h {
                    HsEvent::Done => {
                        &&& r == Ok::<(), StreamErr>(())
                        &&& !final(self).handshaking()
                        &&& final(self).phase() == ConnPhase::Ready
                    },
                    HsEvent::Again => {
                        &&& r == Err::<(), StreamErr>(
                            StreamErr::IoError(IoErrorKind::WouldBlock),
                        )
                        &&& *final(self) == *old(self)
                    },
                    HsEvent::Failed => {
                        &&& r == Err::<(), StreamErr>(StreamErr::TlsError)
                        &&& final(self).phase() == ConnPhase::Closed
                    },
                },
            },
    {
        match ev {
            WriteEvent::Flushed => {
                self.set_phase(ConnPhase::Ready);
                Ok(())
            },
            WriteEvent::WouldBlock => Err(StreamErr::IoError(IoErrorKind::WouldBlock)),
            WriteEvent::Failed => {
                self.set_phase(ConnPhase::Closed);
                Err(StreamErr::IoError(IoErrorKind::Other))
            },
            WriteEvent::HsStep(h) => match h {
                HsEvent::Done => {
                    self.set_hs_done();
                    Ok(())
                },
                HsEvent::Again => Err(StreamErr::IoError(IoErrorKind::WouldBlock)),
                HsEvent::Failed => {
                    self.set_hs_failed();
                    Err(StreamErr::TlsError)
                },
            },
        }
    }
}

} // verus!
