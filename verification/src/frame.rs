//! Splitting an unbounded byte stream into line-delimited frames.
//!
//! A `MsgBuf` accumulates the bytes handed over by the transport, strips a
//! small denylist of control bytes on ingestion, and yields one frame per
//! line feed.  Framing is resumable: bytes after the last complete frame stay
//! buffered until more input arrives.

use vstd::prelude::*;

verus! {

/// Carriage return: the byte that must immediately precede the line feed.
pub const CR: u8 = 13;

/// Line feed: the byte that terminates a frame.
pub const LF: u8 = 10;

/// Control bytes known to glitch terminal rendering; stripped on ingestion.
pub open spec fn is_denied_byte(b: u8) -> bool {
    b == 0x00 || b == 0x01 || b == 0x02 || b == 0x04
}

/// The subsequence of `s` that survives ingestion: all bytes except the
/// denied control bytes, in order.
pub open spec fn strip_denied(s: Seq<u8>) -> Seq<u8>
    decreases s.len(),
{
    if s.len() == 0 {
        Seq::empty()
    } else if is_denied_byte(s.last()) {
        strip_denied(s.drop_last())
    } else {
        strip_denied(s.drop_last()).push(s.last())
    }
}

/// Index of the first line feed of `s` at or after `i`, or `s.len()` if
/// there is none.
pub open spec fn first_lf_from(s: Seq<u8>, i: int) -> int
    decreases s.len() - i,
{
    if i < 0 || i >= s.len() {
        s.len() as int
    } else if s[i] == LF {
        i
    } else {
        first_lf_from(s, i + 1)
    }
}

/// Index of the first line feed of `s`, or `s.len()` if there is none.
pub open spec fn first_lf(s: Seq<u8>) -> int {
    first_lf_from(s, 0)
}

proof fn lemma_first_lf_from(s: Seq<u8>, i: int)
    requires
        0 <= i <= s.len(),
    ensures
        i <= first_lf_from(s, i) <= s.len(),
        first_lf_from(s, i) < s.len() ==> s[first_lf_from(s, i)] == LF,
        forall|j: int| i <= j < first_lf_from(s, i) ==> s[j] != LF,
    decreases s.len() - i,
{
    if i < s.len() && s[i] != LF {
        lemma_first_lf_from(s, i + 1);
    }
}

proof fn lemma_first_lf_from_is(s: Seq<u8>, i: int, k: int)
    requires
        0 <= i <= k <= s.len(),
        forall|j: int| i <= j < k ==> s[j] != LF,
        k == s.len() || s[k] == LF,
    ensures
        first_lf_from(s, i) == k,
    decreases k - i,
{
    if i < k {
        lemma_first_lf_from_is(s, i + 1, k);
    }
}

/// The abstract value of one drained frame: the bytes of a complete line
/// (terminator removed), or the mark of a malformed line whose feed was not
/// preceded by a carriage return.
pub enum FrameView {
    Line(Seq<u8>),
    Malformed,
}

/// One frame as drained from the buffer.
#[derive(Debug, PartialEq, Eq, Clone)]
pub enum RawFrame {
    Line(Vec<u8>),
    Malformed,
}

impl View for RawFrame {
    type V = FrameView;

    open spec fn view(&self) -> FrameView {
        match self {
            RawFrame::Line(v) => FrameView::Line(v@),
            RawFrame::Malformed => FrameView::Malformed,
        }
    }
}

/// The abstract values of a drained frame sequence.
pub open spec fn frame_views(v: Seq<RawFrame>) -> Seq<FrameView> {
    v.map_values(|f: RawFrame| f@)
}

/// The complete frames contained in `s`, in order: one for every line feed.
/// A feed preceded by a carriage return yields the bytes strictly before the
/// pair; any other feed yields a malformed frame.
pub open spec fn frames_of(s: Seq<u8>) -> Seq<FrameView>
    decreases s.len(),
    via frames_of_dec
{
    let i = first_lf(s);
    if i == s.len() {
        Seq::empty()
    } else {
        let f = if i >= 1 && s[i - 1] == CR {
            FrameView::Line(s.subrange(0, i - 1))
        } else {
            FrameView::Malformed
        };
        seq![f] + frames_of(s.subrange(i + 1, s.len() as int))
    }
}

#[via_fn]
proof fn frames_of_dec(s: Seq<u8>) {
    lemma_first_lf_from(s, 0);
}

/// The bytes left buffered after every complete frame of `s` is drained:
/// the suffix after the last line feed.
pub open spec fn rest_of(s: Seq<u8>) -> Seq<u8>
    decreases s.len(),
    via rest_of_dec
{
    let i = first_lf(s);
    if i == s.len() {
        s
    } else {
        rest_of(s.subrange(i + 1, s.len() as int))
    }
}

#[via_fn]
proof fn rest_of_dec(s: Seq<u8>) {
    lemma_first_lf_from(s, 0);
}

fn denied(b: u8) -> (r: bool)
    ensures
        r == is_denied_byte(b),
{
    b == 0x00 || b == 0x01 || b == 0x02 || b == 0x04
}

fn find_lf(v: &Vec<u8>) -> (r: usize)
    ensures
        r as int == first_lf(v@),
        r <= v@.len(),
{
    let n = v.len();
    let mut k: usize = 0;
    while k < n
        invariant
            k <= n,
            n == v@.len(),
            forall|j: int| 0 <= j < k ==> v@[j] != LF,
        decreases n - k,
    {
        if v[k] == LF {
            proof {
                lemma_first_lf_from_is(v@, 0, k as int);
            }
            return k;
        }
        k = k + 1;
    }
    proof {
        lemma_first_lf_from_is(v@, 0, n as int);
    }
    n
}

fn copy_range(v: &Vec<u8>, a: usize, b: usize) -> (r: Vec<u8>)
    requires
        a <= b && b <= v@.len(),
    ensures
        r@ == v@.subrange(a as int, b as int),
{
    let mut r: Vec<u8> = Vec::new();
    proof {
        assert(r@ =~= v@.subrange(a as int, a as int));
    }
    let mut k: usize = a;
    while k < b
        invariant
            a <= k <= b <= v@.len(),
            r@ == v@.subrange(a as int, k as int),
        decreases b - k,
    {
        r.push(v[k]);
        k = k + 1;
        proof {
            assert(r@ =~= v@.subrange(a as int, k as int));
        }
    }
    r
}

/// Ordered bytes of not-yet-framed input, owned by one session for the whole
/// life of its connection.
pub struct MsgBuf {
    buf: Vec<u8>,
}

impl View for MsgBuf {
    type V = Seq<u8>;

    closed spec fn view(&self) -> Seq<u8> {
        self.buf@
    }
}

impl MsgBuf {
    pub fn new() -> (r: MsgBuf)
        ensures
            r@ == Seq::<u8>::empty(),
    {
        MsgBuf { buf: Vec::new() }
    }

    /// Appends raw input, stripping the denied control bytes.
    pub fn append(&mut self, bytes: &[u8])
        ensures
            final(self)@ == old(self)@ + strip_denied(bytes@),
    {
        let n = bytes.len();
        proof {
            assert(bytes@.subrange(0, 0) =~= Seq::<u8>::empty());
            assert(old(self).buf@ + strip_denied(Seq::<u8>::empty()) =~= old(self).buf@);
        }
        let mut k: usize = 0;
        while k < n
            invariant
                k <= n,
                n == bytes@.len(),
                self.buf@ == old(self).buf@ + strip_denied(bytes@.subrange(0, k as int)),
            decreases n - k,
        {
            proof {
                assert(bytes@.subrange(0, k as int + 1).drop_last() =~= bytes@.subrange(
                    0,
                    k as int,
                ));
                assert(bytes@.subrange(0, k as int + 1).last() == bytes@[k as int]);
            }
            let b = bytes[k];
            if !denied(b) {
                self.buf.push(b);
            }
            k = k + 1;
            proof {
                assert(self.buf@ =~= old(self).buf@ + strip_denied(
                    bytes@.subrange(0, k as int),
                ));
            }
        }
        proof {
            assert(bytes@.subrange(0, n as int) =~= bytes@);
        }
    }

    /// Drains every complete frame, in arrival order.  Draining is
    /// exhaustive: no complete frame is left behind, and what stays buffered
    /// is exactly the unterminated suffix.
    pub fn drain_frames(&mut self) -> (r: Vec<RawFrame>)
        ensures
            frame_views(r@) == frames_of(old(self)@),
            final(self)@ == rest_of(old(self)@),
    {
        let mut out: Vec<RawFrame> = Vec::new();
        proof {
            assert(frame_views(out@) + frames_of(self.buf@) =~= frames_of(old(self).buf@));
        }
        loop
            invariant
                frame_views(out@) + frames_of(self.buf@) == frames_of(old(self).buf@),
                rest_of(self.buf@) == rest_of(old(self).buf@),
            ensures
                frame_views(out@) == frames_of(old(self).buf@),
                self.buf@ == rest_of(old(self).buf@),
            decreases self.buf@.len(),
        {
            let n = self.buf.len();
            let i = find_lf(&self.buf);
            proof {
                lemma_first_lf_from(self.buf@, 0);
            }
            if i == n {
                proof {
                    assert(frames_of(self.buf@) =~= Seq::<FrameView>::empty());
                    assert(frame_views(out@) + frames_of(self.buf@) =~= frame_views(out@));
                    assert(rest_of(self.buf@) == self.buf@);
                }
                break;
            }
            let ghost prev = self.buf@;
            let ghost old_out = out@;
            let f = if i >= 1 && self.buf[i - 1] == CR {
                RawFrame::Line(copy_range(&self.buf, 0, i - 1))
            } else {
                RawFrame::Malformed
            };
            proof {
                let fs = if i as int >= 1 && prev[i as int - 1] == CR {
                    FrameView::Line(prev.subrange(0, i as int - 1))
                } else {
                    FrameView::Malformed
                };
                assert(f@ == fs);
                assert(frames_of(prev) == seq![fs] + frames_of(
                    prev.subrange(i as int + 1, prev.len() as int),
                ));
                assert(rest_of(prev) == rest_of(prev.subrange(i as int + 1, prev.len() as int)));
            }
            out.push(f);
            let tail = copy_range(&self.buf, i + 1, n);
            self.buf = tail;
            proof {
                assert(self.buf@ =~= prev.subrange(i as int + 1, prev.len() as int));
                assert(frame_views(out@) =~= frame_views(old_out).push(f@));
                assert(frame_views(old_out).push(f@) + frames_of(self.buf@) =~= frame_views(
                    old_out,
                ) + (seq![f@] + frames_of(self.buf@)));
                assert(frame_views(out@) + frames_of(self.buf@) =~= frames_of(old(self).buf@));
            }
        }
        out
    }
}

/// Feeding a byte stream in two chunks yields the same frames, in the same
/// order, and the same unconsumed residue, as feeding it in one chunk.
/// Applied inductively, framing is independent of how reads are split.
pub proof fn lemma_chunk_boundary_independence(a: Seq<u8>, b: Seq<u8>)
    ensures
        frames_of(a + b) == frames_of(a) + frames_of(rest_of(a) + b),
        rest_of(a + b) == rest_of(rest_of(a) + b),
    decreases a.len(),
{
    lemma_first_lf_from(a, 0);
    let i = first_lf(a);
    if i == a.len() {
        assert(rest_of(a) == a);
        assert(rest_of(a) + b =~= a + b);
        assert(frames_of(a) =~= Seq::<FrameView>::empty());
        assert(frames_of(a) + frames_of(a + b) =~= frames_of(a + b));
    } else {
        assert(forall|j: int| 0 <= j < i ==> (a + b)[j] == a[j]);
        assert((a + b)[i] == a[i]);
        lemma_first_lf_from_is(a + b, 0, i);
        let a2 = a.subrange(i + 1, a.len() as int);
        assert((a + b).subrange(i + 1, (a + b).len() as int) =~= a2 + b);
        let f = if i >= 1 && a[i - 1] == CR {
            FrameView::Line(a.subrange(0, i - 1))
        } else {
            FrameView::Malformed
        };
        if i >= 1 {
            assert((a + b)[i - 1] == a[i - 1]);
            assert((a + b).subrange(0, i - 1) =~= a.subrange(0, i - 1));
        }
        assert(frames_of(a + b) == seq![f] + frames_of(a2 + b));
        assert(frames_of(a) == seq![f] + frames_of(a2));
        assert(rest_of(a) == rest_of(a2));
        assert(rest_of(a + b) == rest_of(a2 + b));
        lemma_chunk_boundary_independence(a2, b);
        assert(seq![f] + (frames_of(a2) + frames_of(rest_of(a2) + b)) =~= (seq![f] + frames_of(
            a2,
        )) + frames_of(rest_of(a2) + b));
    }
}

/// Ingestion filtering is likewise independent of chunk boundaries.
pub proof fn lemma_strip_denied_concat(a: Seq<u8>, b: Seq<u8>)
    ensures
        strip_denied(a + b) == strip_denied(a) + strip_denied(b),
    decreases b.len(),
{
    if b.len() == 0 {
        assert(a + b =~= a);
        assert(strip_denied(a) + strip_denied(b) =~= strip_denied(a));
    } else {
        lemma_strip_denied_concat(a, b.drop_last());
        assert((a + b).drop_last() =~= a + b.drop_last());
        assert((a + b).last() == b.last());
        if !is_denied_byte(b.last()) {
            assert((strip_denied(a) + strip_denied(b.drop_last())).push(b.last()) =~= strip_denied(
                a,
            ) + strip_denied(b.drop_last()).push(b.last()));
        }
    }
}

proof fn lemma_rest_of_no_lf(s: Seq<u8>)
    ensures
        first_lf(rest_of(s)) == rest_of(s).len(),
    decreases s.len(),
{
    lemma_first_lf_from(s, 0);
    let i = first_lf(s);
    if i < s.len() {
        lemma_rest_of_no_lf(s.subrange(i + 1, s.len() as int));
    }
}

/// Draining twice with no intervening append yields zero frames the second
/// time, and leaves the buffer as the first drain left it.
pub proof fn lemma_drain_idempotent(s: Seq<u8>)
    ensures
        frames_of(rest_of(s)) == Seq::<FrameView>::empty(),
        rest_of(rest_of(s)) == rest_of(s),
{
    lemma_rest_of_no_lf(s);
    assert(frames_of(rest_of(s)) =~= Seq::<FrameView>::empty());
}

} // verus!
