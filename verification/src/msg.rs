//! Parsing and rendering of one line-oriented protocol message.
//!
//! Grammar of one frame (terminator already removed): an optional prefix
//! introduced by `:` and ending at the first separator, a command that is
//! either exactly three digits (a numeric reply) or an alphabetic verb, then
//! separator-delimited parameters, where a parameter introduced by `:`
//! consumes the remainder of the line verbatim.  Parsing works directly on
//! raw bytes, so a malformed remote byte sequence can never abort a session;
//! decoding bytes to text for display is the embedder's concern.

use vstd::arithmetic::div_mod::lemma_breakdown;
use vstd::arithmetic::div_mod::lemma_div_is_ordered;
use vstd::arithmetic::div_mod::lemma_fundamental_div_mod;
use vstd::arithmetic::div_mod::lemma_mod_bound;
use vstd::arithmetic::div_mod::lemma_small_mod;
use vstd::prelude::*;

use crate::frame::CR;
use crate::frame::LF;

verus! {

/// The separator between tokens of a message line.
pub const SP: u8 = 32;

/// The marker that introduces a prefix or a trailing parameter.
pub const COLON: u8 = 58;

/// A command: a three-digit numeric reply code, or a textual verb.
/// The classification is fixed at parse time and never revisited.
#[derive(Debug, PartialEq, Eq, Clone)]
pub enum Cmd {
    Num(u16),
    Str(Vec<u8>),
}

/// The abstract value of a command.
pub enum CmdView {
    Num(u16),
    Str(Seq<u8>),
}

impl View for Cmd {
    type V = CmdView;

    open spec fn view(&self) -> CmdView {
        match self {
            Cmd::Num(n) => CmdView::Num(*n),
            Cmd::Str(v) => CmdView::Str(v@),
        }
    }
}

/// One parsed message: optional origin prefix, command, ordered parameters.
#[derive(Debug, PartialEq, Eq, Clone)]
pub struct Msg {
    pub pfx: Option<Vec<u8>>,
    pub cmd: Cmd,
    pub params: Vec<Vec<u8>>,
}

/// The abstract value of a parsed message.
#[verifier::ext_equal]
pub struct MsgView {
    pub pfx: Option<Seq<u8>>,
    pub cmd: CmdView,
    pub params: Seq<Seq<u8>>,
}

/// The abstract values of a parameter vector.
pub open spec fn param_views(v: Seq<Vec<u8>>) -> Seq<Seq<u8>> {
    v.map_values(|p: Vec<u8>| p@)
}

impl View for Msg {
    type V = MsgView;

    open spec fn view(&self) -> MsgView {
        MsgView {
            pfx: match self.pfx {
                Some(p) => Some(p@),
                None => None,
            },
            cmd: self.cmd@,
            params: param_views(self.params@),
        }
    }
}

/// The report of an unparseable message body; per-message and never fatal to
/// the session.
#[derive(Debug, PartialEq, Eq, Clone)]
pub struct MsgParseError;

/// End of the token that starts at `i`: the index of the first separator at
/// or after `i`, or `s.len()` if there is none.
pub open spec fn tok_end(s: Seq<u8>, i: int) -> int
    decreases s.len() - i,
{
    if i < 0 || i >= s.len() {
        s.len() as int
    } else if s[i] == SP {
        i
    } else {
        tok_end(s, i + 1)
    }
}

/// First index at or after `i` holding a byte other than the separator.
pub open spec fn skip_sp(s: Seq<u8>, i: int) -> int
    decreases s.len() - i,
{
    if i < 0 || i >= s.len() {
        s.len() as int
    } else if s[i] == SP {
        skip_sp(s, i + 1)
    } else {
        i
    }
}

proof fn lemma_tok_end(s: Seq<u8>, i: int)
    requires
        0 <= i <= s.len(),
    ensures
        i <= tok_end(s, i) <= s.len(),
        tok_end(s, i) < s.len() ==> s[tok_end(s, i)] == SP,
        forall|j: int| i <= j < tok_end(s, i) ==> s[j] != SP,
    decreases s.len() - i,
{
    if i < s.len() && s[i] != SP {
        lemma_tok_end(s, i + 1);
    }
}

proof fn lemma_tok_end_is(s: Seq<u8>, i: int, k: int)
    requires
        0 <= i <= k <= s.len(),
        forall|j: int| i <= j < k ==> s[j] != SP,
        k == s.len() || s[k] == SP,
    ensures
        tok_end(s, i) == k,
    decreases k - i,
{
    if i < k {
        lemma_tok_end_is(s, i + 1, k);
    }
}

proof fn lemma_skip_sp(s: Seq<u8>, i: int)
    requires
        0 <= i <= s.len(),
    ensures
        i <= skip_sp(s, i) <= s.len(),
        skip_sp(s, i) < s.len() ==> s[skip_sp(s, i)] != SP,
        forall|j: int| i <= j < skip_sp(s, i) ==> s[j] == SP,
    decreases s.len() - i,
{
    if i < s.len() && s[i] == SP {
        lemma_skip_sp(s, i + 1);
    }
}

proof fn lemma_skip_sp_is(s: Seq<u8>, i: int, k: int)
    requires
        0 <= i <= k <= s.len(),
        forall|j: int| i <= j < k ==> s[j] == SP,
        k == s.len() || s[k] != SP,
    ensures
        skip_sp(s, i) == k,
    decreases k - i,
{
    if i < k {
        lemma_skip_sp_is(s, i + 1, k);
    }
}

/// The parameters read from position `i` on: separators are skipped, a
/// token introduced by the marker consumes the remainder verbatim, any other
/// token ends at the next separator.
pub open spec fn parse_params(s: Seq<u8>, i: int) -> Seq<Seq<u8>>
    decreases s.len() - i,
    via parse_params_dec
{
    if i < 0 || i >= s.len() {
        Seq::empty()
    } else if s[i] == SP {
        parse_params(s, i + 1)
    } else if s[i] == COLON {
        seq![s.subrange(i + 1, s.len() as int)]
    } else {
        let k = tok_end(s, i);
        seq![s.subrange(i, k)] + parse_params(s, k)
    }
}

#[via_fn]
proof fn parse_params_dec(s: Seq<u8>, i: int) {
    if 0 <= i && i < s.len() && s[i] != SP && s[i] != COLON {
        lemma_tok_end(s, i + 1);
    }
}

pub open spec fn is_digit(b: u8) -> bool {
    48 <= b && b <= 57
}

pub open spec fn is_alpha(b: u8) -> bool {
    (65 <= b && b <= 90) || (97 <= b && b <= 122)
}

pub open spec fn all_digits(t: Seq<u8>) -> bool {
    forall|j: int| 0 <= j < t.len() ==> is_digit(#[trigger] t[j])
}

pub open spec fn all_alpha(t: Seq<u8>) -> bool {
    forall|j: int| 0 <= j < t.len() ==> is_alpha(#[trigger] t[j])
}

/// The numeric value of a three-digit command token.
pub open spec fn num_cmd_val(t: Seq<u8>) -> int {
    100 * (t[0] - 48) + 10 * (t[1] - 48) + (t[2] - 48)
}

/// Classification of a command token: all digits means a numeric reply and
/// must be exactly three of them; otherwise an alphabetic verb.
pub open spec fn classify_cmd(t: Seq<u8>) -> Option<CmdView> {
    if t.len() > 0 && all_digits(t) {
        if t.len() == 3 {
            Some(CmdView::Num(num_cmd_val(t) as u16))
        } else {
            None
        }
    } else if t.len() > 0 && all_alpha(t) {
        Some(CmdView::Str(t))
    } else {
        None
    }
}

/// The command and parameters read from position `i` on, with `pfx` already
/// consumed.
pub open spec fn parse_rest(s: Seq<u8>, i: int, pfx: Option<Seq<u8>>) -> Option<MsgView> {
    let j = skip_sp(s, i);
    if j >= s.len() {
        None
    } else {
        let k = tok_end(s, j);
        match classify_cmd(s.subrange(j, k)) {
            None => None,
            Some(c) => Some(MsgView { pfx: pfx, cmd: c, params: parse_params(s, k) }),
        }
    }
}

/// The message denoted by one frame, or `None` if the frame is unparseable.
pub open spec fn parse_msg(s: Seq<u8>) -> Option<MsgView> {
    if s.len() > 0 && s[0] == COLON {
        let e = tok_end(s, 0);
        if e >= s.len() {
            None
        } else {
            parse_rest(s, e, Some(s.subrange(1, e)))
        }
    } else {
        parse_rest(s, 0, None)
    }
}

/// The rendered prefix part: marker, prefix, separator; or nothing.
pub open spec fn pfx_part(pfx: Option<Seq<u8>>) -> Seq<u8> {
    match pfx {
        Some(p) => seq![COLON] + p + seq![SP],
        None => Seq::empty(),
    }
}

/// The rendered command token.  A numeric reply is written as exactly three
/// digits, zero-padded.
pub open spec fn render_cmd(c: CmdView) -> Seq<u8> {
    match c {
        CmdView::Num(n) => seq![
            (48 + (n as int / 100) % 10) as u8,
            (48 + (n as int / 10) % 10) as u8,
            (48 + n as int % 10) as u8,
        ],
        CmdView::Str(t) => t,
    }
}

/// The rendered parameter part.  The last parameter is always written in
/// trailing form, so it may hold separators, begin with the marker, or be
/// empty without ambiguity.
pub open spec fn render_params(ps: Seq<Seq<u8>>) -> Seq<u8>
    decreases ps.len(),
{
    if ps.len() == 0 {
        Seq::empty()
    } else if ps.len() == 1 {
        seq![SP, COLON] + ps[0]
    } else {
        seq![SP] + ps[0] + render_params(ps.drop_first())
    }
}

/// One rendered message line, terminator excluded.
pub open spec fn render_line(m: MsgView) -> Seq<u8> {
    pfx_part(m.pfx) + render_cmd(m.cmd) + render_params(m.params)
}

/// One rendered message as sent on the wire, terminator included.
pub open spec fn render_wire(m: MsgView) -> Seq<u8> {
    render_line(m) + seq![CR, LF]
}

/// A non-trailing parameter the renderer can write unambiguously: nonempty,
/// free of separators, and not beginning with the trailing marker.
pub open spec fn mid_param_ok(p: Seq<u8>) -> bool {
    p.len() > 0 && p[0] != COLON && (forall|j: int| 0 <= j < p.len() ==> #[trigger] p[j] != SP)
}

/// A message without a rendering edge case: the prefix holds no separator,
/// the command is a numeric reply of at most three digits or a nonempty
/// alphabetic verb, and every parameter before the trailing one satisfies
/// `mid_param_ok`.  The trailing parameter is unrestricted.
pub open spec fn wf_msg(m: MsgView) -> bool {
    &&& match m.pfx {
        Some(p) => forall|j: int| 0 <= j < p.len() ==> #[trigger] p[j] != SP,
        None => true,
    }
    &&& match m.cmd {
        CmdView::Num(n) => n <= 999,
        CmdView::Str(t) => t.len() > 0 && all_alpha(t),
    }
    &&& forall|q: int| 0 <= q < m.params.len() - 1 ==> mid_param_ok(#[trigger] m.params[q])
}

proof fn lemma_render_params_first(ps: Seq<Seq<u8>>)
    requires
        ps.len() > 0,
    ensures
        render_params(ps).len() > 0,
        render_params(ps)[0] == SP,
{
}

/// The rendered command token classifies back to the command it came from.
proof fn lemma_render_cmd_token(c0: CmdView)
    requires
        match c0 {
            CmdView::Num(n) => n <= 999,
            CmdView::Str(t) => t.len() > 0 && all_alpha(t),
        },
    ensures
        render_cmd(c0).len() > 0,
        forall|j: int|
            0 <= j < render_cmd(c0).len() ==> #[trigger] render_cmd(c0)[j] != SP && render_cmd(
                c0,
            )[j] != COLON,
        classify_cmd(render_cmd(c0)) == Some(c0),
{
    let c = render_cmd(c0);
    match c0 {
        CmdView::Num(n) => {
            let ni = n as int;
            lemma_mod_bound(ni / 100, 10);
            lemma_mod_bound(ni / 10, 10);
            lemma_mod_bound(ni, 10);
            assert(all_digits(c)) by {
                assert(c[0] == (48 + (ni / 100) % 10) as u8);
                assert(c[1] == (48 + (ni / 10) % 10) as u8);
                assert(c[2] == (48 + ni % 10) as u8);
            }
            assert(num_cmd_val(c) == 100 * ((ni / 100) % 10) + 10 * ((ni / 10) % 10) + ni % 10);
            assert(ni / 100 <= 9) by {
                lemma_div_is_ordered(ni, 999, 100);
            }
            assert(0 <= ni / 100) by {
                lemma_div_is_ordered(0, ni, 100);
            }
            assert((ni / 100) % 10 == ni / 100) by {
                lemma_small_mod((ni / 100) as nat, 10);
            }
            assert(ni % 100 == 10 * ((ni / 10) % 10) + ni % 10) by {
                lemma_breakdown(ni, 10, 10);
            }
            assert(ni == 100 * (ni / 100) + ni % 100) by {
                lemma_fundamental_div_mod(ni, 100);
            }
            assert(num_cmd_val(c) == ni);
        },
        CmdView::Str(t) => {
            assert(!is_digit(t[0]));
            assert(!all_digits(c));
        },
    }
}

proof fn lemma_parse_params_render(s: Seq<u8>, i: int, ps: Seq<Seq<u8>>)
    requires
        0 <= i <= s.len(),
        s.subrange(i, s.len() as int) == render_params(ps),
        forall|q: int| 0 <= q < ps.len() - 1 ==> mid_param_ok(#[trigger] ps[q]),
    ensures
        parse_params(s, i) == ps,
    decreases ps.len(),
{
    let tail = s.subrange(i, s.len() as int);
    if ps.len() == 0 {
        assert(tail.len() == 0);
        assert(parse_params(s, i) =~= ps);
    } else if ps.len() == 1 {
        assert(tail == seq![SP, COLON] + ps[0]);
        assert(s[i] == SP) by {
            assert(tail[0] == SP);
        }
        assert(s[i + 1] == COLON) by {
            assert(tail[1] == COLON);
        }
        assert(s.subrange(i + 2, s.len() as int) =~= ps[0]) by {
            assert(forall|j: int|
                0 <= j < ps[0].len() ==> #[trigger] s.subrange(i + 2, s.len() as int)[j] == tail[j
                    + 2]);
        }
        assert(parse_params(s, i) == parse_params(s, i + 1));
        assert(parse_params(s, i + 1) =~= seq![s.subrange(i + 2, s.len() as int)]);
        assert(seq![s.subrange(i + 2, s.len() as int)] =~= ps);
    } else {
        let p0 = ps[0];
        let rest = ps.drop_first();
        assert(tail == seq![SP] + p0 + render_params(rest));
        assert(mid_param_ok(p0));
        assert(s[i] == SP) by {
            assert(tail[0] == SP);
        }
        let k = i + 1 + p0.len() as int;
        assert(forall|j: int| i + 1 <= j < k ==> s[j] == p0[j - (i + 1)]) by {
            assert(forall|j: int| i + 1 <= j < k ==> s[j] == tail[j - i]);
        }
        assert(forall|j: int| i + 1 <= j < k ==> s[j] != SP);
        lemma_render_params_first(rest);
        assert(s[k] == SP) by {
            assert(tail[k - i] == render_params(rest)[0]);
        }
        assert(k < s.len());
        lemma_tok_end_is(s, i + 1, k);
        assert(s[i + 1] != COLON) by {
            assert(p0[0] != COLON);
        }
        assert(s[i + 1] != SP);
        assert(s.subrange(i + 1, k) =~= p0);
        assert(s.subrange(k, s.len() as int) =~= render_params(rest)) by {
            assert(forall|j: int|
                k <= j < s.len() ==> s[j] == tail[j - i] && tail[j - i] == render_params(
                    rest,
                )[j - k]);
        }
        assert(forall|q: int| 0 <= q < rest.len() - 1 ==> mid_param_ok(#[trigger] rest[q])) by {
            assert(forall|q: int| 0 <= q < rest.len() - 1 ==> rest[q] == ps[q + 1]);
        }
        lemma_parse_params_render(s, k, rest);
        assert(parse_params(s, i) == parse_params(s, i + 1));
        assert(parse_params(s, i + 1) == seq![s.subrange(i + 1, k)] + parse_params(s, k));
        assert(seq![p0] + rest =~= ps);
    }
}

proof fn lemma_parse_rest_render(s: Seq<u8>, i: int, j: int, m: MsgView)
    requires
        0 <= i <= j <= s.len(),
        skip_sp(s, i) == j,
        s.subrange(j, s.len() as int) == render_cmd(m.cmd) + render_params(m.params),
        match m.cmd {
            CmdView::Num(n) => n <= 999,
            CmdView::Str(t) => t.len() > 0 && all_alpha(t),
        },
        forall|q: int| 0 <= q < m.params.len() - 1 ==> mid_param_ok(#[trigger] m.params[q]),
    ensures
        parse_rest(s, i, m.pfx) == Some(m),
{
    let tail = s.subrange(j, s.len() as int);
    let c = render_cmd(m.cmd);
    lemma_render_cmd_token(m.cmd);
    let k = j + c.len() as int;
    assert(tail.len() == c.len() + render_params(m.params).len());
    assert forall|t: int| j <= t < k implies s[t] == c[t - j] by {
        assert(tail[t - j] == s[t]);
        assert(tail[t - j] == c[t - j]);
    }
    assert(forall|t: int| j <= t < k ==> s[t] != SP);
    if m.params.len() == 0 {
        assert(tail.len() == c.len());
        assert(k == s.len());
        lemma_tok_end_is(s, j, k);
    } else {
        lemma_render_params_first(m.params);
        assert(s[k] == SP) by {
            assert(tail[k - j] == render_params(m.params)[0]);
        }
        assert(k < s.len());
        lemma_tok_end_is(s, j, k);
    }
    assert(j < s.len());
    assert(s.subrange(j, k) =~= c);
    assert(classify_cmd(s.subrange(j, k)) == Some(m.cmd));
    assert forall|u: int| 0 <= u < render_params(m.params).len() implies #[trigger] s.subrange(
        k,
        s.len() as int,
    )[u] == render_params(m.params)[u] by {
        assert(s.subrange(k, s.len() as int)[u] == s[k + u]);
        assert(tail[k - j + u] == s[k + u]);
        assert(tail[k - j + u] == render_params(m.params)[u]);
    }
    assert(s.subrange(k, s.len() as int) =~= render_params(m.params));
    lemma_parse_params_render(s, k, m.params);
    assert(parse_rest(s, i, m.pfx) == Some(MsgView { pfx: m.pfx, cmd: m.cmd, params: m.params }));
    assert(MsgView { pfx: m.pfx, cmd: m.cmd, params: m.params } =~~= m);
}

/// Round trip: rendering a message without a rendering edge case and parsing
/// the rendered line reproduces the same structured value.
pub proof fn lemma_render_parse_round_trip(m: MsgView)
    requires
        wf_msg(m),
    ensures
        parse_msg(render_line(m)) == Some(m),
{
    let s = render_line(m);
    let c = render_cmd(m.cmd);
    lemma_render_cmd_token(m.cmd);
    match m.pfx {
        None => {
            assert(s =~= c + render_params(m.params)) by {
                assert(pfx_part(m.pfx) == Seq::<u8>::empty());
            }
            assert(s[0] == c[0]);
            assert(s[0] != SP && s[0] != COLON);
            lemma_skip_sp_is(s, 0, 0);
            assert(s.subrange(0, s.len() as int) =~= s);
            lemma_parse_rest_render(s, 0, 0, m);
        },
        Some(p) => {
            let e = 1 + p.len() as int;
            assert(s == (seq![COLON] + p + seq![SP]) + c + render_params(m.params));
            assert(s[0] == COLON);
            assert(forall|j: int| 1 <= j < e ==> s[j] == p[j - 1]);
            assert(forall|j: int| 0 <= j < e ==> s[j] != SP);
            assert(s[e] == SP);
            assert(s[e + 1] == c[0]);
            assert(e + 1 < s.len()) by {
                if m.params.len() > 0 {
                    lemma_render_params_first(m.params);
                }
            }
            lemma_tok_end_is(s, 0, e);
            assert(s.subrange(1, e) =~= p);
            lemma_skip_sp_is(s, e, e + 1);
            assert(s.subrange(e + 1, s.len() as int) =~= c + render_params(m.params));
            lemma_parse_rest_render(s, e, e + 1, m);
            assert(parse_msg(s) == parse_rest(s, e, Some(p)));
        },
    }
}

fn tok_end_exec(s: &[u8], i: usize) -> (r: usize)
    requires
        i <= s@.len(),
    ensures
        r as int == tok_end(s@, i as int),
        i <= r <= s@.len(),
{
    let n = s.len();
    let mut k: usize = i;
    while k < n
        invariant
            i <= k <= n,
            n == s@.len(),
            forall|j: int| i <= j < k ==> s@[j] != SP,
        decreases n - k,
    {
        if s[k] == SP {
            proof {
                lemma_tok_end_is(s@, i as int, k as int);
            }
            return k;
        }
        k = k + 1;
    }
    proof {
        lemma_tok_end_is(s@, i as int, n as int);
    }
    n
}

fn skip_sp_exec(s: &[u8], i: usize) -> (r: usize)
    requires
        i <= s@.len(),
    ensures
        r as int == skip_sp(s@, i as int),
        i <= r <= s@.len(),
{
    let n = s.len();
    let mut k: usize = i;
    while k < n
        invariant
            i <= k <= n,
            n == s@.len(),
            forall|j: int| i <= j < k ==> s@[j] == SP,
        decreases n - k,
    {
        if s[k] != SP {
            proof {
                lemma_skip_sp_is(s@, i as int, k as int);
            }
            return k;
        }
        k = k + 1;
    }
    proof {
        lemma_skip_sp_is(s@, i as int, n as int);
    }
    n
}

fn copy_slice_range(s: &[u8], a: usize, b: usize) -> (r: Vec<u8>)
    requires
        a <= b && b <= s@.len(),
    ensures
        r@ == s@.subrange(a as int, b as int),
{
    let mut r: Vec<u8> = Vec::new();
    proof {
        assert(r@ =~= s@.subrange(a as int, a as int));
    }
    let mut k: usize = a;
    while k < b
        invariant
            a <= k <= b <= s@.len(),
            r@ == s@.subrange(a as int, k as int),
        decreases b - k,
    {
        r.push(s[k]);
        k = k + 1;
        proof {
            assert(r@ =~= s@.subrange(a as int, k as int));
        }
    }
    r
}

fn classify(tok: Vec<u8>) -> (r: Option<Cmd>)
    ensures
        match r {
            Some(c) => classify_cmd(tok@) == Some(c@),
            None => classify_cmd(tok@) is None,
        },
{
    let n = tok.len();
    if n == 0 {
        return None;
    }
    let mut digits = true;
    let mut k: usize = 0;
    while k < n
        invariant
            k <= n,
            n == tok@.len(),
            digits == (forall|j: int| 0 <= j < k ==> is_digit(#[trigger] tok@[j])),
        decreases n - k,
    {
        let b = tok[k];
        if !(48 <= b && b <= 57) {
            digits = false;
        }
        k = k + 1;
    }
    if digits {
        if n == 3 {
            let d0 = (tok[0] - 48) as u16;
            let d1 = (tok[1] - 48) as u16;
            let d2 = (tok[2] - 48) as u16;
            let v = 100 * d0 + 10 * d1 + d2;
            proof {
                assert(v as int == num_cmd_val(tok@));
            }
            return Some(Cmd::Num(v));
        }
        return None;
    }
    let mut alpha = true;
    let mut k2: usize = 0;
    while k2 < n
        invariant
            k2 <= n,
            n == tok@.len(),
            alpha == (forall|j: int| 0 <= j < k2 ==> is_alpha(#[trigger] tok@[j])),
        decreases n - k2,
    {
        let b = tok[k2];
        if !((65 <= b && b <= 90) || (97 <= b && b <= 122)) {
            alpha = false;
        }
        k2 = k2 + 1;
    }
    if alpha {
        return Some(Cmd::Str(tok));
    }
    None
}

fn append_bytes(out: &mut Vec<u8>, src: &Vec<u8>)
    ensures
        final(out)@ == old(out)@ + src@,
{
    let n = src.len();
    proof {
        assert(old(out)@ + src@.subrange(0, 0) =~= old(out)@);
    }
    let mut k: usize = 0;
    while k < n
        invariant
            k <= n,
            n == src@.len(),
            out@ == old(out)@ + src@.subrange(0, k as int),
        decreases n - k,
    {
        out.push(src[k]);
        k = k + 1;
        proof {
            assert(out@ =~= old(out)@ + src@.subrange(0, k as int));
        }
    }
    proof {
        assert(src@.subrange(0, n as int) =~= src@);
    }
}

impl Msg {
    /// Parses one frame (terminator already removed) into a structured
    /// message.  Succeeds exactly when the frame matches the grammar.
    pub fn parse(s: &[u8]) -> (r: Result<Msg, MsgParseError>)
        ensures
            match r {
                Ok(m) => parse_msg(s@) == Some(m@),
                Err(_) => parse_msg(s@) is None,
            },
    {
        let n = s.len();
        let mut pfx: Option<Vec<u8>> = None;
        let mut start: usize = 0;
        if n > 0 && s[0] == COLON {
            let e = tok_end_exec(s, 0);
            if e == n {
                return Err(MsgParseError);
            }
            proof {
                lemma_tok_end(s@, 1);
            }
            pfx = Some(copy_slice_range(s, 1, e));
            start = e;
        }
        let j = skip_sp_exec(s, start);
        if j == n {
            return Err(MsgParseError);
        }
        let k = tok_end_exec(s, j);
        let cmdtok = copy_slice_range(s, j, k);
        let cmd = match classify(cmdtok) {
            None => {
                return Err(MsgParseError);
            },
            Some(c) => c,
        };
        let ghost k0 = k as int;
        let mut params: Vec<Vec<u8>> = Vec::new();
        proof {
            assert(param_views(params@) + parse_params(s@, k0) =~= parse_params(s@, k0));
        }
        let mut i = k;
        loop
            invariant_except_break
                param_views(params@) + parse_params(s@, i as int) == parse_params(s@, k0),
            invariant
                i <= n,
                n == s@.len(),
                k0 <= s@.len(),
            ensures
                param_views(params@) == parse_params(s@, k0),
            decreases n - i,
        {
            let j2 = skip_sp_exec(s, i);
            proof {
                lemma_parse_params_skip(s@, i as int);
                lemma_skip_sp(s@, i as int);
            }
            if j2 == n {
                proof {
                    assert(parse_params(s@, j2 as int) =~= Seq::<Seq<u8>>::empty());
                    assert(param_views(params@) + parse_params(s@, j2 as int) =~= param_views(
                        params@,
                    ));
                }
                break;
            }
            let ghost old_params = params@;
            if s[j2] == COLON {
                params.push(copy_slice_range(s, j2 + 1, n));
                proof {
                    assert(parse_params(s@, j2 as int) == seq![
                        s@.subrange(j2 as int + 1, n as int),
                    ]);
                    assert(param_views(params@) =~= param_views(old_params).push(
                        s@.subrange(j2 as int + 1, n as int),
                    ));
                    assert(param_views(params@) =~= param_views(old_params) + parse_params(
                        s@,
                        j2 as int,
                    ));
                }
                break;
            }
            let k2 = tok_end_exec(s, j2);
            proof {
                lemma_tok_end(s@, j2 as int + 1);
                assert(k2 > j2);
            }
            params.push(copy_slice_range(s, j2, k2));
            proof {
                assert(parse_params(s@, j2 as int) == seq![s@.subrange(j2 as int, k2 as int)]
                    + parse_params(s@, k2 as int));
                assert(param_views(params@) =~= param_views(old_params).push(
                    s@.subrange(j2 as int, k2 as int),
                ));
                assert(param_views(params@) + parse_params(s@, k2 as int) =~= param_views(
                    old_params,
                ) + parse_params(s@, j2 as int));
            }
            i = k2;
        }
        let m = Msg { pfx, cmd, params };
        proof {
            if n > 0 && s@[0] == COLON {
                assert(m@.pfx == Some(s@.subrange(1, start as int)));
            } else {
                assert(m@.pfx == Option::<Seq<u8>>::None);
            }
            assert(parse_msg(s@) == Some(m@));
        }
        Ok(m)
    }

    /// Renders the message as one wire line, terminator included.
    pub fn render(&self) -> (r: Vec<u8>)
        ensures
            r@ == render_wire(self@),
    {
        let mut out: Vec<u8> = Vec::new();
        match &self.pfx {
            Some(p) => {
                out.push(COLON);
                append_bytes(&mut out, p);
                out.push(SP);
                proof {
                    assert(out@ =~= pfx_part(self@.pfx));
                }
            },
            None => {
                proof {
                    assert(out@ =~= pfx_part(self@.pfx));
                }
            },
        }
        let ghost base1 = out@;
        match &self.cmd {
            Cmd::Num(num) => {
                let n = *num;
                out.push((48 + (n / 100) % 10) as u8);
                out.push((48 + (n / 10) % 10) as u8);
                out.push((48 + n % 10) as u8);
                proof {
                    assert(out@ =~= base1 + render_cmd(self@.cmd));
                }
            },
            Cmd::Str(t) => {
                append_bytes(&mut out, t);
                proof {
                    assert(out@ =~= base1 + render_cmd(self@.cmd));
                }
            },
        }
        let ghost base = out@;
        let ghost ps = self@.params;
        let np = self.params.len();
        proof {
            assert(out@ + render_params(ps.subrange(0, ps.len() as int)) =~= base + render_params(
                ps,
            )) by {
                assert(ps.subrange(0, ps.len() as int) =~= ps);
            }
        }
        let mut q: usize = 0;
        while q < np
            invariant
                q <= np,
                np == self.params@.len(),
                ps == self@.params,
                ps.len() == np,
                out@ + render_params(ps.subrange(q as int, ps.len() as int)) == base
                    + render_params(ps),
            decreases np - q,
        {
            let ghost before = out@;
            let ghost sub = ps.subrange(q as int, ps.len() as int);
            proof {
                assert(sub[0] == ps[q as int]);
                assert(ps[q as int] == self.params@[q as int]@);
            }
            if q + 1 == np {
                out.push(SP);
                out.push(COLON);
                append_bytes(&mut out, &self.params[q]);
                proof {
                    assert(render_params(sub) == seq![SP, COLON] + sub[0]);
                    assert(out@ =~= before + render_params(sub));
                    assert(ps.subrange(q as int + 1, ps.len() as int).len() == 0);
                    assert(render_params(ps.subrange(q as int + 1, ps.len() as int))
                        == Seq::<u8>::empty());
                    assert(out@ + render_params(ps.subrange(q as int + 1, ps.len() as int)) =~= base
                        + render_params(ps));
                }
            } else {
                out.push(SP);
                append_bytes(&mut out, &self.params[q]);
                proof {
                    assert(sub.drop_first() =~= ps.subrange(q as int + 1, ps.len() as int));
                    assert(render_params(sub) == seq![SP] + sub[0] + render_params(
                        sub.drop_first(),
                    ));
                    assert(out@ + render_params(ps.subrange(q as int + 1, ps.len() as int)) =~= base
                        + render_params(ps));
                }
            }
            q = q + 1;
        }
        proof {
            assert(ps.subrange(np as int, ps.len() as int).len() == 0);
            assert(out@ =~= base + render_params(ps));
        }
        out.push(CR);
        out.push(LF);
        proof {
            assert(out@ =~= render_wire(self@));
        }
        out
    }
}

proof fn lemma_parse_params_skip(s: Seq<u8>, i: int)
    requires
        0 <= i <= s.len(),
    ensures
        parse_params(s, i) == parse_params(s, skip_sp(s, i)),
    decreases s.len() - i,
{
    if i < s.len() && s[i] == SP {
        lemma_parse_params_skip(s, i + 1);
    }
}

} // verus!
