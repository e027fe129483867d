//! The line discipline of an APRS-IS connection: the login line, which
//! server lines are comments, and how received bytes are assembled into
//! lines of bounded length. The connection itself (sockets, timeouts) is
//! left to the caller, which hands each chunk of received bytes to a
//! [`LineAssembler`] and consumes as many bytes as it says.
use vstd::prelude::*;
use vstd::utf8::{decode_utf8, valid_utf8};
use crate::encode::{has_crlf, str_has_crlf};
use vstd::string::StringExecFns;
use crate::text::{find, find_byte, utf8_text};

verus! {

/// The longest line, not counting the carriage returns and the line feed
/// that end it, that a connection accepts.
pub const MAX_LINE_BYTES: usize = 2048;

/// `\n`, which ends a line.
pub const LF: u8 = 10;

/// `\r`
pub const CR: u8 = 13;

/// Why no line could be read.
#[derive(Debug, Clone, Copy, PartialEq, Eq, Structural)]
pub enum LineError {
    /// The connection closed between lines.
    Closed,
    /// The connection closed before the line's terminator.
    ClosedMidLine,
    /// The line, without its terminator, was longer than
    /// [`MAX_LINE_BYTES`]; it was drained.
    TooLong,
    /// The line is not UTF-8.
    NotUtf8,
}

/// Where the first line of received bytes ends: just after its first `\n`,
/// or at the end of the bytes.
pub open spec fn line_end(a: Seq<u8>) -> int {
    match find(a, LF) {
        Some(i) => i + 1,
        None => a.len() as int,
    }
}

/// Bytes without the carriage returns that end them.
pub open spec fn without_cr(s: Seq<u8>) -> Seq<u8>
    decreases s.len(),
{
    if s.len() > 0 && s.last() == CR {
        without_cr(s.drop_last())
    } else {
        s
    }
}

/// The number of carriage returns that end some bytes.
pub open spec fn trailing_crs(s: Seq<u8>) -> nat
    decreases s.len(),
{
    if s.len() > 0 && s.last() == CR {
        trailing_crs(s.drop_last()) + 1
    } else {
        0
    }
}

/// `n` carriage returns.
pub open spec fn crs(n: nat) -> Seq<u8> {
    Seq::new(n, |i: int| CR)
}

/// A count of carriage returns, counted no further than one past the line
/// limit: more could never fit in a line.
pub open spec fn capped(n: nat) -> nat {
    if n <= MAX_LINE_BYTES + 1 {
        n
    } else {
        (MAX_LINE_BYTES + 1) as nat
    }
}

/// The state of line assembly between lines.
pub open spec fn fresh() -> (Seq<u8>, nat, bool) {
    (Seq::empty(), 0, false)
}

/// One received byte other than `\n`, added to the state of line assembly:
/// the text of the line so far without the carriage returns that end it,
/// how many carriage returns end it (capped), and whether an over-long line
/// is being drained.
pub open spec fn take_byte(st: (Seq<u8>, nat, bool), b: u8) -> (Seq<u8>, nat, bool) {
    let (text, n, draining) = st;
    if draining {
        st
    } else if b == CR {
        (text, capped(n + 1), false)
    } else if text.len() + n + 1 <= MAX_LINE_BYTES {
        (text + crs(n) + seq![b], 0, false)
    } else {
        (Seq::empty(), 0, true)
    }
}

/// Received bytes, none of them `\n`, added to the state of line assembly.
pub open spec fn take_bytes(st: (Seq<u8>, nat, bool), a: Seq<u8>) -> (Seq<u8>, nat, bool)
    decreases a.len(),
{
    if a.len() == 0 {
        st
    } else {
        take_byte(take_bytes(st, a.drop_last()), a.last())
    }
}

/// One step of line assembly: from the state and the bytes the connection
/// has available (none at the end of input), the next state, how many
/// bytes to consume, and, once it is decided, the line (without its
/// terminator) or why there is none.
pub open spec fn assemble(st: (Seq<u8>, nat, bool), a: Seq<u8>) -> (
    (Seq<u8>, nat, bool),
    int,
    Option<Result<Seq<u8>, LineError>>,
) {
    if a.len() == 0 {
        if st.2 {
            (fresh(), 0, Some(Err(LineError::TooLong)))
        } else if st.0.len() == 0 && st.1 == 0 {
            (fresh(), 0, Some(Err(LineError::Closed)))
        } else {
            (fresh(), 0, Some(Err(LineError::ClosedMidLine)))
        }
    } else {
        let n = line_end(a);
        if a[n - 1] == LF {
            let done = take_bytes(st, a.take(n - 1));
            if done.2 {
                (fresh(), n, Some(Err(LineError::TooLong)))
            } else {
                (fresh(), n, Some(Ok(done.0)))
            }
        } else {
            (take_bytes(st, a), n, None)
        }
    }
}

/// The state `st` stands for the received bytes `p` of a line, which hold
/// no `\n`: an over-long line is being drained, or the state holds the
/// bytes without their final carriage returns and the (capped) count of
/// those.
pub open spec fn represents(st: (Seq<u8>, nat, bool), p: Seq<u8>) -> bool {
    &&& !p.contains(LF)
    &&& if without_cr(p).len() > MAX_LINE_BYTES {
        st == (Seq::<u8>::empty(), 0nat, true)
    } else {
        st == (without_cr(p), capped(trailing_crs(p)), false)
    }
}

/// Bytes are their text followed by the carriage returns that end them.
proof fn lemma_split_crs(p: Seq<u8>)
    ensures
        p == without_cr(p) + crs(trailing_crs(p)),
        without_cr(p).len() == 0 || without_cr(p).last() != CR,
    decreases p.len(),
{
    if p.len() > 0 && p.last() == CR {
        lemma_split_crs(p.drop_last());
        assert(crs(trailing_crs(p)) =~= crs(trailing_crs(p.drop_last())).push(CR));
        assert(p =~= p.drop_last().push(CR));
    } else {
        assert(crs(0) =~= Seq::<u8>::empty());
        assert(p + crs(0) =~= p);
    }
}

/// Adding one byte other than `\n` keeps the state standing for the bytes.
proof fn lemma_take_byte(st: (Seq<u8>, nat, bool), p: Seq<u8>, b: u8)
    requires
        represents(st, p),
        b != LF,
    ensures
        represents(take_byte(st, b), p.push(b)),
{
    let q = p.push(b);
    assert(q.drop_last() =~= p);
    assert(!q.contains(LF)) by {
        if q.contains(LF) {
            let k = choose|k: int| 0 <= k < q.len() && q[k] == LF;
            assert(p[k] == LF);
        }
    }
    lemma_split_crs(p);
    let w = without_cr(p);
    let t = trailing_crs(p);
    if b == CR {
        assert(without_cr(q) == w);
        assert(trailing_crs(q) == t + 1);
        if w.len() <= MAX_LINE_BYTES {
            assert(st == (w, capped(t), false));
            assert(capped(capped(t) + 1) == capped(t + 1));
            assert(take_byte(st, b) == (w, capped(t + 1), false));
        }
    } else {
        assert(without_cr(q) == q);
        assert(trailing_crs(q) == 0);
        assert(p.len() == w.len() + t);
        if w.len() <= MAX_LINE_BYTES {
            assert(st == (w, capped(t), false));
            if w.len() + capped(t) + 1 <= MAX_LINE_BYTES {
                assert(capped(t) == t);
                assert(w + crs(t) + seq![b] =~= q);
                assert(take_byte(st, b) == (q, 0nat, false));
                assert(capped(0) == 0);
            } else {
                assert(q.len() > MAX_LINE_BYTES);
                assert(take_byte(st, b) == (Seq::<u8>::empty(), 0nat, true));
            }
        } else {
            assert(q.len() > MAX_LINE_BYTES);
        }
    }
}

/// Adding bytes without `\n` keeps the state standing for the bytes.
pub proof fn lemma_take_bytes(st: (Seq<u8>, nat, bool), p: Seq<u8>, a: Seq<u8>)
    requires
        represents(st, p),
        !a.contains(LF),
    ensures
        represents(take_bytes(st, a), p + a),
    decreases a.len(),
{
    if a.len() == 0 {
        assert(p + a =~= p);
    } else {
        assert(!a.drop_last().contains(LF)) by {
            if a.drop_last().contains(LF) {
                let k = choose|k: int| 0 <= k < a.drop_last().len() && a.drop_last()[k] == LF;
                assert(a[k] == LF);
            }
        }
        lemma_take_bytes(st, p, a.drop_last());
        lemma_take_byte(take_bytes(st, a.drop_last()), p + a.drop_last(), a.last());
        assert((p + a.drop_last()).push(a.last()) =~= p + a);
    }
}

/// Reading a line, over any number of calls. Let `p` be the bytes of the
/// current line received so far (none, between lines), for which the state
/// stands, and `a` the bytes available now. When `a` holds a `\n`, the
/// bytes up to it are consumed and the line, without its final carriage
/// returns, is handed out, or refused as too long when it is longer than
/// [`MAX_LINE_BYTES`]; assembly then starts afresh. When `a` holds no `\n`,
/// it is all consumed and kept as part of the line. At the end of input the
/// connection was closed between lines or in one, or the line was too long.
pub proof fn lemma_read_line(st: (Seq<u8>, nat, bool), p: Seq<u8>, a: Seq<u8>)
    requires
        represents(st, p),
    ensures
        ({
            let (next, consumed, outcome) = assemble(st, a);
            if a.len() == 0 {
                &&& consumed == 0
                &&& next == fresh()
                &&& outcome == Some(
                    Err::<Seq<u8>, LineError>(
                        if without_cr(p).len() > MAX_LINE_BYTES {
                            LineError::TooLong
                        } else if p.len() == 0 {
                            LineError::Closed
                        } else {
                            LineError::ClosedMidLine
                        },
                    ),
                )
            } else if a.contains(LF) {
                let n = find(a, LF)->Some_0;
                let line = without_cr(p + a.take(n));
                &&& consumed == n + 1
                &&& next == fresh()
                &&& outcome == Some(
                    if line.len() > MAX_LINE_BYTES {
                        Err::<Seq<u8>, LineError>(LineError::TooLong)
                    } else {
                        Ok(line)
                    },
                )
            } else {
                &&& consumed == a.len()
                &&& represents(next, p + a)
                &&& outcome is None
            }
        }),
        represents(fresh(), Seq::empty()),
{
    crate::text::lemma_find_some(a, LF);
    lemma_split_crs(p);
    assert(without_cr(Seq::<u8>::empty()) =~= Seq::<u8>::empty());
    if a.len() > 0 {
        if a.contains(LF) {
            let k = choose|k: int| 0 <= k < a.len() && a[k] == LF;
            let n = find(a, LF)->Some_0;
            assert(a.take(n + 1).take(n) =~= a.take(n));
            assert(!a.take(n).contains(LF)) by {
                if a.take(n).contains(LF) {
                    let j = choose|j: int| 0 <= j < a.take(n).len() && a.take(n)[j] == LF;
                    assert(a[j] == LF);
                }
            }
            lemma_take_bytes(st, p, a.take(n));
        } else {
            assert forall|j: int| 0 <= j < a.len() implies a[j] != LF by {
                if a[j] == LF {
                    assert(a.contains(LF));
                }
            }
            assert(a.take(a.len() as int) =~= a);
            lemma_take_bytes(st, p, a);
        }
    } else {
        if p.len() > 0 && without_cr(p).len() <= MAX_LINE_BYTES {
            assert(p.len() == without_cr(p).len() + trailing_crs(p));
        }
    }
}

/// Assembles the lines of an APRS-IS connection from the chunks of bytes it
/// receives.
pub struct LineAssembler {
    buffer: Vec<u8>,
    crs: usize,
    draining: bool,
}

impl View for LineAssembler {
    type V = (Seq<u8>, nat, bool);

    /// The text of the current line so far without the carriage returns
    /// that end it, how many carriage returns end it (capped), and whether
    /// an over-long line is being drained.
    closed spec fn view(&self) -> (Seq<u8>, nat, bool) {
        (self.buffer@, self.crs as nat, self.draining)
    }
}

impl LineAssembler {
    /// The text of a line fits within the limit, the count of carriage
    /// returns within its cap, and nothing is kept while a line is drained.
    pub closed spec fn wf(&self) -> bool {
        &&& self.buffer@.len() <= MAX_LINE_BYTES
        &&& self.crs <= MAX_LINE_BYTES + 1
        &&& self.draining ==> self.buffer@.len() == 0 && self.crs == 0
    }

    /// An assembler between lines.
    pub fn new() -> (r: LineAssembler)
        ensures
            r.wf(),
            r@ == fresh(),
    {
        LineAssembler { buffer: Vec::new(), crs: 0, draining: false }
    }

    fn take_byte(&mut self, b: u8)
        requires
            old(self).wf(),
        ensures
            final(self).wf(),
            final(self)@ == take_byte(old(self)@, b),
    {
        if self.draining {
            return;
        }
        if b == CR {
            if self.crs <= MAX_LINE_BYTES {
                self.crs = self.crs + 1;
            }
            return;
        }
        if self.buffer.len() + self.crs + 1 <= MAX_LINE_BYTES {
            let ghost start = self.buffer@;
            let ghost count = self.crs as nat;
            let mut i: usize = 0;
            while i < self.crs
                invariant
                    i <= self.crs,
                    self.crs == count,
                    self.crs <= MAX_LINE_BYTES + 1,
                    start.len() + self.crs + 1 <= MAX_LINE_BYTES,
                    !self.draining,
                    self.buffer@ == start + crs(i as nat),
                decreases self.crs - i,
            {
                self.buffer.push(CR);
                assert(crs((i + 1) as nat) =~= crs(i as nat).push(CR));
                i = i + 1;
            }
            self.buffer.push(b);
            assert(self.buffer@ =~= start + crs(count) + seq![b]);
            self.crs = 0;
        } else {
            self.buffer = Vec::new();
            self.crs = 0;
            self.draining = true;
        }
    }

    /// Takes the bytes the connection has available (none at the end of
    /// input) and tells how many of them to consume and, once it is decided,
    /// the line's text or why there is none.
    pub fn feed(&mut self, available: &[u8]) -> (r: (usize, Option<Result<String, LineError>>))
        requires
            old(self).wf(),
        ensures
            final(self).wf(),
            ({
                let (state, consumed, outcome) = assemble(old(self)@, available@);
                &&& final(self)@ == state
                &&& r.0 == consumed
                &&& match outcome {
                    None => r.1 is None,
                    Some(Err(e)) => r.1 == Some(Err::<String, LineError>(e)),
                    Some(Ok(line)) => if valid_utf8(line) {
                        r.1 matches Some(Ok(text)) && text@ == decode_utf8(line)
                    } else {
                        r.1 == Some(Err::<String, LineError>(LineError::NotUtf8))
                    },
                }
            }),
    {
        let an: usize = available.len();
        if an == 0 {
            let outcome = if self.draining {
                LineError::TooLong
            } else if self.buffer.len() == 0 && self.crs == 0 {
                LineError::Closed
            } else {
                LineError::ClosedMidLine
            };
            self.buffer = Vec::new();
            self.crs = 0;
            self.draining = false;
            return (0, Some(Err(outcome)));
        }
        let (n, complete): (usize, bool) = match find_byte(available, LF) {
            Some(i) => (i + 1, true),
            None => (an, false),
        };
        proof {
            crate::text::lemma_find_some(available@, LF);
        }
        let end: usize = if complete {
            n - 1
        } else {
            n
        };
        let ghost start = self@;
        let mut i: usize = 0;
        assert(available@.take(0) =~= Seq::<u8>::empty());
        while i < end
            invariant
                i <= end,
                end <= an,
                an == available@.len(),
                self.wf(),
                self@ == take_bytes(start, available@.take(i as int)),
            decreases end - i,
        {
            self.take_byte(available[i]);
            assert(available@.take(i + 1).drop_last() =~= available@.take(i as int));
            i = i + 1;
        }
        if !complete {
            assert(available@.take(an as int) =~= available@);
            return (n, None);
        }
        if self.draining {
            self.buffer = Vec::new();
            self.crs = 0;
            self.draining = false;
            return (n, Some(Err(LineError::TooLong)));
        }
        let text = utf8_text(self.buffer.as_slice());
        self.buffer = Vec::new();
        self.crs = 0;
        match text {
            Some(t) => (n, Some(Ok(t))),
            None => (n, Some(Err(LineError::NotUtf8))),
        }
    }
}

/// A line the server sends as a comment (`# ...`) rather than a packet.
pub open spec fn server_comment(line: Seq<char>) -> bool {
    line.len() > 0 && line[0] == '#'
}

/// Whether a received line is a server comment.
pub fn is_server_comment(line: &str) -> (r: bool)
    ensures
        r == server_comment(line@),
{
    line.unicode_len() > 0 && line.get_char(0) == '#'
}

/// Whether a line can be sent: it holds no carriage return or line feed,
/// since the connection ends each line it sends with `\r\n`.
pub fn sendable_line(line: &str) -> (r: bool)
    ensures
        r == !has_crlf(line@),
{
    !str_has_crlf(line)
}

/// The login line: `user CALL pass PASS vers APP VERSION`, then
/// ` filter FILTER` when a filter is given.
pub open spec fn login_text(
    callsign: Seq<char>,
    passcode: Seq<char>,
    application: Seq<char>,
    version: Seq<char>,
    filter: Option<Seq<char>>,
) -> Seq<char> {
    let head = seq!['u', 's', 'e', 'r', ' '] + callsign + seq![' ', 'p', 'a', 's', 's', ' '] + passcode
        + seq![' ', 'v', 'e', 'r', 's', ' '] + application + seq![' '] + version;
    match filter {
        Some(f) => head + seq![' ', 'f', 'i', 'l', 't', 'e', 'r', ' '] + f,
        None => head,
    }
}

/// Builds the login line of a connection.
pub fn login_line(
    callsign: &str,
    passcode: &str,
    application: &str,
    version: &str,
    filter: Option<&str>,
) -> (r: String)
    ensures
        r@ == login_text(
            callsign@,
            passcode@,
            application@,
            version@,
            match filter {
                Some(f) => Some(f@),
                None => None,
            },
        ),
{
    let mut out = String::new();
    proof {
        reveal_strlit("user ");
        reveal_strlit(" pass ");
        reveal_strlit(" vers ");
        reveal_strlit(" ");
        reveal_strlit(" filter ");
    }
    out.append("user ");
    out.append(callsign);
    out.append(" pass ");
    out.append(passcode);
    out.append(" vers ");
    out.append(application);
    out.append(" ");
    out.append(version);
    assert(out@ =~= login_text(callsign@, passcode@, application@, version@, None));
    match filter {
        Some(f) => {
            out.append(" filter ");
            out.append(f);
            assert(out@ =~= login_text(callsign@, passcode@, application@, version@, Some(f@)));
        },
        None => {},
    }
    out
}

} // verus!
