//! The frame codec: a self-describing tree value of the wire protocol,
//! its encoder, and a recursive decoder over a partially-buffered
//! character stream.

use vstd::prelude::*;

use crate::command::{Command, CommandV};
use crate::store::Expiry;
use crate::text::{
    dec_digits, digits_val, eq_nocase, is_digit, is_digits, lemma_dec_digits_wf,
    lemma_digits_val_dec_digits, parse_u64, parse_usize, str_eq_nocase, usize_to_string,
};

verus! {

broadcast use {vstd::seq::group_seq_axioms, vstd::std_specs::vec::group_vec_axioms};

/// One decoded unit of the wire protocol.
#[derive(Debug, PartialEq, Eq)]
pub enum Frame {
    Error(String),
    Simple(String),
    Bulk(String),
    Null,
    Array(Vec<Frame>),
}

/// The abstract shape of a frame, with text as character sequences.
pub enum FrameV {
    Error(Seq<char>),
    Simple(Seq<char>),
    Bulk(Seq<char>),
    Null,
    Array(Seq<FrameV>),
}

impl Frame {
    /// The abstract value of this frame.  The range guard inside the
    /// array case keeps the recursion well-founded; it never changes
    /// the value.
    pub open spec fn fv(self) -> FrameV
        decreases self,
    {
        match self {
            Frame::Error(s) => FrameV::Error(s@),
            Frame::Simple(s) => FrameV::Simple(s@),
            Frame::Bulk(s) => FrameV::Bulk(s@),
            Frame::Null => FrameV::Null,
            Frame::Array(v) => FrameV::Array(
                Seq::new(
                    v@.len(),
                    |i: int|
                        if 0 <= i < v@.len() {
                            v@[i].fv()
                        } else {
                            FrameV::Null
                        },
                ),
            ),
        }
    }
}

/// The abstract values of a sequence of frames.
pub open spec fn frames_fv(v: Seq<Frame>) -> Seq<FrameV> {
    Seq::new(
        v.len(),
        |i: int|
            if 0 <= i < v.len() {
                v[i].fv()
            } else {
                FrameV::Null
            },
    )
}

/// The decode errors: `Incomplete` doubles as the interpreter's
/// missing-argument report, as the wire shows a short command the same
/// way it shows a short buffer.
#[derive(Debug)]
pub enum Errors {
    ParseError(String),
    Unrecognised,
    Incomplete,
}

/// The abstract value of an error.
pub enum ErrorsV {
    ParseError(Seq<char>),
    Unrecognised,
    Incomplete,
}

impl Errors {
    /// The abstract value of this error.
    pub open spec fn ev(self) -> ErrorsV {
        match self {
            Errors::ParseError(m) => ErrorsV::ParseError(m@),
            Errors::Unrecognised => ErrorsV::Unrecognised,
            Errors::Incomplete => ErrorsV::Incomplete,
        }
    }

    /// The client-visible description of this error.
    pub fn message(&self) -> (r: String)
        ensures
            r@ == msg_of(self.ev()),
    {
        match self {
            Errors::ParseError(_) => String::from_str("error parsing input"),
            Errors::Unrecognised => String::from_str("frame is not recognized"),
            Errors::Incomplete => String::from_str("input is incomplete"),
        }
    }
}

/// The description each kind of error shows to a client.
pub open spec fn msg_of(e: ErrorsV) -> Seq<char> {
    match e {
        ErrorsV::ParseError(_) => "error parsing input"@,
        ErrorsV::Unrecognised => "frame is not recognized"@,
        ErrorsV::Incomplete => "input is incomplete"@,
    }
}

/// The index of the first frame terminator (carriage return, line
/// feed) at or after `from`, if one is complete within `s`.
pub open spec fn find_crlf(s: Seq<char>, from: int) -> Option<int>
    decreases s.len() - from,
{
    if from + 2 > s.len() {
        None
    } else if s[from] == '\r' && s[from + 1] == '\n' {
        Some(from)
    } else {
        find_crlf(s, from + 1)
    }
}

/// The terminator found is the first one: no pair of positions before
/// `k` holds one.
pub proof fn lemma_find_crlf_at(s: Seq<char>, from: int, k: int)
    requires
        0 <= from <= k,
        k + 2 <= s.len(),
        s[k] == '\r',
        s[k + 1] == '\n',
        forall|i: int| from <= i < k ==> !(#[trigger] s[i] == '\r' && s[i + 1] == '\n'),
    ensures
        find_crlf(s, from) == Some(k),
    decreases k - from,
{
    if from < k {
        lemma_find_crlf_at(s, from + 1, k);
    }
}

/// What one attempt to read a frame from position `pos` yields.
pub enum ParsedFrame {
    Found(FrameV, int),
    Incomplete,
    Malformed,
}

/// What one attempt to read a run of frames yields.
pub enum ParsedElems {
    Found(Seq<FrameV>, int),
    Incomplete,
    Malformed,
}

/// Clamped advance: equals `to` whenever `pos < to <= s.len()`; the
/// clamp only exists to keep the parser's recursion well-founded, and
/// never fires on positions the parser actually produces.
pub open spec fn adv(s: Seq<char>, pos: int, to: int) -> int {
    if pos < to <= s.len() {
        to
    } else if pos < s.len() {
        s.len() as int
    } else {
        pos
    }
}

/// The grammar of one frame at position `pos` of `s`: a leading type
/// byte, then a line for simple strings (`+`), errors (`-`), and the
/// length of bulk strings (`$`, with length line `-1` denoting null,
/// and the payload read up to its terminator rather than counted) and
/// arrays (`*`, followed by that many frames in sequence).  A buffer
/// that ends before the frame does is `Incomplete`, never a partial
/// frame; an unknown type byte or a bad length line is `Malformed`.
pub open spec fn spec_parse(s: Seq<char>, pos: int) -> ParsedFrame
    decreases s.len() - pos, 0int,
{
    if pos < 0 || pos >= s.len() {
        ParsedFrame::Incomplete
    } else {
        let c = s[pos];
        if c == '+' || c == '-' {
            match find_crlf(s, pos + 1) {
                None => ParsedFrame::Incomplete,
                Some(k) => ParsedFrame::Found(
                    if c == '+' {
                        FrameV::Simple(s.subrange(pos + 1, k))
                    } else {
                        FrameV::Error(s.subrange(pos + 1, k))
                    },
                    k + 2,
                ),
            }
        } else if c == '$' {
            match find_crlf(s, pos + 1) {
                None => ParsedFrame::Incomplete,
                Some(k) => {
                    let line = s.subrange(pos + 1, k);
                    if line.len() == 2 && line[0] == '-' && line[1] == '1' {
                        ParsedFrame::Found(FrameV::Null, k + 2)
                    } else if line.len() > 0 && is_digits(line) && digits_val(line)
                        <= usize::MAX {
                        match find_crlf(s, k + 2) {
                            None => ParsedFrame::Incomplete,
                            Some(k2) => ParsedFrame::Found(
                                FrameV::Bulk(s.subrange(k + 2, k2)),
                                k2 + 2,
                            ),
                        }
                    } else {
                        ParsedFrame::Malformed
                    }
                },
            }
        } else if c == '*' {
            match find_crlf(s, pos + 1) {
                None => ParsedFrame::Incomplete,
                Some(k) => {
                    let line = s.subrange(pos + 1, k);
                    if line.len() > 0 && is_digits(line) && digits_val(line) <= usize::MAX {
                        match spec_parse_elems(s, adv(s, pos, k + 2), digits_val(line) as nat) {
                            ParsedElems::Found(es, end) => ParsedFrame::Found(
                                FrameV::Array(es),
                                end,
                            ),
                            ParsedElems::Incomplete => ParsedFrame::Incomplete,
                            ParsedElems::Malformed => ParsedFrame::Malformed,
                        }
                    } else {
                        ParsedFrame::Malformed
                    }
                },
            }
        } else {
            ParsedFrame::Malformed
        }
    }
}

/// `n` frames in sequence starting at `pos`.
pub open spec fn spec_parse_elems(s: Seq<char>, pos: int, n: nat) -> ParsedElems
    decreases s.len() - pos, n + 1,
{
    if n == 0 {
        ParsedElems::Found(Seq::empty(), pos)
    } else {
        match spec_parse(s, pos) {
            ParsedFrame::Found(f, end) => match spec_parse_elems(
                s,
                adv(s, pos, end),
                (n - 1) as nat,
            ) {
                ParsedElems::Found(es, end2) => ParsedElems::Found(seq![f] + es, end2),
                ParsedElems::Incomplete => ParsedElems::Incomplete,
                ParsedElems::Malformed => ParsedElems::Malformed,
            },
            ParsedFrame::Incomplete => ParsedElems::Incomplete,
            ParsedFrame::Malformed => ParsedElems::Malformed,
        }
    }
}

/// The encoding of a frame value; arrays are never encoded (the
/// server's replies are flat), so their case is vacuous.
pub open spec fn fv_encode(f: FrameV) -> Seq<char> {
    match f {
        FrameV::Error(m) => "-"@ + m + "\r\n"@,
        FrameV::Simple(t) => "+"@ + t + "\r\n"@,
        FrameV::Bulk(t) => "$"@ + dec_digits(t.len() as int) + "\r\n"@ + t + "\r\n"@,
        FrameV::Null => "$-1\r\n"@,
        FrameV::Array(_) => Seq::empty(),
    }
}

impl Frame {
    /// Encodes this frame for the wire.  Encoding an array is a
    /// programming error, not a runtime condition a client can cause:
    /// the reply set of the server is flat.
    pub fn encode(&self) -> (r: String)
        requires
            !(self is Array),
        ensures
            r@ == fv_encode(self.fv()),
    {
        match self {
            Frame::Error(m) => {
                let mut s = String::from_str("-");
                s.append(m.as_str());
                s.append("\r\n");
                proof {
                    assert(s@ =~= fv_encode(self.fv()));
                }
                s
            },
            Frame::Simple(t) => {
                let mut s = String::from_str("+");
                s.append(t.as_str());
                s.append("\r\n");
                proof {
                    assert(s@ =~= fv_encode(self.fv()));
                }
                s
            },
            Frame::Bulk(t) => {
                let mut s = String::from_str("$");
                let n = t.as_str().unicode_len();
                let digits = usize_to_string(n);
                s.append(digits.as_str());
                s.append("\r\n");
                s.append(t.as_str());
                s.append("\r\n");
                proof {
                    assert(s@ =~= fv_encode(self.fv()));
                }
                s
            },
            Frame::Null => String::from_str("$-1\r\n"),
            Frame::Array(_) => String::new(),
        }
    }
}

/// A frame terminator occurs somewhere in `s`.
pub open spec fn has_crlf(s: Seq<char>) -> bool {
    exists|i: int| 0 <= i && i + 2 <= s.len() && (#[trigger] s[i]) == '\r' && s[i + 1] == '\n'
}

/// The frames whose encoding decodes back to themselves: everything
/// but arrays (which are never encoded), with text free of the
/// terminator and, for bulk strings, short enough for its length to
/// be counted.
pub open spec fn encodable(f: Frame) -> bool {
    match f {
        Frame::Error(m) => !has_crlf(m@),
        Frame::Simple(t) => !has_crlf(t@),
        Frame::Bulk(t) => !has_crlf(t@) && t@.len() <= usize::MAX,
        Frame::Null => true,
        Frame::Array(_) => false,
    }
}

/// In a buffer that spells terminator-free text and then a terminator
/// from position `a` on, the first terminator at or after `a` is the
/// one just past the text.
proof fn lemma_text_line_find(s: Seq<char>, a: int, t: Seq<char>)
    requires
        0 <= a,
        a + t.len() + 2 <= s.len(),
        !has_crlf(t),
        forall|j: int| 0 <= j < t.len() ==> s[a + j] == #[trigger] t[j],
        s[a + t.len()] == '\r',
        s[a + t.len() + 1] == '\n',
    ensures
        find_crlf(s, a) == Some(a + t.len()),
{
    assert forall|i: int| a <= i < a + t.len() implies !(#[trigger] s[i] == '\r' && s[i + 1]
        == '\n') by {
        if s[i] == '\r' && s[i + 1] == '\n' {
            if i == a + t.len() - 1 {
                assert(s[i + 1] == '\r');
            } else {
                assert(t[i - a] == '\r' && t[i - a + 1] == '\n');
                assert(has_crlf(t));
            }
        }
    }
    lemma_find_crlf_at(s, a, a + t.len());
}

/// In a buffer that spells a digit string and then a terminator from
/// position `a` on, the first terminator at or after `a` is the one
/// just past the digits.
proof fn lemma_digit_line_find(s: Seq<char>, a: int, d: Seq<char>)
    requires
        0 <= a,
        a + d.len() + 2 <= s.len(),
        is_digits(d),
        forall|j: int| 0 <= j < d.len() ==> s[a + j] == #[trigger] d[j],
        s[a + d.len()] == '\r',
        s[a + d.len() + 1] == '\n',
    ensures
        find_crlf(s, a) == Some(a + d.len()),
{
    assert forall|i: int| a <= i < a + d.len() implies !(#[trigger] s[i] == '\r' && s[i + 1]
        == '\n') by {
        if s[i] == '\r' {
            assert(is_digit(d[i - a]));
            assert(s[i] as u32 == '\r' as u32);
            assert('\r' as u32 == 13);
        }
    }
    lemma_find_crlf_at(s, a, a + d.len());
}

/// Law: decoding the encoding of any encodable frame yields exactly
/// that frame back, consuming the whole encoding.
pub proof fn lemma_round_trip(f: Frame)
    requires
        encodable(f),
    ensures
        spec_parse(fv_encode(f.fv()), 0) == ParsedFrame::Found(
            f.fv(),
            fv_encode(f.fv()).len() as int,
        ),
{
    reveal_strlit("+");
    reveal_strlit("-");
    reveal_strlit("$");
    reveal_strlit("\r\n");
    reveal_strlit("$-1\r\n");
    match f {
        Frame::Simple(t) => {
            let e = fv_encode(f.fv());
            let l = t@.len() as int;
            assert(e[0] == '+');
            assert(forall|j: int| 0 <= j < l ==> e[1 + j] == #[trigger] t@[j]);
            assert(e[1 + l] == '\r' && e[1 + l + 1] == '\n');
            lemma_text_line_find(e, 1, t@);
            assert(e.subrange(1, 1 + l) =~= t@);
        },
        Frame::Error(t) => {
            let e = fv_encode(f.fv());
            let l = t@.len() as int;
            assert(e[0] == '-');
            assert(forall|j: int| 0 <= j < l ==> e[1 + j] == #[trigger] t@[j]);
            assert(e[1 + l] == '\r' && e[1 + l + 1] == '\n');
            lemma_text_line_find(e, 1, t@);
            assert(e.subrange(1, 1 + l) =~= t@);
        },
        Frame::Null => {
            let e = fv_encode(f.fv());
            assert(e.len() == 5);
            assert(e[0] == '$' && e[1] == '-' && e[2] == '1' && e[3] == '\r' && e[4] == '\n');
            assert forall|i: int| 1 <= i < 3 implies !(#[trigger] e[i] == '\r' && e[i + 1]
                == '\n') by {}
            lemma_find_crlf_at(e, 1, 3);
            let line = e.subrange(1, 3);
            assert(line.len() == 2 && line[0] == '-' && line[1] == '1');
        },
        Frame::Bulk(t) => {
            let e = fv_encode(f.fv());
            let l = t@.len() as int;
            let d = dec_digits(l);
            let dl = d.len() as int;
            lemma_dec_digits_wf(l);
            lemma_digits_val_dec_digits(l);
            assert(e.len() == 5 + dl + l);
            assert(e[0] == '$');
            assert(forall|j: int| 0 <= j < dl ==> e[1 + j] == #[trigger] d[j]);
            assert(e[1 + dl] == '\r' && e[1 + dl + 1] == '\n');
            lemma_digit_line_find(e, 1, d);
            let line = e.subrange(1, 1 + dl);
            assert(line =~= d);
            assert(is_digit(d[0]) && d[0] as u32 >= 48);
            assert('-' as u32 == 45);
            assert(!(line.len() == 2 && line[0] == '-' && line[1] == '1'));
            assert(line.len() > 0 && is_digits(line) && digits_val(line) <= usize::MAX);
            assert(forall|j: int| 0 <= j < l ==> e[3 + dl + j] == #[trigger] t@[j]);
            assert(e[3 + dl + l] == '\r' && e[3 + dl + l + 1] == '\n');
            lemma_text_line_find(e, 3 + dl, t@);
            assert(e.subrange(3 + dl, 3 + dl + l) =~= t@);
        },
        _ => {},
    }
}

/// The index of the first frame terminator at or after `from`, if any.
fn find_crlf_at(s: &str, from: usize) -> (r: Option<usize>)
    requires
        from <= s@.len(),
    ensures
        (match r {
            Some(k) => find_crlf(s@, from as int) == Some(k as int) && from <= k && k + 2
                <= s@.len(),
            None => find_crlf(s@, from as int) is None,
        }),
{
    let n = s.unicode_len();
    let mut i = from;
    loop
        invariant
            from <= i <= n,
            n == s@.len(),
            find_crlf(s@, from as int) == find_crlf(s@, i as int),
        decreases n - i,
    {
        if n - i < 2 {
            return None;
        }
        if s.get_char(i) == '\r' && s.get_char(i + 1) == '\n' {
            return Some(i);
        }
        i += 1;
    }
}

/// The error a malformed buffer produces.
fn parse_error() -> (e: Errors)
    ensures
        e.ev() == ErrorsV::ParseError("malformed frame"@),
{
    Errors::ParseError(String::from_str("malformed frame"))
}

/// Reads one frame beginning at character `pos` of `s`.
fn parse_frame(s: &str, pos: usize) -> (r: Result<(Frame, usize), Errors>)
    requires
        pos <= s@.len(),
    ensures
        (match r {
            Ok(p) => spec_parse(s@, pos as int) == ParsedFrame::Found(p.0.fv(), p.1 as int)
                && pos < p.1 <= s@.len(),
            Err(e) => match e.ev() {
                ErrorsV::Incomplete => spec_parse(s@, pos as int) == ParsedFrame::Incomplete,
                ErrorsV::ParseError(m) => spec_parse(s@, pos as int) == ParsedFrame::Malformed
                    && m == "malformed frame"@,
                ErrorsV::Unrecognised => false,
            },
        }),
    decreases s@.len() - pos, 0int,
{
    let n = s.unicode_len();
    if pos >= n {
        return Err(Errors::Incomplete);
    }
    let c = s.get_char(pos);
    if c == '+' || c == '-' {
        match find_crlf_at(s, pos + 1) {
            None => Err(Errors::Incomplete),
            Some(k) => {
                let text = String::from_str(s.substring_char(pos + 1, k));
                let f = if c == '+' {
                    Frame::Simple(text)
                } else {
                    Frame::Error(text)
                };
                Ok((f, k + 2))
            },
        }
    } else if c == '$' {
        match find_crlf_at(s, pos + 1) {
            None => Err(Errors::Incomplete),
            Some(k) => {
                let ghost line = s@.subrange(pos + 1, k as int);
                if k - (pos + 1) == 2 && s.get_char(pos + 1) == '-' && s.get_char(pos + 2)
                    == '1' {
                    proof {
                        assert(line.len() == 2 && line[0] == '-' && line[1] == '1');
                    }
                    Ok((Frame::Null, k + 2))
                } else {
                    proof {
                        assert(!(line.len() == 2 && line[0] == '-' && line[1] == '1'));
                    }
                    match parse_usize(s, pos + 1, k) {
                        None => Err(parse_error()),
                        Some(_len) => {
                            match find_crlf_at(s, k + 2) {
                                None => Err(Errors::Incomplete),
                                Some(k2) => {
                                    let text = String::from_str(s.substring_char(k + 2, k2));
                                    Ok((Frame::Bulk(text), k2 + 2))
                                },
                            }
                        },
                    }
                }
            },
        }
    } else if c == '*' {
        match find_crlf_at(s, pos + 1) {
            None => Err(Errors::Incomplete),
            Some(k) => {
                match parse_usize(s, pos + 1, k) {
                    None => Err(parse_error()),
                    Some(cnt) => {
                        proof {
                            assert(adv(s@, pos as int, k + 2) == k + 2);
                        }
                        match parse_elems(s, k + 2, cnt) {
                            Err(e) => Err(e),
                            Ok(p) => {
                                let (v, end) = p;
                                proof {
                                    assert(Frame::Array(v).fv() == FrameV::Array(
                                        frames_fv(v@),
                                    )) by {
                                        assert(Frame::Array(v).fv()->Array_0 =~= frames_fv(v@));
                                    }
                                }
                                Ok((Frame::Array(v), end))
                            },
                        }
                    },
                }
            },
        }
    } else {
        Err(parse_error())
    }
}

/// Reads `n` frames in sequence beginning at character `pos` of `s`.
fn parse_elems(s: &str, pos: usize, n: usize) -> (r: Result<(Vec<Frame>, usize), Errors>)
    requires
        pos <= s@.len(),
    ensures
        (match r {
            Ok(p) => spec_parse_elems(s@, pos as int, n as nat) == ParsedElems::Found(
                frames_fv(p.0@),
                p.1 as int,
            ) && pos <= p.1 <= s@.len(),
            Err(e) => match e.ev() {
                ErrorsV::Incomplete => spec_parse_elems(s@, pos as int, n as nat)
                    == ParsedElems::Incomplete,
                ErrorsV::ParseError(m) => spec_parse_elems(s@, pos as int, n as nat)
                    == ParsedElems::Malformed && m == "malformed frame"@,
                ErrorsV::Unrecognised => false,
            },
        }),
    decreases s@.len() - pos, n + 1,
{
    if n == 0 {
        let v: Vec<Frame> = Vec::new();
        proof {
            assert(frames_fv(v@) =~= Seq::<FrameV>::empty());
        }
        return Ok((v, pos));
    }
    match parse_frame(s, pos) {
        Err(e) => Err(e),
        Ok(p) => {
            let (f, end) = p;
            proof {
                assert(adv(s@, pos as int, end as int) == end as int);
            }
            match parse_elems(s, end, n - 1) {
                Err(e) => Err(e),
                Ok(q) => {
                    let (mut rest, end2) = q;
                    let ghost rv = rest@;
                    rest.insert(0, f);
                    proof {
                        assert(rest@ =~= seq![f] + rv);
                        assert(frames_fv(rest@) =~= seq![f.fv()] + frames_fv(rv));
                    }
                    Ok((rest, end2))
                },
            }
        },
    }
}

/// Interprets a command-frame value: the first element names the
/// command, case-insensitively; `PING` ignores further elements;
/// `ECHO` and `GET` take one bulk argument; `SET` takes key and value
/// and, optionally, an expiry option pair.
pub open spec fn to_command_v(f: FrameV, now: u64) -> Result<CommandV, ErrorsV> {
    match f {
        FrameV::Array(items) => {
            if items.len() == 0 {
                Err(ErrorsV::Unrecognised)
            } else {
                match items[0] {
                    FrameV::Bulk(name) => {
                        if eq_nocase(name, "PING"@) {
                            Ok(CommandV::Ping)
                        } else if eq_nocase(name, "ECHO"@) {
                            if items.len() >= 2 && items[1] is Bulk {
                                Ok(CommandV::Echo(items[1]->Bulk_0))
                            } else {
                                Err(ErrorsV::Incomplete)
                            }
                        } else if eq_nocase(name, "GET"@) {
                            if items.len() >= 2 && items[1] is Bulk {
                                Ok(CommandV::Get(items[1]->Bulk_0))
                            } else {
                                Err(ErrorsV::Incomplete)
                            }
                        } else if eq_nocase(name, "SET"@) {
                            if items.len() >= 3 && items[1] is Bulk && items[2] is Bulk {
                                match set_expiry_v(items, now) {
                                    Ok(e) => Ok(
                                        CommandV::SetVal(
                                            items[1]->Bulk_0,
                                            items[2]->Bulk_0,
                                            e,
                                        ),
                                    ),
                                    Err(er) => Err(er),
                                }
                            } else {
                                Err(ErrorsV::Incomplete)
                            }
                        } else {
                            Err(ErrorsV::Unrecognised)
                        }
                    },
                    _ => Err(ErrorsV::Unrecognised),
                }
            }
        },
        _ => Err(ErrorsV::Unrecognised),
    }
}

/// The optional expiry of a `SET`: elements three and four, when both
/// are present and bulk, name an option and an amount.  `PX` counts
/// milliseconds and `EX` seconds (saturating in milliseconds).  The
/// chosen policy for an unknown option name is to attach no expiry,
/// silently; an amount that is not a string of decimal digits, or
/// does not fit, is a `ParseError` carrying the amount text.
pub open spec fn set_expiry_v(items: Seq<FrameV>, now: u64) -> Result<Option<Expiry>, ErrorsV> {
    if items.len() >= 5 && items[3] is Bulk && items[4] is Bulk {
        let amount_txt = items[4]->Bulk_0;
        if !(amount_txt.len() > 0 && is_digits(amount_txt) && digits_val(amount_txt)
            <= u64::MAX) {
            Err(ErrorsV::ParseError(amount_txt))
        } else {
            let amount = digits_val(amount_txt);
            let opt = items[3]->Bulk_0;
            if eq_nocase(opt, "PX"@) {
                Ok(Some(Expiry { created_at: now, duration: amount as u64 }))
            } else if eq_nocase(opt, "EX"@) {
                Ok(
                    Some(
                        Expiry {
                            created_at: now,
                            duration: if amount <= u64::MAX as int / 1000 {
                                (amount * 1000) as u64
                            } else {
                                u64::MAX
                            },
                        },
                    ),
                )
            } else {
                Ok(None)
            }
        }
    } else {
        Ok(None)
    }
}

/// Reads the expiry option pair of a `SET` command's frame, if any.
fn set_expiry(items: &Vec<Frame>, now: u64) -> (r: Result<Option<Expiry>, Errors>)
    ensures
        (match (r, set_expiry_v(frames_fv(items@), now)) {
            (Ok(a), Ok(b)) => a == b,
            (Err(e), Err(ev)) => e.ev() == ev,
            _ => false,
        }),
{
    let ghost iv = frames_fv(items@);
    if items.len() >= 5 {
        proof {
            assert(iv[3] == items@[3].fv());
            assert(iv[4] == items@[4].fv());
        }
        match (&items[3], &items[4]) {
            (Frame::Bulk(opt), Frame::Bulk(amount_txt)) => {
                let alen = amount_txt.as_str().unicode_len();
                proof {
                    assert(amount_txt@.subrange(0, amount_txt@.len() as int) =~= amount_txt@);
                }
                match parse_u64(amount_txt.as_str(), 0, alen) {
                    None => Err(Errors::ParseError(amount_txt.clone())),
                    Some(amount) => {
                        if str_eq_nocase(opt.as_str(), "PX") {
                            Ok(Some(Expiry::new(now, amount)))
                        } else if str_eq_nocase(opt.as_str(), "EX") {
                            let d = if amount <= u64::MAX / 1000 {
                                amount * 1000
                            } else {
                                u64::MAX
                            };
                            Ok(Some(Expiry::new(now, d)))
                        } else {
                            Ok(None)
                        }
                    },
                }
            },
            _ => Ok(None),
        }
    } else {
        Ok(None)
    }
}

impl Frame {
    /// Decodes one frame from the front of `input`.  `Ok(None)` says
    /// the buffer holds strictly less than one complete frame and the
    /// caller must wait for more bytes; a syntax error is a
    /// `ParseError`.
    pub fn decode(input: &str) -> (r: Result<Option<Frame>, Errors>)
        ensures
            (match spec_parse(input@, 0) {
                ParsedFrame::Found(fv, end) => r matches Ok(Some(f)) && f.fv() == fv,
                ParsedFrame::Incomplete => r matches Ok(o) && o is None,
                ParsedFrame::Malformed => r matches Err(e) && e.ev() == ErrorsV::ParseError(
                    "malformed frame"@,
                ),
            }),
    {
        Self::decode_prefix(input).0
    }

    /// Like `decode`, but also reports how many characters of `input`
    /// the decoded frame consumed, so the caller can drop exactly
    /// those and keep the rest buffered.
    pub fn decode_prefix(input: &str) -> (r: (Result<Option<Frame>, Errors>, usize))
        ensures
            (match spec_parse(input@, 0) {
                ParsedFrame::Found(fv, end) => r.0 matches Ok(Some(f)) && f.fv() == fv && r.1
                    == end,
                ParsedFrame::Incomplete => r.0 matches Ok(o) && o is None && r.1 == 0,
                ParsedFrame::Malformed => (r.0 matches Err(e) && e.ev() == ErrorsV::ParseError(
                    "malformed frame"@,
                )) && r.1 == 0,
            }),
    {
        match parse_frame(input, 0) {
            Ok(p) => {
                let (f, end) = p;
                (Ok(Some(f)), end)
            },
            Err(e) => {
                match e {
                    Errors::Incomplete => (Ok(None), 0),
                    other => (Err(other), 0),
                }
            },
        }
    }

    /// Interprets this frame as a command.  The frame must be an array
    /// whose first element is a bulk string naming the command,
    /// case-insensitively; `now` stamps any expiry a `SET` carries.
    pub fn to_command(&self, now: u64) -> (r: Result<Command, Errors>)
        ensures
            (match (r, to_command_v(self.fv(), now)) {
                (Ok(c), Ok(cv)) => c.cv() == cv,
                (Err(e), Err(ev)) => e.ev() == ev,
                _ => false,
            }),
    {
        match self {
            Frame::Array(items) => {
                let ghost iv = frames_fv(items@);
                proof {
                    assert(self.fv()->Array_0 =~= iv);
                }
                if items.len() == 0 {
                    return Err(Errors::Unrecognised);
                }
                let head_is_bulk = match &items[0] {
                    Frame::Bulk(_) => true,
                    _ => false,
                };
                if !head_is_bulk {
                    return Err(Errors::Unrecognised);
                }
                let name = items[0].unwrap_bulk();
                proof {
                    assert(iv[0] == items@[0].fv());
                    assert(iv[0]->Bulk_0 == name@);
                }
                if str_eq_nocase(name.as_str(), "PING") {
                    Ok(Command::Ping)
                } else if str_eq_nocase(name.as_str(), "ECHO") {
                    if items.len() >= 2 {
                        proof {
                            assert(iv[1] == items@[1].fv());
                        }
                        match &items[1] {
                            Frame::Bulk(t) => Ok(Command::Echo(t.clone())),
                            _ => Err(Errors::Incomplete),
                        }
                    } else {
                        Err(Errors::Incomplete)
                    }
                } else if str_eq_nocase(name.as_str(), "GET") {
                    if items.len() >= 2 {
                        proof {
                            assert(iv[1] == items@[1].fv());
                        }
                        match &items[1] {
                            Frame::Bulk(k) => Ok(Command::Get(k.clone())),
                            _ => Err(Errors::Incomplete),
                        }
                    } else {
                        Err(Errors::Incomplete)
                    }
                } else if str_eq_nocase(name.as_str(), "SET") {
                    if items.len() >= 3 {
                        proof {
                            assert(iv[1] == items@[1].fv());
                            assert(iv[2] == items@[2].fv());
                        }
                        match (&items[1], &items[2]) {
                            (Frame::Bulk(k), Frame::Bulk(v)) => {
                                match set_expiry(items, now) {
                                    Ok(e) => Ok(Command::SetVal(k.clone(), v.clone(), e)),
                                    Err(e) => Err(e),
                                }
                            },
                            _ => Err(Errors::Incomplete),
                        }
                    } else {
                        Err(Errors::Incomplete)
                    }
                } else {
                    Err(Errors::Unrecognised)
                }
            },
            _ => Err(Errors::Unrecognised),
        }
    }

    /// The text of a bulk frame; any other frame is ruled out by the
    /// caller, where the wire made it a process-fatal condition.
    pub fn unwrap_bulk(&self) -> (r: String)
        requires
            self is Bulk,
        ensures
            r@ == self->Bulk_0@,
    {
        match self {
            Frame::Bulk(t) => t.clone(),
            _ => String::new(),
        }
    }
}

} // verus!
