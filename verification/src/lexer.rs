//! The tokenizer: from a position in the bytes to the next token.
use vstd::prelude::*;
use crate::bytes::{
    ascii, bytes_eq, copy_range, hex_digit, hex_value, is_digit, is_eol, is_regular,
    is_whitespace, BACKSLASH, CR, DOT, GT, HASH, LBRACKET, LF, LPAREN, LT, MINUS, PERCENT, PLUS,
    RBRACKET, RPAREN, SLASH,
};
use crate::error::ParseError;

verus! {

/// A lexical token of the PDF syntax.
#[derive(Debug, PartialEq, Eq)]
pub enum Token {
    Integer(i64),
    /// A number with a decimal point, kept as it is written.
    Real(Vec<u8>),
    LiteralString(Vec<u8>),
    HexString(Vec<u8>),
    /// A name, without its leading slash and with `#` escapes resolved.
    Name(Vec<u8>),
    ArrayOpen,
    ArrayClose,
    DictOpen,
    DictClose,
    /// Any other run of regular bytes: `obj`, `R`, `true`, `xref`, ...
    Keyword(Vec<u8>),
    /// The keyword `stream`.
    StreamBegin,
    /// The keyword `endstream`.
    StreamEnd,
    /// Nothing but white space and comments is left.
    Eof,
}

/// The mathematical value of a token.
pub enum TokenView {
    Integer(int),
    Real(Seq<u8>),
    LiteralString(Seq<u8>),
    HexString(Seq<u8>),
    Name(Seq<u8>),
    ArrayOpen,
    ArrayClose,
    DictOpen,
    DictClose,
    Keyword(Seq<u8>),
    StreamBegin,
    StreamEnd,
    Eof,
}

impl View for Token {
    type V = TokenView;

    open spec fn view(&self) -> TokenView {
        match self {
            Token::Integer(n) => TokenView::Integer(*n as int),
            Token::Real(b) => TokenView::Real(b@),
            Token::LiteralString(b) => TokenView::LiteralString(b@),
            Token::HexString(b) => TokenView::HexString(b@),
            Token::Name(b) => TokenView::Name(b@),
            Token::ArrayOpen => TokenView::ArrayOpen,
            Token::ArrayClose => TokenView::ArrayClose,
            Token::DictOpen => TokenView::DictOpen,
            Token::DictClose => TokenView::DictClose,
            Token::Keyword(b) => TokenView::Keyword(b@),
            Token::StreamBegin => TokenView::StreamBegin,
            Token::StreamEnd => TokenView::StreamEnd,
            Token::Eof => TokenView::Eof,
        }
    }
}

/// The first position at or after `pos` that is neither white space nor part
/// of a comment. A comment runs from `%` to the end of its line.
pub open spec fn skip_blank(s: Seq<u8>, pos: int, in_comment: bool) -> int
    decreases s.len() - pos,
{
    if pos < 0 || pos >= s.len() {
        pos
    } else if in_comment {
        skip_blank(s, pos + 1, !is_eol(s[pos]))
    } else if is_whitespace(s[pos]) {
        skip_blank(s, pos + 1, false)
    } else if s[pos] == PERCENT {
        skip_blank(s, pos + 1, true)
    } else {
        pos
    }
}

/// The end of the run of regular bytes that starts at `pos`.
pub open spec fn run_end(s: Seq<u8>, pos: int) -> int
    decreases s.len() - pos,
{
    if 0 <= pos < s.len() && is_regular(s[pos]) {
        run_end(s, pos + 1)
    } else {
        pos
    }
}

/// The end of the run of decimal digits that starts at `pos`.
pub open spec fn digits_end(s: Seq<u8>, pos: int) -> int
    decreases s.len() - pos,
{
    if 0 <= pos < s.len() && is_digit(s[pos]) {
        digits_end(s, pos + 1)
    } else {
        pos
    }
}

/// The number that the decimal digits from `start` up to `end` write.
pub open spec fn digits_value(s: Seq<u8>, start: int, end: int) -> int
    decreases end - start,
{
    if end <= start {
        0
    } else {
        digits_value(s, start, end - 1) * 10 + (s[end - 1] - 0x30)
    }
}

/// Where the digits of a number start: behind its sign, if it has one.
pub open spec fn sign_len(run: Seq<u8>) -> int {
    if run.len() > 0 && (run[0] == PLUS || run[0] == MINUS) {
        1
    } else {
        0
    }
}

/// The run is an optional sign and one or more digits.
pub open spec fn is_integer_run(run: Seq<u8>) -> bool {
    sign_len(run) < run.len() && digits_end(run, sign_len(run)) == run.len()
}

/// The run is an optional sign and digits with one decimal point among them,
/// at least one digit in all.
pub open spec fn is_real_run(run: Seq<u8>) -> bool {
    let d = digits_end(run, sign_len(run));
    d < run.len() && run[d] == DOT && digits_end(run, d + 1) == run.len() && run.len() - sign_len(
        run,
    ) >= 2
}

/// The integer that an integer run writes.
pub open spec fn integer_run_value(run: Seq<u8>) -> int {
    let v = digits_value(run, sign_len(run), run.len() as int);
    if run[0] == MINUS {
        -v
    } else {
        v
    }
}

/// The token that a run of regular bytes makes. An integer whose magnitude
/// does not fit in 63 bits makes none.
pub open spec fn classify_run(run: Seq<u8>) -> Option<TokenView> {
    if is_integer_run(run) {
        if digits_value(run, sign_len(run), run.len() as int) <= i64::MAX {
            Some(TokenView::Integer(integer_run_value(run)))
        } else {
            None
        }
    } else if is_real_run(run) {
        Some(TokenView::Real(run))
    } else if run == ascii("stream") {
        Some(TokenView::StreamBegin)
    } else if run == ascii("endstream") {
        Some(TokenView::StreamEnd)
    } else {
        Some(TokenView::Keyword(run))
    }
}

pub open spec fn is_octal(b: u8) -> bool {
    0x30 <= b && b <= 0x37
}

/// How many octal digits, one to three, an escape that starts at `pos` has.
pub open spec fn octal_len(s: Seq<u8>, pos: int) -> int {
    if pos + 1 < s.len() && is_octal(s[pos + 1]) {
        if pos + 2 < s.len() && is_octal(s[pos + 2]) {
            3
        } else {
            2
        }
    } else {
        1
    }
}

/// The byte that the `n` octal digits at `pos` write; high bits are dropped.
pub open spec fn octal_byte(s: Seq<u8>, pos: int, n: int) -> u8 {
    if n == 1 {
        (s[pos] - 0x30) as u8
    } else if n == 2 {
        ((s[pos] - 0x30) * 8 + (s[pos + 1] - 0x30)) as u8
    } else {
        (((s[pos] - 0x30) * 64 + (s[pos + 1] - 0x30) * 8 + (s[pos + 2] - 0x30)) % 256) as u8
    }
}

/// The byte that a backslash and the letter `e` stand for.
pub open spec fn unescape(e: u8) -> u8 {
    if e == 0x6e {
        10
    } else if e == 0x72 {
        13
    } else if e == 0x74 {
        9
    } else if e == 0x62 {
        8
    } else if e == 0x66 {
        12
    } else {
        e
    }
}

/// The rest of a literal string from `pos`, inside `depth` nested pairs of
/// parentheses, with `acc` read so far: its bytes and the position behind the
/// closing parenthesis, or `None` where the string does not end.
pub open spec fn lit_string(s: Seq<u8>, pos: int, depth: nat, acc: Seq<u8>) -> Option<
    (Seq<u8>, int),
>
    decreases s.len() - pos,
{
    if pos < 0 || pos >= s.len() {
        None
    } else if s[pos] == BACKSLASH {
        if pos + 1 >= s.len() {
            None
        } else if is_octal(s[pos + 1]) {
            let n = octal_len(s, pos + 1);
            lit_string(s, pos + 1 + n, depth, acc.push(octal_byte(s, pos + 1, n)))
        } else if s[pos + 1] == CR && pos + 2 < s.len() && s[pos + 2] == LF {
            lit_string(s, pos + 3, depth, acc)
        } else if is_eol(s[pos + 1]) {
            lit_string(s, pos + 2, depth, acc)
        } else {
            lit_string(s, pos + 2, depth, acc.push(unescape(s[pos + 1])))
        }
    } else if s[pos] == LPAREN {
        lit_string(s, pos + 1, depth + 1, acc.push(s[pos]))
    } else if s[pos] == RPAREN {
        if depth == 0 {
            Some((acc, pos + 1))
        } else {
            lit_string(s, pos + 1, (depth - 1) as nat, acc.push(s[pos]))
        }
    } else {
        lit_string(s, pos + 1, depth, acc.push(s[pos]))
    }
}

/// The rest of a hexadecimal string from `pos`, with `acc` read so far and
/// `pending` the high digit of an unfinished byte. White space is skipped and
/// a missing last digit counts as zero. `None` where a byte is no hex digit or
/// the closing `>` is missing.
pub open spec fn hex_string(s: Seq<u8>, pos: int, acc: Seq<u8>, pending: Option<u8>) -> Option<
    (Seq<u8>, int),
>
    decreases s.len() - pos,
{
    if pos < 0 || pos >= s.len() {
        None
    } else if s[pos] == GT {
        match pending {
            Some(h) => Some((acc.push((h * 16) as u8), pos + 1)),
            None => Some((acc, pos + 1)),
        }
    } else if is_whitespace(s[pos]) {
        hex_string(s, pos + 1, acc, pending)
    } else {
        match hex_value(s[pos]) {
            Some(v) => match pending {
                Some(h) => hex_string(s, pos + 1, acc.push((h * 16 + v) as u8), None),
                None => hex_string(s, pos + 1, acc, Some(v)),
            },
            None => None,
        }
    }
}

/// The rest of a name from `pos`, with `acc` read so far: its bytes and the
/// position of the first byte that is not regular. `#` and two hex digits
/// write one byte; `None` where `#` is followed by anything else.
pub open spec fn name_bytes(s: Seq<u8>, pos: int, acc: Seq<u8>) -> Option<(Seq<u8>, int)>
    decreases s.len() - pos,
{
    if pos < 0 || pos >= s.len() || !is_regular(s[pos]) {
        Some((acc, pos))
    } else if s[pos] == HASH {
        if pos + 2 < s.len() {
            match (hex_value(s[pos + 1]), hex_value(s[pos + 2])) {
                (Some(h), Some(l)) => name_bytes(s, pos + 3, acc.push((h * 16 + l) as u8)),
                _ => None,
            }
        } else {
            None
        }
    } else {
        name_bytes(s, pos + 1, acc.push(s[pos]))
    }
}

/// The token that starts at the first byte at or after `pos` that is not
/// blank, with the position behind it; `None` where it is malformed.
pub open spec fn token_at(s: Seq<u8>, pos: int) -> Option<(TokenView, int)> {
    let p = skip_blank(s, pos, false);
    if p < 0 || p >= s.len() {
        Some((TokenView::Eof, p))
    } else if s[p] == LPAREN {
        match lit_string(s, p + 1, 0, Seq::empty()) {
            Some((b, q)) => Some((TokenView::LiteralString(b), q)),
            None => None,
        }
    } else if s[p] == LT {
        if p + 1 < s.len() && s[p + 1] == LT {
            Some((TokenView::DictOpen, p + 2))
        } else {
            match hex_string(s, p + 1, Seq::empty(), None) {
                Some((b, q)) => Some((TokenView::HexString(b), q)),
                None => None,
            }
        }
    } else if s[p] == GT {
        if p + 1 < s.len() && s[p + 1] == GT {
            Some((TokenView::DictClose, p + 2))
        } else {
            None
        }
    } else if s[p] == LBRACKET {
        Some((TokenView::ArrayOpen, p + 1))
    } else if s[p] == RBRACKET {
        Some((TokenView::ArrayClose, p + 1))
    } else if s[p] == SLASH {
        match name_bytes(s, p + 1, Seq::empty()) {
            Some((b, q)) => Some((TokenView::Name(b), q)),
            None => None,
        }
    } else if !is_regular(s[p]) {
        None
    } else {
        let e = run_end(s, p);
        match classify_run(s.subrange(p, e)) {
            Some(t) => Some((t, e)),
            None => None,
        }
    }
}

/// At and behind the end of the bytes the only token is `Eof`.
pub proof fn lemma_token_past_end(s: Seq<u8>, pos: int)
    requires
        pos >= s.len(),
    ensures
        token_at(s, pos) == Some((TokenView::Eof, pos)),
{
}

/// Every byte between `pos` and the end of the digits that start there is a
/// digit, and that end lies between `pos` and the end of the bytes.
pub proof fn lemma_digits_end(s: Seq<u8>, pos: int)
    requires
        0 <= pos <= s.len(),
    ensures
        pos <= digits_end(s, pos) <= s.len(),
        forall|k: int| pos <= k < digits_end(s, pos) ==> is_digit(s[k]),
        digits_end(s, pos) < s.len() ==> !is_digit(s[digits_end(s, pos)]),
    decreases s.len() - pos,
{
    if pos < s.len() && is_digit(s[pos]) {
        lemma_digits_end(s, pos + 1);
    }
}

/// More digits never write a smaller number.
pub proof fn lemma_digits_value_grows(s: Seq<u8>, start: int, i: int, j: int)
    requires
        0 <= start <= i <= j <= s.len(),
        forall|k: int| start <= k < j ==> is_digit(s[k]),
    ensures
        0 <= digits_value(s, start, i) <= digits_value(s, start, j),
    decreases j - i,
{
    lemma_digits_value_nonneg(s, start, i);
    if i < j {
        lemma_digits_value_grows(s, start, i, j - 1);
    }
}

proof fn lemma_digits_value_nonneg(s: Seq<u8>, start: int, i: int)
    requires
        0 <= start <= i <= s.len(),
        forall|k: int| start <= k < i ==> is_digit(s[k]),
    ensures
        0 <= digits_value(s, start, i),
    decreases i - start,
{
    if start < i {
        lemma_digits_value_nonneg(s, start, i - 1);
    }
}

/// The first position at or after `pos` that is not blank.
pub fn skip_blank_from(buf: &[u8], pos: usize) -> (r: usize)
    ensures
        r as int == skip_blank(buf@, pos as int, false),
        pos <= r,
        r <= buf.len() || r == pos,
{
    let mut i: usize = pos;
    let mut in_comment = false;
    while i < buf.len()
        invariant
            pos <= i,
            i <= buf.len() || i == pos,
            skip_blank(buf@, pos as int, false) == skip_blank(buf@, i as int, in_comment),
        decreases buf.len() - i,
    {
        let c = buf[i];
        if in_comment {
            in_comment = !is_eol(c);
        } else if is_whitespace(c) {
        } else if c == PERCENT {
            in_comment = true;
        } else {
            return i;
        }
        i += 1;
    }
    i
}

fn scan_run(buf: &[u8], pos: usize) -> (r: usize)
    requires
        pos <= buf.len(),
    ensures
        r as int == run_end(buf@, pos as int),
        pos <= r <= buf.len(),
        pos < buf.len() && is_regular(buf@[pos as int]) ==> pos < r,
{
    let mut i: usize = pos;
    while i < buf.len() && is_regular(buf[i])
        invariant
            pos <= i <= buf.len(),
            run_end(buf@, pos as int) == run_end(buf@, i as int),
        decreases buf.len() - i,
    {
        i += 1;
    }
    i
}

fn scan_digits(buf: &[u8], pos: usize) -> (r: usize)
    requires
        pos <= buf.len(),
    ensures
        r as int == digits_end(buf@, pos as int),
        pos <= r <= buf.len(),
{
    let mut i: usize = pos;
    while i < buf.len() && is_digit(buf[i])
        invariant
            pos <= i <= buf.len(),
            digits_end(buf@, pos as int) == digits_end(buf@, i as int),
        decreases buf.len() - i,
    {
        i += 1;
    }
    i
}

/// The number written by the digits from `start` to the end of `run`, where
/// it is at most `i64::MAX`.
fn parse_magnitude(run: &[u8], start: usize) -> (r: Option<i64>)
    requires
        start <= run.len(),
        digits_end(run@, start as int) == run.len(),
    ensures
        match r {
            Some(v) => v == digits_value(run@, start as int, run.len() as int) && 0 <= v,
            None => digits_value(run@, start as int, run.len() as int) > i64::MAX,
        },
{
    proof {
        lemma_digits_end(run@, start as int);
    }
    let mut acc: i64 = 0;
    let mut i: usize = start;
    while i < run.len()
        invariant
            start <= i <= run.len(),
            forall|k: int| start <= k < run.len() ==> is_digit(run@[k]),
            acc == digits_value(run@, start as int, i as int),
            0 <= acc,
        decreases run.len() - i,
    {
        let d: i64 = (run[i] - 0x30) as i64;
        if acc > (i64::MAX - d) / 10 {
            proof {
                lemma_digits_value_grows(run@, start as int, i + 1, run.len() as int);
            }
            return None;
        }
        acc = acc * 10 + d;
        i += 1;
    }
    Some(acc)
}

/// The token that the bytes of `run` make.
fn classify(run: &[u8]) -> (r: Result<Token, ParseError>)
    ensures
        match r {
            Ok(t) => classify_run(run@) == Some(t@),
            Err(e) => e == ParseError::MalformedToken && classify_run(run@) is None,
        },
{
    let start: usize = if run.len() > 0 && (run[0] == PLUS || run[0] == MINUS) {
        1
    } else {
        0
    };
    let d = scan_digits(run, start);
    if start < run.len() && d == run.len() {
        return match parse_magnitude(run, start) {
            Some(v) => Ok(Token::Integer(if run[0] == MINUS { -v } else { v })),
            None => Err(ParseError::MalformedToken),
        };
    }
    if d < run.len() && run[d] == DOT && run.len() - start >= 2 {
        let d2 = scan_digits(run, d + 1);
        if d2 == run.len() {
            let lexeme = copy_range(run, 0, run.len());
            assert(lexeme@ =~= run@);
            return Ok(Token::Real(lexeme));
        }
    }
    if bytes_eq(run, "stream".as_bytes()) {
        Ok(Token::StreamBegin)
    } else if bytes_eq(run, "endstream".as_bytes()) {
        Ok(Token::StreamEnd)
    } else {
        let word = copy_range(run, 0, run.len());
        assert(word@ =~= run@);
        Ok(Token::Keyword(word))
    }
}

fn lex_literal_string(buf: &[u8], start: usize) -> (r: Option<(Vec<u8>, usize)>)
    ensures
        match r {
            Some((b, q)) => lit_string(buf@, start as int, 0, Seq::empty()) == Some(
                (b@, q as int),
            ) && start < q <= buf.len(),
            None => lit_string(buf@, start as int, 0, Seq::empty()) is None,
        },
{
    let mut out: Vec<u8> = Vec::new();
    let mut i: usize = start;
    let mut depth: usize = 0;
    let n = buf.len();
    while i < n
        invariant
            n == buf.len(),
            start <= i,
            depth <= i - start,
            lit_string(buf@, start as int, 0, Seq::empty()) == lit_string(
                buf@,
                i as int,
                depth as nat,
                out@,
            ),
        decreases n - i,
    {
        let c = buf[i];
        if c == BACKSLASH {
            if n - i <= 1 {
                return None;
            }
            let e = buf[i + 1];
            if 0x30 <= e && e <= 0x37 {
                let d0: u32 = (e - 0x30) as u32;
                if n - i > 2 && 0x30 <= buf[i + 2] && buf[i + 2] <= 0x37 {
                    let d1: u32 = (buf[i + 2] - 0x30) as u32;
                    if n - i > 3 && 0x30 <= buf[i + 3] && buf[i + 3] <= 0x37 {
                        let d2: u32 = (buf[i + 3] - 0x30) as u32;
                        out.push(((d0 * 64 + d1 * 8 + d2) % 256) as u8);
                        i += 4;
                    } else {
                        out.push((d0 * 8 + d1) as u8);
                        i += 3;
                    }
                } else {
                    out.push(d0 as u8);
                    i += 2;
                }
            } else if e == CR && n - i > 2 && buf[i + 2] == LF {
                i += 3;
            } else if is_eol(e) {
                i += 2;
            } else {
                let b: u8 = if e == 0x6e {
                    10
                } else if e == 0x72 {
                    13
                } else if e == 0x74 {
                    9
                } else if e == 0x62 {
                    8
                } else if e == 0x66 {
                    12
                } else {
                    e
                };
                out.push(b);
                i += 2;
            }
        } else if c == LPAREN {
            out.push(c);
            depth += 1;
            i += 1;
        } else if c == RPAREN {
            if depth == 0 {
                return Some((out, i + 1));
            }
            out.push(c);
            depth -= 1;
            i += 1;
        } else {
            out.push(c);
            i += 1;
        }
    }
    None
}

fn lex_hex_string(buf: &[u8], start: usize) -> (r: Option<(Vec<u8>, usize)>)
    ensures
        match r {
            Some((b, q)) => hex_string(buf@, start as int, Seq::empty(), None) == Some(
                (b@, q as int),
            ) && start < q <= buf.len(),
            None => hex_string(buf@, start as int, Seq::empty(), None) is None,
        },
{
    let mut out: Vec<u8> = Vec::new();
    let mut i: usize = start;
    let mut pending: Option<u8> = None;
    while i < buf.len()
        invariant
            start <= i,
            pending matches Some(h) ==> h < 16,
            hex_string(buf@, start as int, Seq::empty(), None) == hex_string(
                buf@,
                i as int,
                out@,
                pending,
            ),
        decreases buf.len() - i,
    {
        let c = buf[i];
        if c == GT {
            match pending {
                Some(h) => {
                    out.push(h * 16);
                },
                None => {},
            }
            return Some((out, i + 1));
        } else if is_whitespace(c) {
        } else {
            match hex_digit(c) {
                Some(v) => {
                    match pending {
                        Some(h) => {
                            out.push(h * 16 + v);
                            pending = None;
                        },
                        None => {
                            pending = Some(v);
                        },
                    }
                },
                None => {
                    return None;
                },
            }
        }
        i += 1;
    }
    None
}

fn lex_name(buf: &[u8], start: usize) -> (r: Option<(Vec<u8>, usize)>)
    requires
        start <= buf.len(),
    ensures
        match r {
            Some((b, q)) => name_bytes(buf@, start as int, Seq::empty()) == Some((b@, q as int))
                && start <= q <= buf.len(),
            None => name_bytes(buf@, start as int, Seq::empty()) is None,
        },
{
    let mut out: Vec<u8> = Vec::new();
    let mut i: usize = start;
    let n = buf.len();
    while i < n && is_regular(buf[i])
        invariant
            n == buf.len(),
            start <= i <= n,
            name_bytes(buf@, start as int, Seq::empty()) == name_bytes(buf@, i as int, out@),
        decreases n - i,
    {
        let c = buf[i];
        if c == HASH {
            if n - i <= 2 {
                return None;
            }
            match (hex_digit(buf[i + 1]), hex_digit(buf[i + 2])) {
                (Some(h), Some(l)) => {
                    out.push(h * 16 + l);
                    i += 3;
                },
                _ => {
                    return None;
                },
            }
        } else {
            out.push(c);
            i += 1;
        }
    }
    Some((out, i))
}

/// The next token at or after `pos` and the position behind it.
///
/// Blank bytes and comments before the token are skipped. Where only those are
/// left the token is `Eof`. A token that breaks a lexical rule gives
/// `MalformedToken`.
pub fn next_token(buf: &[u8], pos: usize) -> (r: Result<(Token, usize), ParseError>)
    ensures
        match r {
            Ok((t, q)) => token_at(buf@, pos as int) == Some((t@, q as int)) && pos <= q && (q
                <= buf.len() || q == pos) && (!(t@ is Eof) ==> pos < q <= buf.len()),
            Err(e) => e == ParseError::MalformedToken && token_at(buf@, pos as int) is None,
        },
{
    let p = skip_blank_from(buf, pos);
    let n = buf.len();
    if p >= n {
        return Ok((Token::Eof, p));
    }
    let c = buf[p];
    if c == LPAREN {
        match lex_literal_string(buf, p + 1) {
            Some((b, q)) => Ok((Token::LiteralString(b), q)),
            None => Err(ParseError::MalformedToken),
        }
    } else if c == LT {
        if n - p > 1 && buf[p + 1] == LT {
            Ok((Token::DictOpen, p + 2))
        } else {
            match lex_hex_string(buf, p + 1) {
                Some((b, q)) => Ok((Token::HexString(b), q)),
                None => Err(ParseError::MalformedToken),
            }
        }
    } else if c == GT {
        if n - p > 1 && buf[p + 1] == GT {
            Ok((Token::DictClose, p + 2))
        } else {
            Err(ParseError::MalformedToken)
        }
    } else if c == LBRACKET {
        Ok((Token::ArrayOpen, p + 1))
    } else if c == RBRACKET {
        Ok((Token::ArrayClose, p + 1))
    } else if c == SLASH {
        match lex_name(buf, p + 1) {
            Some((b, q)) => Ok((Token::Name(b), q)),
            None => Err(ParseError::MalformedToken),
        }
    } else if !is_regular(c) {
        Err(ParseError::MalformedToken)
    } else {
        let e = scan_run(buf, p);
        let run = vstd::slice::slice_subrange(buf, p, e);
        match classify(run) {
            Ok(t) => Ok((t, e)),
            Err(err) => Err(err),
        }
    }
}

} // verus!
