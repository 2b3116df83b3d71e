use vstd::prelude::*;
use vstd::slice::{slice_subrange, slice_to_vec};
use vstd::utf8::*;

verus! {

pub const CR: u8 = 13;

pub const LF: u8 = 10;

/// One frame of the wire protocol.
#[derive(Debug, PartialEq)]
pub enum RespValue {
    SimpleString(String),
    Error(String),
    Integer(i64),
    BulkString(Vec<u8>),
    Array(Vec<RespValue>),
    Null,
}

/// The mathematical value of a frame.
pub enum Frame {
    Simple(Seq<char>),
    Error(Seq<char>),
    Integer(int),
    Bulk(Seq<u8>),
    Array(Seq<Frame>),
    Null,
}

/// Result of parsing a prefix of a byte stream: a value and the position just after it,
/// a request for more bytes, or a malformed input.
pub enum Parsed<T> {
    Done(T, int),
    Partial,
    Bad,
}

pub open spec fn frame_of(v: RespValue) -> Frame
    decreases v,
{
    match v {
        RespValue::SimpleString(s) => Frame::Simple(s@),
        RespValue::Error(s) => Frame::Error(s@),
        RespValue::Integer(n) => Frame::Integer(n as int),
        RespValue::BulkString(b) => Frame::Bulk(b@),
        RespValue::Array(a) => Frame::Array(frames_of(a@)),
        RespValue::Null => Frame::Null,
    }
}

pub open spec fn frames_of(s: Seq<RespValue>) -> Seq<Frame>
    decreases s,
{
    if s.len() == 0 {
        Seq::empty()
    } else {
        frames_of(s.drop_last()).push(frame_of(s.last()))
    }
}

impl View for RespValue {
    type V = Frame;

    open spec fn view(&self) -> Frame {
        frame_of(*self)
    }
}

// ---------------------------------------------------------------------------
// Encoding
// ---------------------------------------------------------------------------

pub open spec fn crlf() -> Seq<u8> {
    seq![CR, LF]
}

/// Decimal digits of a natural number, most significant first.
pub open spec fn digits_of(n: nat) -> Seq<u8>
    decreases n,
{
    if n < 10 {
        seq![(48 + n) as u8]
    } else {
        digits_of(n / 10).push((48 + n % 10) as u8)
    }
}

/// Decimal text of an integer, with a leading '-' when negative.
pub open spec fn decimal(n: int) -> Seq<u8> {
    if n < 0 {
        seq![45u8] + digits_of((-n) as nat)
    } else {
        digits_of(n as nat)
    }
}

pub open spec fn encode(f: Frame) -> Seq<u8>
    decreases f,
{
    match f {
        Frame::Simple(s) => seq![43u8] + encode_utf8(s) + crlf(),
        Frame::Error(s) => seq![45u8] + encode_utf8(s) + crlf(),
        Frame::Integer(n) => seq![58u8] + decimal(n) + crlf(),
        Frame::Bulk(b) => seq![36u8] + decimal(b.len() as int) + crlf() + b + crlf(),
        Frame::Array(items) => seq![42u8] + decimal(items.len() as int) + crlf() + encode_all(items),
        Frame::Null => seq![36u8, 45u8, 49u8] + crlf(),
    }
}

pub open spec fn encode_all(items: Seq<Frame>) -> Seq<u8>
    decreases items,
{
    if items.len() == 0 {
        Seq::empty()
    } else {
        encode(items[0]) + encode_all(items.drop_first())
    }
}

proof fn lemma_encode_all_push(items: Seq<Frame>, f: Frame)
    ensures
        encode_all(items.push(f)) == encode_all(items) + encode(f),
    decreases items.len(),
{
    if items.len() == 0 {
        assert(items.push(f).drop_first() =~= Seq::<Frame>::empty());
        assert(encode_all(Seq::<Frame>::empty()) == Seq::<u8>::empty());
        assert(items.push(f)[0] == f);
        assert(encode_all(items.push(f)) =~= encode_all(items) + encode(f));
    } else {
        assert(items.push(f).drop_first() =~= items.drop_first().push(f));
        lemma_encode_all_push(items.drop_first(), f);
        assert(items.push(f)[0] == items[0]);
        assert(encode_all(items.push(f)) == encode(items[0]) + encode_all(
            items.drop_first().push(f),
        ));
        assert(encode_all(items.push(f)) =~= encode_all(items) + encode(f));
    }
}

// ---------------------------------------------------------------------------
// Grammar
// ---------------------------------------------------------------------------

/// Position of the first CR or LF at or after `pos`, or the end of the input.
pub open spec fn line_scan(b: Seq<u8>, pos: int) -> int
    decreases b.len() - pos,
{
    if pos < 0 || pos >= b.len() {
        b.len() as int
    } else if b[pos] == CR || b[pos] == LF {
        pos
    } else {
        line_scan(b, pos + 1)
    }
}

/// A line that starts at `pos` and ends with CRLF: its content and the position after it.
pub open spec fn read_line(b: Seq<u8>, pos: int) -> Parsed<Seq<u8>> {
    let e = line_scan(b, pos);
    if e >= b.len() {
        Parsed::Partial
    } else if b[e] == LF {
        Parsed::Bad
    } else if e + 1 >= b.len() {
        Parsed::Partial
    } else if b[e + 1] == LF {
        Parsed::Done(b.subrange(pos, e), e + 2)
    } else {
        Parsed::Bad
    }
}

pub open spec fn is_digit(c: u8) -> bool {
    48 <= c <= 57
}

pub open spec fn all_digits(s: Seq<u8>) -> bool {
    forall|i: int| 0 <= i < s.len() ==> is_digit(#[trigger] s[i])
}

/// Value of a run of decimal digits.
pub open spec fn digits_value(s: Seq<u8>) -> nat
    decreases s.len(),
{
    if s.len() == 0 {
        0
    } else {
        digits_value(s.drop_last()) * 10 + (s.last() - 48) as nat
    }
}

/// The integer that a line holds: an optional sign, then one or more digits.
pub open spec fn signed_value(s: Seq<u8>) -> Option<int> {
    if s.len() > 0 && (s[0] == 45 || s[0] == 43) {
        let rest = s.drop_first();
        if rest.len() > 0 && all_digits(rest) {
            if s[0] == 45 {
                Some(-(digits_value(rest) as int))
            } else {
                Some(digits_value(rest) as int)
            }
        } else {
            None
        }
    } else if s.len() > 0 && all_digits(s) {
        Some(digits_value(s) as int)
    } else {
        None
    }
}

/// The integer of a line, where it fits in 64 signed bits.
pub open spec fn int_of_line(s: Seq<u8>) -> Option<int> {
    match signed_value(s) {
        Some(n) => if i64::MIN <= n <= i64::MAX {
            Some(n)
        } else {
            None
        },
        None => None,
    }
}

pub uninterp spec fn lossy_text(b: Seq<u8>) -> Seq<char>;

/// Text of the bytes of a simple string or an error line.
pub open spec fn text_of(b: Seq<u8>) -> Seq<char> {
    if valid_utf8(b) {
        decode_utf8(b)
    } else {
        lossy_text(b)
    }
}

pub open spec fn parse_frame(b: Seq<u8>, pos: int) -> Parsed<Frame>
    decreases b.len() - pos, 0int,
{
    if pos < 0 || pos >= b.len() {
        Parsed::Partial
    } else {
        let tag = b[pos];
        if tag != 43 && tag != 45 && tag != 58 && tag != 36 && tag != 42 {
            Parsed::Bad
        } else {
            match read_line(b, pos + 1) {
                Parsed::Partial => Parsed::Partial,
                Parsed::Bad => Parsed::Bad,
                Parsed::Done(line, e) => {
                    if tag == 43 {
                        Parsed::Done(Frame::Simple(text_of(line)), e)
                    } else if tag == 45 {
                        Parsed::Done(Frame::Error(text_of(line)), e)
                    } else {
                        match int_of_line(line) {
                            None => Parsed::Bad,
                            Some(n) => {
                                if tag == 58 {
                                    Parsed::Done(Frame::Integer(n), e)
                                } else if n == -1 {
                                    Parsed::Done(Frame::Null, e)
                                } else if n < -1 {
                                    Parsed::Bad
                                } else if tag == 36 {
                                    if e + n + 2 > b.len() {
                                        Parsed::Partial
                                    } else if b[e + n] == CR && b[e + n + 1] == LF {
                                        Parsed::Done(Frame::Bulk(b.subrange(e, e + n)), e + n + 2)
                                    } else {
                                        Parsed::Bad
                                    }
                                } else if pos < e <= b.len() {
                                    match parse_items(b, e, n) {
                                        Parsed::Done(items, e2) => Parsed::Done(
                                            Frame::Array(items),
                                            e2,
                                        ),
                                        Parsed::Partial => Parsed::Partial,
                                        Parsed::Bad => Parsed::Bad,
                                    }
                                } else {
                                    Parsed::Bad
                                }
                            },
                        }
                    }
                },
            }
        }
    }
}

/// `n` frames in a row from `pos`.
pub open spec fn parse_items(b: Seq<u8>, pos: int, n: int) -> Parsed<Seq<Frame>>
    decreases b.len() - pos, n + 1,
{
    if n <= 0 {
        Parsed::Done(Seq::empty(), pos)
    } else if pos < 0 || pos > b.len() {
        Parsed::Bad
    } else {
        match parse_frame(b, pos) {
            Parsed::Done(f, e) => {
                if pos < e <= b.len() {
                    match parse_items(b, e, n - 1) {
                        Parsed::Done(rest, e2) => Parsed::Done(seq![f] + rest, e2),
                        Parsed::Partial => Parsed::Partial,
                        Parsed::Bad => Parsed::Bad,
                    }
                } else {
                    Parsed::Bad
                }
            },
            Parsed::Partial => Parsed::Partial,
            Parsed::Bad => Parsed::Bad,
        }
    }
}

// ---------------------------------------------------------------------------
// Facts about the grammar
// ---------------------------------------------------------------------------

proof fn lemma_line_scan_bounds(b: Seq<u8>, pos: int)
    requires
        0 <= pos <= b.len(),
    ensures
        pos <= line_scan(b, pos) <= b.len(),
        line_scan(b, pos) < b.len() ==> b[line_scan(b, pos)] == CR || b[line_scan(b, pos)] == LF,
        forall|i: int| pos <= i < line_scan(b, pos) ==> b[i] != CR && b[i] != LF,
    decreases b.len() - pos,
{
    if pos < b.len() && !(b[pos] == CR || b[pos] == LF) {
        lemma_line_scan_bounds(b, pos + 1);
    }
}

proof fn lemma_read_line_end(b: Seq<u8>, pos: int)
    requires
        0 <= pos <= b.len(),
    ensures
        read_line(b, pos) matches Parsed::Done(line, e) ==> pos + 2 <= e <= b.len() && line
            == b.subrange(pos, e - 2) && b[e - 2] == CR && b[e - 1] == LF,
{
    lemma_line_scan_bounds(b, pos);
}

proof fn lemma_frame_end(b: Seq<u8>, pos: int)
    requires
        0 <= pos <= b.len(),
    ensures
        parse_frame(b, pos) matches Parsed::Done(f, e) ==> pos < e <= b.len(),
    decreases b.len() - pos, 0int,
{
    if pos < b.len() {
        lemma_read_line_end(b, pos + 1);
        if let Parsed::Done(line, e) = read_line(b, pos + 1) {
            if let Some(n) = int_of_line(line) {
                if b[pos] == 42 && n >= 0 {
                    lemma_items_end(b, e, n);
                }
            }
        }
    }
}

proof fn lemma_items_end(b: Seq<u8>, pos: int, n: int)
    requires
        0 <= pos <= b.len(),
    ensures
        parse_items(b, pos, n) matches Parsed::Done(s, e) ==> pos <= e <= b.len() && s.len()
            == if n > 0 {
            n
        } else {
            0
        },
    decreases b.len() - pos, n + 1,
{
    if n > 0 {
        lemma_frame_end(b, pos);
        if let Parsed::Done(f, e) = parse_frame(b, pos) {
            if pos < e <= b.len() {
                lemma_items_end(b, e, n - 1);
            }
        }
    }
}

// ---------------------------------------------------------------------------
// Parsing
// ---------------------------------------------------------------------------

/// Outcome of [`parse_resp`]: a frame with the number of bytes it took, a request for
/// more bytes, or input that can never become a frame.
pub enum ParseResult {
    Complete(RespValue, usize),
    Incomplete,
    Malformed,
}

pub open spec fn agrees(r: ParseResult, p: Parsed<Frame>) -> bool {
    match (r, p) {
        (ParseResult::Complete(v, n), Parsed::Done(f, e)) => v@ == f && n == e,
        (ParseResult::Incomplete, Parsed::Partial) => true,
        (ParseResult::Malformed, Parsed::Bad) => true,
        _ => false,
    }
}

/// Relies on String::from_utf8_lossy: the text depends on the bytes alone, and bytes that
/// are valid UTF-8 are decoded as they stand.
#[verifier::external_body]
fn text_from_bytes(b: &[u8]) -> (r: String)
    ensures
        r@ == lossy_text(b@),
        valid_utf8(b@) ==> r@ == decode_utf8(b@),
{
    String::from_utf8_lossy(b).into_owned()
}

fn scan_line(b: &[u8], pos: usize) -> (e: usize)
    requires
        pos <= b@.len(),
    ensures
        e == line_scan(b@, pos as int),
        pos <= e <= b@.len(),
{
    let mut i: usize = pos;
    while i < b.len()
        invariant
            pos <= i <= b@.len(),
            line_scan(b@, pos as int) == line_scan(b@, i as int),
        decreases b@.len() - i,
    {
        if b[i] == CR || b[i] == LF {
            return i;
        }
        i = i + 1;
    }
    i
}

enum LineEnd {
    At(usize),
    More,
    Malformed,
}

/// Finds the CRLF that ends the line starting at `pos`.
fn line_end(b: &[u8], pos: usize) -> (r: LineEnd)
    requires
        pos <= b@.len(),
    ensures
        match r {
            LineEnd::At(e) => pos <= e && e + 2 <= b@.len() && read_line(b@, pos as int)
                == Parsed::Done(b@.subrange(pos as int, e as int), e + 2),
            LineEnd::More => read_line(b@, pos as int) == Parsed::<Seq<u8>>::Partial,
            LineEnd::Malformed => read_line(b@, pos as int) == Parsed::<Seq<u8>>::Bad,
        },
{
    let e = scan_line(b, pos);
    if e >= b.len() {
        LineEnd::More
    } else if b[e] == LF {
        LineEnd::Malformed
    } else if e + 1 >= b.len() {
        LineEnd::More
    } else if b[e + 1] == LF {
        LineEnd::At(e)
    } else {
        LineEnd::Malformed
    }
}

pub const DIGITS_LIMIT: u64 = 9223372036854775808;

proof fn lemma_digits_prefix(s: Seq<u8>, k: int)
    requires
        0 <= k <= s.len(),
    ensures
        digits_value(s.take(k)) <= digits_value(s),
    decreases s.len() - k,
{
    if k < s.len() {
        assert(s.drop_last().take(k) =~= s.take(k));
        lemma_digits_prefix(s.drop_last(), k);
    } else {
        assert(s.take(k) =~= s);
    }
}

/// Reads the digits in `b[s..e]`, stopping once the value passes `limit`.
pub(crate) fn digits_in(b: &[u8], s: usize, e: usize, limit: u64) -> (r: Option<u64>)
    requires
        s <= e <= b@.len(),
        limit >= 9,
    ensures
        match r {
            Some(v) => all_digits(b@.subrange(s as int, e as int)) && digits_value(
                b@.subrange(s as int, e as int),
            ) == v && v <= limit,
            None => !all_digits(b@.subrange(s as int, e as int)) || digits_value(
                b@.subrange(s as int, e as int),
            ) > limit,
        },
{
    let ghost whole = b@.subrange(s as int, e as int);
    let mut acc: u64 = 0;
    let mut i: usize = s;
    assert(b@.subrange(s as int, s as int) =~= Seq::<u8>::empty());
    while i < e
        invariant
            s <= i <= e <= b@.len(),
            whole == b@.subrange(s as int, e as int),
            all_digits(b@.subrange(s as int, i as int)),
            digits_value(b@.subrange(s as int, i as int)) == acc,
            acc <= limit,
            limit >= 9,
        decreases e - i,
    {
        let c = b[i];
        assert(whole[i - s] == c);
        if c < 48 || c > 57 {
            return None;
        }
        let d: u64 = (c - 48) as u64;
        let ghost next = b@.subrange(s as int, i + 1);
        assert(next.drop_last() =~= b@.subrange(s as int, i as int));
        assert(next.last() == c);
        assert(next =~= whole.take(i + 1 - s));
        if acc > (limit - d) / 10 {
            proof {
                assert(acc * 10 + d > limit) by (nonlinear_arith)
                    requires
                        acc > (limit - d) / 10,
                        d <= 9,
                        limit >= 9,
                ;
                if all_digits(whole) {
                    lemma_digits_prefix(whole, i + 1 - s);
                }
            }
            return None;
        }
        assert(acc * 10 + d <= limit) by (nonlinear_arith)
            requires
                acc <= (limit - d) / 10,
                d <= 9,
                limit >= 9,
        ;
        acc = acc * 10 + d;
        i = i + 1;
    }
    assert(b@.subrange(s as int, i as int) =~= whole);
    Some(acc)
}

/// The integer written in `b[s..e]`.
fn int_in(b: &[u8], s: usize, e: usize) -> (r: Option<i64>)
    requires
        s <= e <= b@.len(),
    ensures
        match r {
            Some(n) => int_of_line(b@.subrange(s as int, e as int)) == Some(n as int),
            None => int_of_line(b@.subrange(s as int, e as int)) is None,
        },
{
    let ghost line = b@.subrange(s as int, e as int);
    if s < e && (b[s] == 45 || b[s] == 43) {
        assert(line.drop_first() =~= b@.subrange(s + 1, e as int));
        if s + 1 == e {
            return None;
        }
        match digits_in(b, s + 1, e, DIGITS_LIMIT) {
            None => None,
            Some(v) => {
                if b[s] == 45 {
                    if v == DIGITS_LIMIT {
                        Some(i64::MIN)
                    } else {
                        Some(-(v as i64))
                    }
                } else if v < DIGITS_LIMIT {
                    Some(v as i64)
                } else {
                    None
                }
            },
        }
    } else if s < e {
        match digits_in(b, s, e, DIGITS_LIMIT) {
            None => None,
            Some(v) => {
                if v < DIGITS_LIMIT {
                    Some(v as i64)
                } else {
                    None
                }
            },
        }
    } else {
        None
    }
}

pub open spec fn prepend(pre: Seq<Frame>, p: Parsed<Seq<Frame>>) -> Parsed<Seq<Frame>> {
    match p {
        Parsed::Done(s, e) => Parsed::Done(pre + s, e),
        Parsed::Partial => Parsed::Partial,
        Parsed::Bad => Parsed::Bad,
    }
}

pub proof fn lemma_frames_push(s: Seq<RespValue>, v: RespValue)
    ensures
        frames_of(s.push(v)) == frames_of(s).push(v@),
{
    assert(s.push(v).drop_last() =~= s);
}

fn parse_frame_at(b: &[u8], pos: usize) -> (r: ParseResult)
    requires
        pos <= b@.len(),
    ensures
        agrees(r, parse_frame(b@, pos as int)),
    decreases b@.len() - pos,
{
    if pos >= b.len() {
        return ParseResult::Incomplete;
    }
    let tag = b[pos];
    if tag != 43 && tag != 45 && tag != 58 && tag != 36 && tag != 42 {
        return ParseResult::Malformed;
    }
    let end = match line_end(b, pos + 1) {
        LineEnd::At(end) => end,
        LineEnd::More => return ParseResult::Incomplete,
        LineEnd::Malformed => return ParseResult::Malformed,
    };
    let next = end + 2;
    if tag == 43 || tag == 45 {
        let text = text_from_bytes(slice_subrange(b, pos + 1, end));
        if tag == 43 {
            return ParseResult::Complete(RespValue::SimpleString(text), next);
        } else {
            return ParseResult::Complete(RespValue::Error(text), next);
        }
    }
    let n = match int_in(b, pos + 1, end) {
        Some(n) => n,
        None => return ParseResult::Malformed,
    };
    if tag == 58 {
        return ParseResult::Complete(RespValue::Integer(n), next);
    }
    if n == -1 {
        return ParseResult::Complete(RespValue::Null, next);
    }
    if n < -1 {
        return ParseResult::Malformed;
    }
    let count = n as u64;
    if tag == 36 {
        if count > (b.len() - next) as u64 || (b.len() - next) as u64 - count < 2 {
            return ParseResult::Incomplete;
        }
        let stop = next + count as usize;
        if b[stop] == CR && b[stop + 1] == LF {
            let data = slice_to_vec(slice_subrange(b, next, stop));
            return ParseResult::Complete(RespValue::BulkString(data), stop + 2);
        }
        return ParseResult::Malformed;
    }
    let mut items: Vec<RespValue> = Vec::new();
    let mut p: usize = next;
    let mut k: u64 = 0;
    assert(frames_of(items@) =~= Seq::<Frame>::empty());
    assert(prepend(Seq::empty(), parse_items(b@, next as int, count as int)) == parse_items(
        b@,
        next as int,
        count as int,
    )) by {
        if let Parsed::Done(s, e) = parse_items(b@, next as int, count as int) {
            assert(Seq::<Frame>::empty() + s =~= s);
        }
    }
    while k < count
        invariant
            pos < next <= p <= b@.len(),
            k <= count,
            count == n,
            tag == 42,
            parse_frame(b@, pos as int) == match parse_items(b@, next as int, count as int) {
                Parsed::Done(items, e2) => Parsed::Done(Frame::Array(items), e2),
                Parsed::Partial => Parsed::<Frame>::Partial,
                Parsed::Bad => Parsed::<Frame>::Bad,
            },
            parse_items(b@, next as int, count as int) == prepend(
                frames_of(items@),
                parse_items(b@, p as int, count - k),
            ),
        decreases count - k,
    {
        let ghost before = frames_of(items@);
        proof {
            lemma_frame_end(b@, p as int);
        }
        match parse_frame_at(b, p) {
            ParseResult::Complete(v, e) => {
                let ghost f = v@;
                proof {
                    lemma_frames_push(items@, v);
                    let rest = parse_items(b@, e as int, count - k - 1);
                    assert(parse_items(b@, p as int, count - k) == prepend(seq![f], rest));
                    if let Parsed::Done(s, e2) = rest {
                        assert(before + (seq![f] + s) =~= before.push(f) + s);
                    }
                }
                items.push(v);
                p = e;
                k = k + 1;
            },
            ParseResult::Incomplete => return ParseResult::Incomplete,
            ParseResult::Malformed => return ParseResult::Malformed,
        }
    }
    proof {
        assert(parse_items(b@, p as int, count - k) == Parsed::Done(Seq::<Frame>::empty(), p as int));
        assert(frames_of(items@) + Seq::<Frame>::empty() =~= frames_of(items@));
    }
    ParseResult::Complete(RespValue::Array(items), p)
}

/// Parses one frame at the start of `input`. A prefix of a frame asks for more bytes;
/// bytes that no continuation can make into a frame are malformed.
pub fn parse_resp(input: &[u8]) -> (r: ParseResult)
    ensures
        agrees(r, parse_frame(input@, 0)),
{
    parse_frame_at(input, 0)
}

// ---------------------------------------------------------------------------
// Serialization
// ---------------------------------------------------------------------------

fn push_all(out: &mut Vec<u8>, b: &[u8])
    ensures
        final(out)@ == old(out)@ + b@,
{
    let mut i: usize = 0;
    while i < b.len()
        invariant
            i <= b@.len(),
            out@ == old(out)@ + b@.take(i as int),
        decreases b@.len() - i,
    {
        out.push(b[i]);
        i = i + 1;
        assert(out@ =~= old(out)@ + b@.take(i as int));
    }
    assert(b@.take(i as int) =~= b@);
}

fn push_digits(out: &mut Vec<u8>, m: u64)
    ensures
        final(out)@ == old(out)@ + digits_of(m as nat),
    decreases m,
{
    if m >= 10 {
        push_digits(out, m / 10);
    }
    out.push(48 + (m % 10) as u8);
    assert(out@ =~= old(out)@ + digits_of(m as nat));
}

/// The decimal digits of `n`.
pub fn decimal_bytes(n: u64) -> (r: Vec<u8>)
    ensures
        r@ == digits_of(n as nat),
{
    let mut out: Vec<u8> = Vec::new();
    push_digits(&mut out, n);
    assert(out@ =~= digits_of(n as nat));
    out
}

fn push_decimal(out: &mut Vec<u8>, n: i64)
    ensures
        final(out)@ == old(out)@ + decimal(n as int),
{
    if n < 0 {
        out.push(45);
        let m: u64 = if n == i64::MIN {
            9223372036854775808u64
        } else {
            (-n) as u64
        };
        push_digits(out, m);
        assert(out@ =~= old(out)@ + decimal(n as int));
    } else {
        push_digits(out, n as u64);
    }
}

fn push_crlf(out: &mut Vec<u8>)
    ensures
        final(out)@ == old(out)@ + crlf(),
{
    out.push(CR);
    out.push(LF);
    assert(out@ =~= old(out)@ + crlf());
}

pub proof fn lemma_frames_len(s: Seq<RespValue>)
    ensures
        frames_of(s).len() == s.len(),
        forall|i: int| 0 <= i < s.len() ==> #[trigger] frames_of(s)[i] == s[i]@,
    decreases s.len(),
{
    if s.len() > 0 {
        lemma_frames_len(s.drop_last());
    }
}

fn write_frame(v: &RespValue, out: &mut Vec<u8>)
    ensures
        final(out)@ == old(out)@ + encode(v@),
    decreases v,
{
    match v {
        RespValue::SimpleString(s) => {
            out.push(43);
            push_all(out, s.as_str().as_bytes());
            push_crlf(out);
            assert(out@ =~= old(out)@ + encode(v@));
        },
        RespValue::Error(s) => {
            out.push(45);
            push_all(out, s.as_str().as_bytes());
            push_crlf(out);
            assert(out@ =~= old(out)@ + encode(v@));
        },
        RespValue::Integer(n) => {
            out.push(58);
            push_decimal(out, *n);
            push_crlf(out);
            assert(out@ =~= old(out)@ + encode(v@));
        },
        RespValue::BulkString(b) => {
            out.push(36);
            push_digits(out, b.len() as u64);
            push_crlf(out);
            push_all(out, b.as_slice());
            push_crlf(out);
            assert(out@ =~= old(out)@ + encode(v@));
        },
        RespValue::Array(a) => {
            out.push(42);
            proof {
                lemma_frames_len(a@);
            }
            push_digits(out, a.len() as u64);
            push_crlf(out);
            let ghost head = out@;
            let mut i: usize = 0;
            assert(a@.take(0) =~= Seq::<RespValue>::empty());
            while i < a.len()
                invariant
                    *v == RespValue::Array(*a),
                    i <= a@.len(),
                    out@ == head + encode_all(frames_of(a@.take(i as int))),
                decreases a@.len() - i,
            {
                proof {
                    broadcast use vstd::std_specs::vec::axiom_vec_index_decreases;

                    let ghost w = *v;
                    assert(decreases_to!(w => w->Array_0));
                    assert(decreases_to!(w->Array_0 => w->Array_0[i as int]));
                    assert(decreases_to!(*v => a[i as int]));
                }
                write_frame(&a[i], out);
                proof {
                    let t = a@.take(i + 1);
                    assert(t.drop_last() =~= a@.take(i as int));
                    lemma_frames_len(t);
                    assert(frames_of(t).drop_last() =~= frames_of(a@.take(i as int)));
                    assert(frames_of(t) =~= frames_of(a@.take(i as int)).push(a@[i as int]@));
                    lemma_encode_all_push(frames_of(a@.take(i as int)), a@[i as int]@);
                    assert(out@ =~= head + encode_all(frames_of(t)));
                }
                i = i + 1;
            }
            assert(a@.take(i as int) =~= a@);
            assert(out@ =~= old(out)@ + encode(v@));
        },
        RespValue::Null => {
            out.push(36);
            out.push(45);
            out.push(49);
            push_crlf(out);
            assert(out@ =~= old(out)@ + encode(v@));
        },
    }
}

/// The bytes of a frame on the wire. Every null is written as the null bulk string.
pub fn serialize_resp(value: RespValue) -> (r: Vec<u8>)
    ensures
        r@ == encode(value@),
{
    let mut out: Vec<u8> = Vec::new();
    write_frame(&value, &mut out);
    assert(out@ =~= encode(value@));
    out
}

// ---------------------------------------------------------------------------
// Laws of the codec
// ---------------------------------------------------------------------------

pub open spec fn no_breaks(s: Seq<char>) -> bool {
    forall|i: int| 0 <= i < s.len() ==> s[i] != '\r' && s[i] != '\n'
}

pub open spec fn no_crlf(s: Seq<u8>) -> bool {
    forall|i: int| 0 <= i < s.len() ==> s[i] != CR && s[i] != LF
}

/// A frame that the wire can carry: text without line breaks, integers and lengths that
/// fit in 64 signed bits.
pub open spec fn representable(f: Frame) -> bool
    decreases f,
{
    match f {
        Frame::Simple(s) => no_breaks(s),
        Frame::Error(s) => no_breaks(s),
        Frame::Integer(n) => i64::MIN <= n <= i64::MAX,
        Frame::Bulk(b) => b.len() <= i64::MAX,
        Frame::Array(items) => items.len() <= i64::MAX && all_representable(items),
        Frame::Null => true,
    }
}

pub open spec fn all_representable(items: Seq<Frame>) -> bool
    decreases items,
{
    if items.len() == 0 {
        true
    } else {
        representable(items[0]) && all_representable(items.drop_first())
    }
}

proof fn lemma_scalar_bytes(c: u32)
    by (bit_vector)
    requires
        c != 13,
        c != 10,
    ensures
        has_width_1_encoding(c) ==> leading_byte_width_1(c) != 13 && leading_byte_width_1(c)
            != 10,
        leading_byte_width_2(c) >= 0x80,
        leading_byte_width_3(c) >= 0x80,
        leading_byte_width_4(c) >= 0x80,
        last_continuation_byte(c) >= 0x80,
        second_last_continuation_byte(c) >= 0x80,
        third_last_continuation_byte(c) >= 0x80,
{
}

proof fn lemma_text_no_crlf(s: Seq<char>)
    requires
        no_breaks(s),
    ensures
        no_crlf(encode_utf8(s)),
    decreases s.len(),
{
    if s.len() > 0 {
        let c = s[0] as u32;
        assert(s[0] != '\r' && s[0] != '\n');
        assert(c != 10 && c != 13) by {
            if c == 10 {
                char_u32_cast(s[0], c);
                char_u32_cast('\n', 10);
            }
            if c == 13 {
                char_u32_cast(s[0], c);
                char_u32_cast('\r', 13);
            }
        }
        lemma_scalar_bytes(c);
        assert(no_breaks(s.drop_first()));
        lemma_text_no_crlf(s.drop_first());
        assert(no_crlf(encode_scalar(c)));
    }
}

proof fn lemma_digits(m: nat)
    ensures
        digits_of(m).len() >= 1,
        all_digits(digits_of(m)),
        digits_value(digits_of(m)) == m,
    decreases m,
{
    let d = digits_of(m);
    if m >= 10 {
        lemma_digits(m / 10);
        assert(d.drop_last() =~= digits_of(m / 10));
        assert(d.last() == (48 + m % 10) as u8);
        assert((m / 10) * 10 + m % 10 == m) by (nonlinear_arith);
    } else {
        assert(d.drop_last() =~= Seq::<u8>::empty());
        assert(digits_value(Seq::<u8>::empty()) == 0);
    }
}

proof fn lemma_decimal(n: int)
    requires
        i64::MIN <= n <= i64::MAX,
    ensures
        decimal(n).len() >= 1,
        no_crlf(decimal(n)),
        int_of_line(decimal(n)) == Some(n),
{
    if n < 0 {
        lemma_digits((-n) as nat);
        assert(decimal(n).drop_first() =~= digits_of((-n) as nat));
    } else {
        lemma_digits(n as nat);
        assert(is_digit(decimal(n)[0]));
    }
}

proof fn lemma_scan_to(b: Seq<u8>, p: int, k: int)
    requires
        0 <= p <= k <= b.len(),
        forall|i: int| p <= i < k ==> b[i] != CR && b[i] != LF,
        k == b.len() || b[k] == CR || b[k] == LF,
    ensures
        line_scan(b, p) == k,
    decreases k - p,
{
    if p < k {
        lemma_scan_to(b, p + 1, k);
    }
}

/// A whole line `content` CR LF at `p`.
proof fn lemma_line_at(b: Seq<u8>, p: int, content: Seq<u8>)
    requires
        0 <= p,
        p + content.len() + 2 <= b.len(),
        no_crlf(content),
        forall|i: int| 0 <= i < content.len() ==> b[p + i] == content[i],
        b[p + content.len()] == CR,
        b[p + content.len() + 1] == LF,
    ensures
        read_line(b, p) == Parsed::Done(content, p + content.len() + 2),
{
    let k = p + content.len();
    assert forall|i: int| p <= i < k implies b[i] != CR && b[i] != LF by {
        assert(b[p + (i - p)] == content[i - p]);
    }
    lemma_scan_to(b, p, k);
    assert(b.subrange(p, k) =~= content);
}

/// A line `content` CR LF at `p` that the end of `b` cuts short.
proof fn lemma_line_cut(b: Seq<u8>, p: int, content: Seq<u8>)
    requires
        0 <= p <= b.len(),
        b.len() < p + content.len() + 2,
        no_crlf(content),
        forall|i: int| 0 <= i < content.len() && p + i < b.len() ==> b[p + i] == content[i],
        b.len() == p + content.len() + 1 ==> b[p + content.len()] == CR,
    ensures
        read_line(b, p) == Parsed::<Seq<u8>>::Partial,
{
    let k = if b.len() <= p + content.len() {
        b.len() as int
    } else {
        p + content.len()
    };
    assert forall|i: int| p <= i < k implies b[i] != CR && b[i] != LF by {
        assert(b[p + (i - p)] == content[i - p]);
    }
    lemma_scan_to(b, p, k);
}

proof fn lemma_encode_nonempty(f: Frame)
    ensures
        encode(f).len() >= 3,
        encode(f)[0] == 43 || encode(f)[0] == 45 || encode(f)[0] == 58 || encode(f)[0] == 36
            || encode(f)[0] == 42,
{
}

proof fn lemma_window(b: Seq<u8>, pos: int, x: Seq<u8>)
    requires
        0 <= pos,
        pos + x.len() <= b.len(),
        b.subrange(pos, pos + x.len()) == x,
    ensures
        forall|i: int| 0 <= i < x.len() ==> b[pos + i] == #[trigger] x[i],
{
    assert forall|i: int| 0 <= i < x.len() implies b[pos + i] == #[trigger] x[i] by {
        assert(b.subrange(pos, pos + x.len())[i] == b[pos + i]);
    }
}

/// A representable frame, encoded at `pos`, parses back to itself and ends where its
/// encoding ends.
#[verifier::rlimit(40)]
proof fn lemma_parse_encoded(f: Frame, b: Seq<u8>, pos: int)
    requires
        representable(f),
        0 <= pos,
        pos + encode(f).len() <= b.len(),
        b.subrange(pos, pos + encode(f).len()) == encode(f),
    ensures
        parse_frame(b, pos) == Parsed::Done(f, pos + encode(f).len()),
    decreases f,
{
    let x = encode(f);
    let c = header(f);
    let cl = c.len() as int;
    lemma_window(b, pos, x);
    lemma_header(f);
    lemma_encode_nonempty(f);
    assert(b[pos] == x[0]) by {
        assert(b[pos + 0] == x[0]);
    }
    assert forall|i: int| 0 <= i < cl implies b[pos + 1 + i] == c[i] by {
        assert(b[pos + (1 + i)] == x[1 + i]);
    }
    assert(b[pos + 1 + cl] == CR) by {
        assert(b[pos + (1 + cl)] == x[1 + cl]);
    }
    assert(b[pos + 2 + cl] == LF) by {
        assert(b[pos + (2 + cl)] == x[2 + cl]);
    }
    lemma_line_at(b, pos + 1, c);
    let e = pos + 3 + cl;
    match f {
        Frame::Simple(t) => {
            broadcast use vstd::utf8::encode_utf8_valid_utf8, vstd::utf8::encode_utf8_decode_utf8;

        },
        Frame::Error(t) => {
            broadcast use vstd::utf8::encode_utf8_valid_utf8, vstd::utf8::encode_utf8_decode_utf8;

        },
        Frame::Bulk(d) => {
            let dl = d.len() as int;
            assert(x =~= seq![36u8] + c + crlf() + d + crlf());
            assert(b[e + dl] == CR) by {
                assert(b[pos + (3 + cl + dl)] == x[3 + cl + dl]);
            }
            assert(b[e + dl + 1] == LF) by {
                assert(b[pos + (4 + cl + dl)] == x[4 + cl + dl]);
            }
            assert forall|i: int| 0 <= i < dl implies b.subrange(e, e + dl)[i] == d[i] by {
                assert(x[3 + cl + i] == d[i]);
                assert(b[pos + (3 + cl + i)] == x[3 + cl + i]);
            }
            assert(b.subrange(e, e + dl) =~= d);
        },
        Frame::Array(items) => {
            let body = encode_all(items);
            let bl = body.len() as int;
            assert(x =~= seq![42u8] + c + crlf() + body);
            assert forall|i: int| 0 <= i < bl implies b.subrange(e, e + bl)[i] == body[i] by {
                assert(x[3 + cl + i] == body[i]);
                assert(b[pos + (3 + cl + i)] == x[3 + cl + i]);
            }
            assert(b.subrange(e, e + bl) =~= body);
            lemma_parse_encoded_all(items, b, e);
        },
        _ => {},
    }
}

proof fn lemma_parse_encoded_all(items: Seq<Frame>, b: Seq<u8>, pos: int)
    requires
        all_representable(items),
        0 <= pos,
        pos + encode_all(items).len() <= b.len(),
        b.subrange(pos, pos + encode_all(items).len()) == encode_all(items),
    ensures
        parse_items(b, pos, items.len() as int) == Parsed::Done(
            items,
            pos + encode_all(items).len(),
        ),
    decreases items,
{
    if items.len() == 0 {
        assert(items =~= Seq::<Frame>::empty());
    } else {
        let x = encode_all(items);
        let first = encode(items[0]);
        let fl = first.len() as int;
        let rest = encode_all(items.drop_first());
        let rl = rest.len() as int;
        assert(x == first + rest);
        lemma_encode_nonempty(items[0]);
        assert(b.subrange(pos, pos + fl) =~= first) by {
            lemma_window(b, pos, x);
            assert forall|i: int| 0 <= i < fl implies b.subrange(
                pos,
                pos + fl,
            )[i] == first[i] by {
                assert(x[i] == first[i]);
            }
        }
        lemma_parse_encoded(items[0], b, pos);
        let e = pos + fl;
        assert(b.subrange(e, e + rl) =~= rest) by {
            lemma_window(b, pos, x);
            assert forall|i: int| 0 <= i < rl implies b.subrange(e, e + rl)[i]
                == rest[i] by {
                assert(x[fl + i] == rest[i]);
                assert(b[pos + (fl + i)] == x[fl + i]);
            }
        }
        lemma_parse_encoded_all(items.drop_first(), b, e);
        assert(seq![items[0]] + items.drop_first() =~= items);
    }
}

/// The text of the first line of a frame's encoding, after its type byte.
pub open spec fn header(f: Frame) -> Seq<u8> {
    match f {
        Frame::Simple(t) => encode_utf8(t),
        Frame::Error(t) => encode_utf8(t),
        Frame::Integer(n) => decimal(n),
        Frame::Bulk(d) => decimal(d.len() as int),
        Frame::Array(items) => decimal(items.len() as int),
        Frame::Null => seq![45u8, 49u8],
    }
}

proof fn lemma_header(f: Frame)
    requires
        representable(f),
    ensures
        no_crlf(header(f)),
        encode(f).len() >= header(f).len() + 3,
        forall|i: int| 0 <= i < header(f).len() ==> encode(f)[1 + i] == #[trigger] header(f)[i],
        encode(f)[1 + header(f).len() as int] == CR,
        encode(f)[2 + header(f).len() as int] == LF,
        (f is Simple || f is Error || f is Integer || f is Null) ==> encode(f).len() == header(
            f,
        ).len() + 3,
        f is Integer ==> int_of_line(header(f)) == Some(f->Integer_0),
        f is Bulk ==> int_of_line(header(f)) == Some(f->Bulk_0.len() as int),
        f is Bulk ==> encode(f).len() == header(f).len() + 5 + f->Bulk_0.len(),
        f is Array ==> int_of_line(header(f)) == Some(f->Array_0.len() as int),
        f is Null ==> int_of_line(header(f)) == Some(-1),
{
    match f {
        Frame::Simple(t) => lemma_text_no_crlf(t),
        Frame::Error(t) => lemma_text_no_crlf(t),
        Frame::Integer(n) => lemma_decimal(n),
        Frame::Bulk(d) => lemma_decimal(d.len() as int),
        Frame::Array(items) => lemma_decimal(items.len() as int),
        Frame::Null => {
            let c = seq![45u8, 49u8];
            lemma_digits(1);
            assert(digits_of(1) =~= seq![49u8]);
            assert(c.drop_first() =~= seq![49u8]);
        },
    }
}

/// A representable frame whose encoding the end of `b` cuts short asks for more bytes.
proof fn lemma_parse_cut(f: Frame, b: Seq<u8>, pos: int)
    requires
        representable(f),
        0 <= pos <= b.len(),
        b.len() < pos + encode(f).len(),
        forall|i: int| 0 <= i < b.len() - pos ==> b[pos + i] == #[trigger] encode(f)[i],
    ensures
        parse_frame(b, pos) == Parsed::<Frame>::Partial,
    decreases f,
{
    if pos < b.len() {
        let x = encode(f);
        let c = header(f);
        let cl = c.len() as int;
        lemma_header(f);
        assert(b[pos + 0] == x[0]);
        lemma_encode_nonempty(f);
        assert forall|i: int| 0 <= i < cl && pos + 1 + i < b.len() implies b[pos + 1 + i]
            == c[i] by {
            assert(b[pos + (1 + i)] == x[1 + i]);
        }
        if b.len() < pos + 1 + cl + 2 {
            if b.len() == pos + 1 + cl + 1 {
                assert(b[pos + (1 + cl)] == x[1 + cl]);
            }
            lemma_line_cut(b, pos + 1, c);
        } else {
            assert(b[pos + (1 + cl)] == x[1 + cl]);
            assert(b[pos + (2 + cl)] == x[2 + cl]);
            lemma_line_at(b, pos + 1, c);
            let e = pos + 1 + cl + 2;
            match f {
                Frame::Bulk(d) => {},
                Frame::Array(items) => {
                    let body = encode_all(items);
                    assert(x =~= seq![42u8] + c + crlf() + body);
                    assert forall|i: int| 0 <= i < b.len() - e implies b[e + i]
                        == #[trigger] body[i] by {
                        assert(x[3 + cl + i] == body[i]);
                        assert(b[pos + (3 + cl + i)] == x[3 + cl + i]);
                    }
                    lemma_parse_cut_all(items, b, e);
                },
                _ => {},
            }
        }
    }
}

proof fn lemma_parse_cut_all(items: Seq<Frame>, b: Seq<u8>, pos: int)
    requires
        all_representable(items),
        0 <= pos <= b.len(),
        b.len() < pos + encode_all(items).len(),
        forall|i: int| 0 <= i < b.len() - pos ==> b[pos + i] == #[trigger] encode_all(items)[i],
    ensures
        parse_items(b, pos, items.len() as int) == Parsed::<Seq<Frame>>::Partial,
    decreases items,
{
    let x = encode_all(items);
    let first = encode(items[0]);
    let fl = first.len() as int;
    let rest = encode_all(items.drop_first());
    assert(x == first + rest);
    if b.len() < pos + fl {
        assert forall|i: int| 0 <= i < b.len() - pos implies b[pos + i] == #[trigger] first[i] by {
            assert(x[i] == first[i]);
        }
        lemma_parse_cut(items[0], b, pos);
    } else {
        assert(b.subrange(pos, pos + fl) =~= first) by {
            assert forall|i: int| 0 <= i < fl implies b.subrange(pos, pos + fl)[i] == first[i] by {
                assert(x[i] == first[i]);
                assert(b[pos + i] == x[i]);
            }
        }
        lemma_encode_nonempty(items[0]);
        lemma_parse_encoded(items[0], b, pos);
        let e = pos + fl;
        assert forall|i: int| 0 <= i < b.len() - e implies b[e + i] == #[trigger] rest[i] by {
            assert(x[fl + i] == rest[i]);
            assert(b[pos + (fl + i)] == x[fl + i]);
        }
        lemma_parse_cut_all(items.drop_first(), b, e);
    }
}

/// Decoding the encoding of a representable frame gives the frame back, and reads
/// exactly the bytes of its encoding.
pub proof fn lemma_round_trip(f: Frame)
    requires
        representable(f),
    ensures
        parse_frame(encode(f), 0) == Parsed::Done(f, encode(f).len() as int),
{
    assert(encode(f).subrange(0, encode(f).len() as int) =~= encode(f));
    lemma_parse_encoded(f, encode(f), 0);
}

/// Splitting the encoding of a representable frame into two chunks: the first chunk
/// alone asks for more bytes, and the two chunks together give the frame.
pub proof fn lemma_split_feed(f: Frame, k: int)
    requires
        representable(f),
        0 <= k < encode(f).len(),
    ensures
        parse_frame(encode(f).take(k), 0) == Parsed::<Frame>::Partial,
        parse_frame(encode(f).take(k) + encode(f).skip(k), 0) == Parsed::Done(
            f,
            encode(f).len() as int,
        ),
{
    let x = encode(f);
    assert forall|i: int| 0 <= i < x.take(k).len() - 0 implies x.take(k)[0 + i]
        == #[trigger] x[i] by {}
    lemma_parse_cut(f, x.take(k), 0);
    assert(x.take(k) + x.skip(k) =~= x);
    lemma_round_trip(f);
}

} // verus!
