//! The RESP wire-protocol codec.
//!
//! `parse` decodes one protocol value from the front of a byte buffer and
//! reports how many bytes it consumed; excess trailing bytes are left for a
//! later parse. Truncated input is an `Incomplete` failure and bytes that
//! can never start a value are a `Malformed` failure — never a panic,
//! because request bytes are client-controlled.
//!
//! The grammar is pinned down twice: `wire`/`wire_scalar` give the byte
//! encoding of a value, and `spec_parse` is the mathematical decoder that
//! the executable parser is proved equal to. `lemma_parse_wire_scalar`
//! connects the two: parsing an encoded value gives the value back.
//!
//! Arrays hold scalar values only (a client request is an array of bulk
//! strings); an array inside an array is reported as malformed.

use vstd::prelude::*;
use vstd::slice::{slice_subrange, slice_to_vec};

verus! {

pub const CR: u8 = 13;

pub const LF: u8 = 10;

pub const PLUS: u8 = 43;

pub const MINUS: u8 = 45;

pub const COLON: u8 = 58;

pub const DOLLAR: u8 = 36;

pub const STAR: u8 = 42;

pub const ZERO: u8 = 48;

/// A decoded protocol value that is not an array.
#[derive(Debug)]
pub enum RespScalar {
    SimpleString(Vec<u8>),
    Error(Vec<u8>),
    Integer(i64),
    BulkString(Vec<u8>),
    Nil,
}

/// A decoded protocol value: a scalar, or an array of scalars.
#[derive(Debug)]
pub enum RespValue {
    Scalar(RespScalar),
    Array(Vec<RespScalar>),
}

/// Why a buffer failed to decode: more bytes are needed, or the bytes can
/// never form a value.
#[derive(Clone, Copy, PartialEq, Eq, Debug)]
pub enum ParseError {
    Incomplete,
    Malformed,
}

/// The mathematical shape of a scalar value.
pub enum ScalarModel {
    SimpleString(Seq<u8>),
    Error(Seq<u8>),
    Integer(int),
    BulkString(Seq<u8>),
    Nil,
}

/// The mathematical shape of a protocol value.
pub enum RespModel {
    Scalar(ScalarModel),
    Array(Seq<ScalarModel>),
}

impl View for RespScalar {
    type V = ScalarModel;

    open spec fn view(&self) -> ScalarModel {
        match self {
            RespScalar::SimpleString(s) => ScalarModel::SimpleString(s@),
            RespScalar::Error(s) => ScalarModel::Error(s@),
            RespScalar::Integer(n) => ScalarModel::Integer(*n as int),
            RespScalar::BulkString(b) => ScalarModel::BulkString(b@),
            RespScalar::Nil => ScalarModel::Nil,
        }
    }
}

impl View for RespValue {
    type V = RespModel;

    open spec fn view(&self) -> RespModel {
        match self {
            RespValue::Scalar(s) => RespModel::Scalar(s@),
            RespValue::Array(items) => RespModel::Array(items@.map_values(|e: RespScalar| e@)),
        }
    }
}

pub open spec fn crlf() -> Seq<u8> {
    seq![CR, LF]
}

/// The decimal digits of `n`, most significant first.
pub open spec fn dec_rep(n: nat) -> Seq<u8>
    decreases n,
{
    if n < 10 {
        seq![(ZERO + n) as u8]
    } else {
        dec_rep(n / 10).push((ZERO + n % 10) as u8)
    }
}

/// The decimal form of a possibly negative integer.
pub open spec fn int_rep(n: int) -> Seq<u8> {
    if n < 0 {
        seq![MINUS] + dec_rep((-n) as nat)
    } else {
        dec_rep(n as nat)
    }
}

/// The wire encoding of a scalar value.
pub open spec fn wire_scalar(v: ScalarModel) -> Seq<u8> {
    match v {
        ScalarModel::SimpleString(s) => seq![PLUS] + s + crlf(),
        ScalarModel::Error(s) => seq![MINUS] + s + crlf(),
        ScalarModel::Integer(n) => seq![COLON] + int_rep(n) + crlf(),
        ScalarModel::BulkString(b) => seq![DOLLAR] + dec_rep(b.len()) + crlf() + b + crlf(),
        ScalarModel::Nil => seq![DOLLAR, MINUS, (ZERO + 1) as u8] + crlf(),
    }
}

pub open spec fn wire_elems(items: Seq<ScalarModel>) -> Seq<u8>
    decreases items.len(),
{
    if items.len() == 0 {
        Seq::empty()
    } else {
        wire_scalar(items[0]) + wire_elems(items.drop_first())
    }
}

/// The wire encoding of a protocol value.
pub open spec fn wire(v: RespModel) -> Seq<u8> {
    match v {
        RespModel::Scalar(s) => wire_scalar(s),
        RespModel::Array(items) => seq![STAR] + dec_rep(items.len()) + crlf() + wire_elems(items),
    }
}

/// A scalar whose encoding parses back to itself: line-oriented contents
/// carry no carriage return, and an integer fits the wire's signed range.
pub open spec fn scalar_ok(v: ScalarModel) -> bool {
    match v {
        ScalarModel::SimpleString(s) => forall|i: int| 0 <= i < s.len() ==> s[i] != CR,
        ScalarModel::Error(s) => forall|i: int| 0 <= i < s.len() ==> s[i] != CR,
        ScalarModel::Integer(n) => i64::MIN <= n <= i64::MAX,
        ScalarModel::BulkString(b) => true,
        ScalarModel::Nil => true,
    }
}

/// The index of the first carriage return in `s`, if any.
pub open spec fn find_cr(s: Seq<u8>) -> Option<int>
    decreases s.len(),
{
    if s.len() == 0 {
        Option::None
    } else if s[0] == CR {
        Option::Some(0)
    } else {
        match find_cr(s.drop_first()) {
            Option::Some(i) => Option::Some(i + 1),
            Option::None => Option::None,
        }
    }
}

/// One protocol line: the bytes before the first CRLF, and how many bytes
/// the line and its terminator take.
pub open spec fn spec_parse_line(t: Seq<u8>) -> Result<(Seq<u8>, int), ParseError> {
    match find_cr(t) {
        Option::None => Result::Err(ParseError::Incomplete),
        Option::Some(i) => if i + 1 >= t.len() {
            Result::Err(ParseError::Incomplete)
        } else if t[i + 1] != LF {
            Result::Err(ParseError::Malformed)
        } else {
            Result::Ok((t.take(i), i + 2))
        },
    }
}

pub open spec fn is_digit(b: u8) -> bool {
    ZERO <= b <= ZERO + 9
}

pub open spec fn all_digits(s: Seq<u8>) -> bool {
    forall|i: int| 0 <= i < s.len() ==> is_digit(s[i])
}

/// The value of a string of decimal digits.
pub open spec fn digits_val(s: Seq<u8>) -> int
    decreases s.len(),
{
    if s.len() == 0 {
        0
    } else {
        digits_val(s.drop_last()) * 10 + (s.last() - ZERO)
    }
}

/// The value of an integer line: optional minus sign, then digits.
pub open spec fn spec_parse_int(line: Seq<u8>) -> Result<int, ParseError> {
    if line.len() >= 1 && line[0] == MINUS {
        if line.len() >= 2 && all_digits(line.drop_first()) {
            Result::Ok(-digits_val(line.drop_first()))
        } else {
            Result::Err(ParseError::Malformed)
        }
    } else if line.len() >= 1 && all_digits(line) {
        Result::Ok(digits_val(line))
    } else {
        Result::Err(ParseError::Malformed)
    }
}

/// The mathematical decoder for a scalar value at the front of `s`.
pub open spec fn spec_parse_scalar(s: Seq<u8>) -> Result<(ScalarModel, int), ParseError> {
    if s.len() == 0 {
        Result::Err(ParseError::Incomplete)
    } else if s[0] == PLUS {
        match spec_parse_line(s.drop_first()) {
            Result::Ok((content, used)) => Result::Ok(
                (ScalarModel::SimpleString(content), 1 + used),
            ),
            Result::Err(e) => Result::Err(e),
        }
    } else if s[0] == MINUS {
        match spec_parse_line(s.drop_first()) {
            Result::Ok((content, used)) => Result::Ok((ScalarModel::Error(content), 1 + used)),
            Result::Err(e) => Result::Err(e),
        }
    } else if s[0] == COLON {
        match spec_parse_line(s.drop_first()) {
            Result::Ok((line, used)) => match spec_parse_int(line) {
                Result::Ok(n) => if i64::MIN <= n <= i64::MAX {
                    Result::Ok((ScalarModel::Integer(n), 1 + used))
                } else {
                    Result::Err(ParseError::Malformed)
                },
                Result::Err(e) => Result::Err(e),
            },
            Result::Err(e) => Result::Err(e),
        }
    } else if s[0] == DOLLAR {
        match spec_parse_line(s.drop_first()) {
            Result::Ok((line, used)) => if line == seq![MINUS, (ZERO + 1) as u8] {
                Result::Ok((ScalarModel::Nil, 1 + used))
            } else if line.len() >= 1 && all_digits(line) {
                let n = digits_val(line);
                let header = 1 + used;
                if s.len() < header + n + 2 {
                    Result::Err(ParseError::Incomplete)
                } else if s[header + n] == CR && s[header + n + 1] == LF {
                    Result::Ok((ScalarModel::BulkString(s.subrange(header, header + n)), header + n + 2))
                } else {
                    Result::Err(ParseError::Malformed)
                }
            } else {
                Result::Err(ParseError::Malformed)
            },
            Result::Err(e) => Result::Err(e),
        }
    } else {
        Result::Err(ParseError::Malformed)
    }
}

/// The mathematical decoder for `n` consecutive scalar values.
pub open spec fn spec_parse_elems(s: Seq<u8>, n: nat) -> Result<(Seq<ScalarModel>, int), ParseError>
    decreases n,
{
    if n == 0 {
        Result::Ok((Seq::empty(), 0))
    } else {
        match spec_parse_scalar(s) {
            Result::Ok((v, used)) => match spec_parse_elems(s.skip(used), (n - 1) as nat) {
                Result::Ok((rest, used2)) => Result::Ok((seq![v] + rest, used + used2)),
                Result::Err(e) => Result::Err(e),
            },
            Result::Err(e) => Result::Err(e),
        }
    }
}

/// The mathematical decoder for one protocol value at the front of `s`.
pub open spec fn spec_parse(s: Seq<u8>) -> Result<(RespModel, int), ParseError> {
    if s.len() == 0 {
        Result::Err(ParseError::Incomplete)
    } else if s[0] == STAR {
        match spec_parse_line(s.drop_first()) {
            Result::Ok((line, used)) => if line.len() >= 1 && all_digits(line) {
                match spec_parse_elems(s.skip(1 + used), digits_val(line) as nat) {
                    Result::Ok((items, used2)) => Result::Ok(
                        (RespModel::Array(items), 1 + used + used2),
                    ),
                    Result::Err(e) => Result::Err(e),
                }
            } else {
                Result::Err(ParseError::Malformed)
            },
            Result::Err(e) => Result::Err(e),
        }
    } else {
        match spec_parse_scalar(s) {
            Result::Ok((v, used)) => Result::Ok((RespModel::Scalar(v), used)),
            Result::Err(e) => Result::Err(e),
        }
    }
}


proof fn lemma_find_cr_is(s: Seq<u8>, i: int)
    requires
        0 <= i < s.len(),
        s[i] == CR,
        forall|j: int| 0 <= j < i ==> s[j] != CR,
    ensures
        find_cr(s) == Option::Some(i),
    decreases s.len(),
{
    if s[0] != CR {
        assert forall|j: int| 0 <= j < i - 1 implies s.drop_first()[j] != CR by {
            assert(s.drop_first()[j] == s[j + 1]);
        }
        lemma_find_cr_is(s.drop_first(), i - 1);
    }
}

proof fn lemma_find_cr_none(s: Seq<u8>)
    requires
        forall|j: int| 0 <= j < s.len() ==> s[j] != CR,
    ensures
        find_cr(s) is None,
    decreases s.len(),
{
    if s.len() > 0 {
        assert forall|j: int| 0 <= j < s.drop_first().len() implies s.drop_first()[j] != CR by {
            assert(s.drop_first()[j] == s[j + 1]);
        }
        lemma_find_cr_none(s.drop_first());
    }
}

proof fn lemma_digits_val_nonneg(s: Seq<u8>)
    requires
        all_digits(s),
    ensures
        digits_val(s) >= 0,
    decreases s.len(),
{
    if s.len() > 0 {
        assert(all_digits(s.drop_last()));
        lemma_digits_val_nonneg(s.drop_last());
    }
}

proof fn lemma_digits_val_prefix(s: Seq<u8>, j: int)
    requires
        all_digits(s),
        0 <= j <= s.len(),
    ensures
        digits_val(s) >= digits_val(s.take(j)),
    decreases s.len(),
{
    if j == s.len() {
        assert(s.take(j) =~= s);
    } else {
        assert(all_digits(s.drop_last()));
        assert(s.drop_last().take(j) =~= s.take(j));
        lemma_digits_val_prefix(s.drop_last(), j);
        lemma_digits_val_nonneg(s.drop_last());
    }
}

proof fn lemma_find_cr_bounds(s: Seq<u8>)
    ensures
        find_cr(s) matches Option::Some(i) ==> 0 <= i < s.len(),
    decreases s.len(),
{
    if s.len() > 0 && s[0] != CR {
        lemma_find_cr_bounds(s.drop_first());
    }
}

/// A successfully decoded scalar takes at least three bytes and no more
/// than the buffer holds.
proof fn lemma_scalar_used_bounds(s: Seq<u8>)
    ensures
        spec_parse_scalar(s) matches Result::Ok((v, u)) ==> 3 <= u <= s.len(),
{
    if spec_parse_scalar(s) is Ok {
        let t = s.drop_first();
        lemma_find_cr_bounds(t);
        if s[0] == DOLLAR {
            match spec_parse_line(t) {
                Result::Ok(p) => {
                    let ln = p.0;
                    if !(ln == seq![MINUS, (ZERO + 1) as u8]) {
                        lemma_digits_val_nonneg(ln);
                    }
                },
                Result::Err(_) => {},
            }
        }
    }
}

fn copy_range(buf: &[u8], start: usize, end: usize) -> (r: Vec<u8>)
    requires
        start <= end <= buf@.len(),
    ensures
        r@ == buf@.subrange(start as int, end as int),
{
    slice_to_vec(slice_subrange(buf, start, end))
}

fn check_digits(buf: &[u8], start: usize, end: usize) -> (b: bool)
    requires
        start <= end <= buf@.len(),
    ensures
        b == all_digits(buf@.subrange(start as int, end as int)),
{
    let ghost sub = buf@.subrange(start as int, end as int);
    let mut j: usize = start;
    while j < end
        invariant
            start <= j <= end <= buf@.len(),
            sub == buf@.subrange(start as int, end as int),
            forall|k: int| 0 <= k < j - start ==> is_digit(sub[k]),
        decreases end - j,
    {
        let b = buf[j];
        if b < ZERO || b > ZERO + 9 {
            proof {
                assert(sub[j - start] == buf@[j as int]);
                assert(!is_digit(sub[j - start]));
            }
            return false;
        }
        proof {
            assert(sub[j - start] == buf@[j as int]);
        }
        j = j + 1;
    }
    true
}

fn digits_to_u64(buf: &[u8], start: usize, end: usize) -> (r: Option<u64>)
    requires
        start <= end <= buf@.len(),
        all_digits(buf@.subrange(start as int, end as int)),
    ensures
        match r {
            Some(v) => v == digits_val(buf@.subrange(start as int, end as int)),
            None => digits_val(buf@.subrange(start as int, end as int)) > u64::MAX,
        },
{
    let ghost sub = buf@.subrange(start as int, end as int);
    let mut acc: u64 = 0;
    let mut j: usize = start;
    while j < end
        invariant
            start <= j <= end <= buf@.len(),
            sub == buf@.subrange(start as int, end as int),
            all_digits(sub),
            acc == digits_val(sub.take(j - start)),
        decreases end - j,
    {
        let b = buf[j];
        proof {
            assert(sub[j - start] == buf@[j as int]);
            assert(is_digit(sub[j - start]));
            assert(sub.take(j - start + 1).drop_last() =~= sub.take(j - start));
            assert(sub.take(j - start + 1).last() == sub[j - start]);
        }
        let step = match acc.checked_mul(10) {
            Some(m) => m.checked_add((b - ZERO) as u64),
            None => None,
        };
        match step {
            Some(v) => {
                acc = v;
            },
            None => {
                proof {
                    assert(digits_val(sub.take(j - start + 1)) > u64::MAX);
                    lemma_digits_val_prefix(sub, j - start + 1);
                }
                return None;
            },
        }
        j = j + 1;
    }
    proof {
        assert(sub.take(end - start) =~= sub);
    }
    Some(acc)
}

fn parse_line_at(buf: &[u8], start: usize) -> (r: Result<(usize, usize), ParseError>)
    requires
        start <= buf@.len(),
    ensures
        match r {
            Result::Ok((cr, next)) => start <= cr && cr + 2 == next && next <= buf@.len()
                && spec_parse_line(buf@.skip(start as int)) == Result::Ok::<(Seq<u8>, int), ParseError>(
                (buf@.subrange(start as int, cr as int), (next - start) as int),
            ),
            Result::Err(e) => spec_parse_line(buf@.skip(start as int)) == Result::Err::<(
                Seq<u8>,
                int,
            ), ParseError>(e),
        },
{
    let ghost t = buf@.skip(start as int);
    let n = buf.len();
    let mut j: usize = start;
    while j < n
        invariant
            start <= j <= n,
            n == buf@.len(),
            t == buf@.skip(start as int),
            forall|k: int| 0 <= k < j - start ==> t[k] != CR,
        decreases n - j,
    {
        proof {
            assert(t[j - start] == buf@[j as int]);
        }
        if buf[j] == CR {
            proof {
                lemma_find_cr_is(t, j - start);
            }
            if j + 1 >= n {
                return Result::Err(ParseError::Incomplete);
            }
            proof {
                assert(t[j + 1 - start] == buf@[j + 1]);
            }
            if buf[j + 1] != LF {
                return Result::Err(ParseError::Malformed);
            }
            proof {
                assert(t.take(j - start) =~= buf@.subrange(start as int, j as int));
            }
            return Result::Ok((j, j + 2));
        }
        j = j + 1;
    }
    proof {
        lemma_find_cr_none(t);
    }
    Result::Err(ParseError::Incomplete)
}


fn parse_scalar_at(buf: &[u8], pos: usize) -> (r: Result<(RespScalar, usize), ParseError>)
    requires
        pos <= buf@.len(),
    ensures
        match r {
            Result::Ok((v, next)) => pos < next <= buf@.len() && spec_parse_scalar(
                buf@.skip(pos as int),
            ) == Result::Ok::<(ScalarModel, int), ParseError>((v@, (next - pos) as int)),
            Result::Err(e) => spec_parse_scalar(buf@.skip(pos as int)) == Result::Err::<(
                ScalarModel,
                int,
            ), ParseError>(e),
        },
{
    let ghost s = buf@.skip(pos as int);
    if pos == buf.len() {
        return Result::Err(ParseError::Incomplete);
    }
    proof {
        assert(s[0] == buf@[pos as int]);
        assert(s.drop_first() =~= buf@.skip(pos + 1));
    }
    let marker = buf[pos];
    if marker == PLUS {
        match parse_line_at(buf, pos + 1) {
            Result::Ok((cr, next)) => {
                let content = copy_range(buf, pos + 1, cr);
                Result::Ok((RespScalar::SimpleString(content), next))
            },
            Result::Err(e) => Result::Err(e),
        }
    } else if marker == MINUS {
        match parse_line_at(buf, pos + 1) {
            Result::Ok((cr, next)) => {
                let content = copy_range(buf, pos + 1, cr);
                Result::Ok((RespScalar::Error(content), next))
            },
            Result::Err(e) => Result::Err(e),
        }
    } else if marker == COLON {
        match parse_line_at(buf, pos + 1) {
            Result::Ok((cr, next)) => parse_integer_line(buf, pos, cr, next),
            Result::Err(e) => Result::Err(e),
        }
    } else if marker == DOLLAR {
        match parse_line_at(buf, pos + 1) {
            Result::Ok((cr, next)) => parse_bulk_tail(buf, pos, cr, next),
            Result::Err(e) => Result::Err(e),
        }
    } else {
        Result::Err(ParseError::Malformed)
    }
}

/// The tail of an integer value: the line between the `:` marker and its
/// CRLF terminator, already located by the caller.
fn parse_integer_line(buf: &[u8], pos: usize, cr: usize, next: usize) -> (r: Result<
    (RespScalar, usize),
    ParseError,
>)
    requires
        pos < buf@.len(),
        buf@[pos as int] == COLON,
        pos + 1 <= cr,
        cr + 2 == next,
        next <= buf@.len(),
        spec_parse_line(buf@.skip(pos + 1)) == Result::Ok::<(Seq<u8>, int), ParseError>(
            (buf@.subrange(pos + 1, cr as int), (next - pos - 1) as int),
        ),
    ensures
        match r {
            Result::Ok((v, n2)) => pos < n2 <= buf@.len() && spec_parse_scalar(
                buf@.skip(pos as int),
            ) == Result::Ok::<(ScalarModel, int), ParseError>((v@, (n2 - pos) as int)),
            Result::Err(e) => spec_parse_scalar(buf@.skip(pos as int)) == Result::Err::<(
                ScalarModel,
                int,
            ), ParseError>(e),
        },
{
    let ghost s = buf@.skip(pos as int);
    let ghost line = buf@.subrange(pos + 1, cr as int);
    proof {
        assert(s[0] == buf@[pos as int]);
        assert(s.drop_first() =~= buf@.skip(pos + 1));
    }
    let lstart = pos + 1;
    if cr == lstart {
        return Result::Err(ParseError::Malformed);
    }
    proof {
        assert(line[0] == buf@[lstart as int]);
    }
    let neg = buf[lstart] == MINUS;
    let dstart: usize = if neg {
        lstart + 1
    } else {
        lstart
    };
    proof {
        if neg {
            assert(line.drop_first() =~= buf@.subrange(dstart as int, cr as int));
        } else {
            assert(line =~= buf@.subrange(dstart as int, cr as int));
        }
    }
    if dstart == cr {
        return Result::Err(ParseError::Malformed);
    }
    if !check_digits(buf, dstart, cr) {
        return Result::Err(ParseError::Malformed);
    }
    proof {
        lemma_digits_val_nonneg(buf@.subrange(dstart as int, cr as int));
    }
    match digits_to_u64(buf, dstart, cr) {
        Option::None => Result::Err(ParseError::Malformed),
        Option::Some(mag) => {
            if neg {
                if mag == 9223372036854775808u64 {
                    Result::Ok((RespScalar::Integer(i64::MIN), next))
                } else if mag < 9223372036854775808u64 {
                    Result::Ok((RespScalar::Integer(-(mag as i64)), next))
                } else {
                    Result::Err(ParseError::Malformed)
                }
            } else {
                if mag <= 9223372036854775807u64 {
                    Result::Ok((RespScalar::Integer(mag as i64), next))
                } else {
                    Result::Err(ParseError::Malformed)
                }
            }
        },
    }
}

/// The tail of a bulk string or nil value: the length line between the `$`
/// marker and its CRLF terminator, already located by the caller, then the
/// payload bytes.
fn parse_bulk_tail(buf: &[u8], pos: usize, cr: usize, next: usize) -> (r: Result<
    (RespScalar, usize),
    ParseError,
>)
    requires
        pos < buf@.len(),
        buf@[pos as int] == DOLLAR,
        pos + 1 <= cr,
        cr + 2 == next,
        next <= buf@.len(),
        spec_parse_line(buf@.skip(pos + 1)) == Result::Ok::<(Seq<u8>, int), ParseError>(
            (buf@.subrange(pos + 1, cr as int), (next - pos - 1) as int),
        ),
    ensures
        match r {
            Result::Ok((v, n2)) => pos < n2 <= buf@.len() && spec_parse_scalar(
                buf@.skip(pos as int),
            ) == Result::Ok::<(ScalarModel, int), ParseError>((v@, (n2 - pos) as int)),
            Result::Err(e) => spec_parse_scalar(buf@.skip(pos as int)) == Result::Err::<(
                ScalarModel,
                int,
            ), ParseError>(e),
        },
{
    let ghost s = buf@.skip(pos as int);
    let ghost line = buf@.subrange(pos + 1, cr as int);
    proof {
        assert(s[0] == buf@[pos as int]);
        assert(s.drop_first() =~= buf@.skip(pos + 1));
    }
    let lstart = pos + 1;
    if cr == lstart + 2 && buf[lstart] == MINUS && buf[lstart + 1] == ZERO + 1 {
        proof {
            assert(line[0] == buf@[lstart as int]);
            assert(line[1] == buf@[lstart + 1]);
            assert(line =~= seq![MINUS, (ZERO + 1) as u8]);
        }
        return Result::Ok((RespScalar::Nil, next));
    }
    proof {
        if line == seq![MINUS, (ZERO + 1) as u8] {
            assert(cr - lstart == 2);
            assert(line[0] == buf@[lstart as int]);
            assert(line[1] == buf@[lstart + 1]);
        }
    }
    if cr == lstart {
        return Result::Err(ParseError::Malformed);
    }
    if !check_digits(buf, lstart, cr) {
        return Result::Err(ParseError::Malformed);
    }
    proof {
        lemma_digits_val_nonneg(line);
    }
    let ghost n_true: int = digits_val(line);
    let blen: usize = buf.len();
    let rem = blen - next;
    match digits_to_u64(buf, lstart, cr) {
        Option::None => {
            proof {
                assert(n_true > u64::MAX >= rem);
            }
            Result::Err(ParseError::Incomplete)
        },
        Option::Some(n64) => {
            if rem < 2 || n64 > (rem as u64) - 2 {
                Result::Err(ParseError::Incomplete)
            } else {
                let n = n64 as usize;
                proof {
                    assert(s[(next - pos) + n_true] == buf@[next + n]);
                    assert(s[(next - pos) + n_true + 1] == buf@[next + n + 1]);
                }
                if buf[next + n] == CR && buf[next + n + 1] == LF {
                    let content = copy_range(buf, next, next + n);
                    proof {
                        assert(s.subrange((next - pos) as int, (next - pos) + n_true)
                            =~= buf@.subrange(next as int, next + n));
                    }
                    Result::Ok((RespScalar::BulkString(content), next + n + 2))
                } else {
                    Result::Err(ParseError::Malformed)
                }
            }
        },
    }
}


spec fn glue(prefix: Seq<ScalarModel>, consumed: int, r: Result<(Seq<ScalarModel>, int), ParseError>) -> Result<
    (Seq<ScalarModel>, int),
    ParseError,
> {
    match r {
        Result::Ok((rest, u)) => Result::Ok((prefix + rest, consumed + u)),
        Result::Err(e) => Result::Err(e),
    }
}

proof fn lemma_glue_left_identity(r: Result<(Seq<ScalarModel>, int), ParseError>)
    ensures
        glue(Seq::empty(), 0, r) == r,
{
    match r {
        Result::Ok(p) => {
            assert(Seq::empty() + p.0 =~= p.0);
        },
        Result::Err(_) => {},
    }
}

proof fn lemma_glue_assoc(
    a: Seq<ScalarModel>,
    c1: int,
    b: Seq<ScalarModel>,
    c2: int,
    r: Result<(Seq<ScalarModel>, int), ParseError>,
)
    ensures
        glue(a, c1, glue(b, c2, r)) == glue(a + b, c1 + c2, r),
{
    match r {
        Result::Ok(p) => {
            assert(a + (b + p.0) =~= (a + b) + p.0);
        },
        Result::Err(_) => {},
    }
}

/// The parser's entry point.
pub struct RedisProtocolParser;

impl RedisProtocolParser {
    /// Decode one protocol value from the front of `buf`. On success the
    /// returned count says how many bytes the value took; trailing bytes
    /// are left for a later parse. The result is exactly what the
    /// mathematical decoder `spec_parse` says for these bytes.
    pub fn parse(buf: &[u8]) -> (r: Result<(RespValue, usize), ParseError>)
        ensures
            match r {
                Result::Ok((v, used)) => used <= buf@.len() && spec_parse(buf@) == Result::Ok::<(
                    RespModel,
                    int,
                ), ParseError>((v@, used as int)),
                Result::Err(e) => spec_parse(buf@) == Result::Err::<(RespModel, int), ParseError>(
                    e,
                ),
            },
    {
        let blen: usize = buf.len();
        if blen == 0 {
            return Result::Err(ParseError::Incomplete);
        }
        if buf[0] != STAR {
            proof {
                assert(buf@.skip(0) =~= buf@);
            }
            match parse_scalar_at(buf, 0) {
                Result::Ok((v, next)) => Result::Ok((RespValue::Scalar(v), next)),
                Result::Err(e) => Result::Err(e),
            }
        } else {
            proof {
                assert(buf@.drop_first() =~= buf@.skip(1));
            }
            match parse_line_at(buf, 1) {
                Result::Err(e) => Result::Err(e),
                Result::Ok((cr, next)) => {
                    let ghost line = buf@.subrange(1, cr as int);
                    if cr == 1 {
                        return Result::Err(ParseError::Malformed);
                    }
                    if !check_digits(buf, 1, cr) {
                        return Result::Err(ParseError::Malformed);
                    }
                    proof {
                        lemma_digits_val_nonneg(line);
                    }
                    let ghost n_true: int = digits_val(line);
                    let rem = blen - next;
                    let count = digits_to_u64(buf, 1, cr);
                    let (bound, short): (usize, bool) = match count {
                        Option::Some(c) => if c <= rem as u64 {
                            (c as usize, false)
                        } else {
                            (rem, true)
                        },
                        Option::None => (rem, true),
                    };
                    proof {
                        if short {
                            assert(n_true > rem);
                        } else {
                            assert(n_true == bound);
                        }
                    }
                    let mut items: Vec<RespScalar> = Vec::new();
                    let mut p: usize = next;
                    let mut i: usize = 0;
                    proof {
                        lemma_glue_left_identity(
                            spec_parse_elems(buf@.skip(next as int), n_true as nat),
                        );
                        assert(items@.map_values(|e: RespScalar| e@) =~= Seq::<
                            ScalarModel,
                        >::empty());
                    }
                    while i < bound
                        invariant
                            0 <= i <= bound,
                            next <= p <= buf@.len(),
                            blen == buf@.len(),
                            rem == blen - next,
                            p - next >= 3 * i,
                            n_true >= bound,
                            short ==> bound == rem && n_true > rem,
                            !short ==> bound == n_true,
                            spec_parse_elems(buf@.skip(next as int), n_true as nat) == glue(
                                items@.map_values(|e: RespScalar| e@),
                                p - next,
                                spec_parse_elems(buf@.skip(p as int), (n_true - i) as nat),
                            ),
                            spec_parse(buf@) == match spec_parse_elems(
                                buf@.skip(next as int),
                                n_true as nat,
                            ) {
                                Result::Ok(pr) => Result::Ok::<(RespModel, int), ParseError>(
                                    (RespModel::Array(pr.0), next + pr.1),
                                ),
                                Result::Err(e) => Result::Err::<(RespModel, int), ParseError>(e),
                            },
                        decreases bound - i,
                    {
                        let ghost models = items@.map_values(|e: RespScalar| e@);
                        match parse_scalar_at(buf, p) {
                            Result::Err(e) => {
                                proof {
                                    assert(n_true - i > 0);
                                    assert(spec_parse_elems(
                                        buf@.skip(p as int),
                                        (n_true - i) as nat,
                                    ) == Result::Err::<(Seq<ScalarModel>, int), ParseError>(e));
                                }
                                return Result::Err(e);
                            },
                            Result::Ok((v, p2)) => {
                                proof {
                                    lemma_scalar_used_bounds(buf@.skip(p as int));
                                    assert(n_true - i > 0);
                                    assert(buf@.skip(p as int).skip(p2 - p) =~= buf@.skip(
                                        p2 as int,
                                    ));
                                    assert(spec_parse_elems(
                                        buf@.skip(p as int),
                                        (n_true - i) as nat,
                                    ) == glue(
                                        seq![v@],
                                        p2 - p,
                                        spec_parse_elems(
                                            buf@.skip(p2 as int),
                                            (n_true - i - 1) as nat,
                                        ),
                                    ));
                                    lemma_glue_assoc(
                                        models,
                                        p - next,
                                        seq![v@],
                                        p2 - p,
                                        spec_parse_elems(
                                            buf@.skip(p2 as int),
                                            (n_true - i - 1) as nat,
                                        ),
                                    );
                                    assert(items@.push(v).map_values(|e: RespScalar| e@) =~= models
                                        + seq![v@]);
                                }
                                items.push(v);
                                p = p2;
                            },
                        }
                        i = i + 1;
                    }
                    if short {
                        if bound == 0 {
                            proof {
                                assert(buf@.skip(p as int).len() == 0);
                                assert(n_true - i > 0);
                                assert(spec_parse_scalar(buf@.skip(p as int)) == Result::Err::<(
                                    ScalarModel,
                                    int,
                                ), ParseError>(ParseError::Incomplete));
                            }
                            return Result::Err(ParseError::Incomplete);
                        }
                        proof {
                            assert(p - next >= 3 * bound);
                            assert(p - next <= rem);
                            assert(false);
                        }
                        return Result::Err(ParseError::Incomplete);
                    }
                    proof {
                        assert(spec_parse_elems(buf@.skip(p as int), (n_true - i) as nat)
                            == Result::Ok::<(Seq<ScalarModel>, int), ParseError>(
                            (Seq::empty(), 0),
                        ));
                        let models = items@.map_values(|e: RespScalar| e@);
                        assert(models + Seq::empty() =~= models);
                        assert(spec_parse_elems(buf@.skip(next as int), n_true as nat)
                            == Result::Ok::<(Seq<ScalarModel>, int), ParseError>(
                            (models, p - next),
                        ));
                    }
                    Result::Ok((RespValue::Array(items), p))
                },
            }
        }
    }
}


fn push_dec(out: &mut Vec<u8>, n: u64)
    ensures
        final(out)@ == old(out)@ + dec_rep(n as nat),
    decreases n,
{
    if n < 10 {
        out.push(ZERO + n as u8);
        proof {
            assert(out@ =~= old(out)@ + dec_rep(n as nat));
        }
    } else {
        push_dec(out, n / 10);
        out.push(ZERO + (n % 10) as u8);
        proof {
            assert(out@ =~= old(out)@ + dec_rep(n as nat));
        }
    }
}

fn push_crlf(out: &mut Vec<u8>)
    ensures
        final(out)@ == old(out)@ + crlf(),
{
    out.push(CR);
    out.push(LF);
    proof {
        assert(out@ =~= old(out)@ + crlf());
    }
}

/// Append the wire encoding of one scalar value.
fn encode_scalar_into(out: &mut Vec<u8>, v: &RespScalar)
    ensures
        final(out)@ == old(out)@ + wire_scalar(v@),
{
    match v {
        RespScalar::SimpleString(s) => {
            out.push(PLUS);
            out.extend_from_slice(s.as_slice());
            push_crlf(out);
            proof {
                assert(out@ =~= old(out)@ + wire_scalar(v@));
            }
        },
        RespScalar::Error(s) => {
            out.push(MINUS);
            out.extend_from_slice(s.as_slice());
            push_crlf(out);
            proof {
                assert(out@ =~= old(out)@ + wire_scalar(v@));
            }
        },
        RespScalar::Integer(n) => {
            out.push(COLON);
            let m = *n;
            if m < 0 {
                out.push(MINUS);
                let mag: u64 = if m == i64::MIN {
                    9223372036854775808u64
                } else {
                    (-m) as u64
                };
                push_dec(out, mag);
            } else {
                push_dec(out, m as u64);
            }
            push_crlf(out);
            proof {
                assert(out@ =~= old(out)@ + wire_scalar(v@));
            }
        },
        RespScalar::BulkString(b) => {
            out.push(DOLLAR);
            push_dec(out, b.len() as u64);
            push_crlf(out);
            out.extend_from_slice(b.as_slice());
            push_crlf(out);
            proof {
                assert(out@ =~= old(out)@ + wire_scalar(v@));
            }
        },
        RespScalar::Nil => {
            out.push(DOLLAR);
            out.push(MINUS);
            out.push(ZERO + 1);
            push_crlf(out);
            proof {
                assert(out@ =~= old(out)@ + wire_scalar(v@));
            }
        },
    }
}

/// Encode a protocol value into its wire bytes.
pub fn encode(v: &RespValue) -> (r: Vec<u8>)
    ensures
        r@ == wire(v@),
{
    let mut out: Vec<u8> = Vec::new();
    match v {
        RespValue::Scalar(s) => {
            encode_scalar_into(&mut out, s);
            proof {
                assert(out@ =~= wire(v@));
            }
        },
        RespValue::Array(items) => {
            out.push(STAR);
            push_dec(&mut out, items.len() as u64);
            push_crlf(&mut out);
            let ghost header = out@;
            let ghost models = items@.map_values(|e: RespScalar| e@);
            let n = items.len();
            let mut i: usize = 0;
            proof {
                assert(out@ =~= header + wire_prefix(models, 0));
            }
            while i < n
                invariant
                    0 <= i <= n,
                    n == items@.len(),
                    models == items@.map_values(|e: RespScalar| e@),
                    out@ == header + wire_prefix(models, i as int),
                decreases n - i,
            {
                encode_scalar_into(&mut out, &items[i]);
                proof {
                    lemma_wire_prefix_step(models, i as int);
                }
                i = i + 1;
            }
            proof {
                lemma_wire_prefix_all(models);
                assert(out@ =~= wire(v@));
            }
        },
    }
    out
}

/// The wire bytes of the first `k` elements of an array body.
spec fn wire_prefix(items: Seq<ScalarModel>, k: int) -> Seq<u8>
    decreases k,
{
    if k <= 0 {
        Seq::empty()
    } else {
        wire_prefix(items, k - 1) + wire_scalar(items[k - 1])
    }
}

proof fn lemma_wire_prefix_step(items: Seq<ScalarModel>, i: int)
    requires
        0 <= i < items.len(),
    ensures
        wire_prefix(items, i + 1) == wire_prefix(items, i) + wire_scalar(items[i]),
{
}

proof fn lemma_wire_prefix_all(items: Seq<ScalarModel>)
    ensures
        wire_prefix(items, items.len() as int) == wire_elems(items),
{
    lemma_wire_prefix_all_from(items, 0);
    assert(items.skip(0) =~= items);
    assert(Seq::<u8>::empty() + wire_elems(items) =~= wire_elems(items));
}

proof fn lemma_wire_prefix_all_from(items: Seq<ScalarModel>, k: int)
    requires
        0 <= k <= items.len(),
    ensures
        wire_prefix(items, items.len() as int) == wire_prefix(items, k) + wire_elems(items.skip(k)),
    decreases items.len() - k,
{
    if k == items.len() {
        assert(items.skip(k) =~= Seq::<ScalarModel>::empty());
        assert(wire_prefix(items, k) + wire_elems(items.skip(k)) =~= wire_prefix(items, k));
    } else {
        lemma_wire_prefix_all_from(items, k + 1);
        assert(items.skip(k).len() > 0);
        assert(items.skip(k)[0] == items[k]);
        assert(items.skip(k).drop_first() =~= items.skip(k + 1));
        assert(wire_elems(items.skip(k)) == wire_scalar(items[k]) + wire_elems(items.skip(k + 1)));
        assert(wire_prefix(items, k + 1) + wire_elems(items.skip(k + 1)) =~= wire_prefix(items, k)
            + wire_elems(items.skip(k)));
    }
}


proof fn lemma_dec_rep_digits(n: nat)
    ensures
        dec_rep(n).len() >= 1,
        all_digits(dec_rep(n)),
        digits_val(dec_rep(n)) == n,
    decreases n,
{
    if n < 10 {
        let w = seq![(ZERO + n) as u8];
        assert(dec_rep(n) == w);
        assert(w.drop_last() =~= Seq::<u8>::empty());
        assert(digits_val(w.drop_last()) == 0);
        assert(w.last() == (ZERO + n) as u8);
        assert(digits_val(w) == digits_val(w.drop_last()) * 10 + (w.last() - ZERO));
    } else {
        lemma_dec_rep_digits(n / 10);
        let d = dec_rep(n / 10);
        let w = dec_rep(n);
        assert(w == d.push((ZERO + n % 10) as u8));
        assert(w.drop_last() =~= d);
        assert(w.last() == (ZERO + n % 10) as u8);
        assert(digits_val(w) == digits_val(d) * 10 + (n % 10));
        assert(all_digits(w));
    }
}

proof fn lemma_digits_no_cr(d: Seq<u8>)
    requires
        all_digits(d),
    ensures
        forall|i: int| 0 <= i < d.len() ==> d[i] != CR,
{
}

/// Parsing one line out of `content + CRLF + tail` finds exactly
/// `content`, when `content` holds no carriage return.
proof fn lemma_parse_line_of(content: Seq<u8>, tail: Seq<u8>)
    requires
        forall|i: int| 0 <= i < content.len() ==> content[i] != CR,
    ensures
        spec_parse_line(content + crlf() + tail) == Result::Ok::<(Seq<u8>, int), ParseError>(
            (content, content.len() as int + 2),
        ),
{
    let t = content + crlf() + tail;
    let i = content.len() as int;
    assert(t[i] == CR);
    assert forall|j: int| 0 <= j < i implies t[j] != CR by {
        assert(t[j] == content[j]);
    }
    lemma_find_cr_is(t, i);
    assert(t[i + 1] == LF);
    assert(i + 1 < t.len());
    assert(t.take(i) =~= content);
}

/// Round trip for scalars: the encoding of a well-formed scalar value,
/// followed by anything, decodes to exactly that value, consuming exactly
/// the encoding.
#[verifier::rlimit(60)]
pub proof fn lemma_parse_wire_scalar(v: ScalarModel, rest: Seq<u8>)
    requires
        scalar_ok(v),
    ensures
        spec_parse_scalar(wire_scalar(v) + rest) == Result::Ok::<(ScalarModel, int), ParseError>(
            (v, wire_scalar(v).len() as int),
        ),
{
    let w = wire_scalar(v);
    let s = w + rest;
    match v {
        ScalarModel::SimpleString(c) => {
            assert(s[0] == PLUS);
            assert(s.drop_first() =~= c + crlf() + rest);
            lemma_parse_line_of(c, rest);
        },
        ScalarModel::Error(c) => {
            assert(s[0] == MINUS);
            assert(s.drop_first() =~= c + crlf() + rest);
            lemma_parse_line_of(c, rest);
        },
        ScalarModel::Integer(n) => {
            assert(s[0] == COLON);
            let line = int_rep(n);
            assert(s.drop_first() =~= line + crlf() + rest);
            if n < 0 {
                lemma_dec_rep_digits((-n) as nat);
                lemma_digits_no_cr(dec_rep((-n) as nat));
                assert forall|i: int| 0 <= i < line.len() implies line[i] != CR by {
                    if i > 0 {
                        assert(line[i] == dec_rep((-n) as nat)[i - 1]);
                    }
                }
                lemma_parse_line_of(line, rest);
                assert(line[0] == MINUS);
                assert(line.drop_first() =~= dec_rep((-n) as nat));
                assert(spec_parse_int(line) == Result::Ok::<int, ParseError>(n));
            } else {
                lemma_dec_rep_digits(n as nat);
                lemma_digits_no_cr(line);
                lemma_parse_line_of(line, rest);
                assert(is_digit(line[0]));
                assert(line[0] != MINUS);
                assert(spec_parse_int(line) == Result::Ok::<int, ParseError>(n));
            }
        },
        ScalarModel::BulkString(b) => {
            assert(s[0] == DOLLAR);
            let d = dec_rep(b.len());
            lemma_dec_rep_digits(b.len());
            lemma_digits_no_cr(d);
            assert(s.drop_first() =~= d + crlf() + (b + crlf() + rest));
            lemma_parse_line_of(d, b + crlf() + rest);
            assert(is_digit(d[0]));
            assert(d[0] != MINUS);
            assert(d != seq![MINUS, (ZERO + 1) as u8]);
            let header = 1 + (d.len() + 2) as int;
            let n = b.len() as int;
            assert(s.len() == header + n + 2 + rest.len());
            assert forall|i: int| 0 <= i < n implies s[header + i] == b[i] by {
                assert(s[header + i] == (w + rest)[header + i]);
            }
            assert(s[header + n] == w[header + n] && w[header + n] == CR);
            assert(s[header + n + 1] == w[header + n + 1] && w[header + n + 1] == LF);
            assert(s.subrange(header, header + n) =~= b);
        },
        ScalarModel::Nil => {
            assert(s[0] == DOLLAR);
            let line = seq![MINUS, (ZERO + 1) as u8];
            assert(s.drop_first() =~= line + crlf() + rest);
            assert forall|i: int| 0 <= i < line.len() implies line[i] != CR by {}
            lemma_parse_line_of(line, rest);
        },
    }
}

/// Every element of an array is a well-formed scalar.
pub open spec fn value_ok(v: RespModel) -> bool {
    match v {
        RespModel::Scalar(sc) => scalar_ok(sc),
        RespModel::Array(items) => forall|i: int| 0 <= i < items.len() ==> scalar_ok(#[trigger] items[i]),
    }
}

proof fn lemma_parse_wire_elems(items: Seq<ScalarModel>, rest: Seq<u8>)
    requires
        forall|i: int| 0 <= i < items.len() ==> scalar_ok(#[trigger] items[i]),
    ensures
        spec_parse_elems(wire_elems(items) + rest, items.len()) == Result::Ok::<(
            Seq<ScalarModel>,
            int,
        ), ParseError>((items, wire_elems(items).len() as int)),
    decreases items.len(),
{
    let s = wire_elems(items) + rest;
    if items.len() == 0 {
        assert(items =~= Seq::<ScalarModel>::empty());
    } else {
        let w0 = wire_scalar(items[0]);
        let tail = items.drop_first();
        assert(forall|i: int| 0 <= i < tail.len() ==> scalar_ok(#[trigger] tail[i]));
        assert(s =~= w0 + (wire_elems(tail) + rest));
        lemma_parse_wire_scalar(items[0], wire_elems(tail) + rest);
        assert(s.skip(w0.len() as int) =~= wire_elems(tail) + rest);
        lemma_parse_wire_elems(tail, rest);
        assert(seq![items[0]] + tail =~= items);
        assert(wire_elems(items).len() == w0.len() + wire_elems(tail).len());
    }
}

/// Round trip for whole protocol values: the encoding of a well-formed
/// value, followed by anything, decodes to exactly that value. In
/// particular a bulk string of arbitrary bytes — text or not, with or
/// without CRLF inside — comes back byte-for-byte.
pub proof fn lemma_parse_wire(v: RespModel, rest: Seq<u8>)
    requires
        value_ok(v),
    ensures
        spec_parse(wire(v) + rest) == Result::Ok::<(RespModel, int), ParseError>(
            (v, wire(v).len() as int),
        ),
{
    let w = wire(v);
    let s = w + rest;
    match v {
        RespModel::Scalar(sc) => {
            lemma_parse_wire_scalar(sc, rest);
            assert(wire_scalar(sc)[0] != STAR);
            assert(s[0] == wire_scalar(sc)[0]);
            assert(s.len() > 0);
        },
        RespModel::Array(items) => {
            assert(s[0] == STAR);
            let d = dec_rep(items.len());
            lemma_dec_rep_digits(items.len());
            lemma_digits_no_cr(d);
            assert(s.drop_first() =~= d + crlf() + (wire_elems(items) + rest));
            lemma_parse_line_of(d, wire_elems(items) + rest);
            let header = 1 + (d.len() + 2) as int;
            assert(s.skip(header) =~= wire_elems(items) + rest);
            lemma_parse_wire_elems(items, rest);
            assert(w.len() == header + wire_elems(items).len());
        },
    }
}

/// A bulk-string header whose declared length exceeds the bytes that have
/// arrived so far decodes as `Incomplete` — a recoverable failure asking
/// for more bytes, never a fault.
pub proof fn lemma_partial_bulk_incomplete(len: nat, data: Seq<u8>)
    requires
        data.len() < len + 2,
    ensures
        spec_parse(seq![DOLLAR] + dec_rep(len) + crlf() + data) == Result::Err::<(
            RespModel,
            int,
        ), ParseError>(ParseError::Incomplete),
{
    let d = dec_rep(len);
    let s = seq![DOLLAR] + d + crlf() + data;
    assert(s[0] == DOLLAR);
    lemma_dec_rep_digits(len);
    lemma_digits_no_cr(d);
    assert(s.drop_first() =~= d + crlf() + data);
    lemma_parse_line_of(d, data);
    assert(is_digit(d[0]));
    assert(d != seq![MINUS, (ZERO + 1) as u8]);
    let header = 1 + (d.len() + 2) as int;
    assert(s.len() == header + data.len());
    assert(s.len() < header + len + 2);
    assert(spec_parse_scalar(s) == Result::Err::<(ScalarModel, int), ParseError>(
        ParseError::Incomplete,
    ));
}

} // verus!
