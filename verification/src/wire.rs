//! Wire-format primitives: big-endian integers, decimal text, message
//! framing (one tag byte, a four-byte length that counts itself, then the
//! payload), and null-terminated string fields.

use vstd::prelude::*;
use vstd::utf8::{decode_utf8, valid_utf8};

verus! {

/// The 16-bit big-endian value of two bytes of `b` starting at `off`.
pub open spec fn u16_be_at(b: Seq<u8>, off: int) -> int {
    b[off] * 256 + b[off + 1]
}

/// The 32-bit big-endian value of four bytes of `b` starting at `off`.
pub open spec fn u32_be_at(b: Seq<u8>, off: int) -> int {
    b[off] * 0x1000000 + b[off + 1] * 0x10000 + b[off + 2] * 256 + b[off + 3]
}

/// The four big-endian bytes of a 32-bit value.
pub open spec fn u32_be_bytes(x: u32) -> Seq<u8> {
    seq![
        (x / 0x1000000) as u8,
        ((x / 0x10000) % 256) as u8,
        ((x / 256) % 256) as u8,
        (x % 256) as u8,
    ]
}

/// Read a big-endian 16-bit integer out of a buffer.
pub fn read_u16_be(buf: &Vec<u8>, off: usize) -> (r: u16)
    requires
        off + 2 <= buf@.len(),
    ensures
        r == u16_be_at(buf@, off as int),
{
    proof {
        vstd::std_specs::vec::axiom_spec_len(buf);
    }
    (buf[off] as u16) * 256 + (buf[off + 1] as u16)
}

/// Read a big-endian 32-bit integer out of a buffer.
pub fn read_u32_be(buf: &Vec<u8>, off: usize) -> (r: u32)
    requires
        off + 4 <= buf@.len(),
    ensures
        r == u32_be_at(buf@, off as int),
{
    proof {
        vstd::std_specs::vec::axiom_spec_len(buf);
    }
    (buf[off] as u32) * 0x1000000 + (buf[off + 1] as u32) * 0x10000 + (buf[off + 2] as u32) * 256
        + (buf[off + 3] as u32)
}

/// Append the four big-endian bytes of `x` to a buffer.
pub fn push_u32_be(buf: &mut Vec<u8>, x: u32)
    ensures
        final(buf)@ == old(buf)@ + u32_be_bytes(x),
{
    let ghost before = buf@;
    buf.push((x / 0x1000000) as u8);
    buf.push(((x / 0x10000) % 256) as u8);
    buf.push(((x / 256) % 256) as u8);
    buf.push((x % 256) as u8);
    proof {
        assert(buf@ =~= before + u32_be_bytes(x));
    }
}

/// The decimal digits of `n`, most significant first, as ASCII bytes.
pub open spec fn dec_bytes(n: nat) -> Seq<u8>
    decreases n,
{
    if n < 10 {
        seq![(48 + n) as u8]
    } else {
        dec_bytes(n / 10) + seq![(48 + n % 10) as u8]
    }
}

/// The decimal rendering of a signed value: a minus sign, then the digits
/// of the magnitude.
pub open spec fn dec_signed_bytes(v: int) -> Seq<u8> {
    if v < 0 {
        seq![45u8] + dec_bytes((-v) as nat)
    } else {
        dec_bytes(v as nat)
    }
}

/// Render an unsigned value in decimal.
pub fn dec_u64(n: u64) -> (r: Vec<u8>)
    ensures
        r@ == dec_bytes(n as nat),
    decreases n,
{
    if n < 10 {
        let mut v: Vec<u8> = Vec::new();
        v.push(48 + (n as u8));
        v
    } else {
        let mut v = dec_u64(n / 10);
        v.push(48 + ((n % 10) as u8));
        v
    }
}

/// Render a signed value in decimal.
pub fn dec_i64(v: i64) -> (r: Vec<u8>)
    ensures
        r@ == dec_signed_bytes(v as int),
{
    if v >= 0 {
        dec_u64(v as u64)
    } else {
        let m: u64 = if v == i64::MIN {
            9223372036854775808u64
        } else {
            (-v) as u64
        };
        let mut r: Vec<u8> = Vec::new();
        r.push(45);
        let mut digits = dec_u64(m);
        r.append(&mut digits);
        proof {
            assert(m as nat == (-(v as int)) as nat);
            assert(r@ =~= dec_signed_bytes(v as int));
        }
        r
    }
}

/// The character of one decimal digit.
pub open spec fn digit_char(d: nat) -> char {
    if d == 0 {
        '0'
    } else if d == 1 {
        '1'
    } else if d == 2 {
        '2'
    } else if d == 3 {
        '3'
    } else if d == 4 {
        '4'
    } else if d == 5 {
        '5'
    } else if d == 6 {
        '6'
    } else if d == 7 {
        '7'
    } else if d == 8 {
        '8'
    } else {
        '9'
    }
}

/// The decimal digits of `n`, most significant first, as characters.
pub open spec fn dec_chars(n: nat) -> Seq<char>
    decreases n,
{
    if n < 10 {
        seq![digit_char(n)]
    } else {
        dec_chars(n / 10) + seq![digit_char(n % 10)]
    }
}

/// One decimal digit as a string.
fn digit_string(d: u64) -> (r: String)
    requires
        d < 10,
    ensures
        r@ == seq![digit_char(d as nat)],
{
    let r = match d {
        0u64 => {
            proof {
                reveal_strlit("0");
            }
            "0".to_owned()
        },
        1u64 => {
            proof {
                reveal_strlit("1");
            }
            "1".to_owned()
        },
        2u64 => {
            proof {
                reveal_strlit("2");
            }
            "2".to_owned()
        },
        3u64 => {
            proof {
                reveal_strlit("3");
            }
            "3".to_owned()
        },
        4u64 => {
            proof {
                reveal_strlit("4");
            }
            "4".to_owned()
        },
        5u64 => {
            proof {
                reveal_strlit("5");
            }
            "5".to_owned()
        },
        6u64 => {
            proof {
                reveal_strlit("6");
            }
            "6".to_owned()
        },
        7u64 => {
            proof {
                reveal_strlit("7");
            }
            "7".to_owned()
        },
        8u64 => {
            proof {
                reveal_strlit("8");
            }
            "8".to_owned()
        },
        _ => {
            proof {
                reveal_strlit("9");
            }
            "9".to_owned()
        },
    };
    proof {
        assert(r@ =~= seq![digit_char(d as nat)]);
    }
    r
}

/// Render an unsigned value in decimal, as text.
pub fn dec_u64_string(n: u64) -> (r: String)
    ensures
        r@ == dec_chars(n as nat),
    decreases n,
{
    if n < 10 {
        digit_string(n)
    } else {
        let mut r = dec_u64_string(n / 10);
        let d = digit_string(n % 10);
        r.append(d.as_str());
        r
    }
}

/// Powers of ten.
pub open spec fn pow10(k: nat) -> nat
    decreases k,
{
    if k == 0 {
        1
    } else {
        10 * pow10((k - 1) as nat)
    }
}

/// A value below the `k`-th power of ten has at most `k` decimal digits.
proof fn lemma_dec_bytes_len_bound(n: nat, k: nat)
    requires
        k >= 1,
        n < pow10(k),
    ensures
        1 <= dec_bytes(n).len() <= k,
    decreases n,
{
    if n < 10 {
    } else {
        assert(pow10(k) == 10 * pow10((k - 1) as nat));
        assert(k >= 2) by {
            if k == 1 {
                assert(pow10(1nat) == 10);
            }
        }
        assert(n / 10 < pow10((k - 1) as nat)) by (nonlinear_arith)
            requires
                n < 10 * pow10((k - 1) as nat),
                n >= 10,
        ;
        lemma_dec_bytes_len_bound(n / 10, (k - 1) as nat);
    }
}

/// Any 64-bit value renders to at most twenty digits.
pub proof fn lemma_dec_bytes_len(n: nat)
    requires
        n <= u64::MAX,
    ensures
        1 <= dec_bytes(n).len() <= 20,
{
    assert(pow10(20) > 0xffff_ffff_ffff_ffff) by {
        reveal_with_fuel(pow10, 21);
    }
    lemma_dec_bytes_len_bound(n, 20);
}

/// The decimal rendering of any 64-bit signed value takes at most
/// twenty-one bytes.
pub proof fn lemma_dec_signed_bytes_len(v: int)
    requires
        i64::MIN <= v <= i64::MAX,
    ensures
        1 <= dec_signed_bytes(v).len() <= 21,
{
    if v < 0 {
        lemma_dec_bytes_len((-v) as nat);
    } else {
        lemma_dec_bytes_len(v as nat);
    }
}

/// Relies on `String::from_utf8`: succeeds exactly on valid UTF-8 and
/// yields the decoded characters, whose encoding is the input again.
#[verifier::external_body]
pub(crate) fn bytes_to_string(v: Vec<u8>) -> (r: Option<String>)
    ensures
        r is Some <==> valid_utf8(v@),
        r matches Some(s) ==> s@ == decode_utf8(v@) && vstd::utf8::encode_utf8(s@) == v@,
{
    match String::from_utf8(v) {
        Ok(s) => Some(s),
        Err(_) => None,
    }
}

/// The least index at or after `start` holding a zero byte.
pub open spec fn first_zero(b: Seq<u8>, start: int) -> Option<int>
    decreases b.len() - start,
{
    if start < 0 || start >= b.len() {
        None
    } else if b[start] == 0 {
        Some(start)
    } else {
        first_zero(b, start + 1)
    }
}

/// Read one null-terminated string field starting at `start`. On success
/// the second component is the number of bytes consumed, terminator
/// included. `Err(true)` means the bytes were not valid UTF-8; `Err(false)`
/// means no terminator was found.
pub fn read_string(buf: &Vec<u8>, start: usize) -> (r: Result<(String, usize), bool>)
    requires
        start <= buf@.len(),
    ensures
        match first_zero(buf@, start as int) {
            Option::None => r == Err::<(String, usize), bool>(false),
            Option::Some(z) => {
                let sub = buf@.subrange(start as int, z);
                if valid_utf8(sub) {
                    r matches Ok((s, n)) && s@ == decode_utf8(sub) && n == z - start + 1
                } else {
                    r == Err::<(String, usize), bool>(true)
                }
            },
        },
{
    let n = buf.len();
    let mut i: usize = start;
    let mut zero: Option<usize> = None;
    while i < n && zero.is_none()
        invariant
            start <= i <= n,
            n == buf@.len(),
            match zero {
                Option::Some(z) => first_zero(buf@, start as int) == Some(z as int) && start <= z
                    < n,
                Option::None => first_zero(buf@, start as int) == first_zero(buf@, i as int),
            },
        decreases n - i + (if zero is None {
            1int
        } else {
            0int
        }),
    {
        if buf[i] == 0 {
            zero = Some(i);
        } else {
            i = i + 1;
        }
    }
    match zero {
        None => Err(false),
        Some(z) => {
            let mut sub: Vec<u8> = Vec::new();
            let mut j: usize = start;
            while j < z
                invariant
                    start <= j <= z <= buf@.len(),
                    sub@ =~= buf@.subrange(start as int, j as int),
                decreases z - j,
            {
                sub.push(buf[j]);
                proof {
                    assert(sub@ =~= buf@.subrange(start as int, j + 1));
                }
                j = j + 1;
            }
            match bytes_to_string(sub) {
                Some(s) => Ok((s, z - start + 1)),
                None => Err(true),
            }
        },
    }
}

/// A framed protocol message: the tag byte, a four-byte big-endian length
/// counting itself and the payload, then the payload.
pub open spec fn frame_spec(tag: u8, payload: Seq<u8>) -> Seq<u8> {
    seq![tag] + u32_be_bytes((payload.len() + 4) as u32) + payload
}

/// Frame one message. Fails only when the payload cannot be described by
/// the four-byte length field.
pub fn frame_message(message_type: u8, buf: &Vec<u8>) -> (r: Result<Vec<u8>, ()>)
    ensures
        r is Ok <==> buf@.len() + 4 <= u32::MAX,
        r matches Ok(v) ==> v@ == frame_spec(message_type, buf@),
{
    if buf.len() > (u32::MAX - 4) as usize {
        return Err(());
    }
    let message_len = (buf.len() as u32) + 4;
    let mut out: Vec<u8> = Vec::new();
    out.push(message_type);
    push_u32_be(&mut out, message_len);
    let mut i: usize = 0;
    let n = buf.len();
    while i < n
        invariant
            n == buf@.len(),
            0 <= i <= n,
            out@ =~= seq![message_type] + u32_be_bytes((buf@.len() + 4) as u32) + buf@.take(
                i as int,
            ),
        decreases n - i,
    {
        out.push(buf[i]);
        proof {
            assert(buf@.take(i + 1) =~= buf@.take(i as int).push(buf@[i as int]));
        }
        i = i + 1;
    }
    proof {
        assert(buf@.take(n as int) =~= buf@);
        assert(out@ =~= frame_spec(message_type, buf@));
    }
    Ok(out)
}

/// How severe a reported error is, in the protocol's own vocabulary.
pub enum ErrorSeverity {
    Error,
    Fatal,
    Panic,
}

/// The severity's wire text.
pub open spec fn severity_bytes(s: ErrorSeverity) -> Seq<u8> {
    match s {
        ErrorSeverity::Error => seq![69u8, 82u8, 82u8, 79u8, 82u8],
        ErrorSeverity::Fatal => seq![70u8, 65u8, 84u8, 65u8, 76u8],
        ErrorSeverity::Panic => seq![80u8, 65u8, 78u8, 73u8, 67u8],
    }
}

/// Append the severity's wire text.
fn push_severity(buf: &mut Vec<u8>, s: &ErrorSeverity)
    ensures
        final(buf)@ == old(buf)@ + severity_bytes(*s),
{
    let ghost before = buf@;
    match s {
        ErrorSeverity::Error => {
            buf.push(69);
            buf.push(82);
            buf.push(82);
            buf.push(79);
            buf.push(82);
        },
        ErrorSeverity::Fatal => {
            buf.push(70);
            buf.push(65);
            buf.push(84);
            buf.push(65);
            buf.push(76);
        },
        ErrorSeverity::Panic => {
            buf.push(80);
            buf.push(65);
            buf.push(78);
            buf.push(73);
            buf.push(67);
        },
    }
    proof {
        assert(buf@ =~= before + severity_bytes(*s));
    }
}

/// A structured error report: severity, SQLSTATE, message, and the
/// protocol's optional diagnostic fields.
pub struct ProtocolError {
    pub severity: ErrorSeverity,
    pub sqlstate: String,
    pub message: String,
    pub detail: Option<String>,
    pub hint: Option<String>,
    pub position: Option<usize>,
    pub internal_position: Option<usize>,
    pub internal_query: Option<String>,
    pub where_context: Option<String>,
    pub schema: Option<String>,
    pub table: Option<String>,
    pub column: Option<String>,
    pub data_type: Option<String>,
    pub constraint: Option<String>,
    pub file: Option<String>,
    pub line: Option<String>,
    pub routine: Option<String>,
}

impl ProtocolError {
    /// An error report carrying a severity, SQLSTATE, message and detail,
    /// with every other diagnostic field absent.
    pub fn with_detail(severity: ErrorSeverity, sqlstate: String, message: String, detail: String)
        -> (r: Self)
        ensures
            r.severity == severity,
            r.sqlstate == sqlstate,
            r.message == message,
            r.detail == Some(detail),
            r.hint is None,
            r.position is None,
            r.internal_position is None,
            r.internal_query is None,
            r.where_context is None,
            r.schema is None,
            r.table is None,
            r.column is None,
            r.data_type is None,
            r.constraint is None,
            r.file is None,
            r.line is None,
            r.routine is None,
    {
        ProtocolError {
            severity,
            sqlstate,
            message,
            detail: Some(detail),
            hint: None,
            position: None,
            internal_position: None,
            internal_query: None,
            where_context: None,
            schema: None,
            table: None,
            column: None,
            data_type: None,
            constraint: None,
            file: None,
            line: None,
            routine: None,
        }
    }
}

/// One optional string diagnostic: its tag byte, the text, a terminator;
/// or nothing when absent.
pub open spec fn opt_str_field(tag: u8, f: Option<String>) -> Seq<u8> {
    match f {
        Option::None => Seq::empty(),
        Option::Some(s) => seq![tag] + vstd::utf8::encode_utf8(s@) + seq![0u8],
    }
}

/// One optional numeric diagnostic, rendered in decimal.
pub open spec fn opt_num_field(tag: u8, f: Option<usize>) -> Seq<u8> {
    match f {
        Option::None => Seq::empty(),
        Option::Some(n) => seq![tag] + dec_bytes(n as nat) + seq![0u8],
    }
}

/// Append one optional string diagnostic.
fn push_opt_str_field(buf: &mut Vec<u8>, tag: u8, f: &Option<String>)
    ensures
        final(buf)@ == old(buf)@ + opt_str_field(tag, *f),
{
    let ghost before = buf@;
    match f {
        Option::None => {},
        Option::Some(s) => {
            buf.push(tag);
            let mut b = vstd::string::StrSliceExecFns::as_bytes_vec(s.as_str());
            buf.append(&mut b);
            buf.push(0);
        },
    }
    proof {
        assert(buf@ =~= before + opt_str_field(tag, *f));
    }
}

/// Append one optional numeric diagnostic.
fn push_opt_num_field(buf: &mut Vec<u8>, tag: u8, f: &Option<usize>)
    ensures
        final(buf)@ == old(buf)@ + opt_num_field(tag, *f),
{
    let ghost before = buf@;
    match f {
        Option::None => {},
        Option::Some(n) => {
            buf.push(tag);
            let mut b = dec_u64((*n) as u64);
            buf.append(&mut b);
            buf.push(0);
        },
    }
    proof {
        assert(buf@ =~= before + opt_num_field(tag, *f));
    }
}

/// The payload of an error report: severity twice (as severity and as the
/// verbose severity), SQLSTATE, message, every present diagnostic as a
/// tagged null-terminated field, then a closing zero byte.
pub open spec fn error_fields_bytes(e: ProtocolError) -> Seq<u8> {
    seq![83u8] + severity_bytes(e.severity) + seq![0u8] + seq![86u8] + severity_bytes(e.severity)
        + seq![0u8] + seq![67u8] + vstd::utf8::encode_utf8(e.sqlstate@) + seq![0u8] + seq![77u8]
        + vstd::utf8::encode_utf8(e.message@) + seq![0u8] + opt_str_field(68u8, e.detail)
        + opt_str_field(72u8, e.hint) + opt_num_field(80u8, e.position) + opt_num_field(
        112u8,
        e.internal_position,
    ) + opt_str_field(68u8, e.internal_query) + opt_str_field(87u8, e.where_context)
        + opt_str_field(115u8, e.schema) + opt_str_field(116u8, e.table) + opt_str_field(
        99u8,
        e.column,
    ) + opt_str_field(100u8, e.data_type) + opt_str_field(110u8, e.constraint) + opt_str_field(
        70u8,
        e.file,
    ) + opt_str_field(76u8, e.line) + opt_str_field(82u8, e.routine) + seq![0u8]
}

/// Serialize one error report as a framed ErrorResponse message. Fails only
/// when the fields cannot fit the length word.
pub fn encode_error_response(err: &ProtocolError) -> (r: Result<Vec<u8>, ()>)
    ensures
        r is Ok <==> error_fields_bytes(*err).len() + 4 <= u32::MAX,
        r matches Ok(v) ==> v@ == frame_spec(69u8, error_fields_bytes(*err)),
{
    let mut buf: Vec<u8> = Vec::new();
    buf.push(83);
    push_severity(&mut buf, &err.severity);
    buf.push(0);
    buf.push(86);
    push_severity(&mut buf, &err.severity);
    buf.push(0);
    buf.push(67);
    let mut b = vstd::string::StrSliceExecFns::as_bytes_vec(err.sqlstate.as_str());
    buf.append(&mut b);
    buf.push(0);
    buf.push(77);
    let mut b = vstd::string::StrSliceExecFns::as_bytes_vec(err.message.as_str());
    buf.append(&mut b);
    buf.push(0);
    push_opt_str_field(&mut buf, 68, &err.detail);
    push_opt_str_field(&mut buf, 72, &err.hint);
    push_opt_num_field(&mut buf, 80, &err.position);
    push_opt_num_field(&mut buf, 112, &err.internal_position);
    push_opt_str_field(&mut buf, 68, &err.internal_query);
    push_opt_str_field(&mut buf, 87, &err.where_context);
    push_opt_str_field(&mut buf, 115, &err.schema);
    push_opt_str_field(&mut buf, 116, &err.table);
    push_opt_str_field(&mut buf, 99, &err.column);
    push_opt_str_field(&mut buf, 100, &err.data_type);
    push_opt_str_field(&mut buf, 110, &err.constraint);
    push_opt_str_field(&mut buf, 70, &err.file);
    push_opt_str_field(&mut buf, 76, &err.line);
    push_opt_str_field(&mut buf, 82, &err.routine);
    buf.push(0);
    proof {
        assert(buf@ =~= error_fields_bytes(*err));
    }
    frame_message(69, &buf)
}

} // verus!
