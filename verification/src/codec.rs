//! Wire form of values: the canonical byte encoding used for
//! newline-delimited message records, and its well-formedness rules.
//!
//! Strings travel unescaped, so a well-formed string holds no control
//! bytes, no quote and no backslash; the decoder rejects any other
//! string, which keeps every accepted record re-encodable.

use vstd::prelude::*;
use crate::value::Val;
use crate::value::Value;
use crate::value::val_view;
use crate::value::vals_view;
use crate::value::fields_view;
use crate::value::lemma_vals_view;
use crate::value::lemma_fields_view;

verus! {

/// Why a byte record was not accepted as a message.
///
/// `Incomplete` marks truncated input: more bytes could still turn the
/// record into a message, so a streaming reader should wait rather than
/// fail. `Malformed` marks input no extension can repair.
/// `UnknownShape` marks a structurally valid record that is not one of
/// the three message shapes.
#[derive(Clone, Copy, Debug, PartialEq, Eq)]
pub enum DecodeError {
    Incomplete,
    Malformed,
    UnknownShape,
}

pub const B_QUOTE: u8 = 0x22;
pub const B_COMMA: u8 = 0x2c;
pub const B_MINUS: u8 = 0x2d;
pub const B_COLON: u8 = 0x3a;
pub const B_LBRACK: u8 = 0x5b;
pub const B_RBRACK: u8 = 0x5d;
pub const B_BACKSLASH: u8 = 0x5c;
pub const B_LBRACE: u8 = 0x7b;
pub const B_RBRACE: u8 = 0x7d;
pub const B_ZERO: u8 = 0x30;

pub open spec fn is_digit(b: u8) -> bool {
    0x30 <= b <= 0x39
}

/// A byte a wire string may hold: printable, never a quote or a backslash.
pub open spec fn wf_str_byte(b: u8) -> bool {
    0x20 <= b && b != B_QUOTE && b != B_BACKSLASH
}

pub open spec fn wf_str(s: Seq<u8>) -> bool {
    forall|k: int| 0 <= k < s.len() ==> wf_str_byte(#[trigger] s[k])
}

pub open spec fn in_i64_range(n: int) -> bool {
    i64::MIN <= n <= i64::MAX
}

/// Well-formedness of the elements of `elems[i..]`.
pub open spec fn wf_elems(elems: Seq<Val>, i: int) -> bool
    decreases elems, elems.len() - i, 0int,
{
    i >= elems.len() || i < 0 || (wf_val(elems[i]) && wf_elems(elems, i + 1))
}

/// Well-formedness of the fields of `fields[i..]`.
pub open spec fn wf_fields(fields: Seq<(Seq<u8>, Val)>, i: int) -> bool
    decreases fields, fields.len() - i, 0int,
{
    i >= fields.len() || i < 0 || (wf_str(fields[i].0) && wf_val(fields[i].1)
        && wf_fields(fields, i + 1))
}

/// A value the codec can carry: integers fit the wire integer type and
/// strings hold only unescaped bytes.
pub open spec fn wf_val(v: Val) -> bool
    decreases v, 0int, 1int,
{
    match v {
        Val::Null => true,
        Val::Bool(_) => true,
        Val::Int(n) => in_i64_range(n),
        Val::Str(s) => wf_str(s),
        Val::Arr(elems) => wf_elems(elems, 0),
        Val::Obj(fields) => wf_fields(fields, 0),
    }
}

/// Decimal digits of `n`, most significant first.
pub open spec fn enc_nat(n: nat) -> Seq<u8>
    decreases n,
{
    if n < 10 {
        seq![(0x30 + n) as u8]
    } else {
        enc_nat(n / 10) + seq![(0x30 + n % 10) as u8]
    }
}

pub open spec fn enc_int(n: int) -> Seq<u8> {
    if n < 0 {
        seq![B_MINUS] + enc_nat((-n) as nat)
    } else {
        enc_nat(n as nat)
    }
}

pub open spec fn enc_str(s: Seq<u8>) -> Seq<u8> {
    seq![B_QUOTE] + s + seq![B_QUOTE]
}

/// Encoding of `elems[i..]` followed by the closing bracket; only used
/// when `elems` is non-empty.
pub open spec fn enc_arr_body(elems: Seq<Val>, i: int) -> Seq<u8>
    decreases elems, elems.len() - i, 0int,
{
    if i < 0 || i >= elems.len() {
        seq![B_RBRACK]
    } else {
        enc_val(elems[i]) + if i + 1 < elems.len() {
            seq![B_COMMA] + enc_arr_body(elems, i + 1)
        } else {
            seq![B_RBRACK]
        }
    }
}

/// Encoding of `fields[i..]` followed by the closing brace; only used
/// when `fields` is non-empty.
pub open spec fn enc_obj_body(fields: Seq<(Seq<u8>, Val)>, i: int) -> Seq<u8>
    decreases fields, fields.len() - i, 0int,
{
    if i < 0 || i >= fields.len() {
        seq![B_RBRACE]
    } else {
        enc_str(fields[i].0) + seq![B_COLON] + enc_val(fields[i].1) + if i + 1 < fields.len() {
            seq![B_COMMA] + enc_obj_body(fields, i + 1)
        } else {
            seq![B_RBRACE]
        }
    }
}

/// The canonical wire encoding of a value.
pub open spec fn enc_val(v: Val) -> Seq<u8>
    decreases v, 0int, 1int,
{
    match v {
        Val::Null => seq![0x6eu8, 0x75u8, 0x6cu8, 0x6cu8],
        Val::Bool(b) => if b {
            seq![0x74u8, 0x72u8, 0x75u8, 0x65u8]
        } else {
            seq![0x66u8, 0x61u8, 0x6cu8, 0x73u8, 0x65u8]
        },
        Val::Int(n) => enc_int(n),
        Val::Str(s) => enc_str(s),
        Val::Arr(elems) => if elems.len() == 0 {
            seq![B_LBRACK, B_RBRACK]
        } else {
            seq![B_LBRACK] + enc_arr_body(elems, 0)
        },
        Val::Obj(fields) => if fields.len() == 0 {
            seq![B_LBRACE, B_RBRACE]
        } else {
            seq![B_LBRACE] + enc_obj_body(fields, 0)
        },
    }
}

/// The value of a decimal digit string, read most significant first.
pub open spec fn digits_val(d: Seq<u8>) -> int
    decreases d.len(),
{
    if d.len() == 0 {
        0
    } else {
        digits_val(d.drop_last()) * 10 + (d.last() - 0x30)
    }
}

/// Shape of the digits `enc_nat` produces: non-empty, all digits, and a
/// leading zero only for zero itself.
pub proof fn lemma_enc_nat_digits(n: nat)
    ensures
        enc_nat(n).len() >= 1,
        forall|k: int| 0 <= k < enc_nat(n).len() ==> is_digit(#[trigger] enc_nat(n)[k]),
        enc_nat(n)[0] == B_ZERO <==> n == 0,
        (enc_nat(n).len() == 1 <==> n < 10),
    decreases n,
{
    if n >= 10 {
        lemma_enc_nat_digits(n / 10);
    }
}

/// Reading back the digits of `n` yields `n`.
pub proof fn lemma_digits_val_enc(n: nat)
    ensures
        digits_val(enc_nat(n)) == n,
    decreases n,
{
    if n < 10 {
        assert(enc_nat(n).drop_last() =~= Seq::<u8>::empty());
        assert(enc_nat(n).last() == (0x30 + n) as u8);
        assert(digits_val(enc_nat(n).drop_last()) == 0);
        assert(digits_val(enc_nat(n)) == 0 * 10 + (((0x30 + n) as u8) - 0x30));
        assert(((0x30 + n) as u8) - 0x30 == n);
    } else {
        lemma_digits_val_enc(n / 10);
        assert(enc_nat(n).drop_last() =~= enc_nat(n / 10));
        assert(enc_nat(n).last() == (0x30 + n % 10) as u8);
        assert(digits_val(enc_nat(n).drop_last()) == n / 10);
        assert(digits_val(enc_nat(n)) == digits_val(enc_nat(n).drop_last()) * 10 + (enc_nat(
            n,
        ).last() - 0x30));
        assert(enc_nat(n).last() - 0x30 == n % 10);
        assert(digits_val(enc_nat(n)) == (n / 10) * 10 + n % 10);
        assert((n / 10) * 10 + n % 10 == n) by (nonlinear_arith);
    }
}

/// A digit string names a value that is not negative.
pub proof fn lemma_digits_val_nonneg(d: Seq<u8>)
    requires
        forall|k: int| 0 <= k < d.len() ==> is_digit(#[trigger] d[k]),
    ensures
        digits_val(d) >= 0,
    decreases d.len(),
{
    if d.len() > 0 {
        lemma_digits_val_nonneg(d.drop_last());
    }
}

/// A non-empty digit string without a leading zero names a positive value.
pub proof fn lemma_digits_val_pos(d: Seq<u8>)
    requires
        d.len() >= 1,
        forall|k: int| 0 <= k < d.len() ==> is_digit(#[trigger] d[k]),
        d[0] != B_ZERO,
    ensures
        digits_val(d) >= 1,
    decreases d.len(),
{
    assert(forall|k: int|
        0 <= k < d.drop_last().len() ==> is_digit(#[trigger] d.drop_last()[k]));
    if d.len() > 1 {
        lemma_digits_val_pos(d.drop_last());
        assert(d.drop_last()[0] == d[0]);
        assert(d.last() - 0x30 >= 0);
        assert(digits_val(d) == digits_val(d.drop_last()) * 10 + (d.last() - 0x30));
    } else {
        assert(d.drop_last().len() == 0);
        assert(digits_val(d.drop_last()) == 0);
        assert(d.last() == d[0]);
        assert(digits_val(d) == 0 * 10 + (d[0] - 0x30));
    }
}

/// Digit strings without leading zeros name their value uniquely: reading
/// the value back out reproduces the digits.
pub proof fn lemma_enc_nat_unique(d: Seq<u8>)
    requires
        d.len() >= 1,
        forall|k: int| 0 <= k < d.len() ==> is_digit(#[trigger] d[k]),
        d[0] != B_ZERO || d.len() == 1,
    ensures
        enc_nat(digits_val(d) as nat) =~= d,
    decreases d.len(),
{
    if d.len() == 1 {
        assert(d.drop_last() =~= Seq::<u8>::empty());
        assert(digits_val(d.drop_last()) == 0);
        assert(d.last() == d[0]);
        let v = digits_val(d);
        assert(v == 0 * 10 + (d[0] - 0x30));
        assert(0 <= v < 10);
        assert(enc_nat(v as nat) =~= seq![(0x30 + (v as nat)) as u8]);
        assert((0x30 + (v as nat)) as u8 == d[0]);
        assert(enc_nat(v as nat) =~= d);
    } else {
        let front = d.drop_last();
        lemma_enc_nat_unique(front);
        lemma_digits_val_pos(front);
        let fv = digits_val(front);
        let r = (d.last() - 0x30) as int;
        let v = digits_val(d);
        assert(v == fv * 10 + r);
        assert(fv >= 1);
        assert(v >= 10) by {
            assert(fv * 10 >= 10) by (nonlinear_arith)
                requires
                    fv >= 1,
            ;
        }
        assert(v / 10 == fv && v % 10 == r) by (nonlinear_arith)
            requires
                v == fv * 10 + r,
                0 <= r < 10,
                fv >= 0,
        ;
        assert(enc_nat(v as nat) == enc_nat((v as nat) / 10) + seq![(0x30 + (v as nat) % 10) as u8]);
        assert((v as nat) / 10 == fv as nat && (v as nat) % 10 == r);
        assert((0x30 + (v as nat) % 10) as u8 == d.last());
        assert(enc_nat(fv as nat) + seq![d.last()] =~= d);
    }
}

/// The value named by a digit string only grows as digits are appended.
pub proof fn lemma_digits_val_prefix(d: Seq<u8>, j: int)
    requires
        0 <= j <= d.len(),
        forall|k: int| 0 <= k < d.len() ==> is_digit(#[trigger] d[k]),
    ensures
        digits_val(d.take(j)) <= digits_val(d),
    decreases d.len() - j,
{
    if j < d.len() {
        lemma_digits_val_prefix(d, j + 1);
        let p = d.take(j + 1);
        assert(p.drop_last() =~= d.take(j));
        assert(p.last() == d[j]);
        assert(digits_val(p) == digits_val(d.take(j)) * 10 + (d[j] - 0x30));
        lemma_digits_val_nonneg(d.take(j));
        assert(digits_val(d.take(j)) * 10 >= digits_val(d.take(j)));
    } else {
        assert(d.take(j) =~= d);
    }
}

/// The first byte of an encoding tells the kind of the encoded value.
pub proof fn lemma_enc_val_first(v: Val)
    ensures
        enc_val(v).len() >= 1,
        match v {
            Val::Null => enc_val(v)[0] == 0x6eu8,
            Val::Bool(b) => enc_val(v)[0] == (if b {
                0x74u8
            } else {
                0x66u8
            }),
            Val::Int(n) => (n < 0 ==> enc_val(v)[0] == B_MINUS) && (n >= 0 ==> is_digit(
                enc_val(v)[0],
            )),
            Val::Str(_) => enc_val(v)[0] == B_QUOTE,
            Val::Arr(_) => enc_val(v)[0] == B_LBRACK,
            Val::Obj(_) => enc_val(v)[0] == B_LBRACE,
        },
{
    match v {
        Val::Int(n) => {
            if n < 0 {
                lemma_enc_nat_digits((-n) as nat);
            } else {
                lemma_enc_nat_digits(n as nat);
            }
        },
        _ => {},
    }
}


/// Appends the decimal digits of `n`.
fn encode_nat(n: u64, out: &mut Vec<u8>)
    ensures
        final(out)@ == old(out)@ + enc_nat(n as nat),
    decreases n,
{
    if n < 10 {
        out.push((0x30 + n) as u8);
    } else {
        encode_nat(n / 10, out);
        out.push((0x30 + n % 10) as u8);
        assert(final(out)@ =~= old(out)@ + enc_nat(n as nat));
    }
}

/// Appends the wire form of `n`.
fn encode_int(n: i64, out: &mut Vec<u8>)
    ensures
        final(out)@ == old(out)@ + enc_int(n as int),
{
    if n < 0 {
        out.push(B_MINUS);
        let mag: u64 = (-(n as i128)) as u64;
        assert(mag == -(n as int));
        encode_nat(mag, out);
        assert(final(out)@ =~= old(out)@ + enc_int(n as int));
    } else {
        encode_nat(n as u64, out);
    }
}

/// Appends a quoted string; the caller guarantees the bytes need no escape.
fn encode_str(sb: &Vec<u8>, out: &mut Vec<u8>)
    ensures
        final(out)@ == old(out)@ + enc_str(sb@),
{
    out.push(B_QUOTE);
    let mut k: usize = 0;
    while k < sb.len()
        invariant
            k <= sb@.len(),
            out@ == old(out)@ + seq![B_QUOTE] + sb@.subrange(0, k as int),
        decreases sb@.len() - k,
    {
        out.push(sb[k]);
        assert(out@ =~= old(out)@ + seq![B_QUOTE] + sb@.subrange(0, k + 1 as int));
        k = k + 1;
    }
    assert(sb@.subrange(0, sb@.len() as int) =~= sb@);
    out.push(B_QUOTE);
    assert(final(out)@ =~= old(out)@ + enc_str(sb@));
}

/// Appends the wire form of `v`.
pub fn encode_value(v: &Value, out: &mut Vec<u8>)
    ensures
        final(out)@ == old(out)@ + enc_val(val_view(*v)),
    decreases v, 0int, 1int,
{
    match v {
        Value::Null => {
            out.push(0x6e);
            out.push(0x75);
            out.push(0x6c);
            out.push(0x6c);
            assert(final(out)@ =~= old(out)@ + enc_val(val_view(*v)));
        },
        Value::Bool(b) => {
            if *b {
                out.push(0x74);
                out.push(0x72);
                out.push(0x75);
                out.push(0x65);
            } else {
                out.push(0x66);
                out.push(0x61);
                out.push(0x6c);
                out.push(0x73);
                out.push(0x65);
            }
            assert(final(out)@ =~= old(out)@ + enc_val(val_view(*v)));
        },
        Value::Int(n) => {
            encode_int(*n, out);
        },
        Value::Str(sb) => {
            encode_str(sb, out);
        },
        Value::Arr(items) => {
            out.push(B_LBRACK);
            if items.len() == 0 {
                out.push(B_RBRACK);
                proof {
                    lemma_vals_view(*items, 0);
                }
                assert(final(out)@ =~= old(out)@ + enc_val(val_view(*v)));
            } else {
                encode_arr_items(items, 0, out);
                proof {
                    lemma_vals_view(*items, 0);
                }
                assert(final(out)@ =~= old(out)@ + enc_val(val_view(*v)));
            }
        },
        Value::Obj(fields) => {
            out.push(B_LBRACE);
            if fields.len() == 0 {
                out.push(B_RBRACE);
                proof {
                    lemma_fields_view(*fields, 0);
                }
                assert(final(out)@ =~= old(out)@ + enc_val(val_view(*v)));
            } else {
                encode_obj_fields(fields, 0, out);
                proof {
                    lemma_fields_view(*fields, 0);
                }
                assert(final(out)@ =~= old(out)@ + enc_val(val_view(*v)));
            }
        },
    }
}

/// Appends the elements of `items[k..]` and the closing bracket.
fn encode_arr_items(items: &Vec<Value>, k: usize, out: &mut Vec<u8>)
    requires
        k < items@.len(),
    ensures
        final(out)@ == old(out)@ + enc_arr_body(vals_view(*items, 0), k as int),
    decreases items, items@.len() - k, 0int,
{
    proof {
        lemma_vals_view(*items, 0);
    }
    let len: usize = items.len();
    encode_value(&items[k], out);
    if k + 1 < len {
        out.push(B_COMMA);
        encode_arr_items(items, k + 1, out);
        assert(final(out)@ =~= old(out)@ + enc_arr_body(vals_view(*items, 0), k as int));
    } else {
        out.push(B_RBRACK);
        assert(final(out)@ =~= old(out)@ + enc_arr_body(vals_view(*items, 0), k as int));
    }
}

/// Appends the fields of `fields[k..]` and the closing brace.
fn encode_obj_fields(fields: &Vec<(Vec<u8>, Value)>, k: usize, out: &mut Vec<u8>)
    requires
        k < fields@.len(),
    ensures
        final(out)@ == old(out)@ + enc_obj_body(fields_view(*fields, 0), k as int),
    decreases fields, fields@.len() - k, 0int,
{
    proof {
        lemma_fields_view(*fields, 0);
    }
    let len: usize = fields.len();
    encode_str(&fields[k].0, out);
    out.push(B_COLON);
    encode_value(&fields[k].1, out);
    if k + 1 < len {
        out.push(B_COMMA);
        encode_obj_fields(fields, k + 1, out);
        assert(final(out)@ =~= old(out)@ + enc_obj_body(fields_view(*fields, 0), k as int));
    } else {
        out.push(B_RBRACE);
        assert(final(out)@ =~= old(out)@ + enc_obj_body(fields_view(*fields, 0), k as int));
    }
}


/// The bytes `s[i..j)` are exactly the wire form of the string `cs`.
pub open spec fn str_parses_to(s: Seq<u8>, i: int, j: int, cs: Seq<u8>) -> bool {
    &&& wf_str(cs)
    &&& 0 <= i <= j <= s.len()
    &&& s.subrange(i, j) == enc_str(cs)
}

/// The bytes `s[i..j)` are exactly the wire form of the integer `m`,
/// with no further digit following.
pub open spec fn int_parses_to(s: Seq<u8>, i: int, j: int, m: int) -> bool {
    &&& in_i64_range(m)
    &&& 0 <= i <= j <= s.len()
    &&& s.subrange(i, j) == enc_int(m)
    &&& (j == s.len() || !is_digit(s[j]))
}

pub open spec fn str_result_is(
    res: Result<(Vec<u8>, usize), DecodeError>,
    cs: Seq<u8>,
    j: int,
) -> bool {
    match res {
        Ok((content, jj)) => content@ == cs && jj as int == j,
        Err(_) => false,
    }
}

pub open spec fn int_result_is(
    res: Result<(i64, usize), DecodeError>,
    m: int,
    j: int,
) -> bool {
    match res {
        Ok((n, jj)) => n as int == m && jj as int == j,
        Err(_) => false,
    }
}

/// Reads a quoted string starting at the opening quote `s[i]`.
fn parse_string(s: &[u8], i: usize) -> (res: Result<(Vec<u8>, usize), DecodeError>)
    requires
        i < s@.len(),
        s@[i as int] == B_QUOTE,
    ensures
        match res {
            Ok((content, j)) => i < j <= s@.len() && wf_str(content@) && s@.subrange(
                i as int,
                j as int,
            ) == enc_str(content@),
            Err(_) => true,
        },
        forall|cs: Seq<u8>, j: int|
            #[trigger] str_parses_to(s@, i as int, j, cs) ==> str_result_is(res, cs, j),
{
    let slen: usize = s.len();
    let mut k: usize = i + 1;
    let mut content: Vec<u8> = Vec::new();
    loop
        invariant
            i + 1 <= k <= slen,
            slen == s@.len(),
            i < s@.len(),
            s@[i as int] == B_QUOTE,
            content@ == s@.subrange(i + 1, k as int),
            forall|m: int| i + 1 <= m < k ==> wf_str_byte(#[trigger] s@[m]),
        decreases slen - k,
    {
        if k == slen {
            proof {
                assert forall|cs: Seq<u8>, j: int|
                    #[trigger] str_parses_to(s@, i as int, j, cs) implies false by {
                    let q = i + 1 + cs.len() as int;
                    assert(j - i == enc_str(cs).len() == cs.len() + 2);
                    assert(s@[q] == s@.subrange(i as int, j)[q - i]);
                    assert(enc_str(cs)[q - i] == B_QUOTE);
                }
            }
            return Err(DecodeError::Incomplete);
        }
        let b = s[k];
        if b == B_QUOTE {
            proof {
                assert(s@.subrange(i as int, k + 1 as int) =~= enc_str(content@));
                assert forall|cs: Seq<u8>, j: int|
                    #[trigger] str_parses_to(s@, i as int, j, cs) implies content@ == cs && k + 1
                    == j by {
                    let q = i + 1 + cs.len() as int;
                    assert(j - i == enc_str(cs).len() == cs.len() + 2);
                    assert(s@[q] == s@.subrange(i as int, j)[q - i]);
                    assert(enc_str(cs)[q - i] == B_QUOTE);
                    if q < k {
                        assert(wf_str_byte(s@[q]));
                        assert(false);
                    }
                    if q > k as int {
                        assert(s@[k as int] == s@.subrange(i as int, j)[k - i]);
                        assert(enc_str(cs)[k - i] == cs[k - i - 1]);
                        assert(wf_str_byte(cs[k - i - 1]));
                        assert(false);
                    }
                    assert(q == k as int);
                    assert forall|m: int| 0 <= m < cs.len() implies cs[m] == content@[m] by {
                        assert(s@[i + 1 + m] == s@.subrange(i as int, j)[1 + m]);
                        assert(enc_str(cs)[1 + m] == cs[m]);
                    }
                    assert(content@ =~= cs);
                }
            }
            return Ok((content, k + 1));
        } else if b < 0x20 || b == B_BACKSLASH {
            proof {
                assert forall|cs: Seq<u8>, j: int|
                    #[trigger] str_parses_to(s@, i as int, j, cs) implies false by {
                    let q = i + 1 + cs.len() as int;
                    assert(j - i == enc_str(cs).len() == cs.len() + 2);
                    assert(s@[q] == s@.subrange(i as int, j)[q - i]);
                    assert(enc_str(cs)[q - i] == B_QUOTE);
                    if q < k {
                        assert(wf_str_byte(s@[q]));
                        assert(false);
                    }
                    if q > k as int {
                        assert(s@[k as int] == s@.subrange(i as int, j)[k - i]);
                        assert(enc_str(cs)[k - i] == cs[k - i - 1]);
                        assert(wf_str_byte(cs[k - i - 1]));
                        assert(false);
                    }
                    assert(s@[k as int] == B_QUOTE);
                    assert(false);
                }
            }
            return Err(DecodeError::Malformed);
        } else {
            content.push(b);
            proof {
                assert(content@ =~= s@.subrange(i + 1, k + 1 as int));
            }
            k = k + 1;
        }
    }
}


/// Facts shared by every exit of the number parser: where the digit run
/// of an integer whose wire form sits at `i..j` begins and ends.
proof fn lemma_int_region(s: Seq<u8>, i: int, j: int, m: int)
    requires
        int_parses_to(s, i, j, m),
    ensures
        ({
            let start = if m < 0 { i + 1 } else { i };
            let mag = if m < 0 { -m } else { m };
            &&& (m < 0 ==> s[i] == B_MINUS)
            &&& (m >= 0 ==> is_digit(s[i]))
            &&& i <= start < j
            &&& s.subrange(start, j) =~= enc_nat(mag as nat)
            &&& digits_val(s.subrange(start, j)) == mag
            &&& forall|p: int| start <= p < j ==> is_digit(#[trigger] s[p])
            &&& (s[start] == B_ZERO <==> mag == 0)
            &&& mag <= 0x8000000000000000
        }),
{
    let start = if m < 0 { i + 1 } else { i };
    let mag = if m < 0 { -m } else { m };
    lemma_enc_nat_digits(mag as nat);
    lemma_digits_val_enc(mag as nat);
    assert(j - i == enc_int(m).len());
    if m < 0 {
        assert(enc_int(m) == seq![B_MINUS] + enc_nat(mag as nat));
        assert(s[i] == s.subrange(i, j)[0]);
        assert forall|p: int| start <= p < j implies is_digit(#[trigger] s[p]) by {
            assert(s[p] == s.subrange(i, j)[p - i]);
            assert(enc_int(m)[p - i] == enc_nat(mag as nat)[p - i - 1]);
        }
        assert forall|p: int| 0 <= p < j - start implies s.subrange(start, j)[p] == enc_nat(
            mag as nat,
        )[p] by {
            assert(s.subrange(start, j)[p] == s[start + p]);
            assert(s[start + p] == s.subrange(i, j)[start + p - i]);
        }
        assert(s.subrange(start, j) =~= enc_nat(mag as nat));
    } else {
        assert(s.subrange(start, j) =~= enc_nat(mag as nat));
        assert(s[i] == s.subrange(i, j)[0]);
        assert forall|p: int| start <= p < j implies is_digit(#[trigger] s[p]) by {
            assert(s[p] == s.subrange(i, j)[p - i]);
        }
    }
    assert(s[start] == enc_nat(mag as nat)[0]);
}

/// Reads a canonically written integer starting at `s[i]`.
fn parse_number(s: &[u8], i: usize) -> (res: Result<(i64, usize), DecodeError>)
    requires
        i < s@.len(),
        s@[i as int] == B_MINUS || is_digit(s@[i as int]),
    ensures
        match res {
            Ok((n, j)) => i < j <= s@.len() && s@.subrange(i as int, j as int) == enc_int(
                n as int,
            ) && (j == s@.len() || !is_digit(s@[j as int])),
            Err(_) => true,
        },
        forall|m: int, j: int|
            #[trigger] int_parses_to(s@, i as int, j, m) ==> int_result_is(res, m, j),
{
    let slen: usize = s.len();
    let neg = s[i] == B_MINUS;
    let start: usize = if neg { i + 1 } else { i };
    if start == slen {
        proof {
            assert forall|m: int, j: int|
                #[trigger] int_parses_to(s@, i as int, j, m) implies false by {
                lemma_int_region(s@, i as int, j, m);
            }
        }
        return Err(DecodeError::Incomplete);
    }
    let first = s[start];
    if !(0x30 <= first && first <= 0x39) {
        proof {
            assert forall|m: int, j: int|
                #[trigger] int_parses_to(s@, i as int, j, m) implies false by {
                lemma_int_region(s@, i as int, j, m);
            }
        }
        return Err(DecodeError::Malformed);
    }
    if first == B_ZERO && start + 1 < slen && 0x30 <= s[start + 1] && s[start + 1] <= 0x39 {
        proof {
            assert forall|m: int, j: int|
                #[trigger] int_parses_to(s@, i as int, j, m) implies false by {
                lemma_int_region(s@, i as int, j, m);
                let gstart = if m < 0 { i + 1 } else { i as int };
                let mag = if m < 0 { -m } else { m };
                lemma_enc_nat_digits(mag as nat);
                assert(gstart == start);
                assert(mag == 0);
                assert(j == start + 1);
            }
        }
        return Err(DecodeError::Malformed);
    }
    let mut k: usize = start;
    let mut acc: u64 = 0;
    loop
        invariant
            start <= k <= slen,
            slen == s@.len(),
            i <= start < slen,
            neg ==> i + 1 == start && s@[i as int] == B_MINUS,
            !neg ==> i == start,
            is_digit(s@[start as int]),
            s@[start as int] == B_ZERO ==> start + 1 == slen || !is_digit(s@[start + 1]),
            acc as int == digits_val(s@.subrange(start as int, k as int)),
            forall|p: int| start <= p < k ==> is_digit(#[trigger] s@[p]),
        ensures
            start <= k <= slen,
            acc as int == digits_val(s@.subrange(start as int, k as int)),
            forall|p: int| start <= p < k ==> is_digit(#[trigger] s@[p]),
            k == slen || !is_digit(s@[k as int]),
        decreases slen - k,
    {
        if k == slen {
            break;
        }
        let b = s[k];
        if !(0x30 <= b && b <= 0x39) {
            break;
        }
        let d: u64 = (b - 0x30) as u64;
        if acc > (u64::MAX - d) / 10 {
            proof {
                assert(acc * 10 + d > u64::MAX) by (nonlinear_arith)
                    requires
                        acc > (u64::MAX - d) / 10,
                        d <= u64::MAX,
                ;
                assert forall|m: int, j: int|
                    #[trigger] int_parses_to(s@, i as int, j, m) implies false by {
                    lemma_int_region(s@, i as int, j, m);
                    let gstart = if m < 0 { i + 1 } else { i as int };
                    let mag = if m < 0 { -m } else { m };
                    let region = s@.subrange(gstart, j);
                    assert(gstart == start);
                    // the scan position is still inside the digit region
                    assert(k < j) by {
                        if j <= k {
                            assert(is_digit(s@[j]) || j == slen);
                            if j < slen {
                                assert(is_digit(s@[j]));
                            }
                            if j == k {
                                assert(is_digit(s@[j]));
                            }
                            assert(false);
                        }
                    }
                    // the prefix scanned so far, one more digit included,
                    // already exceeds any magnitude the wire type allows
                    let pre = s@.subrange(start as int, k + 1);
                    assert(pre =~= region.take(k + 1 - start));
                    lemma_digits_val_prefix(region, k + 1 - start);
                    assert(pre.drop_last() =~= s@.subrange(start as int, k as int));
                    assert(digits_val(pre) == acc * 10 + d);
                    assert(digits_val(region) == mag);
                    assert(mag > u64::MAX);
                }
            }
            return Err(DecodeError::Malformed);
        }
        acc = acc * 10 + d;
        proof {
            let pre = s@.subrange(start as int, k + 1);
            assert(pre.drop_last() =~= s@.subrange(start as int, k as int));
            assert(pre.last() == s@[k as int]);
        }
        k = k + 1;
    }
    // the run cannot have stopped at its first byte
    assert(k > start);
    proof {
        assert forall|m: int, j: int|
            #[trigger] int_parses_to(s@, i as int, j, m) implies ({
            let mag = if m < 0 { -m } else { m };
            j == k as int && mag == acc as int && (m < 0 <==> neg)
        }) by {
            lemma_int_region(s@, i as int, j, m);
            let gstart = if m < 0 { i + 1 } else { i as int };
            let mag = if m < 0 { -m } else { m };
            let region = s@.subrange(gstart, j);
            assert(gstart == start);
            assert(j == k as int) by {
                if j < k as int {
                    assert(is_digit(s@[j]));
                    assert(j == slen || !is_digit(s@[j]));
                    assert(false);
                }
                if j > k as int {
                    assert(is_digit(s@[k as int]));
                    assert(k as int == slen || !is_digit(s@[k as int]));
                    assert(false);
                }
            }
            assert(mag == digits_val(region) == acc as int);
            assert(m < 0 ==> s@[i as int] == B_MINUS);
            assert(m >= 0 ==> is_digit(s@[i as int]));
        }
    }
    if neg {
        if acc == 0 {
            // "-0" is not the canonical form of zero
            return Err(DecodeError::Malformed);
        }
        if acc > 0x8000000000000000u64 {
            return Err(DecodeError::Malformed);
        }
        let n: i64 = if acc == 0x8000000000000000u64 {
            i64::MIN
        } else {
            -(acc as i64)
        };
        proof {
            let d = s@.subrange(start as int, k as int);
            lemma_enc_nat_unique(d);
            assert(enc_nat(acc as nat) =~= d);
            assert(s@.subrange(i as int, k as int) =~= seq![B_MINUS] + enc_nat(acc as nat));
            assert(s@.subrange(i as int, k as int) =~= enc_int(n as int));
        }
        return Ok((n, k));
    }
    if acc > 0x7fffffffffffffffu64 {
        return Err(DecodeError::Malformed);
    }
    let n: i64 = acc as i64;
    proof {
        let d = s@.subrange(start as int, k as int);
        lemma_enc_nat_unique(d);
        assert(enc_nat(acc as nat) =~= d);
        assert(s@.subrange(i as int, k as int) =~= enc_int(n as int));
    }
    return Ok((n, k));
}


/// The bytes `s[i..j)` are exactly the wire form of the value `gv`, with
/// no further digit following.
pub open spec fn parses_to(s: Seq<u8>, i: int, j: int, gv: Val) -> bool {
    &&& wf_val(gv)
    &&& 0 <= i <= j <= s.len()
    &&& s.subrange(i, j) == enc_val(gv)
    &&& (j == s.len() || !is_digit(s[j]))
}

/// The bytes `s[i..j)` are exactly the wire form of the non-empty element
/// run `gs`, closing bracket included.
pub open spec fn elems_parse_to(s: Seq<u8>, i: int, j: int, gs: Seq<Val>) -> bool {
    &&& gs.len() >= 1
    &&& wf_elems(gs, 0)
    &&& 0 <= i <= j <= s.len()
    &&& s.subrange(i, j) == enc_arr_body(gs, 0)
}

/// The bytes `s[i..j)` are exactly the wire form of the non-empty field
/// run `gf`, closing brace included.
pub open spec fn fields_parse_to(s: Seq<u8>, i: int, j: int, gf: Seq<(Seq<u8>, Val)>) -> bool {
    &&& gf.len() >= 1
    &&& wf_fields(gf, 0)
    &&& 0 <= i <= j <= s.len()
    &&& s.subrange(i, j) == enc_obj_body(gf, 0)
}

pub open spec fn val_result_is(res: Result<(Value, usize), DecodeError>, gv: Val, j: int) -> bool {
    match res {
        Ok((v, jj)) => val_view(v) == gv && jj as int == j,
        Err(_) => false,
    }
}

pub open spec fn elems_result_is(
    res: Result<(Vec<Value>, usize), DecodeError>,
    gs: Seq<Val>,
    j: int,
) -> bool {
    match res {
        Ok((items, jj)) => vals_view(items, 0) == gs && jj as int == j,
        Err(_) => false,
    }
}

pub open spec fn fields_result_is(
    res: Result<(Vec<(Vec<u8>, Value)>, usize), DecodeError>,
    gf: Seq<(Seq<u8>, Val)>,
    j: int,
) -> bool {
    match res {
        Ok((fields, jj)) => fields_view(fields, 0) == gf && jj as int == j,
        Err(_) => false,
    }
}

/// An encoded value occupies `j - i` bytes and starts at `s[i]`.
proof fn lemma_parses_first(s: Seq<u8>, i: int, j: int, gv: Val)
    requires
        parses_to(s, i, j, gv),
    ensures
        enc_val(gv).len() >= 1,
        j == i + enc_val(gv).len(),
        s[i] == enc_val(gv)[0],
{
    lemma_enc_val_first(gv);
    assert(s[i] == s.subrange(i, j)[0]);
}

/// Element runs and their well-formedness ignore one value prepended
/// before the starting index.
proof fn lemma_arr_shift(x: Val, gs: Seq<Val>, i: int)
    requires
        i >= 0,
    ensures
        enc_arr_body(seq![x] + gs, i + 1) == enc_arr_body(gs, i),
        wf_elems(seq![x] + gs, i + 1) == wf_elems(gs, i),
    decreases gs.len() - i,
{
    let e = seq![x] + gs;
    assert(e.len() == gs.len() + 1);
    if i < gs.len() {
        assert(e[i + 1] == gs[i]);
        lemma_arr_shift(x, gs, i + 1);
    }
}

/// Field runs and their well-formedness ignore one field prepended
/// before the starting index.
proof fn lemma_obj_shift(x: (Seq<u8>, Val), gf: Seq<(Seq<u8>, Val)>, i: int)
    requires
        i >= 0,
    ensures
        enc_obj_body(seq![x] + gf, i + 1) == enc_obj_body(gf, i),
        wf_fields(seq![x] + gf, i + 1) == wf_fields(gf, i),
    decreases gf.len() - i,
{
    let e = seq![x] + gf;
    assert(e.len() == gf.len() + 1);
    if i < gf.len() {
        assert(e[i + 1] == gf[i]);
        lemma_obj_shift(x, gf, i + 1);
    }
}

/// Reads one value starting at `s[i]`; accepts exactly the canonical
/// wire form.
#[verifier::rlimit(100)]
pub fn parse_value(s: &[u8], i: usize) -> (res: Result<(Value, usize), DecodeError>)
    requires
        i <= s@.len(),
    ensures
        match res {
            Ok((v, j)) => i < j <= s@.len() && wf_val(val_view(v)) && s@.subrange(
                i as int,
                j as int,
            ) == enc_val(val_view(v)),
            Err(_) => true,
        },
        forall|gv: Val, j: int|
            #[trigger] parses_to(s@, i as int, j, gv) ==> val_result_is(res, gv, j),
    decreases s@.len() - i, 0int,
{
    let slen: usize = s.len();
    if i == slen {
        proof {
            assert forall|gv: Val, j: int|
                #[trigger] parses_to(s@, i as int, j, gv) implies false by {
                lemma_parses_first(s@, i as int, j, gv);
            }
        }
        return Err(DecodeError::Incomplete);
    }
    let b = s[i];
    if b == 0x6e {
        if slen - i < 4 {
            proof {
                assert forall|gv: Val, j: int|
                    #[trigger] parses_to(s@, i as int, j, gv) implies false by {
                    lemma_parses_first(s@, i as int, j, gv);
                    lemma_enc_val_first(gv);
                    assert(gv is Null);
                }
            }
            return Err(DecodeError::Incomplete);
        }
        if s[i + 1] == 0x75 && s[i + 2] == 0x6c && s[i + 3] == 0x6c {
            let ret = Ok((Value::Null, i + 4));
            proof {
                assert(s@.subrange(i as int, i + 4) =~= enc_val(Val::Null));
                assert forall|gv: Val, j: int|
                    #[trigger] parses_to(s@, i as int, j, gv) implies val_result_is(
                    ret,
                    gv,
                    j,
                ) by {
                    lemma_parses_first(s@, i as int, j, gv);
                    lemma_enc_val_first(gv);
                    assert(gv is Null);
                }
            }
            return ret;
        }
        proof {
            assert forall|gv: Val, j: int|
                #[trigger] parses_to(s@, i as int, j, gv) implies false by {
                lemma_parses_first(s@, i as int, j, gv);
                lemma_enc_val_first(gv);
                assert(gv is Null);
                assert(s@[i + 1] == s@.subrange(i as int, j)[1]);
                assert(s@[i + 2] == s@.subrange(i as int, j)[2]);
                assert(s@[i + 3] == s@.subrange(i as int, j)[3]);
            }
        }
        return Err(DecodeError::Malformed);
    } else if b == 0x74 {
        if slen - i < 4 {
            proof {
                assert forall|gv: Val, j: int|
                    #[trigger] parses_to(s@, i as int, j, gv) implies false by {
                    lemma_parses_first(s@, i as int, j, gv);
                    lemma_enc_val_first(gv);
                    assert(gv == Val::Bool(true));
                }
            }
            return Err(DecodeError::Incomplete);
        }
        if s[i + 1] == 0x72 && s[i + 2] == 0x75 && s[i + 3] == 0x65 {
            let ret = Ok((Value::Bool(true), i + 4));
            proof {
                assert(s@.subrange(i as int, i + 4) =~= enc_val(Val::Bool(true)));
                assert forall|gv: Val, j: int|
                    #[trigger] parses_to(s@, i as int, j, gv) implies val_result_is(
                    ret,
                    gv,
                    j,
                ) by {
                    lemma_parses_first(s@, i as int, j, gv);
                    lemma_enc_val_first(gv);
                    assert(gv == Val::Bool(true));
                }
            }
            return ret;
        }
        proof {
            assert forall|gv: Val, j: int|
                #[trigger] parses_to(s@, i as int, j, gv) implies false by {
                lemma_parses_first(s@, i as int, j, gv);
                lemma_enc_val_first(gv);
                assert(gv == Val::Bool(true));
                assert(s@[i + 1] == s@.subrange(i as int, j)[1]);
                assert(s@[i + 2] == s@.subrange(i as int, j)[2]);
                assert(s@[i + 3] == s@.subrange(i as int, j)[3]);
            }
        }
        return Err(DecodeError::Malformed);
    } else if b == 0x66 {
        if slen - i < 5 {
            proof {
                assert forall|gv: Val, j: int|
                    #[trigger] parses_to(s@, i as int, j, gv) implies false by {
                    lemma_parses_first(s@, i as int, j, gv);
                    lemma_enc_val_first(gv);
                    assert(gv == Val::Bool(false));
                }
            }
            return Err(DecodeError::Incomplete);
        }
        if s[i + 1] == 0x61 && s[i + 2] == 0x6c && s[i + 3] == 0x73 && s[i + 4] == 0x65 {
            let ret = Ok((Value::Bool(false), i + 5));
            proof {
                assert(s@.subrange(i as int, i + 5) =~= enc_val(Val::Bool(false)));
                assert forall|gv: Val, j: int|
                    #[trigger] parses_to(s@, i as int, j, gv) implies val_result_is(
                    ret,
                    gv,
                    j,
                ) by {
                    lemma_parses_first(s@, i as int, j, gv);
                    lemma_enc_val_first(gv);
                    assert(gv == Val::Bool(false));
                }
            }
            return ret;
        }
        proof {
            assert forall|gv: Val, j: int|
                #[trigger] parses_to(s@, i as int, j, gv) implies false by {
                lemma_parses_first(s@, i as int, j, gv);
                lemma_enc_val_first(gv);
                assert(gv == Val::Bool(false));
                assert(s@[i + 1] == s@.subrange(i as int, j)[1]);
                assert(s@[i + 2] == s@.subrange(i as int, j)[2]);
                assert(s@[i + 3] == s@.subrange(i as int, j)[3]);
                assert(s@[i + 4] == s@.subrange(i as int, j)[4]);
            }
        }
        return Err(DecodeError::Malformed);
    } else if b == B_QUOTE {
        let sres = parse_string(s, i);
        proof {
            assert forall|gv: Val, j: int|
                #[trigger] parses_to(s@, i as int, j, gv) implies ({
                &&& gv is Str
                &&& str_parses_to(s@, i as int, j, gv->Str_0)
            }) by {
                lemma_parses_first(s@, i as int, j, gv);
                lemma_enc_val_first(gv);
            }
        }
        match sres {
            Ok((content, j)) => {
                let ret = Ok((Value::Str(content), j));
                proof {
                    assert forall|gv: Val, j2: int|
                        #[trigger] parses_to(s@, i as int, j2, gv) implies val_result_is(
                        ret,
                        gv,
                        j2,
                    ) by {
                        assert(str_result_is(sres, gv->Str_0, j2));
                    }
                }
                return ret;
            },
            Err(e) => {
                return Err(e);
            },
        }
    } else if b == B_MINUS || (0x30 <= b && b <= 0x39) {
        let nres = parse_number(s, i);
        proof {
            assert forall|gv: Val, j: int|
                #[trigger] parses_to(s@, i as int, j, gv) implies ({
                &&& gv is Int
                &&& int_parses_to(s@, i as int, j, gv->Int_0)
            }) by {
                lemma_parses_first(s@, i as int, j, gv);
                lemma_enc_val_first(gv);
            }
        }
        match nres {
            Ok((n, j)) => {
                let ret = Ok((Value::Int(n), j));
                proof {
                    assert forall|gv: Val, j2: int|
                        #[trigger] parses_to(s@, i as int, j2, gv) implies val_result_is(
                        ret,
                        gv,
                        j2,
                    ) by {
                        assert(int_result_is(nres, gv->Int_0, j2));
                    }
                }
                return ret;
            },
            Err(e) => {
                return Err(e);
            },
        }
    } else if b == B_LBRACK {
        if i + 1 == slen {
            proof {
                assert forall|gv: Val, j: int|
                    #[trigger] parses_to(s@, i as int, j, gv) implies false by {
                    lemma_parses_first(s@, i as int, j, gv);
                    lemma_enc_val_first(gv);
                    assert(gv is Arr);
                    let gs = gv->Arr_0;
                    if gs.len() >= 1 {
                        lemma_enc_val_first(gs[0]);
                    }
                }
            }
            return Err(DecodeError::Incomplete);
        }
        if s[i + 1] == B_RBRACK {
            let items: Vec<Value> = Vec::new();
            proof {
                assert(vals_view(items, 0) =~= Seq::<Val>::empty());
            }
            let ret = Ok((Value::Arr(items), i + 2));
            proof {
                assert(s@.subrange(i as int, i + 2) =~= enc_val(Val::Arr(Seq::<Val>::empty())));
                assert forall|gv: Val, j: int|
                    #[trigger] parses_to(s@, i as int, j, gv) implies val_result_is(
                    ret,
                    gv,
                    j,
                ) by {
                    lemma_parses_first(s@, i as int, j, gv);
                    lemma_enc_val_first(gv);
                    assert(gv is Arr);
                    let gs = gv->Arr_0;
                    if gs.len() >= 1 {
                        lemma_enc_val_first(gs[0]);
                        assert(s@[i + 1] == s@.subrange(i as int, j)[1]);
                        assert(enc_val(gv)[1] == enc_arr_body(gs, 0)[0]);
                        assert(enc_arr_body(gs, 0)[0] == enc_val(gs[0])[0]);
                        assert(false);
                    }
                    assert(gs =~= Seq::<Val>::empty());
                }
            }
            return ret;
        }
        let eres = parse_elems(s, i + 1);
        proof {
            assert forall|gv: Val, j: int|
                #[trigger] parses_to(s@, i as int, j, gv) implies ({
                &&& gv is Arr
                &&& elems_parse_to(s@, i + 1, j, gv->Arr_0)
            }) by {
                lemma_parses_first(s@, i as int, j, gv);
                lemma_enc_val_first(gv);
                assert(gv is Arr);
                let gs = gv->Arr_0;
                if gs.len() == 0 {
                    assert(s@[i + 1] == s@.subrange(i as int, j)[1]);
                    assert(false);
                }
                assert forall|p: int| 0 <= p < j - (i + 1) implies s@.subrange(i + 1, j)[p]
                    == enc_arr_body(gs, 0)[p] by {
                    assert(s@.subrange(i + 1, j)[p] == s@[i + 1 + p]);
                    assert(s@[i + 1 + p] == s@.subrange(i as int, j)[1 + p]);
                }
                assert(s@.subrange(i + 1, j) =~= enc_arr_body(gs, 0));
            }
        }
        match eres {
            Ok((items, j)) => {
                let ret = Ok((Value::Arr(items), j));
                proof {
                    assert(s@.subrange(i as int, j as int) =~= seq![B_LBRACK] + s@.subrange(
                        i + 1,
                        j as int,
                    ));
                    assert(enc_val(val_view(Value::Arr(items))) == seq![B_LBRACK] + enc_arr_body(
                        vals_view(items, 0),
                        0,
                    ));
                    assert forall|gv: Val, j2: int|
                        #[trigger] parses_to(s@, i as int, j2, gv) implies val_result_is(
                        ret,
                        gv,
                        j2,
                    ) by {
                        assert(elems_result_is(eres, gv->Arr_0, j2));
                    }
                }
                return ret;
            },
            Err(e) => {
                return Err(e);
            },
        }
    } else if b == B_LBRACE {
        if i + 1 == slen {
            proof {
                assert forall|gv: Val, j: int|
                    #[trigger] parses_to(s@, i as int, j, gv) implies false by {
                    lemma_parses_first(s@, i as int, j, gv);
                    lemma_enc_val_first(gv);
                    assert(gv is Obj);
                }
            }
            return Err(DecodeError::Incomplete);
        }
        if s[i + 1] == B_RBRACE {
            let fields: Vec<(Vec<u8>, Value)> = Vec::new();
            proof {
                assert(fields_view(fields, 0) =~= Seq::<(Seq<u8>, Val)>::empty());
            }
            let ret = Ok((Value::Obj(fields), i + 2));
            proof {
                assert(s@.subrange(i as int, i + 2) =~= enc_val(
                    Val::Obj(Seq::<(Seq<u8>, Val)>::empty()),
                ));
                assert forall|gv: Val, j: int|
                    #[trigger] parses_to(s@, i as int, j, gv) implies val_result_is(
                    ret,
                    gv,
                    j,
                ) by {
                    lemma_parses_first(s@, i as int, j, gv);
                    lemma_enc_val_first(gv);
                    assert(gv is Obj);
                    let gf = gv->Obj_0;
                    if gf.len() >= 1 {
                        assert(s@[i + 1] == s@.subrange(i as int, j)[1]);
                        assert(enc_val(gv)[1] == enc_obj_body(gf, 0)[0]);
                        assert(enc_obj_body(gf, 0)[0] == B_QUOTE);
                        assert(false);
                    }
                    assert(gf =~= Seq::<(Seq<u8>, Val)>::empty());
                }
            }
            return ret;
        }
        let fres = parse_fields(s, i + 1);
        proof {
            assert forall|gv: Val, j: int|
                #[trigger] parses_to(s@, i as int, j, gv) implies ({
                &&& gv is Obj
                &&& fields_parse_to(s@, i + 1, j, gv->Obj_0)
            }) by {
                lemma_parses_first(s@, i as int, j, gv);
                lemma_enc_val_first(gv);
                assert(gv is Obj);
                let gf = gv->Obj_0;
                if gf.len() == 0 {
                    assert(s@[i + 1] == s@.subrange(i as int, j)[1]);
                    assert(false);
                }
                assert forall|p: int| 0 <= p < j - (i + 1) implies s@.subrange(i + 1, j)[p]
                    == enc_obj_body(gf, 0)[p] by {
                    assert(s@.subrange(i + 1, j)[p] == s@[i + 1 + p]);
                    assert(s@[i + 1 + p] == s@.subrange(i as int, j)[1 + p]);
                }
                assert(s@.subrange(i + 1, j) =~= enc_obj_body(gf, 0));
            }
        }
        match fres {
            Ok((fields, j)) => {
                let ret = Ok((Value::Obj(fields), j));
                proof {
                    assert(s@.subrange(i as int, j as int) =~= seq![B_LBRACE] + s@.subrange(
                        i + 1,
                        j as int,
                    ));
                    assert(enc_val(val_view(Value::Obj(fields))) == seq![B_LBRACE] + enc_obj_body(
                        fields_view(fields, 0),
                        0,
                    ));
                    assert forall|gv: Val, j2: int|
                        #[trigger] parses_to(s@, i as int, j2, gv) implies val_result_is(
                        ret,
                        gv,
                        j2,
                    ) by {
                        assert(fields_result_is(fres, gv->Obj_0, j2));
                    }
                }
                return ret;
            },
            Err(e) => {
                return Err(e);
            },
        }
    } else {
        proof {
            assert forall|gv: Val, j: int|
                #[trigger] parses_to(s@, i as int, j, gv) implies false by {
                lemma_parses_first(s@, i as int, j, gv);
                lemma_enc_val_first(gv);
            }
        }
        return Err(DecodeError::Malformed);
    }
}


/// Reads a non-empty element run ending at its closing bracket.
#[verifier::rlimit(100)]
fn parse_elems(s: &[u8], i: usize) -> (res: Result<(Vec<Value>, usize), DecodeError>)
    requires
        i <= s@.len(),
    ensures
        match res {
            Ok((items, j)) => i < j <= s@.len() && vals_view(items, 0).len() >= 1 && wf_elems(
                vals_view(items, 0),
                0,
            ) && s@.subrange(i as int, j as int) == enc_arr_body(vals_view(items, 0), 0),
            Err(_) => true,
        },
        forall|gs: Seq<Val>, j: int|
            #[trigger] elems_parse_to(s@, i as int, j, gs) ==> elems_result_is(res, gs, j),
    decreases s@.len() - i, 1int,
{
    let slen: usize = s.len();
    let vres = parse_value(s, i);
    proof {
        // the run opens with its first element, delimited by a comma or
        // the closing bracket
        assert forall|gs: Seq<Val>, j: int|
            #[trigger] elems_parse_to(s@, i as int, j, gs) implies ({
            let e0 = enc_val(gs[0]).len();
            &&& parses_to(s@, i as int, i + e0, gs[0])
            &&& i + e0 < j
            &&& (gs.len() == 1 ==> s@[i + e0] == B_RBRACK && j == i + e0 + 1)
            &&& (gs.len() >= 2 ==> s@[i + e0] == B_COMMA)
        }) by {
            lemma_enc_val_first(gs[0]);
            let e0 = enc_val(gs[0]).len() as int;
            let body = enc_arr_body(gs, 0);
            assert(body == enc_val(gs[0]) + if 1 < gs.len() {
                seq![B_COMMA] + enc_arr_body(gs, 1)
            } else {
                seq![B_RBRACK]
            });
            assert(j - i == body.len());
            assert forall|p: int| 0 <= p < e0 implies s@.subrange(i as int, i + e0)[p] == enc_val(
                gs[0],
            )[p] by {
                assert(s@.subrange(i as int, i + e0)[p] == s@[i + p]);
                assert(s@[i + p] == s@.subrange(i as int, j)[p]);
            }
            assert(s@.subrange(i as int, i + e0) =~= enc_val(gs[0]));
            assert(s@[i + e0] == s@.subrange(i as int, j)[e0]);
            assert(body[e0] == if 1 < gs.len() {
                B_COMMA
            } else {
                B_RBRACK
            });
            assert(!is_digit(s@[i + e0]));
        }
    }
    match vres {
        Ok((v, k)) => {
            proof {
                assert forall|gs: Seq<Val>, j: int|
                    #[trigger] elems_parse_to(s@, i as int, j, gs) implies val_view(v) == gs[0]
                    && k == i + enc_val(gs[0]).len() && k < j by {
                    assert(val_result_is(vres, gs[0], i + enc_val(gs[0]).len()));
                }
            }
            if k == slen {
                return Err(DecodeError::Incomplete);
            }
            let c = s[k];
            if c == B_COMMA {
                let rres = parse_elems(s, k + 1);
                proof {
                    assert forall|gs: Seq<Val>, j: int|
                        #[trigger] elems_parse_to(s@, i as int, j, gs) implies gs.len() >= 2
                        && elems_parse_to(s@, k + 1, j, gs.drop_first()) by {
                        if gs.len() == 1 {
                            assert(s@[k as int] == B_RBRACK);
                            assert(false);
                        }
                        let rest = gs.drop_first();
                        assert(seq![gs[0]] + rest =~= gs);
                        lemma_arr_shift(gs[0], rest, 0);
                        assert(wf_elems(gs, 1) == wf_elems(rest, 0));
                        assert(enc_arr_body(gs, 1) == enc_arr_body(rest, 0));
                        let body = enc_arr_body(gs, 0);
                        let e0 = enc_val(gs[0]).len() as int;
                        assert(k == i + e0);
                        assert(body == enc_val(gs[0]) + (seq![B_COMMA] + enc_arr_body(gs, 1)));
                        assert(body.len() == e0 + 1 + enc_arr_body(gs, 1).len());
                        assert(j - (k + 1) == enc_arr_body(rest, 0).len());
                        assert forall|p: int| 0 <= p < j - (k + 1) implies s@.subrange(
                            k + 1,
                            j,
                        )[p] == enc_arr_body(rest, 0)[p] by {
                            assert(s@.subrange(k + 1, j)[p] == s@[k + 1 + p]);
                            assert(s@[k + 1 + p] == s@.subrange(i as int, j)[k + 1 + p - i]);
                            assert(body[e0 + 1 + p] == (seq![B_COMMA] + enc_arr_body(gs, 1))[1
                                + p]);
                            assert((seq![B_COMMA] + enc_arr_body(gs, 1))[1 + p] == enc_arr_body(
                                gs,
                                1,
                            )[p]);
                        }
                        assert(s@.subrange(k + 1, j) =~= enc_arr_body(rest, 0));
                    }
                }
                match rres {
                    Ok((rest, j2)) => {
                        let mut items = rest;
                        items.insert(0, v);
                        let ghost gitems = items;
                        proof {
                            lemma_vals_view(gitems, 0);
                            lemma_vals_view(rest, 0);
                            assert forall|p: int| 0 <= p < vals_view(gitems, 0).len() implies
                                vals_view(gitems, 0)[p] == (seq![val_view(v)] + vals_view(
                                rest,
                                0,
                            ))[p] by {
                                if p > 0 {
                                    assert(gitems@[p] == rest@[p - 1]);
                                }
                            }
                            assert(vals_view(gitems, 0) =~= seq![val_view(v)] + vals_view(
                                rest,
                                0,
                            ));
                            lemma_arr_shift(val_view(v), vals_view(rest, 0), 0);
                            assert(s@.subrange(i as int, j2 as int) =~= s@.subrange(
                                i as int,
                                k as int,
                            ) + seq![B_COMMA] + s@.subrange(k + 1, j2 as int));
                            assert(enc_arr_body(vals_view(gitems, 0), 0) == enc_val(val_view(v))
                                + (seq![B_COMMA] + enc_arr_body(vals_view(rest, 0), 0)));
                            assert(vals_view(gitems, 0).len() >= 1);
                            assert(wf_elems(vals_view(gitems, 0), 1) == wf_elems(
                                vals_view(rest, 0),
                                0,
                            ));
                            assert(wf_elems(vals_view(gitems, 0), 0));
                        }
                        let ret = Ok((items, j2));
                        proof {
                            assert forall|gs: Seq<Val>, j: int|
                                #[trigger] elems_parse_to(s@, i as int, j, gs) implies
                                elems_result_is(ret, gs, j) by {
                                assert(elems_result_is(rres, gs.drop_first(), j));
                                assert(vals_view(gitems, 0) =~= gs);
                            }
                        }
                        return ret;
                    },
                    Err(e) => {
                        return Err(e);
                    },
                }
            } else if c == B_RBRACK {
                let mut items: Vec<Value> = Vec::new();
                items.push(v);
                let ghost gitems = items;
                proof {
                    lemma_vals_view(gitems, 0);
                    assert(vals_view(gitems, 0) =~= seq![val_view(v)]);
                    assert(enc_arr_body(seq![val_view(v)], 0) == enc_val(val_view(v)) + seq![
                        B_RBRACK,
                    ]);
                    assert(s@.subrange(i as int, k + 1) =~= s@.subrange(i as int, k as int)
                        + seq![B_RBRACK]);
                    assert(vals_view(gitems, 0).len() == 1);
                    assert(wf_elems(vals_view(gitems, 0), 1));
                    assert(wf_elems(vals_view(gitems, 0), 0));
                }
                let ret = Ok((items, k + 1));
                proof {
                    assert forall|gs: Seq<Val>, j: int|
                        #[trigger] elems_parse_to(s@, i as int, j, gs) implies elems_result_is(
                        ret,
                        gs,
                        j,
                    ) by {
                        if gs.len() >= 2 {
                            assert(s@[k as int] == B_COMMA);
                            assert(false);
                        }
                        assert(vals_view(gitems, 0) =~= gs);
                    }
                }
                return ret;
            } else {
                return Err(DecodeError::Malformed);
            }
        },
        Err(e) => {
            return Err(e);
        },
    }
}

/// Reads a non-empty field run ending at its closing brace.
#[verifier::rlimit(100)]
fn parse_fields(s: &[u8], i: usize) -> (res: Result<(Vec<(Vec<u8>, Value)>, usize), DecodeError>)
    requires
        i <= s@.len(),
    ensures
        match res {
            Ok((fields, j)) => i < j <= s@.len() && fields_view(fields, 0).len() >= 1
                && wf_fields(fields_view(fields, 0), 0) && s@.subrange(i as int, j as int)
                == enc_obj_body(fields_view(fields, 0), 0),
            Err(_) => true,
        },
        forall|gf: Seq<(Seq<u8>, Val)>, j: int|
            #[trigger] fields_parse_to(s@, i as int, j, gf) ==> fields_result_is(res, gf, j),
    decreases s@.len() - i, 1int,
{
    let slen: usize = s.len();
    proof {
        // a field run opens with a quoted key, then a colon, the value,
        // and a comma or the closing brace
        assert forall|gf: Seq<(Seq<u8>, Val)>, j: int|
            #[trigger] fields_parse_to(s@, i as int, j, gf) implies ({
            let ks = enc_str(gf[0].0).len();
            let e0 = enc_val(gf[0].1).len();
            &&& i < s@.len()
            &&& s@[i as int] == B_QUOTE
            &&& str_parses_to(s@, i as int, i + ks, gf[0].0)
            &&& s@[i + ks] == B_COLON
            &&& parses_to(s@, i + ks + 1, i + ks + 1 + e0, gf[0].1)
            &&& i + ks + 1 + e0 < j
            &&& (gf.len() == 1 ==> s@[i + ks + 1 + e0] == B_RBRACE && j == i + ks + 1 + e0 + 1)
            &&& (gf.len() >= 2 ==> s@[i + ks + 1 + e0] == B_COMMA)
        }) by {
            lemma_enc_val_first(gf[0].1);
            let ks = enc_str(gf[0].0).len() as int;
            let e0 = enc_val(gf[0].1).len() as int;
            let body = enc_obj_body(gf, 0);
            assert(body == enc_str(gf[0].0) + seq![B_COLON] + enc_val(gf[0].1) + if 1 < gf.len() {
                seq![B_COMMA] + enc_obj_body(gf, 1)
            } else {
                seq![B_RBRACE]
            });
            assert(j - i == body.len());
            assert forall|p: int| 0 <= p < j - i implies s@[i + p] == body[p] by {
                assert(s@[i + p] == s@.subrange(i as int, j)[p]);
            }
            assert forall|p: int| 0 <= p < ks implies s@.subrange(i as int, i + ks)[p] == enc_str(
                gf[0].0,
            )[p] by {
                assert(s@.subrange(i as int, i + ks)[p] == s@[i + p]);
            }
            assert(s@.subrange(i as int, i + ks) =~= enc_str(gf[0].0));
            assert(s@[i as int] == body[0]);
            assert(body[ks] == B_COLON);
            assert forall|p: int| 0 <= p < e0 implies s@.subrange(i + ks + 1, i + ks + 1 + e0)[p]
                == enc_val(gf[0].1)[p] by {
                assert(s@.subrange(i + ks + 1, i + ks + 1 + e0)[p] == s@[i + ks + 1 + p]);
                assert(body[ks + 1 + p] == enc_val(gf[0].1)[p]);
            }
            assert(s@.subrange(i + ks + 1, i + ks + 1 + e0) =~= enc_val(gf[0].1));
            assert(body[ks + 1 + e0] == if 1 < gf.len() {
                B_COMMA
            } else {
                B_RBRACE
            });
            assert(!is_digit(s@[i + ks + 1 + e0]));
        }
    }
    if i == slen {
        return Err(DecodeError::Incomplete);
    }
    if s[i] != B_QUOTE {
        return Err(DecodeError::Malformed);
    }
    let sres = parse_string(s, i);
    let (key, k1) = match sres {
        Ok(p) => p,
        Err(e) => {
            return Err(e);
        },
    };
    proof {
        assert forall|gf: Seq<(Seq<u8>, Val)>, j: int|
            #[trigger] fields_parse_to(s@, i as int, j, gf) implies key@ == gf[0].0 && k1 == i
            + enc_str(gf[0].0).len() by {
            assert(str_result_is(sres, gf[0].0, i + enc_str(gf[0].0).len()));
        }
    }
    if k1 == slen {
        return Err(DecodeError::Incomplete);
    }
    if s[k1] != B_COLON {
        return Err(DecodeError::Malformed);
    }
    let vres = parse_value(s, k1 + 1);
    let (v, k2) = match vres {
        Ok(p) => p,
        Err(e) => {
            proof {
                assert forall|gf: Seq<(Seq<u8>, Val)>, j: int|
                    #[trigger] fields_parse_to(s@, i as int, j, gf) implies false by {
                    assert(val_result_is(vres, gf[0].1, k1 + 1 + enc_val(gf[0].1).len()));
                }
            }
            return Err(e);
        },
    };
    proof {
        assert forall|gf: Seq<(Seq<u8>, Val)>, j: int|
            #[trigger] fields_parse_to(s@, i as int, j, gf) implies val_view(v) == gf[0].1 && k2
            == k1 + 1 + enc_val(gf[0].1).len() && k2 < j by {
            assert(val_result_is(vres, gf[0].1, k1 + 1 + enc_val(gf[0].1).len()));
        }
    }
    if k2 == slen {
        return Err(DecodeError::Incomplete);
    }
    let c = s[k2];
    if c == B_COMMA {
        let rres = parse_fields(s, k2 + 1);
        proof {
            assert forall|gf: Seq<(Seq<u8>, Val)>, j: int|
                #[trigger] fields_parse_to(s@, i as int, j, gf) implies gf.len() >= 2
                && fields_parse_to(s@, k2 + 1, j, gf.drop_first()) by {
                if gf.len() == 1 {
                    assert(s@[k2 as int] == B_RBRACE);
                    assert(false);
                }
                let rest = gf.drop_first();
                assert(seq![gf[0]] + rest =~= gf);
                lemma_obj_shift(gf[0], rest, 0);
                let body = enc_obj_body(gf, 0);
                let ks = enc_str(gf[0].0).len() as int;
                let e0 = enc_val(gf[0].1).len() as int;
                assert(k2 == i + ks + 1 + e0);
                assert(body == enc_str(gf[0].0) + seq![B_COLON] + enc_val(gf[0].1) + (seq![
                    B_COMMA,
                ] + enc_obj_body(gf, 1)));
                assert(body.len() == ks + 1 + e0 + 1 + enc_obj_body(gf, 1).len());
                assert(j - (k2 + 1) == enc_obj_body(rest, 0).len());
                assert forall|p: int| 0 <= p < j - (k2 + 1) implies s@.subrange(k2 + 1, j)[p]
                    == enc_obj_body(rest, 0)[p] by {
                    assert(s@.subrange(k2 + 1, j)[p] == s@[k2 + 1 + p]);
                    assert(s@[k2 + 1 + p] == s@.subrange(i as int, j)[k2 + 1 + p - i]);
                    assert(body[ks + 1 + e0 + 1 + p] == (seq![B_COMMA] + enc_obj_body(gf, 1))[1
                        + p]);
                    assert((seq![B_COMMA] + enc_obj_body(gf, 1))[1 + p] == enc_obj_body(
                        gf,
                        1,
                    )[p]);
                }
                assert(s@.subrange(k2 + 1, j) =~= enc_obj_body(rest, 0));
            }
        }
        match rres {
            Ok((rest, j2)) => {
                let mut fields = rest;
                fields.insert(0, (key, v));
                let ghost gfields = fields;
                proof {
                    lemma_fields_view(gfields, 0);
                    lemma_fields_view(rest, 0);
                    assert forall|p: int| 0 <= p < fields_view(gfields, 0).len() implies
                        fields_view(gfields, 0)[p] == (seq![(key@, val_view(v))] + fields_view(
                        rest,
                        0,
                    ))[p] by {
                        if p > 0 {
                            assert(gfields@[p] == rest@[p - 1]);
                        }
                    }
                    assert(fields_view(gfields, 0) =~= seq![(key@, val_view(v))] + fields_view(
                        rest,
                        0,
                    ));
                    lemma_obj_shift((key@, val_view(v)), fields_view(rest, 0), 0);
                    assert(s@.subrange(i as int, j2 as int) =~= s@.subrange(i as int, k1 as int)
                        + seq![B_COLON] + s@.subrange(k1 + 1, k2 as int) + seq![B_COMMA]
                        + s@.subrange(k2 + 1, j2 as int));
                    assert(enc_obj_body(fields_view(gfields, 0), 0) == enc_str(key@) + seq![
                        B_COLON,
                    ] + enc_val(val_view(v)) + (seq![B_COMMA] + enc_obj_body(
                        fields_view(rest, 0),
                        0,
                    )));
                    assert(fields_view(gfields, 0).len() >= 1);
                    assert(wf_fields(fields_view(gfields, 0), 1) == wf_fields(
                        fields_view(rest, 0),
                        0,
                    ));
                    assert(wf_fields(fields_view(gfields, 0), 0));
                }
                let ret = Ok((fields, j2));
                proof {
                    assert forall|gf: Seq<(Seq<u8>, Val)>, j: int|
                        #[trigger] fields_parse_to(s@, i as int, j, gf) implies fields_result_is(
                        ret,
                        gf,
                        j,
                    ) by {
                        assert(fields_result_is(rres, gf.drop_first(), j));
                        assert(fields_view(gfields, 0) =~= gf);
                    }
                }
                return ret;
            },
            Err(e) => {
                return Err(e);
            },
        }
    } else if c == B_RBRACE {
        let mut fields: Vec<(Vec<u8>, Value)> = Vec::new();
        fields.push((key, v));
        let ghost gfields = fields;
        proof {
            lemma_fields_view(gfields, 0);
            assert(fields_view(gfields, 0) =~= seq![(key@, val_view(v))]);
            assert(enc_obj_body(seq![(key@, val_view(v))], 0) == enc_str(key@) + seq![B_COLON]
                + enc_val(val_view(v)) + seq![B_RBRACE]);
            assert(s@.subrange(i as int, k2 + 1) =~= s@.subrange(i as int, k1 as int) + seq![
                B_COLON,
            ] + s@.subrange(k1 + 1, k2 as int) + seq![B_RBRACE]);
            assert(fields_view(gfields, 0).len() == 1);
            assert(wf_fields(fields_view(gfields, 0), 1));
            assert(wf_fields(fields_view(gfields, 0), 0));
        }
        let ret = Ok((fields, k2 + 1));
        proof {
            assert forall|gf: Seq<(Seq<u8>, Val)>, j: int|
                #[trigger] fields_parse_to(s@, i as int, j, gf) implies fields_result_is(
                ret,
                gf,
                j,
            ) by {
                if gf.len() >= 2 {
                    assert(s@[k2 as int] == B_COMMA);
                    assert(false);
                }
                assert(fields_view(gfields, 0) =~= gf);
            }
        }
        return ret;
    } else {
        return Err(DecodeError::Malformed);
    }
}


/// Byte-wise equality of two slices.
pub fn bytes_eq(a: &[u8], b: &[u8]) -> (r: bool)
    ensures
        r == (a@ == b@),
{
    if a.len() != b.len() {
        proof {
            if a@ == b@ {
                assert(a@.len() == b@.len());
            }
        }
        return false;
    }
    let mut i: usize = 0;
    while i < a.len()
        invariant
            i <= a@.len(),
            a@.len() == b@.len(),
            forall|k: int| 0 <= k < i ==> a@[k] == b@[k],
        decreases a@.len() - i,
    {
        if a[i] != b[i] {
            return false;
        }
        i = i + 1;
    }
    proof {
        assert(a@ =~= b@);
    }
    true
}



/// Appends the decimal digits of a wide magnitude.
fn encode_nat_u128(n: u128, out: &mut Vec<u8>)
    ensures
        final(out)@ == old(out)@ + enc_nat(n as nat),
    decreases n,
{
    if n < 10 {
        out.push((0x30 + n) as u8);
    } else {
        encode_nat_u128(n / 10, out);
        out.push((0x30 + n % 10) as u8);
        assert(final(out)@ =~= old(out)@ + enc_nat(n as nat));
    }
}

/// The decimal text of a wide integer, as the codec writes it; wide
/// enough for any sum of two wire integers.
pub fn int_text_wide(n: i128) -> (r: Vec<u8>)
    requires
        i128::MIN < n,
    ensures
        r@ == enc_int(n as int),
{
    let mut out: Vec<u8> = Vec::new();
    if n < 0 {
        out.push(B_MINUS);
        let mag: u128 = (-n) as u128;
        assert(mag == -(n as int));
        encode_nat_u128(mag, &mut out);
        assert(out@ =~= enc_int(n as int));
    } else {
        encode_nat_u128(n as u128, &mut out);
    }
    out
}


} // verus!
