//! The bencode binary codec: a generic value tree, its canonical byte
//! encoding, and a recursive-descent decoder that inverts the encoder.
use vstd::prelude::*;

verus! {

/// `i` introduces an integer.
pub const INT_TAG: u8 = 105;

/// `l` introduces a list.
pub const LIST_TAG: u8 = 108;

/// `d` introduces a dictionary.
pub const DICT_TAG: u8 = 100;

/// `e` terminates integers, lists and dictionaries.
pub const END_TAG: u8 = 101;

/// `:` separates a byte string's decimal length from its bytes.
pub const COLON: u8 = 58;

/// `-` introduces a negative integer literal.
pub const MINUS: u8 = 45;

/// `0`, the least ASCII digit.
pub const DIGIT_LO: u8 = 48;

/// `9`, the greatest ASCII digit.
pub const DIGIT_HI: u8 = 57;

/// A decoded bencode value: integers, raw byte strings, lists, and
/// dictionaries whose keys are byte strings kept in insertion order.
#[derive(Debug, PartialEq, Eq)]
pub enum BencodeValue {
    Integer(i64),
    ByteString(Vec<u8>),
    List(Vec<BencodeValue>),
    Dict(Vec<(Vec<u8>, BencodeValue)>),
}

/// The mathematical model of a bencode value tree.
pub enum SpecValue {
    Integer(int),
    ByteString(Seq<u8>),
    List(Seq<SpecValue>),
    Dict(Seq<(Seq<u8>, SpecValue)>),
}

impl View for BencodeValue {
    type V = SpecValue;

    open spec fn view(&self) -> SpecValue
        decreases self,
    {
        match self {
            BencodeValue::Integer(i) => SpecValue::Integer(*i as int),
            BencodeValue::ByteString(b) => SpecValue::ByteString(b@),
            BencodeValue::List(elems) => SpecValue::List(view_elems(elems@)),
            BencodeValue::Dict(entries) => SpecValue::Dict(view_entries(entries@)),
        }
    }
}

pub open spec fn view_elems(elems: Seq<BencodeValue>) -> Seq<SpecValue>
    decreases elems,
{
    if elems.len() == 0 {
        Seq::empty()
    } else {
        seq![elems[0]@] + view_elems(elems.drop_first())
    }
}

pub open spec fn view_entries(entries: Seq<(Vec<u8>, BencodeValue)>) -> Seq<(Seq<u8>, SpecValue)>
    decreases entries,
    via view_entries_dec
{
    if entries.len() == 0 {
        Seq::empty()
    } else {
        seq![(entries[0].0@, entries[0].1@)] + view_entries(entries.drop_first())
    }
}

#[via_fn]
proof fn view_entries_dec(entries: Seq<(Vec<u8>, BencodeValue)>) {
    if entries.len() > 0 {
        assert(decreases_to!(entries => entries[0]));
        assert(decreases_to!(entries[0] => entries[0].1));
    }
}

/// Does a spec value fit what an executable tree can hold?  Integers must
/// lie in the `i64` range, recursively.
pub open spec fn wf_value(v: SpecValue) -> bool
    decreases v,
{
    match v {
        SpecValue::Integer(i) => i64::MIN <= i <= i64::MAX,
        SpecValue::ByteString(b) => true,
        SpecValue::List(elems) => forall|i: int| 0 <= i < elems.len() ==> wf_value(#[trigger] elems[i]),
        SpecValue::Dict(entries) => forall|i: int|
            0 <= i < entries.len() ==> wf_value(#[trigger] entries[i].1),
    }
}

/// The decimal digits of `n`, most significant first, as ASCII bytes.
pub open spec fn spec_dec_digits(n: nat) -> Seq<u8>
    decreases n,
{
    if n < 10 {
        seq![(DIGIT_LO + n) as u8]
    } else {
        spec_dec_digits(n / 10) + seq![(DIGIT_LO + n % 10) as u8]
    }
}

/// The decimal literal of `i`: a `-` sign for negative values, then digits.
pub open spec fn spec_int_literal(i: int) -> Seq<u8> {
    if i < 0 {
        seq![MINUS] + spec_dec_digits((-i) as nat)
    } else {
        spec_dec_digits(i as nat)
    }
}

/// The encoding of one byte string: decimal length, `:`, the bytes.
pub open spec fn spec_encode_bytes(b: Seq<u8>) -> Seq<u8> {
    spec_dec_digits(b.len()) + seq![COLON] + b
}

/// The canonical bencoding of a value tree: `i<n>e` for integers,
/// `<len>:<bytes>` for byte strings, `l...e` for lists and `d...e` for
/// dictionaries, entries in stored order.
pub open spec fn spec_encode(v: SpecValue) -> Seq<u8>
    decreases v,
{
    match v {
        SpecValue::Integer(i) => seq![INT_TAG] + spec_int_literal(i) + seq![END_TAG],
        SpecValue::ByteString(b) => spec_encode_bytes(b),
        SpecValue::List(elems) => seq![LIST_TAG] + spec_encode_elems(elems) + seq![END_TAG],
        SpecValue::Dict(entries) => seq![DICT_TAG] + spec_encode_entries(entries) + seq![END_TAG],
    }
}

pub open spec fn spec_encode_elems(elems: Seq<SpecValue>) -> Seq<u8>
    decreases elems,
{
    if elems.len() == 0 {
        Seq::empty()
    } else {
        spec_encode(elems[0]) + spec_encode_elems(elems.drop_first())
    }
}

pub open spec fn spec_encode_entries(entries: Seq<(Seq<u8>, SpecValue)>) -> Seq<u8>
    decreases entries,
    via spec_encode_entries_dec
{
    if entries.len() == 0 {
        Seq::empty()
    } else {
        spec_encode_bytes(entries[0].0) + spec_encode(entries[0].1) + spec_encode_entries(
            entries.drop_first(),
        )
    }
}

#[via_fn]
proof fn spec_encode_entries_dec(entries: Seq<(Seq<u8>, SpecValue)>) {
    if entries.len() > 0 {
        assert(decreases_to!(entries => entries[0]));
        assert(decreases_to!(entries[0] => entries[0].1));
    }
}

/// Appending one element on the right extends the element encoding on the
/// right: the unrolling that the encoder's loop produces.
pub proof fn lemma_encode_elems_snoc(elems: Seq<SpecValue>, v: SpecValue)
    ensures
        spec_encode_elems(elems.push(v)) == spec_encode_elems(elems) + spec_encode(v),
    decreases elems.len(),
{
    if elems.len() == 0 {
        assert(elems.push(v).drop_first() =~= Seq::empty());
        assert(elems.push(v)[0] == v);
        assert(spec_encode_elems(Seq::<SpecValue>::empty()) =~= Seq::<u8>::empty());
        assert(spec_encode_elems(elems.push(v)) =~= spec_encode(v));
        assert(spec_encode_elems(elems) + spec_encode(v) =~= spec_encode(v));
    } else {
        assert(elems.push(v).drop_first() =~= elems.drop_first().push(v));
        lemma_encode_elems_snoc(elems.drop_first(), v);
        assert(spec_encode_elems(elems.push(v)) =~= spec_encode(elems[0]) + spec_encode_elems(
            elems.drop_first().push(v),
        ));
        assert(spec_encode_elems(elems) + spec_encode(v) =~= spec_encode(elems[0]) + (
        spec_encode_elems(elems.drop_first()) + spec_encode(v)));
    }
}

/// Appending one entry on the right extends the entry encoding on the
/// right: the unrolling that the encoder's loop produces.
pub proof fn lemma_encode_entries_snoc(entries: Seq<(Seq<u8>, SpecValue)>, k: Seq<u8>, v: SpecValue)
    ensures
        spec_encode_entries(entries.push((k, v))) == spec_encode_entries(entries)
            + spec_encode_bytes(k) + spec_encode(v),
    decreases entries.len(),
{
    if entries.len() == 0 {
        assert(entries.push((k, v)).drop_first() =~= Seq::empty());
        assert(entries.push((k, v))[0] == (k, v));
        assert(spec_encode_entries(Seq::<(Seq<u8>, SpecValue)>::empty()) =~= Seq::<u8>::empty());
        assert(spec_encode_entries(entries.push((k, v))) =~= spec_encode_bytes(k) + spec_encode(v));
        assert(spec_encode_entries(entries) + spec_encode_bytes(k) + spec_encode(v)
            =~= spec_encode_bytes(k) + spec_encode(v));
    } else {
        assert(entries.push((k, v)).drop_first() =~= entries.drop_first().push((k, v)));
        lemma_encode_entries_snoc(entries.drop_first(), k, v);
        let e0 = entries[0];
        assert(entries.push((k, v))[0] == e0);
        assert(spec_encode_entries(entries.push((k, v))) =~= spec_encode_bytes(e0.0)
            + spec_encode(e0.1) + spec_encode_entries(entries.drop_first().push((k, v))));
        assert(spec_encode_entries(entries) + spec_encode_bytes(k) + spec_encode(v)
            =~= spec_encode_bytes(e0.0) + spec_encode(e0.1) + (spec_encode_entries(
            entries.drop_first(),
        ) + spec_encode_bytes(k) + spec_encode(v)));
    }
}

/// Appends the decimal digits of `n` to `out`.
fn push_dec_digits(n: u64, out: &mut Vec<u8>)
    ensures
        final(out)@ == old(out)@ + spec_dec_digits(n as nat),
    decreases n,
{
    if n < 10 {
        out.push(DIGIT_LO + n as u8);
    } else {
        push_dec_digits(n / 10, out);
        out.push(DIGIT_LO + (n % 10) as u8);
    }
    assert(out@ =~= old(out)@ + spec_dec_digits(n as nat));
}

/// Appends the decimal literal of `i` (sign, then digits) to `out`.
fn push_int_literal(i: i64, out: &mut Vec<u8>)
    ensures
        final(out)@ == old(out)@ + spec_int_literal(i as int),
{
    if i < 0 {
        out.push(MINUS);
        // The magnitude of `i64::MIN` overflows `i64`, so step through `i + 1`.
        let mag: u64 = ((-(i + 1)) as u64) + 1;
        assert(mag as int == -(i as int));
        push_dec_digits(mag, out);
    } else {
        push_dec_digits(i as u64, out);
    }
    assert(out@ =~= old(out)@ + spec_int_literal(i as int));
}

/// Appends the canonical encoding of `v` to `out`.
#[verifier::loop_isolation(false)]
fn encode_into(v: &BencodeValue, out: &mut Vec<u8>)
    ensures
        final(out)@ == old(out)@ + spec_encode(v@),
    decreases v,
{
    match v {
        BencodeValue::Integer(i) => {
            out.push(INT_TAG);
            push_int_literal(*i, out);
            out.push(END_TAG);
            assert(out@ =~= old(out)@ + spec_encode(v@));
        },
        BencodeValue::ByteString(b) => {
            push_byte_string(b, out);
            assert(out@ =~= old(out)@ + spec_encode(v@));
        },
        BencodeValue::List(elems) => {
            out.push(LIST_TAG);
            let ghost mid = out@;
            let mut j: usize = 0;
            while j < elems.len()
                invariant
                    j <= elems.len(),
                    out@ == mid + spec_encode_elems(view_elems(elems@).take(j as int)),
                decreases elems.len() - j,
            {
                proof {
                    lemma_view_elems_index(elems@, j as int);
                    lemma_encode_elems_snoc(
                        view_elems(elems@).take(j as int),
                        view_elems(elems@)[j as int],
                    );
                    assert(view_elems(elems@).take(j as int).push(view_elems(elems@)[j as int])
                        =~= view_elems(elems@).take(j + 1int));
                    assert(decreases_to!(*v => v->List_0@[j as int]));
                    assert(v->List_0 == *elems);
                }
                encode_into(&elems[j], out);
                j = j + 1;
            }
            proof {
                lemma_view_elems_len(elems@);
                assert(view_elems(elems@).take(elems@.len() as int) =~= view_elems(elems@));
            }
            out.push(END_TAG);
            assert(out@ =~= old(out)@ + spec_encode(v@));
        },
        BencodeValue::Dict(entries) => {
            out.push(DICT_TAG);
            let ghost mid = out@;
            let mut j: usize = 0;
            while j < entries.len()
                invariant
                    j <= entries.len(),
                    out@ == mid + spec_encode_entries(view_entries(entries@).take(j as int)),
                decreases entries.len() - j,
            {
                proof {
                    lemma_view_entries_index(entries@, j as int);
                    lemma_encode_entries_snoc(
                        view_entries(entries@).take(j as int),
                        view_entries(entries@)[j as int].0,
                        view_entries(entries@)[j as int].1,
                    );
                    assert(view_entries(entries@).take(j as int).push(
                        view_entries(entries@)[j as int],
                    ) =~= view_entries(entries@).take(j + 1int));
                    assert(decreases_to!(*v => v->Dict_0@[j as int].1));
                    assert(v->Dict_0 == *entries);
                }
                push_byte_string(&entries[j].0, out);
                encode_into(&entries[j].1, out);
                j = j + 1;
            }
            proof {
                lemma_view_entries_len(entries@);
                assert(view_entries(entries@).take(entries@.len() as int) =~= view_entries(
                    entries@,
                ));
            }
            out.push(END_TAG);
            assert(out@ =~= old(out)@ + spec_encode(v@));
        },
    }
}

/// Appends `<len>:<bytes>` to `out`.
fn push_byte_string(b: &Vec<u8>, out: &mut Vec<u8>)
    ensures
        final(out)@ == old(out)@ + spec_encode(SpecValue::ByteString(b@)),
{
    push_dec_digits(b.len() as u64, out);
    out.push(COLON);
    let mut j: usize = 0;
    let ghost mid = out@;
    while j < b.len()
        invariant
            j <= b.len(),
            out@ == mid + b@.take(j as int),
        decreases b.len() - j,
    {
        let byte = b[j];
        out.push(byte);
        assert(out@ =~= mid + b@.take(j + 1int));
        j = j + 1;
    }
    assert(b@.take(b@.len() as int) =~= b@);
    assert(out@ =~= old(out)@ + spec_encode(SpecValue::ByteString(b@)));
}

/// The viewed elements are as many as the stored ones.
pub proof fn lemma_view_elems_len(elems: Seq<BencodeValue>)
    ensures
        view_elems(elems).len() == elems.len(),
    decreases elems,
{
    if elems.len() > 0 {
        lemma_view_elems_len(elems.drop_first());
        assert(view_elems(elems) == seq![elems[0]@] + view_elems(elems.drop_first()));
    }
}

/// The viewed element at `i` is the view of the stored one.
pub proof fn lemma_view_elems_index(elems: Seq<BencodeValue>, i: int)
    requires
        0 <= i < elems.len(),
    ensures
        view_elems(elems).len() == elems.len(),
        view_elems(elems)[i] == elems[i]@,
    decreases elems,
{
    lemma_view_elems_len(elems);
    assert(view_elems(elems) == seq![elems[0]@] + view_elems(elems.drop_first()));
    if i > 0 {
        lemma_view_elems_index(elems.drop_first(), i - 1);
    }
}

/// The viewed entries are as many as the stored ones.
pub proof fn lemma_view_entries_len(entries: Seq<(Vec<u8>, BencodeValue)>)
    ensures
        view_entries(entries).len() == entries.len(),
    decreases entries,
{
    if entries.len() > 0 {
        lemma_view_entries_len(entries.drop_first());
        assert(view_entries(entries) == seq![(entries[0].0@, entries[0].1@)] + view_entries(
            entries.drop_first(),
        ));
    }
}

/// The viewed entry at `i` is the view of the stored one.
pub proof fn lemma_view_entries_index(entries: Seq<(Vec<u8>, BencodeValue)>, i: int)
    requires
        0 <= i < entries.len(),
    ensures
        view_entries(entries).len() == entries.len(),
        view_entries(entries)[i] == (entries[i].0@, entries[i].1@),
    decreases entries,
{
    lemma_view_entries_len(entries);
    assert(view_entries(entries) == seq![(entries[0].0@, entries[0].1@)] + view_entries(
        entries.drop_first(),
    ));
    if i > 0 {
        lemma_view_entries_index(entries.drop_first(), i - 1);
    }
}

/// The reasons a byte sequence fails to decode.
#[derive(Debug, Clone, Copy, PartialEq, Eq, Structural)]
pub enum ParseError {
    /// The input ended before the value did.
    Truncated,
    /// The leading byte of a value is none of `i`, `l`, `d`, a digit.
    UnexpectedToken,
    /// An integer literal is malformed or out of the `i64` range.
    InvalidInteger,
    /// A dictionary key decoded to something other than a byte string.
    NonStringKey,
}

/// Is `b` an ASCII decimal digit?
pub open spec fn is_digit(b: u8) -> bool {
    DIGIT_LO <= b <= DIGIT_HI
}

/// The length of the longest prefix of `s` made of decimal digits.
pub open spec fn digit_run(s: Seq<u8>) -> nat
    decreases s.len(),
{
    if s.len() == 0 || !is_digit(s[0]) {
        0
    } else {
        1 + digit_run(s.drop_first())
    }
}

/// The value of a sequence of decimal digits, most significant first.
pub open spec fn digits_val(ds: Seq<u8>) -> nat
    decreases ds.len(),
{
    if ds.len() == 0 {
        0
    } else {
        digits_val(ds.drop_last()) * 10 + (ds.last() - DIGIT_LO) as nat
    }
}

/// Decoding after a leading `i`: an optional `-`, a digit run, `e`.
pub open spec fn spec_decode_int(ds0: Seq<u8>) -> Result<(SpecValue, Seq<u8>), ParseError> {
    let neg = ds0.len() > 0 && ds0[0] == MINUS;
    let ds = if neg {
        ds0.drop_first()
    } else {
        ds0
    };
    let k = digit_run(ds) as int;
    if k == 0 {
        if ds.len() == 0 {
            Err(ParseError::Truncated)
        } else {
            Err(ParseError::InvalidInteger)
        }
    } else if ds.len() == k {
        Err(ParseError::Truncated)
    } else if ds[k] != END_TAG {
        Err(ParseError::InvalidInteger)
    } else {
        let mag = digits_val(ds.take(k)) as int;
        if neg && mag <= -(i64::MIN as int) {
            Ok((SpecValue::Integer(-mag), ds.skip(k + 1)))
        } else if !neg && mag <= i64::MAX as int {
            Ok((SpecValue::Integer(mag), ds.skip(k + 1)))
        } else {
            Err(ParseError::InvalidInteger)
        }
    }
}

/// Decoding a byte string: a digit run giving the length, `:`, the bytes.
pub open spec fn spec_decode_bstr(s: Seq<u8>) -> Result<(SpecValue, Seq<u8>), ParseError> {
    let k = digit_run(s) as int;
    if s.len() == k {
        Err(ParseError::Truncated)
    } else if s[k] != COLON {
        Err(ParseError::UnexpectedToken)
    } else {
        let len = digits_val(s.take(k)) as int;
        let body = s.skip(k + 1);
        if body.len() < len {
            Err(ParseError::Truncated)
        } else {
            Ok((SpecValue::ByteString(body.take(len)), body.skip(len)))
        }
    }
}

/// What decoding the bytes `s` yields: a value and the unconsumed
/// remainder, or the first error the grammar detects.
pub open spec fn spec_decode(s: Seq<u8>) -> Result<(SpecValue, Seq<u8>), ParseError>
    decreases s.len(), 0nat,
{
    if s.len() == 0 {
        Err(ParseError::Truncated)
    } else if s[0] == INT_TAG {
        spec_decode_int(s.drop_first())
    } else if is_digit(s[0]) {
        spec_decode_bstr(s)
    } else if s[0] == LIST_TAG {
        match spec_decode_list(s.drop_first()) {
            Ok((elems, rest)) => Ok((SpecValue::List(elems), rest)),
            Err(e) => Err(e),
        }
    } else if s[0] == DICT_TAG {
        match spec_decode_dict(s.drop_first()) {
            Ok((entries, rest)) => Ok((SpecValue::Dict(entries), rest)),
            Err(e) => Err(e),
        }
    } else {
        Err(ParseError::UnexpectedToken)
    }
}

/// Decoding list elements until a terminating `e`, which is consumed.
pub open spec fn spec_decode_list(s: Seq<u8>) -> Result<(Seq<SpecValue>, Seq<u8>), ParseError>
    decreases s.len(), 1nat,
{
    if s.len() == 0 {
        Err(ParseError::Truncated)
    } else if s[0] == END_TAG {
        Ok((Seq::empty(), s.drop_first()))
    } else {
        match spec_decode(s) {
            Ok((v, rest)) => if rest.len() < s.len() {
                match spec_decode_list(rest) {
                    Ok((elems, rest2)) => Ok((seq![v] + elems, rest2)),
                    Err(e) => Err(e),
                }
            } else {
                // A successful decode always consumes at least one byte,
                // so this branch is never taken.
                Err(ParseError::Truncated)
            },
            Err(e) => Err(e),
        }
    }
}

/// Decoding dictionary entries until a terminating `e`; every key must
/// be a byte string.
pub open spec fn spec_decode_dict(s: Seq<u8>) -> Result<
    (Seq<(Seq<u8>, SpecValue)>, Seq<u8>),
    ParseError,
>
    decreases s.len(), 1nat,
{
    if s.len() == 0 {
        Err(ParseError::Truncated)
    } else if s[0] == END_TAG {
        Ok((Seq::empty(), s.drop_first()))
    } else {
        match spec_decode(s) {
            Ok((key, mid)) => match key {
                SpecValue::ByteString(kb) => if mid.len() < s.len() {
                    match spec_decode(mid) {
                        Ok((val, rest)) => if rest.len() < mid.len() {
                            match spec_decode_dict(rest) {
                                Ok((entries, rest2)) => Ok((seq![(kb, val)] + entries, rest2)),
                                Err(e) => Err(e),
                            }
                        } else {
                            // Never taken: a decode consumes at least one byte.
                            Err(ParseError::Truncated)
                        },
                        Err(e) => Err(e),
                    }
                } else {
                    // Never taken: a decode consumes at least one byte.
                    Err(ParseError::Truncated)
                },
                _ => Err(ParseError::NonStringKey),
            },
            Err(e) => Err(e),
        }
    }
}

/// A digit run never runs past the end of the input.
pub proof fn lemma_digit_run_le(s: Seq<u8>)
    ensures
        digit_run(s) <= s.len(),
    decreases s.len(),
{
    if s.len() > 0 && is_digit(s[0]) {
        lemma_digit_run_le(s.drop_first());
    }
}

/// Whatever decodes successfully consumed at least one byte.
pub proof fn lemma_decode_consumes(s: Seq<u8>)
    ensures
        spec_decode(s) matches Ok((v, rest)) ==> rest.len() < s.len(),
    decreases s.len(), 0nat,
{
    if s.len() == 0 {
    } else if s[0] == INT_TAG {
        let ds0 = s.drop_first();
        let neg = ds0.len() > 0 && ds0[0] == MINUS;
        let ds = if neg {
            ds0.drop_first()
        } else {
            ds0
        };
        lemma_digit_run_le(ds);
    } else if is_digit(s[0]) {
        lemma_digit_run_le(s);
    } else if s[0] == LIST_TAG {
        lemma_decode_list_consumes(s.drop_first());
    } else if s[0] == DICT_TAG {
        lemma_decode_dict_consumes(s.drop_first());
    } else {
    }
}

/// List decoding consumes at least the terminating `e`.
pub proof fn lemma_decode_list_consumes(s: Seq<u8>)
    ensures
        spec_decode_list(s) matches Ok((elems, rest)) ==> rest.len() <= s.len() - 1,
    decreases s.len(), 1nat,
{
    if s.len() == 0 {
    } else if s[0] == END_TAG {
    } else {
        lemma_decode_consumes(s);
        match spec_decode(s) {
            Ok((v, rest)) => {
                if rest.len() < s.len() {
                    lemma_decode_list_consumes(rest);
                }
            },
            Err(_) => {},
        }
    }
}

/// Dictionary decoding consumes at least the terminating `e`.
pub proof fn lemma_decode_dict_consumes(s: Seq<u8>)
    ensures
        spec_decode_dict(s) matches Ok((entries, rest)) ==> rest.len() <= s.len() - 1,
    decreases s.len(), 1nat,
{
    if s.len() == 0 {
    } else if s[0] == END_TAG {
    } else {
        lemma_decode_consumes(s);
        match spec_decode(s) {
            Ok((key, mid)) => {
                if mid.len() < s.len() {
                    lemma_decode_consumes(mid);
                    match spec_decode(mid) {
                        Ok((val, rest)) => {
                            if rest.len() < mid.len() {
                                lemma_decode_dict_consumes(rest);
                            }
                        },
                        Err(_) => {},
                    }
                }
            },
            Err(_) => {},
        }
    }
}

/// Splitting a digit run: if the first `j` bytes are digits and the run
/// stops at `j`, the run's length is exactly `j`.
pub proof fn lemma_digit_run_split(s: Seq<u8>, j: int)
    requires
        0 <= j <= s.len(),
        forall|i: int| 0 <= i < j ==> is_digit(#[trigger] s[i]),
        j == s.len() || !is_digit(s[j]),
    ensures
        digit_run(s) == j,
    decreases j,
{
    if j > 0 {
        assert(forall|i: int|
            0 <= i < j - 1 ==> is_digit(#[trigger] s.drop_first()[i]) == is_digit(s[i + 1]));
        lemma_digit_run_split(s.drop_first(), j - 1);
    }
}

/// Reading one more digit multiplies the value by ten and adds it.
pub proof fn lemma_digits_val_step(s: Seq<u8>, a: int, j: int)
    requires
        0 <= a <= j < s.len(),
    ensures
        digits_val(s.subrange(a, j + 1)) == digits_val(s.subrange(a, j)) * 10 + (s[j]
            - DIGIT_LO) as nat,
{
    assert(s.subrange(a, j + 1).drop_last() =~= s.subrange(a, j));
    assert(s.subrange(a, j + 1).last() == s[j]);
}

/// The number of leading digits at `from`, scanned left to right.
fn scan_digits(bytes: &[u8], from: usize) -> (k: usize)
    requires
        from <= bytes@.len(),
    ensures
        from + k <= bytes@.len(),
        forall|i: int| from <= i < from + k ==> is_digit(#[trigger] bytes@[i]),
        from + k == bytes@.len() || !is_digit(bytes@[from + k]),
        k as nat == digit_run(bytes@.skip(from as int)),
{
    let mut j: usize = from;
    while j < bytes.len() && DIGIT_LO <= bytes[j] && bytes[j] <= DIGIT_HI
        invariant
            from <= j <= bytes@.len(),
            forall|i: int| from <= i < j ==> is_digit(#[trigger] bytes@[i]),
        decreases bytes@.len() - j,
    {
        j = j + 1;
    }
    proof {
        let s = bytes@.skip(from as int);
        assert(forall|i: int|
            0 <= i < j - from ==> is_digit(#[trigger] s[i]) == is_digit(bytes@[from + i]));
        lemma_digit_run_split(s, j - from);
    }
    j - from
}

/// The value of the `k` digits at `from`, or `None` when it exceeds
/// what a `u64` can hold.
fn digits_value(bytes: &[u8], from: usize, k: usize) -> (r: Option<u64>)
    requires
        from + k <= bytes@.len(),
        forall|i: int| from <= i < from + k ==> is_digit(#[trigger] bytes@[i]),
    ensures
        match r {
            Some(u) => u as nat == digits_val(bytes@.subrange(from as int, (from + k) as int)),
            None => digits_val(bytes@.subrange(from as int, (from + k) as int)) > u64::MAX,
        },
{
    let mut acc: u64 = 0;
    let mut ovf = false;
    let mut j: usize = 0;
    while j < k
        invariant
            0 <= j <= k,
            from + k <= bytes@.len(),
            forall|i: int| from <= i < from + k ==> is_digit(#[trigger] bytes@[i]),
            !ovf ==> acc as nat == digits_val(
                bytes@.subrange(from as int, (from + j) as int),
            ),
            ovf ==> digits_val(bytes@.subrange(from as int, (from + j) as int)) > u64::MAX,
        decreases k - j,
    {
        proof {
            vstd::slice::axiom_spec_len(bytes);
            lemma_digits_val_step(bytes@, from as int, (from + j) as int);
            assert(is_digit(bytes@[(from + j) as int]));
        }
        let d = (bytes[from + j] - DIGIT_LO) as u64;
        // 1844674407370955161 == u64::MAX / 10: one more digit would
        // carry the accumulator past u64::MAX.
        if ovf || acc > 1844674407370955161u64 || (acc == 1844674407370955161u64 && d > 5) {
            ovf = true;
        } else {
            acc = acc * 10 + d;
        }
        j = j + 1;
    }
    if ovf {
        None
    } else {
        Some(acc)
    }
}

/// Pushing an element extends the viewed element sequence on the right.
pub proof fn lemma_view_elems_snoc(elems: Seq<BencodeValue>, v: BencodeValue)
    ensures
        view_elems(elems.push(v)) == view_elems(elems) + seq![v@],
    decreases elems.len(),
{
    if elems.len() == 0 {
        assert(elems.push(v).drop_first() =~= Seq::empty());
        assert(elems.push(v)[0] == v);
        assert(view_elems(Seq::<BencodeValue>::empty()) =~= Seq::<SpecValue>::empty());
        assert(view_elems(elems.push(v)) =~= seq![v@]);
        assert(view_elems(elems) + seq![v@] =~= seq![v@]);
    } else {
        assert(elems.push(v).drop_first() =~= elems.drop_first().push(v));
        lemma_view_elems_snoc(elems.drop_first(), v);
        assert(view_elems(elems.push(v)) =~= seq![elems[0]@] + view_elems(
            elems.drop_first().push(v),
        ));
        assert(view_elems(elems) + seq![v@] =~= seq![elems[0]@] + (view_elems(elems.drop_first())
            + seq![v@]));
    }
}

/// Pushing an entry extends the viewed entry sequence on the right.
pub proof fn lemma_view_entries_snoc(
    entries: Seq<(Vec<u8>, BencodeValue)>,
    k: Vec<u8>,
    v: BencodeValue,
)
    ensures
        view_entries(entries.push((k, v))) == view_entries(entries) + seq![(k@, v@)],
    decreases entries.len(),
{
    if entries.len() == 0 {
        assert(entries.push((k, v)).drop_first() =~= Seq::empty());
        assert(entries.push((k, v))[0] == (k, v));
        assert(view_entries(Seq::<(Vec<u8>, BencodeValue)>::empty()) =~= Seq::<(
            Seq<u8>,
            SpecValue,
        )>::empty());
        assert(view_entries(entries.push((k, v))) =~= seq![(k@, v@)]);
        assert(view_entries(entries) + seq![(k@, v@)] =~= seq![(k@, v@)]);
    } else {
        assert(entries.push((k, v)).drop_first() =~= entries.drop_first().push((k, v)));
        lemma_view_entries_snoc(entries.drop_first(), k, v);
        let e0 = entries[0];
        assert(entries.push((k, v))[0] == e0);
        assert(view_entries(entries.push((k, v))) =~= seq![(e0.0@, e0.1@)] + view_entries(
            entries.drop_first().push((k, v)),
        ));
        assert(view_entries(entries) + seq![(k@, v@)] =~= seq![(e0.0@, e0.1@)] + (view_entries(
            entries.drop_first(),
        ) + seq![(k@, v@)]));
    }
}

/// Decodes the value starting at `from`, returning it with the index
/// just past its last byte; exactly what `spec_decode` says of the
/// remaining input.
#[verifier::loop_isolation(false)]
#[verifier::rlimit(100)]
fn decode_at(bytes: &[u8], from: usize) -> (r: Result<(BencodeValue, usize), ParseError>)
    requires
        from <= bytes@.len(),
    ensures
        ({
            let s = bytes@.skip(from as int);
            match r {
                Ok((v, next)) => from < next <= bytes@.len() && spec_decode(s) == Ok::<
                    (SpecValue, Seq<u8>),
                    ParseError,
                >((v@, bytes@.skip(next as int))),
                Err(e) => spec_decode(s) == Err::<(SpecValue, Seq<u8>), ParseError>(e),
            }
        }),
    decreases bytes@.len() - from,
{
    proof {
        vstd::slice::axiom_spec_len(bytes);
    }
    let ghost s = bytes@.skip(from as int);
    if from == bytes.len() {
        return Err(ParseError::Truncated);
    }
    let b0 = bytes[from];
    if b0 == INT_TAG {
        let p0 = from + 1;
        proof {
            assert(s.drop_first() =~= bytes@.skip(p0 as int));
        }
        let ghost ds0 = bytes@.skip(p0 as int);
        let neg = p0 < bytes.len() && bytes[p0] == MINUS;
        let dstart = if neg {
            p0 + 1
        } else {
            p0
        };
        proof {
            if neg {
                assert(ds0.drop_first() =~= bytes@.skip(dstart as int));
            }
        }
        let ghost ds = bytes@.skip(dstart as int);
        let k = scan_digits(bytes, dstart);
        if k == 0 {
            if dstart == bytes.len() {
                return Err(ParseError::Truncated);
            }
            return Err(ParseError::InvalidInteger);
        }
        if dstart + k == bytes.len() {
            return Err(ParseError::Truncated);
        }
        if bytes[dstart + k] != END_TAG {
            return Err(ParseError::InvalidInteger);
        }
        proof {
            assert(ds.take(k as int) =~= bytes@.subrange(dstart as int, (dstart + k) as int));
        }
        match digits_value(bytes, dstart, k) {
            None => {
                return Err(ParseError::InvalidInteger);
            },
            Some(mag) => {
                proof {
                    assert(ds.skip(k as int + 1) =~= bytes@.skip((dstart + k + 1) as int));
                }
                if neg {
                    if mag <= 9223372036854775808u64 {
                        let val = if mag == 9223372036854775808u64 {
                            i64::MIN
                        } else {
                            -(mag as i64)
                        };
                        return Ok((BencodeValue::Integer(val), dstart + k + 1));
                    }
                    return Err(ParseError::InvalidInteger);
                }
                if mag <= i64::MAX as u64 {
                    return Ok((BencodeValue::Integer(mag as i64), dstart + k + 1));
                }
                return Err(ParseError::InvalidInteger);
            },
        }
    } else if DIGIT_LO <= b0 && b0 <= DIGIT_HI {
        let k = scan_digits(bytes, from);
        if from + k == bytes.len() {
            return Err(ParseError::Truncated);
        }
        if bytes[from + k] != COLON {
            return Err(ParseError::UnexpectedToken);
        }
        let body_start = from + k + 1;
        let remaining = bytes.len() - body_start;
        proof {
            assert(s.take(k as int) =~= bytes@.subrange(from as int, (from + k) as int));
            assert(s.skip(k as int + 1) =~= bytes@.skip(body_start as int));
        }
        match digits_value(bytes, from, k) {
            None => {
                // A length beyond `u64` certainly exceeds what is left.
                return Err(ParseError::Truncated);
            },
            Some(lv) => {
                if lv > remaining as u64 {
                    return Err(ParseError::Truncated);
                }
                let blen = lv as usize;
                let mut b: Vec<u8> = Vec::new();
                let mut i: usize = 0;
                while i < blen
                    invariant
                        i <= blen,
                        body_start + blen <= bytes@.len(),
                        b@ == bytes@.subrange(body_start as int, (body_start + i) as int),
                    decreases blen - i,
                {
                    b.push(bytes[body_start + i]);
                    proof {
                        assert(b@ =~= bytes@.subrange(
                            body_start as int,
                            (body_start + i + 1) as int,
                        ));
                    }
                    i = i + 1;
                }
                proof {
                    assert(b@ =~= bytes@.skip(body_start as int).take(lv as int));
                    assert(bytes@.skip(body_start as int).skip(lv as int) =~= bytes@.skip(
                        (body_start + blen) as int,
                    ));
                }
                return Ok((BencodeValue::ByteString(b), body_start + blen));
            },
        }
    } else if b0 == LIST_TAG {
        let mut elems: Vec<BencodeValue> = Vec::new();
        let mut cur = from + 1;
        proof {
            assert(s.drop_first() =~= bytes@.skip((from + 1) as int));
            assert(view_elems(elems@) =~= Seq::<SpecValue>::empty());
        }
        loop
            invariant
                from < cur <= bytes@.len(),
                ({
                    let tgt = spec_decode_list(bytes@.skip((from + 1) as int));
                    match spec_decode_list(bytes@.skip(cur as int)) {
                        Ok((tail, rest)) => tgt == Ok::<(Seq<SpecValue>, Seq<u8>), ParseError>(
                            (view_elems(elems@) + tail, rest),
                        ),
                        Err(e) => tgt == Err::<(Seq<SpecValue>, Seq<u8>), ParseError>(e),
                    }
                }),
            decreases bytes@.len() - cur,
        {
            if cur == bytes.len() {
                return Err(ParseError::Truncated);
            }
            if bytes[cur] == END_TAG {
                proof {
                    let scur = bytes@.skip(cur as int);
                    assert(scur.drop_first() =~= bytes@.skip((cur + 1) as int));
                    assert(view_elems(elems@) + Seq::<SpecValue>::empty() =~= view_elems(elems@));
                }
                return Ok((BencodeValue::List(elems), cur + 1));
            }
            match decode_at(bytes, cur) {
                Err(e) => {
                    return Err(e);
                },
                Ok((v, next)) => {
                    proof {
                        let scur = bytes@.skip(cur as int);
                        let snext = bytes@.skip(next as int);
                        lemma_view_elems_snoc(elems@, v);
                        match spec_decode_list(snext) {
                            Ok((t2, r2)) => {
                                assert(spec_decode_list(scur) == Ok::<
                                    (Seq<SpecValue>, Seq<u8>),
                                    ParseError,
                                >((seq![v@] + t2, r2)));
                                assert(view_elems(elems@) + (seq![v@] + t2) =~= view_elems(
                                    elems@.push(v),
                                ) + t2);
                            },
                            Err(e2) => {
                                assert(spec_decode_list(scur) == Err::<
                                    (Seq<SpecValue>, Seq<u8>),
                                    ParseError,
                                >(e2));
                            },
                        }
                    }
                    elems.push(v);
                    cur = next;
                },
            }
        }
    } else if b0 == DICT_TAG {
        let mut entries: Vec<(Vec<u8>, BencodeValue)> = Vec::new();
        let mut cur = from + 1;
        proof {
            assert(s.drop_first() =~= bytes@.skip((from + 1) as int));
            assert(view_entries(entries@) =~= Seq::<(Seq<u8>, SpecValue)>::empty());
        }
        loop
            invariant
                from < cur <= bytes@.len(),
                ({
                    let tgt = spec_decode_dict(bytes@.skip((from + 1) as int));
                    match spec_decode_dict(bytes@.skip(cur as int)) {
                        Ok((tail, rest)) => tgt == Ok::<
                            (Seq<(Seq<u8>, SpecValue)>, Seq<u8>),
                            ParseError,
                        >((view_entries(entries@) + tail, rest)),
                        Err(e) => tgt == Err::<(Seq<(Seq<u8>, SpecValue)>, Seq<u8>), ParseError>(e),
                    }
                }),
            decreases bytes@.len() - cur,
        {
            if cur == bytes.len() {
                return Err(ParseError::Truncated);
            }
            if bytes[cur] == END_TAG {
                proof {
                    let scur = bytes@.skip(cur as int);
                    assert(scur.drop_first() =~= bytes@.skip((cur + 1) as int));
                    assert(view_entries(entries@) + Seq::<(Seq<u8>, SpecValue)>::empty()
                        =~= view_entries(entries@));
                }
                return Ok((BencodeValue::Dict(entries), cur + 1));
            }
            match decode_at(bytes, cur) {
                Err(e) => {
                    return Err(e);
                },
                Ok((kv, n1)) => {
                    let ghost kvv = kv@;
                    let kb = match kv {
                        BencodeValue::ByteString(b) => b,
                        _ => {
                            return Err(ParseError::NonStringKey);
                        },
                    };
                    match decode_at(bytes, n1) {
                        Err(e) => {
                            return Err(e);
                        },
                        Ok((vv, n2)) => {
                            proof {
                                let scur = bytes@.skip(cur as int);
                                let sn2 = bytes@.skip(n2 as int);
                                lemma_view_entries_snoc(entries@, kb, vv);
                                match spec_decode_dict(sn2) {
                                    Ok((t2, r2)) => {
                                        assert(spec_decode_dict(scur) == Ok::<
                                            (Seq<(Seq<u8>, SpecValue)>, Seq<u8>),
                                            ParseError,
                                        >((seq![(kb@, vv@)] + t2, r2)));
                                        assert(view_entries(entries@) + (seq![(kb@, vv@)] + t2)
                                            =~= view_entries(entries@.push((kb, vv))) + t2);
                                    },
                                    Err(e2) => {
                                        assert(spec_decode_dict(scur) == Err::<
                                            (Seq<(Seq<u8>, SpecValue)>, Seq<u8>),
                                            ParseError,
                                        >(e2));
                                    },
                                }
                            }
                            entries.push((kb, vv));
                            cur = n2;
                        },
                    }
                },
            }
        }
    } else {
        return Err(ParseError::UnexpectedToken);
    }
}

/// The decimal digits of `n` are nonempty ASCII digits whose value is `n`.
pub proof fn lemma_dec_digits_props(n: nat)
    ensures
        spec_dec_digits(n).len() >= 1,
        forall|i: int|
            0 <= i < spec_dec_digits(n).len() ==> is_digit(#[trigger] spec_dec_digits(n)[i]),
        digits_val(spec_dec_digits(n)) == n,
    decreases n,
{
    if n < 10 {
        assert(digits_val(spec_dec_digits(n).drop_last()) == 0) by {
            assert(spec_dec_digits(n).drop_last() =~= Seq::<u8>::empty());
        }
    } else {
        lemma_dec_digits_props(n / 10);
        let dd = spec_dec_digits(n);
        let hd = spec_dec_digits(n / 10);
        assert(dd.drop_last() =~= hd);
        assert(dd.last() == (DIGIT_LO + n % 10) as u8);
        vstd::arithmetic::div_mod::lemma_fundamental_div_mod(n as int, 10);
    }
}

/// A run of digits followed by a non-digit scans to exactly the run.
pub proof fn lemma_digit_run_concat(ds: Seq<u8>, suffix: Seq<u8>)
    requires
        forall|i: int| 0 <= i < ds.len() ==> is_digit(#[trigger] ds[i]),
        suffix.len() == 0 || !is_digit(suffix[0]),
    ensures
        digit_run(ds + suffix) == ds.len(),
{
    lemma_digit_run_split(ds + suffix, ds.len() as int);
}

/// Every encoding is at least two bytes long.
pub proof fn lemma_encode_min_len(v: SpecValue)
    ensures
        spec_encode(v).len() >= 2,
{
    match v {
        SpecValue::Integer(i) => {
            if i < 0 {
                lemma_dec_digits_props((-i) as nat);
            } else {
                lemma_dec_digits_props(i as nat);
            }
        },
        SpecValue::ByteString(b) => {
            lemma_dec_digits_props(b.len());
        },
        SpecValue::List(elems) => {},
        SpecValue::Dict(entries) => {},
    }
}

/// Decoding inverts the encoding of one byte string.
pub proof fn lemma_bstr_round_trip(b: Seq<u8>, rest: Seq<u8>)
    ensures
        spec_decode_bstr(spec_encode_bytes(b) + rest) == Ok::<(SpecValue, Seq<u8>), ParseError>(
            (SpecValue::ByteString(b), rest),
        ),
        is_digit((spec_encode_bytes(b) + rest)[0]),
{
    let dd = spec_dec_digits(b.len());
    let s = spec_encode_bytes(b) + rest;
    lemma_dec_digits_props(b.len());
    assert(s =~= dd + (seq![COLON] + b + rest));
    lemma_digit_run_concat(dd, seq![COLON] + b + rest);
    let k = dd.len() as int;
    assert(s[k] == COLON);
    assert(s.take(k) =~= dd);
    assert(s.skip(k + 1) =~= b + rest);
    assert((b + rest).take(b.len() as int) =~= b);
    assert((b + rest).skip(b.len() as int) =~= rest);
}

/// Decoding inverts the encoding of one integer literal.
pub proof fn lemma_int_round_trip(i: int, rest: Seq<u8>)
    requires
        i64::MIN <= i <= i64::MAX,
    ensures
        spec_decode_int(spec_int_literal(i) + seq![END_TAG] + rest) == Ok::<
            (SpecValue, Seq<u8>),
            ParseError,
        >((SpecValue::Integer(i), rest)),
{
    let ds0 = spec_int_literal(i) + seq![END_TAG] + rest;
    if i < 0 {
        let dd = spec_dec_digits((-i) as nat);
        lemma_dec_digits_props((-i) as nat);
        assert(ds0[0] == MINUS);
        assert(!is_digit(MINUS));
        let ds = ds0.drop_first();
        assert(ds =~= dd + (seq![END_TAG] + rest));
        lemma_digit_run_concat(dd, seq![END_TAG] + rest);
        let k = dd.len() as int;
        assert(ds[k] == END_TAG);
        assert(ds.take(k) =~= dd);
        assert(ds.skip(k + 1) =~= rest);
    } else {
        let dd = spec_dec_digits(i as nat);
        lemma_dec_digits_props(i as nat);
        assert(ds0 =~= dd + (seq![END_TAG] + rest));
        assert(is_digit(ds0[0]));
        assert(ds0[0] != MINUS);
        lemma_digit_run_concat(dd, seq![END_TAG] + rest);
        let k = dd.len() as int;
        assert(ds0[k] == END_TAG);
        assert(ds0.take(k) =~= dd);
        assert(ds0.skip(k + 1) =~= rest);
    }
}

/// Decoding inverts encoding: appended to any remainder, the canonical
/// bytes of a well-formed value decode back to that value with exactly
/// the remainder left over.
#[verifier::rlimit(60)]
pub proof fn lemma_round_trip_with_rest(v: SpecValue, rest: Seq<u8>)
    requires
        wf_value(v),
    ensures
        spec_decode(spec_encode(v) + rest) == Ok::<(SpecValue, Seq<u8>), ParseError>((v, rest)),
    decreases v,
{
    let s = spec_encode(v) + rest;
    match v {
        SpecValue::Integer(i) => {
            assert(s[0] == INT_TAG);
            assert(s.drop_first() =~= spec_int_literal(i) + seq![END_TAG] + rest);
            lemma_int_round_trip(i, rest);
        },
        SpecValue::ByteString(b) => {
            lemma_bstr_round_trip(b, rest);
            assert(!(s[0] == INT_TAG));
        },
        SpecValue::List(elems) => {
            assert(s[0] == LIST_TAG);
            assert(s.drop_first() =~= spec_encode_elems(elems) + seq![END_TAG] + rest);
            assert(decreases_to!(v => v->List_0));
            lemma_round_trip_elems(elems, rest);
        },
        SpecValue::Dict(entries) => {
            assert(s[0] == DICT_TAG);
            assert(s.drop_first() =~= spec_encode_entries(entries) + seq![END_TAG] + rest);
            assert(decreases_to!(v => v->Dict_0));
            lemma_round_trip_entries(entries, rest);
        },
    }
}

#[verifier::rlimit(60)]
proof fn lemma_round_trip_elems(elems: Seq<SpecValue>, rest: Seq<u8>)
    requires
        forall|i: int| 0 <= i < elems.len() ==> wf_value(#[trigger] elems[i]),
    ensures
        spec_decode_list(spec_encode_elems(elems) + seq![END_TAG] + rest) == Ok::<
            (Seq<SpecValue>, Seq<u8>),
            ParseError,
        >((elems, rest)),
    decreases elems,
{
    let s = spec_encode_elems(elems) + seq![END_TAG] + rest;
    if elems.len() == 0 {
        assert(s =~= seq![END_TAG] + rest);
        assert(s[0] == END_TAG);
        assert(s.drop_first() =~= rest);
        assert(Seq::<SpecValue>::empty() =~= elems);
    } else {
        let v0 = elems[0];
        let tail = elems.drop_first();
        let rest1 = spec_encode_elems(tail) + seq![END_TAG] + rest;
        assert(s =~= spec_encode(v0) + rest1);
        lemma_encode_min_len(v0);
        assert(s[0] == spec_encode(v0)[0]);
        assert(s[0] != END_TAG) by {
            lemma_encode_first_byte(v0);
        }
        lemma_round_trip_with_rest(v0, rest1);
        lemma_round_trip_elems(tail, rest);
        assert(rest1.len() < s.len());
        assert(seq![v0] + tail =~= elems);
    }
}

#[verifier::rlimit(60)]
proof fn lemma_round_trip_entries(entries: Seq<(Seq<u8>, SpecValue)>, rest: Seq<u8>)
    requires
        forall|i: int| 0 <= i < entries.len() ==> wf_value(#[trigger] entries[i].1),
    ensures
        spec_decode_dict(spec_encode_entries(entries) + seq![END_TAG] + rest) == Ok::<
            (Seq<(Seq<u8>, SpecValue)>, Seq<u8>),
            ParseError,
        >((entries, rest)),
    decreases entries,
{
    let s = spec_encode_entries(entries) + seq![END_TAG] + rest;
    if entries.len() == 0 {
        assert(s =~= seq![END_TAG] + rest);
        assert(s[0] == END_TAG);
        assert(s.drop_first() =~= rest);
        assert(Seq::<(Seq<u8>, SpecValue)>::empty() =~= entries);
    } else {
        let k0 = entries[0].0;
        let v0 = entries[0].1;
        let tail = entries.drop_first();
        let rest2 = spec_encode_entries(tail) + seq![END_TAG] + rest;
        let rest1 = spec_encode(v0) + rest2;
        assert(s =~= spec_encode_bytes(k0) + (rest1));
        lemma_bstr_round_trip(k0, rest1);
        assert(s[0] != END_TAG);
        assert(!(s[0] == INT_TAG));
        assert(spec_decode(s) == Ok::<(SpecValue, Seq<u8>), ParseError>((
            SpecValue::ByteString(k0),
            rest1,
        )));
        lemma_dec_digits_props(k0.len());
        assert(rest1.len() < s.len());
        assert(decreases_to!(entries => entries[0]));
        assert(decreases_to!(entries[0] => entries[0].1));
        lemma_round_trip_with_rest(v0, rest2);
        lemma_encode_min_len(v0);
        assert(rest2.len() < rest1.len());
        lemma_round_trip_entries(tail, rest);
        assert(seq![(k0, v0)] + tail =~= entries);
    }
}

/// The first byte of an encoding is never the terminator `e`.
pub proof fn lemma_encode_first_byte(v: SpecValue)
    ensures
        spec_encode(v).len() >= 1,
        spec_encode(v)[0] != END_TAG,
{
    match v {
        SpecValue::Integer(i) => {},
        SpecValue::ByteString(b) => {
            lemma_dec_digits_props(b.len());
            assert(spec_encode(v)[0] == spec_dec_digits(b.len())[0]);
        },
        SpecValue::List(elems) => {},
        SpecValue::Dict(entries) => {},
    }
}

/// Every value an executable tree can denote is well formed.
pub proof fn lemma_view_wf(v: BencodeValue)
    ensures
        wf_value(v@),
    decreases v,
{
    match v {
        BencodeValue::Integer(_) => {},
        BencodeValue::ByteString(_) => {},
        BencodeValue::List(elems) => {
            lemma_view_elems_len(elems@);
            assert forall|i: int| 0 <= i < view_elems(elems@).len() implies wf_value(
                #[trigger] view_elems(elems@)[i],
            ) by {
                lemma_view_elems_index(elems@, i);
                assert(decreases_to!(v => v->List_0@[i]));
                lemma_view_wf(elems@[i]);
            }
        },
        BencodeValue::Dict(entries) => {
            lemma_view_entries_len(entries@);
            assert forall|i: int| 0 <= i < view_entries(entries@).len() implies wf_value(
                #[trigger] view_entries(entries@)[i].1,
            ) by {
                lemma_view_entries_index(entries@, i);
                assert(decreases_to!(v => v->Dict_0@[i].1));
                lemma_view_wf(entries@[i].1);
            }
        },
    }
}

/// The round-trip law: decoding the canonical encoding of any
/// well-formed value tree yields that tree back, with nothing left over.
pub proof fn lemma_round_trip(v: SpecValue)
    requires
        wf_value(v),
    ensures
        spec_decode(spec_encode(v)) == Ok::<(SpecValue, Seq<u8>), ParseError>((
            v,
            Seq::<u8>::empty(),
        )),
{
    assert(spec_encode(v) + Seq::<u8>::empty() =~= spec_encode(v));
    lemma_round_trip_with_rest(v, Seq::empty());
}

/// The round-trip law over constructible trees: every value an
/// executable tree can hold decodes back from its own encoding.
pub proof fn lemma_round_trip_tree(v: BencodeValue)
    ensures
        spec_decode(spec_encode(v@)) == Ok::<(SpecValue, Seq<u8>), ParseError>((
            v@,
            Seq::<u8>::empty(),
        )),
{
    lemma_view_wf(v);
    lemma_round_trip(v@);
}

/// Decodes the first bencoded value in `bytes`, returning it with the
/// number of bytes consumed; the remainder starts at that index.
pub fn decode(bytes: &[u8]) -> (r: Result<(BencodeValue, usize), ParseError>)
    ensures
        match r {
            Ok((v, n)) => 0 < n <= bytes@.len() && spec_decode(bytes@) == Ok::<
                (SpecValue, Seq<u8>),
                ParseError,
            >((v@, bytes@.skip(n as int))),
            Err(e) => spec_decode(bytes@) == Err::<(SpecValue, Seq<u8>), ParseError>(e),
        },
{
    proof {
        assert(bytes@.skip(0) =~= bytes@);
    }
    decode_at(bytes, 0)
}

/// Encodes a value tree to its canonical bencoded bytes.
pub fn encode(v: &BencodeValue) -> (r: Vec<u8>)
    ensures
        r@ == spec_encode(v@),
{
    let mut out: Vec<u8> = Vec::new();
    encode_into(v, &mut out);
    out
}

} // verus!
