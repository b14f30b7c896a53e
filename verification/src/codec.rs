//! The uniform encoding: every value is laid out as one canonical,
//! self-describing line of text (a JSON-shaped byte sequence with no
//! whitespace, lowercase hex escapes, and no leading zeros), and decoding
//! accepts exactly the sequences that encoding produces.

use vstd::prelude::*;

use crate::value::SpecValue;

verus! {

pub open spec fn is_digit(c: u8) -> bool {
    0x30 <= c <= 0x39
}

/// The lowercase hex digit for a value below sixteen.
pub open spec fn hex_digit(n: int) -> u8 {
    if n < 10 {
        (0x30 + n) as u8
    } else {
        (0x57 + n) as u8
    }
}

pub open spec fn is_hex_lower(c: u8) -> bool {
    is_digit(c) || 0x61 <= c <= 0x66
}

pub open spec fn hex_val(c: u8) -> int {
    if is_digit(c) {
        c - 0x30
    } else {
        c - 0x57
    }
}

/// Bytes that cannot stand raw inside an encoded string: the quote, the
/// backslash, and control bytes.
pub open spec fn must_escape(c: u8) -> bool {
    c == 0x22 || c == 0x5c || c < 0x20
}

/// How one string byte is laid out: raw, or as a six-byte lowercase escape.
pub open spec fn esc_byte(c: u8) -> Seq<u8> {
    if must_escape(c) {
        seq![0x5cu8, 0x75u8, 0x30u8, 0x30u8, hex_digit(c as int / 16), hex_digit(c as int % 16)]
    } else {
        seq![c]
    }
}

pub open spec fn esc_bytes(s: Seq<u8>) -> Seq<u8>
    decreases s.len(),
{
    if s.len() == 0 {
        Seq::empty()
    } else {
        esc_byte(s[0]) + esc_bytes(s.drop_first())
    }
}

/// The decimal digits of a nonnegative integer, most significant first.
pub open spec fn dec_digits(n: int) -> Seq<u8>
    decreases n,
{
    if n < 10 {
        seq![(0x30 + if n >= 0 { n } else { 0 }) as u8]
    } else {
        dec_digits(n / 10).push((0x30 + n % 10) as u8)
    }
}

/// The canonical decimal layout of an integer, with a sign for negatives.
pub open spec fn int_bytes(i: int) -> Seq<u8> {
    if i < 0 {
        seq![0x2du8] + dec_digits(-i)
    } else {
        dec_digits(i)
    }
}

/// The canonical encoding of a value.
pub open spec fn json_of(v: SpecValue) -> Seq<u8>
    decreases v, 0int,
{
    match v {
        SpecValue::Null => seq![0x6eu8, 0x75u8, 0x6cu8, 0x6cu8],
        SpecValue::Bool(t) => if t {
            seq![0x74u8, 0x72u8, 0x75u8, 0x65u8]
        } else {
            seq![0x66u8, 0x61u8, 0x6cu8, 0x73u8, 0x65u8]
        },
        SpecValue::Int(i) => int_bytes(i),
        SpecValue::Str(s) => seq![0x22u8] + esc_bytes(s) + seq![0x22u8],
        SpecValue::Arr(items) => seq![0x5bu8] + arr_bytes(items) + seq![0x5du8],
        SpecValue::Obj(pairs) => seq![0x7bu8] + obj_bytes(pairs) + seq![0x7du8],
    }
}

/// The comma-separated encodings of the elements of an array.
pub open spec fn arr_bytes(items: Seq<SpecValue>) -> Seq<u8>
    decreases items, 1int,
{
    if items.len() == 0 {
        Seq::empty()
    } else if items.len() == 1 {
        json_of(items[0])
    } else {
        json_of(items[0]) + seq![0x2cu8] + arr_bytes(items.drop_first())
    }
}

/// The comma-separated `"key":value` encodings of the fields of an object.
pub open spec fn obj_bytes(pairs: Seq<(Seq<u8>, SpecValue)>) -> Seq<u8>
    decreases pairs, 1int,
{
    if pairs.len() == 0 {
        Seq::empty()
    } else {
        let head = seq![0x22u8] + esc_bytes(pairs[0].0) + seq![0x22u8, 0x3au8] + json_of(
            pairs[0].1,
        );
        if pairs.len() == 1 {
            head
        } else {
            head + seq![0x2cu8] + obj_bytes(pairs.drop_first())
        }
    }
}

/// Where the run of decimal digits that starts at `pos` ends.
pub open spec fn digit_run_end(b: Seq<u8>, pos: int) -> int
    decreases b.len() - pos,
{
    if pos < b.len() && is_digit(b[pos]) {
        digit_run_end(b, pos + 1)
    } else {
        pos
    }
}

/// The value of a sequence of decimal digits.
pub open spec fn dec_val(ds: Seq<u8>) -> int
    decreases ds.len(),
{
    if ds.len() == 0 {
        0
    } else {
        dec_val(ds.drop_last()) * 10 + (ds.last() - 0x30)
    }
}

/// Decoding of a number that starts at `pos`: an optional sign, then a
/// maximal digit run in canonical form, within the range of an `i64`.
pub open spec fn sp_number(b: Seq<u8>, pos: int) -> Option<(SpecValue, int)> {
    let neg = pos < b.len() && b[pos] == 0x2d;
    let dpos = if neg {
        pos + 1
    } else {
        pos
    };
    let end = digit_run_end(b, dpos);
    let run = b.subrange(dpos, end);
    if end <= b.len() && 1 <= run.len() <= 19 && (run.len() == 1 || run[0] != 0x30) {
        let m = dec_val(run);
        if neg && m == 0 {
            None
        } else {
            let v: int = if neg {
                -m
            } else {
                m
            };
            if i64::MIN <= v <= i64::MAX {
                Some((SpecValue::Int(v), end))
            } else {
                None
            }
        }
    } else {
        None
    }
}

/// Decoding of a string body after its opening quote: raw bytes and
/// canonical escapes up to the closing quote.
pub open spec fn sp_str_body(b: Seq<u8>, pos: int) -> Option<(Seq<u8>, int)>
    decreases b.len() - pos,
{
    if pos < b.len() {
        let c = b[pos];
        if c == 0x22 {
            Some((Seq::empty(), pos + 1))
        } else if c == 0x5c {
            if pos + 6 <= b.len() && b[pos + 1] == 0x75 && b[pos + 2] == 0x30 && b[pos + 3] == 0x30
                && is_hex_lower(b[pos + 4]) && is_hex_lower(b[pos + 5]) {
                let d = (hex_val(b[pos + 4]) * 16 + hex_val(b[pos + 5])) as u8;
                if must_escape(d) {
                    match sp_str_body(b, pos + 6) {
                        Some((rest, end)) => Some((seq![d] + rest, end)),
                        None => None,
                    }
                } else {
                    None
                }
            } else {
                None
            }
        } else if must_escape(c) {
            None
        } else {
            match sp_str_body(b, pos + 1) {
                Some((rest, end)) => Some((seq![c] + rest, end)),
                None => None,
            }
        }
    } else {
        None
    }
}

/// Decoding of one value that starts at `pos`: returns the value and the
/// position just past it. This is the whole meaning of the wire format;
/// encoding and decoding are proved against it.
pub open spec fn sp_value(b: Seq<u8>, pos: int) -> Option<(SpecValue, int)>
    decreases b.len() - pos, 0int,
{
    if pos < 0 || pos >= b.len() {
        None
    } else {
        let c = b[pos];
        if c == 0x6e {
            if pos + 4 <= b.len() && b[pos + 1] == 0x75 && b[pos + 2] == 0x6c && b[pos + 3]
                == 0x6c {
                Some((SpecValue::Null, pos + 4))
            } else {
                None
            }
        } else if c == 0x74 {
            if pos + 4 <= b.len() && b[pos + 1] == 0x72 && b[pos + 2] == 0x75 && b[pos + 3]
                == 0x65 {
                Some((SpecValue::Bool(true), pos + 4))
            } else {
                None
            }
        } else if c == 0x66 {
            if pos + 5 <= b.len() && b[pos + 1] == 0x61 && b[pos + 2] == 0x6c && b[pos + 3] == 0x73
                && b[pos + 4] == 0x65 {
                Some((SpecValue::Bool(false), pos + 5))
            } else {
                None
            }
        } else if c == 0x22 {
            match sp_str_body(b, pos + 1) {
                Some((s, end)) => Some((SpecValue::Str(s), end)),
                None => None,
            }
        } else if c == 0x5b {
            if pos + 1 < b.len() && b[pos + 1] == 0x5d {
                Some((SpecValue::Arr(Seq::empty()), pos + 2))
            } else {
                match sp_arr_items(b, pos + 1) {
                    Some((items, end)) => Some((SpecValue::Arr(items), end)),
                    None => None,
                }
            }
        } else if c == 0x7b {
            if pos + 1 < b.len() && b[pos + 1] == 0x7d {
                Some((SpecValue::Obj(Seq::empty()), pos + 2))
            } else {
                match sp_obj_items(b, pos + 1) {
                    Some((pairs, end)) => Some((SpecValue::Obj(pairs), end)),
                    None => None,
                }
            }
        } else if c == 0x2d || is_digit(c) {
            sp_number(b, pos)
        } else {
            None
        }
    }
}

/// Decoding of the elements of a nonempty array, up to and past the `]`.
pub open spec fn sp_arr_items(b: Seq<u8>, pos: int) -> Option<(Seq<SpecValue>, int)>
    decreases b.len() - pos, 1int,
{
    match sp_value(b, pos) {
        Some((v, p2)) => if pos < p2 && p2 < b.len() {
            if b[p2] == 0x2c {
                match sp_arr_items(b, p2 + 1) {
                    Some((rest, end)) => Some((seq![v] + rest, end)),
                    None => None,
                }
            } else if b[p2] == 0x5d {
                Some((seq![v], p2 + 1))
            } else {
                None
            }
        } else {
            None
        },
        None => None,
    }
}

/// Decoding of the fields of a nonempty object, up to and past the `}`.
pub open spec fn sp_obj_items(b: Seq<u8>, pos: int) -> Option<(Seq<(Seq<u8>, SpecValue)>, int)>
    decreases b.len() - pos, 1int,
{
    if pos < b.len() && b[pos] == 0x22 {
        match sp_str_body(b, pos + 1) {
            Some((k, p1)) => if pos < p1 && p1 < b.len() && b[p1] == 0x3a {
                match sp_value(b, p1 + 1) {
                    Some((v, p2)) => if p1 < p2 && p2 < b.len() {
                        if b[p2] == 0x2c {
                            match sp_obj_items(b, p2 + 1) {
                                Some((rest, end)) => Some((seq![(k, v)] + rest, end)),
                                None => None,
                            }
                        } else if b[p2] == 0x7d {
                            Some((seq![(k, v)], p2 + 1))
                        } else {
                            None
                        }
                    } else {
                        None
                    },
                    None => None,
                }
            } else {
                None
            },
            None => None,
        }
    } else {
        None
    }
}

} // verus!

verus! {

use crate::value::Value;
use crate::value::views_of_list;
use crate::value::views_of_pairs;
use crate::value::view_of;

/// Ten to the power `n`.
pub open spec fn pow10(n: int) -> int
    decreases n,
{
    if n <= 0 {
        1
    } else {
        10 * pow10(n - 1)
    }
}

pub open spec fn all_digits(ds: Seq<u8>) -> bool {
    forall|j: int| 0 <= j < ds.len() ==> is_digit(#[trigger] ds[j])
}

/// The decimal digits of a nonnegative integer are digits, there is at
/// least one, the first is nonzero unless the number is zero, and their
/// value is the number again.
pub proof fn lemma_dec_digits(n: int)
    requires
        n >= 0,
    ensures
        all_digits(dec_digits(n)),
        dec_digits(n).len() >= 1,
        dec_val(dec_digits(n)) == n,
        dec_digits(n)[0] == 0x30 <==> n == 0,
    decreases n,
{
    if n < 10 {
        let ds = dec_digits(n);
        assert(ds == seq![(0x30 + n) as u8]);
        assert(ds.drop_last() =~= Seq::<u8>::empty());
        assert(dec_val(ds) == dec_val(ds.drop_last()) * 10 + (ds.last() - 0x30));
    } else {
        lemma_dec_digits(n / 10);
        let front = dec_digits(n / 10);
        let ds = dec_digits(n);
        assert(ds == front.push((0x30 + n % 10) as u8));
        assert(ds.drop_last() =~= front);
        assert(dec_val(ds) == dec_val(front) * 10 + (n % 10));
        assert(all_digits(ds)) by {
            assert(forall|j: int| 0 <= j < front.len() ==> ds[j] == #[trigger] front[j]);
        }
        assert(ds[0] == front[0]);
        assert(n / 10 > 0);
    }
}

/// A number below ten to the `k` has at most `k` digits.
pub proof fn lemma_dec_digits_len(n: int, k: int)
    requires
        n >= 0,
        k >= 1,
        n < pow10(k),
    ensures
        dec_digits(n).len() <= k,
    decreases k,
{
    if n < 10 {
    } else {
        assert(pow10(k) == 10 * pow10(k - 1));
        lemma_dec_digits_len(n / 10, k - 1);
    }
}

pub proof fn lemma_pow10_pos(n: int)
    ensures
        pow10(n) >= 1,
    decreases n,
{
    if n > 0 {
        lemma_pow10_pos(n - 1);
    }
}

pub proof fn lemma_pow10_mono(a: int, b: int)
    requires
        0 <= a <= b,
    ensures
        pow10(a) <= pow10(b),
    decreases b,
{
    if a < b {
        lemma_pow10_mono(a, b - 1);
        lemma_pow10_pos(b - 1);
    }
}

/// The lowercase hex digit for a value below sixteen.
fn hex_digit_exec(n: u8) -> (r: u8)
    requires
        n < 16,
    ensures
        r == hex_digit(n as int),
{
    if n < 10 {
        0x30 + n
    } else {
        0x57 + n
    }
}

/// Appends the decimal digits of `n`.
fn encode_nat(n: u64, out: &mut Vec<u8>)
    ensures
        final(out)@ == old(out)@ + dec_digits(n as int),
    decreases n,
{
    if n < 10 {
        out.push(0x30 + (n as u8));
        assert(out@ =~= old(out)@ + dec_digits(n as int));
    } else {
        encode_nat(n / 10, out);
        out.push(0x30 + ((n % 10) as u8));
        assert(out@ =~= old(out)@ + dec_digits(n as int));
    }
}

/// Appends the canonical decimal layout of `i`.
fn encode_int(i: i64, out: &mut Vec<u8>)
    ensures
        final(out)@ == old(out)@ + int_bytes(i as int),
{
    if i < 0 {
        out.push(0x2d);
        let mag: u64 = if i == i64::MIN {
            0x8000_0000_0000_0000u64
        } else {
            (-i) as u64
        };
        assert(mag as int == -(i as int));
        encode_nat(mag, out);
        assert(out@ =~= old(out)@ + int_bytes(i as int));
    } else {
        encode_nat(i as u64, out);
    }
}

/// Appends the escaped layout of the string bytes.
fn encode_str_body(s: &Vec<u8>, out: &mut Vec<u8>)
    ensures
        final(out)@ == old(out)@ + esc_bytes(s@),
{
    let n = s.len();
    proof {
        assert(s@.subrange(0, n as int) =~= s@);
    }
    for i in 0..n
        invariant
            n == s.len(),
            old(out)@ + esc_bytes(s@) == out@ + esc_bytes(s@.subrange(i as int, n as int)),
    {
        let c = s[i];
        let ghost entered = out@;
        if c == 0x22 || c == 0x5c || c < 0x20 {
            out.push(0x5c);
            out.push(0x75);
            out.push(0x30);
            out.push(0x30);
            out.push(hex_digit_exec(c / 16));
            out.push(hex_digit_exec(c % 16));
        } else {
            out.push(c);
        }
        proof {
            let sub = s@.subrange(i as int, n as int);
            assert(sub[0] == c);
            assert(sub.drop_first() =~= s@.subrange(i + 1, n as int));
            assert(esc_bytes(sub) == esc_byte(c) + esc_bytes(sub.drop_first()));
            assert(out@ =~= entered + esc_byte(c));
            assert(old(out)@ + esc_bytes(s@) =~= out@ + esc_bytes(s@.subrange(i + 1, n as int)));
        }
    }
    proof {
        assert(s@.subrange(n as int, n as int) =~= Seq::<u8>::empty());
        assert(out@ =~= old(out)@ + esc_bytes(s@));
    }
}

/// Appends the canonical encoding of `v`. This is the store's encoder; its
/// output is exactly `json_of` of the value's model.
pub fn encode_value(v: &Value, out: &mut Vec<u8>)
    ensures
        final(out)@ == old(out)@ + json_of(v@),
    decreases v, 0int,
{
    match v {
        Value::Null => {
            out.push(0x6e);
            out.push(0x75);
            out.push(0x6c);
            out.push(0x6c);
            assert(out@ =~= old(out)@ + json_of(v@));
        }
        Value::Bool(t) => {
            if *t {
                out.push(0x74);
                out.push(0x72);
                out.push(0x75);
                out.push(0x65);
            } else {
                out.push(0x66);
                out.push(0x61);
                out.push(0x6c);
                out.push(0x73);
                out.push(0x65);
            }
            assert(out@ =~= old(out)@ + json_of(v@));
        }
        Value::Int(i) => {
            encode_int(*i, out);
        }
        Value::Str(s) => {
            out.push(0x22);
            encode_str_body(s, out);
            out.push(0x22);
            proof {
                assert(out@ =~= old(out)@ + json_of(v@));
            }
        }
        Value::Arr(items) => {
            out.push(0x5b);
            if items.len() > 0 {
                encode_arr_items(items, out);
            }
            out.push(0x5d);
            proof {
                assert(out@ =~= old(out)@ + json_of(v@));
            }
        }
        Value::Obj(pairs) => {
            out.push(0x7b);
            if pairs.len() > 0 {
                encode_obj_items(pairs, out);
            }
            out.push(0x7d);
            proof {
                assert(out@ =~= old(out)@ + json_of(v@));
            }
        }
    }
}

/// Appends the comma-separated encodings of the array's elements.
fn encode_arr_items(items: &Vec<Value>, out: &mut Vec<u8>)
    requires
        items.len() > 0,
    ensures
        final(out)@ == old(out)@ + arr_bytes(views_of_list(items@)),
    decreases items@, 0int,
{
    let n = items.len();
    let ghost vs = views_of_list(items@);
    proof {
        crate::value::lemma_views_of_list(items@);
        assert(vs.subrange(0, n as int) =~= vs);
    }
    for i in 0..n
        invariant
            n == items.len(),
            n > 0,
            vs == views_of_list(items@),
            vs.len() == n,
            old(out)@ + arr_bytes(vs) == out@ + arr_bytes(vs.subrange(i as int, n as int)),
    {
        let ghost entered = out@;
        encode_value(&items[i], out);
        if i + 1 < n {
            out.push(0x2c);
        }
        proof {
            crate::value::lemma_views_of_list(items@);
            let sub = vs.subrange(i as int, n as int);
            assert(sub[0] == vs[i as int]);
            assert(vs[i as int] == view_of(items@[i as int]));
            assert(sub.drop_first() =~= vs.subrange(i + 1, n as int));
            if i + 1 < n {
                assert(arr_bytes(sub) == json_of(sub[0]) + seq![0x2cu8] + arr_bytes(
                    sub.drop_first(),
                ));
                assert(out@ =~= entered + json_of(sub[0]) + seq![0x2cu8]);
            } else {
                assert(sub.len() == 1);
                assert(arr_bytes(sub) == json_of(sub[0]));
                assert(vs.subrange(i + 1, n as int) =~= Seq::<SpecValue>::empty());
            }
            assert(old(out)@ + arr_bytes(vs) =~= out@ + arr_bytes(vs.subrange(i + 1, n as int)));
        }
    }
    proof {
        assert(vs.subrange(n as int, n as int) =~= Seq::<SpecValue>::empty());
        assert(out@ =~= old(out)@ + arr_bytes(vs));
    }
}

/// Appends the comma-separated `"key":value` encodings of the object's fields.
fn encode_obj_items(pairs: &Vec<(Vec<u8>, Value)>, out: &mut Vec<u8>)
    requires
        pairs.len() > 0,
    ensures
        final(out)@ == old(out)@ + obj_bytes(views_of_pairs(pairs@)),
    decreases pairs@, 0int,
{
    let n = pairs.len();
    let ghost vs = views_of_pairs(pairs@);
    proof {
        crate::value::lemma_views_of_pairs(pairs@);
        assert(vs.subrange(0, n as int) =~= vs);
    }
    for i in 0..n
        invariant
            n == pairs.len(),
            n > 0,
            vs == views_of_pairs(pairs@),
            vs.len() == n,
            old(out)@ + obj_bytes(vs) == out@ + obj_bytes(vs.subrange(i as int, n as int)),
    {
        let ghost entered = out@;
        out.push(0x22);
        encode_str_body(&pairs[i].0, out);
        out.push(0x22);
        out.push(0x3a);
        encode_value(&pairs[i].1, out);
        if i + 1 < n {
            out.push(0x2c);
        }
        proof {
            crate::value::lemma_views_of_pairs(pairs@);
            let sub = vs.subrange(i as int, n as int);
            assert(sub[0] == vs[i as int]);
            assert(vs[i as int] == (pairs@[i as int].0@, view_of(pairs@[i as int].1)));
            assert(sub.drop_first() =~= vs.subrange(i + 1, n as int));
            let head = seq![0x22u8] + esc_bytes(sub[0].0) + seq![0x22u8, 0x3au8] + json_of(
                sub[0].1,
            );
            if i + 1 < n {
                assert(obj_bytes(sub) == head + seq![0x2cu8] + obj_bytes(sub.drop_first()));
                assert(out@ =~= entered + head + seq![0x2cu8]);
            } else {
                assert(sub.len() == 1);
                assert(obj_bytes(sub) == head);
                assert(out@ =~= entered + head);
                assert(vs.subrange(i + 1, n as int) =~= Seq::<(Seq<u8>, SpecValue)>::empty());
            }
            assert(old(out)@ + obj_bytes(vs) =~= out@ + obj_bytes(vs.subrange(i + 1, n as int)));
        }
    }
    proof {
        assert(vs.subrange(n as int, n as int) =~= Seq::<(Seq<u8>, SpecValue)>::empty());
        assert(out@ =~= old(out)@ + obj_bytes(vs));
    }
}

} // verus!

verus! {

/// The digit run that starts at `pos` is made of digits and is maximal.
pub proof fn lemma_digit_run(b: Seq<u8>, pos: int)
    requires
        0 <= pos <= b.len(),
    ensures
        ({
            let end = digit_run_end(b, pos);
            &&& pos <= end <= b.len()
            &&& forall|j: int| pos <= j < end ==> is_digit(#[trigger] b[j])
            &&& (end == b.len() || !is_digit(b[end]))
        }),
    decreases b.len() - pos,
{
    if pos < b.len() && is_digit(b[pos]) {
        lemma_digit_run(b, pos + 1);
    }
}

/// A decoded string body ends past where it began, within the input.
pub proof fn lemma_sp_str_body_bounds(b: Seq<u8>, pos: int)
    ensures
        sp_str_body(b, pos) matches Some((s, end)) ==> pos < end <= b.len(),
    decreases b.len() - pos,
{
    if pos < b.len() {
        let c = b[pos];
        if c == 0x22 {
        } else if c == 0x5c {
            if pos + 6 <= b.len() {
                lemma_sp_str_body_bounds(b, pos + 6);
            }
        } else if !must_escape(c) {
            lemma_sp_str_body_bounds(b, pos + 1);
        }
    }
}

/// A decoded number ends past where it began, within the input.
pub proof fn lemma_sp_number_bounds(b: Seq<u8>, pos: int)
    requires
        0 <= pos <= b.len(),
    ensures
        sp_number(b, pos) matches Some((v, end)) ==> pos < end <= b.len(),
{
    let neg = pos < b.len() && b[pos] == 0x2d;
    let dpos = if neg {
        pos + 1
    } else {
        pos
    };
    lemma_digit_run(b, dpos);
}

/// A decoded value ends past where it began, within the input.
pub proof fn lemma_sp_value_bounds(b: Seq<u8>, pos: int)
    requires
        0 <= pos,
    ensures
        sp_value(b, pos) matches Some((v, end)) ==> pos < end <= b.len(),
    decreases b.len() - pos, 0int,
{
    if 0 <= pos < b.len() {
        let c = b[pos];
        if c == 0x22 {
            lemma_sp_str_body_bounds(b, pos + 1);
        } else if c == 0x5b {
            if !(pos + 1 < b.len() && b[pos + 1] == 0x5d) {
                lemma_sp_arr_items_bounds(b, pos + 1);
            }
        } else if c == 0x7b {
            if !(pos + 1 < b.len() && b[pos + 1] == 0x7d) {
                lemma_sp_obj_items_bounds(b, pos + 1);
            }
        } else if c == 0x2d || is_digit(c) {
            lemma_sp_number_bounds(b, pos);
        }
    }
}

/// Decoded array items end past where they began, within the input.
pub proof fn lemma_sp_arr_items_bounds(b: Seq<u8>, pos: int)
    requires
        0 <= pos,
    ensures
        sp_arr_items(b, pos) matches Some((items, end)) ==> pos < end <= b.len(),
    decreases b.len() - pos, 1int,
{
    lemma_sp_value_bounds(b, pos);
    match sp_value(b, pos) {
        Some((v, p2)) => {
            if pos < p2 && p2 < b.len() && b[p2] == 0x2c {
                lemma_sp_arr_items_bounds(b, p2 + 1);
            }
        }
        None => {}
    }
}

/// Decoded object fields end past where they began, within the input.
pub proof fn lemma_sp_obj_items_bounds(b: Seq<u8>, pos: int)
    requires
        0 <= pos,
    ensures
        sp_obj_items(b, pos) matches Some((pairs, end)) ==> pos < end <= b.len(),
    decreases b.len() - pos, 1int,
{
    if pos < b.len() && b[pos] == 0x22 {
        lemma_sp_str_body_bounds(b, pos + 1);
        match sp_str_body(b, pos + 1) {
            Some((k, p1)) => {
                if pos < p1 && p1 < b.len() && b[p1] == 0x3a {
                    lemma_sp_value_bounds(b, p1 + 1);
                    match sp_value(b, p1 + 1) {
                        Some((v, p2)) => {
                            if p1 < p2 && p2 < b.len() && b[p2] == 0x2c {
                                lemma_sp_obj_items_bounds(b, p2 + 1);
                            }
                        }
                        None => {}
                    }
                }
            }
            None => {}
        }
    }
}

fn is_hex_lower_exec(c: u8) -> (r: bool)
    ensures
        r == is_hex_lower(c),
{
    (0x30 <= c && c <= 0x39) || (0x61 <= c && c <= 0x66)
}

fn hex_val_exec(c: u8) -> (r: u8)
    requires
        is_hex_lower(c),
    ensures
        r as int == hex_val(c),
        r < 16,
{
    if c <= 0x39 {
        c - 0x30
    } else {
        c - 0x57
    }
}

/// Where the run of decimal digits that starts at `pos` ends.
fn digit_run_end_exec(b: &Vec<u8>, pos: usize) -> (r: usize)
    requires
        pos <= b.len(),
    ensures
        r as int == digit_run_end(b@, pos as int),
        pos <= r <= b.len(),
{
    let mut end = pos;
    while end < b.len() && 0x30 <= b[end] && b[end] <= 0x39
        invariant
            pos <= end <= b.len(),
            digit_run_end(b@, pos as int) == digit_run_end(b@, end as int),
        decreases b.len() - end,
    {
        end = end + 1;
    }
    proof {
        lemma_digit_run(b@, pos as int);
    }
    end
}

/// Decodes a number. Returns exactly what the specification decoder returns.
fn parse_number(b: &Vec<u8>, pos: usize) -> (r: Option<(Value, usize)>)
    requires
        pos <= b.len(),
    ensures
        ({
            let s = sp_number(b@, pos as int);
            match r {
                Some(p) => s == Some((p.0@, p.1 as int)),
                None => s is None,
            }
        }),
{
    let neg = pos < b.len() && b[pos] == 0x2d;
    let dpos = if neg {
        pos + 1
    } else {
        pos
    };
    let end = digit_run_end_exec(b, dpos);
    proof {
        lemma_digit_run(b@, dpos as int);
    }
    let len_run = end - dpos;
    let ghost run = b@.subrange(dpos as int, end as int);
    if len_run < 1 || len_run > 19 {
        return None;
    }
    if len_run > 1 && b[dpos] == 0x30 {
        proof {
            assert(run[0] == b@[dpos as int]);
        }
        return None;
    }
    let mut acc: u64 = 0;
    let mut j = dpos;
    proof {
        assert(b@.subrange(dpos as int, dpos as int) =~= Seq::<u8>::empty());
        assert(pow10(0) == 1);
    }
    while j < end
        invariant
            dpos <= j <= end <= b.len(),
            end - dpos <= 19,
            forall|k: int| dpos <= k < end ==> is_digit(#[trigger] b@[k]),
            acc as int == dec_val(b@.subrange(dpos as int, j as int)),
            (acc as int) < pow10(j - dpos),
        decreases end - j,
    {
        let d = b[j] - 0x30;
        proof {
            lemma_pow10_mono(j - dpos, 18);
            assert(pow10(18) == 1000000000000000000) by {
                reveal_with_fuel(pow10, 20);
            }
            let pre = b@.subrange(dpos as int, j as int);
            let post = b@.subrange(dpos as int, j + 1);
            assert(post.drop_last() =~= pre);
            assert(post.last() == b@[j as int]);
        }
        acc = acc * 10 + (d as u64);
        j = j + 1;
    }
    proof {
        assert(b@.subrange(dpos as int, j as int) =~= run);
    }
    if neg {
        if acc == 0 {
            return None;
        }
        if acc > 0x8000_0000_0000_0000u64 {
            return None;
        }
        let v: i64 = if acc == 0x8000_0000_0000_0000u64 {
            i64::MIN
        } else {
            -(acc as i64)
        };
        proof {
            assert(v as int == -(acc as int));
        }
        Some((Value::Int(v), end))
    } else {
        if acc > 0x7fff_ffff_ffff_ffffu64 {
            return None;
        }
        Some((Value::Int(acc as i64), end))
    }
}

/// Decodes a string body after its opening quote. Returns exactly what the
/// specification decoder returns.
fn parse_str_body(b: &Vec<u8>, pos: usize) -> (r: Option<(Vec<u8>, usize)>)
    requires
        pos <= b.len(),
    ensures
        ({
            let s = sp_str_body(b@, pos as int);
            match r {
                Some(p) => s == Some((p.0@, p.1 as int)),
                None => s is None,
            }
        }),
{
    let mut acc: Vec<u8> = Vec::new();
    let mut cur = pos;
    proof {
        if sp_str_body(b@, pos as int) is Some {
            let pr = sp_str_body(b@, pos as int)->Some_0;
            assert(Seq::<u8>::empty() + pr.0 =~= pr.0);
        }
    }
    loop
        invariant
            pos <= cur <= b.len(),
            sp_str_body(b@, pos as int) == (match sp_str_body(b@, cur as int) {
                Some((rest, end)) => Some((acc@ + rest, end)),
                None => None::<(Seq<u8>, int)>,
            }),
        decreases b@.len() - cur,
    {
        if cur >= b.len() {
            return None;
        }
        let c = b[cur];
        if c == 0x22 {
            proof {
                assert(sp_str_body(b@, cur as int) == Some((
                    Seq::<u8>::empty(),
                    cur as int + 1,
                )));
                assert(acc@ + Seq::<u8>::empty() =~= acc@);
            }
            return Some((acc, cur + 1));
        } else if c == 0x5c {
            if b.len() - cur >= 6 && b[cur + 1] == 0x75 && b[cur + 2] == 0x30 && b[cur + 3] == 0x30
                && is_hex_lower_exec(b[cur + 4]) && is_hex_lower_exec(b[cur + 5]) {
                let d = hex_val_exec(b[cur + 4]) * 16 + hex_val_exec(b[cur + 5]);
                if d == 0x22 || d == 0x5c || d < 0x20 {
                    let ghost acc0 = acc@;
                    acc.push(d);
                    proof {
                        let spn = sp_str_body(b@, cur as int + 6);
                        match spn {
                            Option::Some(pr) => {
                                assert(sp_str_body(b@, cur as int) == Some((
                                    seq![d] + pr.0,
                                    pr.1,
                                )));
                                assert(acc0 + (seq![d] + pr.0) =~= acc@ + pr.0);
                            }
                            Option::None => {
                                assert(sp_str_body(b@, cur as int) is None);
                            }
                        }
                    }
                    cur = cur + 6;
                } else {
                    return None;
                }
            } else {
                return None;
            }
        } else if c < 0x20 {
            return None;
        } else {
            let ghost acc0 = acc@;
            acc.push(c);
            proof {
                let spn = sp_str_body(b@, cur as int + 1);
                match spn {
                    Option::Some(pr) => {
                        assert(sp_str_body(b@, cur as int) == Some((seq![c] + pr.0, pr.1)));
                        assert(acc0 + (seq![c] + pr.0) =~= acc@ + pr.0);
                    }
                    Option::None => {
                        assert(sp_str_body(b@, cur as int) is None);
                    }
                }
            }
            cur = cur + 1;
        }
    }
}

/// Decodes one value that starts at `pos`. Returns exactly what the
/// specification decoder returns, rejecting what an executable value
/// cannot hold; this is the store's decoder.
pub fn parse_value(b: &Vec<u8>, pos: usize) -> (r: Option<(Value, usize)>)
    requires
        pos <= b.len(),
    ensures
        ({
            let s = sp_value(b@, pos as int);
            match r {
                Some(p) => s == Some((p.0@, p.1 as int)),
                None => s is None,
            }
        }),
    decreases b@.len() - pos, 0int,
{
    if pos >= b.len() {
        return None;
    }
    let c = b[pos];
    if c == 0x6e {
        if b.len() - pos >= 4 && b[pos + 1] == 0x75 && b[pos + 2] == 0x6c && b[pos + 3] == 0x6c {
            Some((Value::Null, pos + 4))
        } else {
            None
        }
    } else if c == 0x74 {
        if b.len() - pos >= 4 && b[pos + 1] == 0x72 && b[pos + 2] == 0x75 && b[pos + 3] == 0x65 {
            Some((Value::Bool(true), pos + 4))
        } else {
            None
        }
    } else if c == 0x66 {
        if b.len() - pos >= 5 && b[pos + 1] == 0x61 && b[pos + 2] == 0x6c && b[pos + 3] == 0x73
            && b[pos + 4] == 0x65 {
            Some((Value::Bool(false), pos + 5))
        } else {
            None
        }
    } else if c == 0x22 {
        match parse_str_body(b, pos + 1) {
            Some((s, end)) => Some((Value::Str(s), end)),
            None => None,
        }
    } else if c == 0x5b {
        if pos + 1 < b.len() && b[pos + 1] == 0x5d {
            proof {
                assert(views_of_list(Seq::<Value>::empty()) == Seq::<SpecValue>::empty());
            }
            Some((Value::Arr(Vec::new()), pos + 2))
        } else {
            match parse_arr_items(b, pos + 1) {
                Some((items, end)) => Some((Value::Arr(items), end)),
                None => None,
            }
        }
    } else if c == 0x7b {
        if pos + 1 < b.len() && b[pos + 1] == 0x7d {
            proof {
                assert(views_of_pairs(Seq::<(Vec<u8>, Value)>::empty())
                    == Seq::<(Seq<u8>, SpecValue)>::empty());
            }
            Some((Value::Obj(Vec::new()), pos + 2))
        } else {
            match parse_obj_items(b, pos + 1) {
                Some((pairs, end)) => Some((Value::Obj(pairs), end)),
                None => None,
            }
        }
    } else if c == 0x2d || (0x30 <= c && c <= 0x39) {
        parse_number(b, pos)
    } else {
        None
    }
}

/// Decodes the elements of a nonempty array. Returns exactly what the
/// specification decoder returns.
fn parse_arr_items(b: &Vec<u8>, pos: usize) -> (r: Option<(Vec<Value>, usize)>)
    requires
        pos <= b.len(),
    ensures
        ({
            let s = sp_arr_items(b@, pos as int);
            match r {
                Some(p) => s == Some((views_of_list(p.0@), p.1 as int)),
                None => s is None,
            }
        }),
    decreases b@.len() - pos, 1int,
{
    let mut acc: Vec<Value> = Vec::new();
    let mut cur = pos;
    proof {
        if sp_arr_items(b@, pos as int) is Some {
            let pr = sp_arr_items(b@, pos as int)->Some_0;
            assert(Seq::<SpecValue>::empty() + pr.0 =~= pr.0);
        }
    }
    loop
        invariant
            pos <= cur <= b.len(),
            sp_arr_items(b@, pos as int) == (match sp_arr_items(b@, cur as int) {
                Some((rest, end)) => Some((views_of_list(acc@) + rest, end)),
                None => None::<(Seq<SpecValue>, int)>,
            }),
        decreases b@.len() - cur,
    {
        proof {
            lemma_sp_value_bounds(b@, cur as int);
        }
        match parse_value(b, cur) {
            Some((v, p2)) => {
                if p2 < b.len() {
                    let c = b[p2];
                    if c == 0x2c {
                        let ghost acc0 = acc@;
                        acc.push(v);
                        proof {
                            crate::value::lemma_views_of_list_push(acc0, v);
                            let spn = sp_arr_items(b@, p2 as int + 1);
                            match spn {
                                Option::Some(pr) => {
                                    assert(sp_arr_items(b@, cur as int) == Some((
                                        seq![v@] + pr.0,
                                        pr.1,
                                    )));
                                    assert(views_of_list(acc0) + (seq![v@] + pr.0)
                                        =~= views_of_list(acc@) + pr.0);
                                }
                                Option::None => {
                                    assert(sp_arr_items(b@, cur as int) is None);
                                }
                            }
                        }
                        cur = p2 + 1;
                    } else if c == 0x5d {
                        let ghost acc0 = acc@;
                        acc.push(v);
                        proof {
                            crate::value::lemma_views_of_list_push(acc0, v);
                            assert(sp_arr_items(b@, cur as int) == Some((
                                seq![v@],
                                p2 as int + 1,
                            )));
                            assert(views_of_list(acc0) + seq![v@] =~= views_of_list(acc@));
                        }
                        return Some((acc, p2 + 1));
                    } else {
                        return None;
                    }
                } else {
                    return None;
                }
            }
            None => {
                return None;
            }
        }
    }
}

/// Decodes the fields of a nonempty object. Returns exactly what the
/// specification decoder returns.
fn parse_obj_items(b: &Vec<u8>, pos: usize) -> (r: Option<(Vec<(Vec<u8>, Value)>, usize)>)
    requires
        pos <= b.len(),
    ensures
        ({
            let s = sp_obj_items(b@, pos as int);
            match r {
                Some(p) => s == Some((views_of_pairs(p.0@), p.1 as int)),
                None => s is None,
            }
        }),
    decreases b@.len() - pos, 1int,
{
    let mut acc: Vec<(Vec<u8>, Value)> = Vec::new();
    let mut cur = pos;
    proof {
        if sp_obj_items(b@, pos as int) is Some {
            let pr = sp_obj_items(b@, pos as int)->Some_0;
            assert(Seq::<(Seq<u8>, SpecValue)>::empty() + pr.0 =~= pr.0);
        }
    }
    loop
        invariant
            pos <= cur <= b.len(),
            sp_obj_items(b@, pos as int) == (match sp_obj_items(b@, cur as int) {
                Some((rest, end)) => Some((views_of_pairs(acc@) + rest, end)),
                None => None::<(Seq<(Seq<u8>, SpecValue)>, int)>,
            }),
        decreases b@.len() - cur,
    {
        if !(cur < b.len() && b[cur] == 0x22) {
            return None;
        }
        match parse_str_body(b, cur + 1) {
            Some((k, p1)) => {
                proof {
                    lemma_sp_str_body_bounds(b@, cur as int + 1);
                }
                if !(p1 < b.len() && b[p1] == 0x3a) {
                    return None;
                }
                proof {
                    lemma_sp_value_bounds(b@, p1 as int + 1);
                }
                match parse_value(b, p1 + 1) {
                    Some((v, p2)) => {
                        if p2 < b.len() {
                            let c = b[p2];
                            if c == 0x2c {
                                let ghost acc0 = acc@;
                                let ghost kv = (k@, v@);
                                acc.push((k, v));
                                proof {
                                    crate::value::lemma_views_of_pairs_push(
                                        acc0,
                                        (acc@[acc@.len() - 1].0, acc@[acc@.len() - 1].1),
                                    );
                                    assert(acc@[acc@.len() - 1].0@ == kv.0);
                                    let spn = sp_obj_items(b@, p2 as int + 1);
                                    match spn {
                                        Option::Some(pr) => {
                                            assert(sp_obj_items(b@, cur as int) == Some((
                                                seq![kv] + pr.0,
                                                pr.1,
                                            )));
                                            assert(views_of_pairs(acc0) + (seq![kv] + pr.0)
                                                =~= views_of_pairs(acc@) + pr.0);
                                        }
                                        Option::None => {
                                            assert(sp_obj_items(b@, cur as int) is None);
                                        }
                                    }
                                }
                                cur = p2 + 1;
                            } else if c == 0x7d {
                                let ghost acc0 = acc@;
                                let ghost kv = (k@, v@);
                                acc.push((k, v));
                                proof {
                                    crate::value::lemma_views_of_pairs_push(
                                        acc0,
                                        (acc@[acc@.len() - 1].0, acc@[acc@.len() - 1].1),
                                    );
                                    assert(sp_obj_items(b@, cur as int) == Some((
                                        seq![kv],
                                        p2 as int + 1,
                                    )));
                                    assert(views_of_pairs(acc0) + seq![kv] =~= views_of_pairs(
                                        acc@,
                                    ));
                                }
                                return Some((acc, p2 + 1));
                            } else {
                                return None;
                            }
                        } else {
                            return None;
                        }
                    }
                    None => {
                        return None;
                    }
                }
            }
            None => {
                return None;
            }
        }
    }
}

} // verus!

verus! {

use crate::value::value_wf;

/// `t` is laid out in `b` starting at `pos`.
pub open spec fn bytes_at(b: Seq<u8>, pos: int, t: Seq<u8>) -> bool {
    &&& 0 <= pos
    &&& pos + t.len() <= b.len()
    &&& forall|j: int| 0 <= j < t.len() ==> b[pos + j] == #[trigger] t[j]
}

/// A concatenation laid out at `pos` lays out its parts in turn.
pub proof fn lemma_bytes_at_split(b: Seq<u8>, pos: int, t1: Seq<u8>, t2: Seq<u8>)
    requires
        bytes_at(b, pos, t1 + t2),
    ensures
        bytes_at(b, pos, t1),
        bytes_at(b, pos + t1.len(), t2),
{
    assert forall|j: int| 0 <= j < t1.len() implies b[pos + j] == #[trigger] t1[j] by {
        assert((t1 + t2)[j] == t1[j]);
    }
    assert forall|j: int| 0 <= j < t2.len() implies b[pos + t1.len() + j] == #[trigger] t2[j] by {
        assert((t1 + t2)[t1.len() + j] == t2[j]);
        assert(b[pos + (t1.len() + j)] == (t1 + t2)[t1.len() + j]);
    }
}

/// One byte of a laid-out sequence.
pub proof fn lemma_byte_at(b: Seq<u8>, pos: int, t: Seq<u8>, j: int)
    requires
        bytes_at(b, pos, t),
        0 <= j < t.len(),
    ensures
        b[pos + j] == t[j],
{
}

/// The digit run ends exactly where the digits laid out in `b` stop.
pub proof fn lemma_digit_run_unique(b: Seq<u8>, pos: int, e: int)
    requires
        0 <= pos <= e <= b.len(),
        forall|j: int| pos <= j < e ==> is_digit(#[trigger] b[j]),
        e == b.len() || !is_digit(b[e]),
    ensures
        digit_run_end(b, pos) == e,
    decreases e - pos,
{
    if pos < e {
        lemma_digit_run_unique(b, pos + 1, e);
    }
}

/// The lowercase hex digit of a value below sixteen reads back as itself.
pub proof fn lemma_hex(k: int)
    requires
        0 <= k < 16,
    ensures
        is_hex_lower(hex_digit(k)),
        hex_val(hex_digit(k)) == k,
{
}

/// An escaped string body laid out before a closing quote decodes to the
/// original string.
pub proof fn lemma_sp_str_of_esc(s: Seq<u8>, b: Seq<u8>, pos: int)
    requires
        bytes_at(b, pos, esc_bytes(s) + seq![0x22u8]),
    ensures
        sp_str_body(b, pos) == Some((s, pos + esc_bytes(s).len() + 1)),
    decreases s.len(),
{
    let whole = esc_bytes(s) + seq![0x22u8];
    if s.len() == 0 {
        assert(b[pos] == whole[0]);
        assert(b[pos] == 0x22);
    } else {
        let c = s[0];
        let rest = s.drop_first();
        assert(esc_bytes(s) == esc_byte(c) + esc_bytes(rest));
        assert(whole =~= esc_byte(c) + (esc_bytes(rest) + seq![0x22u8]));
        lemma_bytes_at_split(b, pos, esc_byte(c), esc_bytes(rest) + seq![0x22u8]);
        if must_escape(c) {
            assert(b[pos] == esc_byte(c)[0]);
            assert(b[pos] == 0x5c);
            assert(b[pos + 1] == esc_byte(c)[1]);
            assert(b[pos + 2] == esc_byte(c)[2]);
            assert(b[pos + 3] == esc_byte(c)[3]);
            assert(b[pos + 4] == hex_digit(c as int / 16));
            assert(b[pos + 5] == hex_digit(c as int % 16));
            lemma_hex(c as int / 16);
            lemma_hex(c as int % 16);
            let d = (hex_val(b[pos + 4]) * 16 + hex_val(b[pos + 5])) as u8;
            assert(hex_val(b[pos + 4]) * 16 + hex_val(b[pos + 5]) == c as int);
            assert(d == c);
            lemma_sp_str_of_esc(rest, b, pos + 6);
            assert(seq![c] + rest =~= s);
        } else {
            assert(b[pos] == esc_byte(c)[0]);
            assert(b[pos] == c);
            assert(!(c == 0x22) && !(c == 0x5c));
            lemma_sp_str_of_esc(rest, b, pos + 1);
            assert(seq![c] + rest =~= s);
        }
    }
}

/// An encoding is never empty, and its first byte announces a value.
pub proof fn lemma_json_head(v: SpecValue)
    ensures
        json_of(v).len() >= 1,
        ({
            let c = json_of(v)[0];
            c == 0x6e || c == 0x74 || c == 0x66 || c == 0x22 || c == 0x5b || c == 0x7b || c == 0x2d
                || is_digit(c)
        }),
{
    match v {
        SpecValue::Int(i) => {
            if i < 0 {
                assert(json_of(v)[0] == 0x2d);
            } else {
                lemma_dec_digits(i);
                assert(json_of(v)[0] == dec_digits(i)[0]);
                assert(is_digit(dec_digits(i)[0]));
            }
        }
        _ => {}
    }
}

/// The central theorem, stated over one value laid out inside a larger
/// input: decoding from its first byte yields exactly that value and stops
/// exactly past its last byte, provided no digit follows it.
#[verifier::rlimit(50)]
#[verifier::spinoff_prover]
pub proof fn lemma_sp_of_json(v: SpecValue, b: Seq<u8>, pos: int)
    requires
        value_wf(v),
        bytes_at(b, pos, json_of(v)),
        pos + json_of(v).len() == b.len() || !is_digit(b[pos + json_of(v).len()]),
    ensures
        sp_value(b, pos) == Some((v, pos + json_of(v).len())),
    decreases v, 0int,
{
    let t = json_of(v);
    lemma_json_head(v);
    assert(b[pos] == t[0]);
    match v {
        SpecValue::Null => {
            assert(b[pos + 1] == t[1] && b[pos + 2] == t[2] && b[pos + 3] == t[3]);
            assert(t.len() == 4);
            assert(b[pos] == 0x6e && b[pos + 1] == 0x75 && b[pos + 2] == 0x6c && b[pos + 3]
                == 0x6c);
            assert(v == SpecValue::Null);
            assert(json_of(v).len() == 4);
            assert(sp_value(b, pos) == Some((v, pos + json_of(v).len())));
        }
        SpecValue::Bool(tv) => {
            if tv {
                assert(b[pos + 1] == t[1] && b[pos + 2] == t[2] && b[pos + 3] == t[3]);
                assert(t.len() == 4);
                assert(b[pos] == 0x74 && b[pos + 1] == 0x72 && b[pos + 2] == 0x75 && b[pos + 3]
                    == 0x65);
                assert(sp_value(b, pos) == Some((SpecValue::Bool(true), pos + 4)));
            } else {
                assert(b[pos + 1] == t[1] && b[pos + 2] == t[2] && b[pos + 3] == t[3] && b[pos + 4]
                    == t[4]);
                assert(t.len() == 5);
                assert(b[pos] == 0x66 && b[pos + 1] == 0x61 && b[pos + 2] == 0x6c && b[pos + 3]
                    == 0x73 && b[pos + 4] == 0x65);
                assert(sp_value(b, pos) == Some((SpecValue::Bool(false), pos + 5)));
            }
        }
        SpecValue::Int(i) => {
            lemma_sp_of_int(i, b, pos);
        }
        SpecValue::Str(s) => {
            assert(t =~= seq![0x22u8] + (esc_bytes(s) + seq![0x22u8]));
            lemma_bytes_at_split(b, pos, seq![0x22u8], esc_bytes(s) + seq![0x22u8]);
            lemma_sp_str_of_esc(s, b, pos + 1);
        }
        SpecValue::Arr(items) => {
            if items.len() == 0 {
                assert(arr_bytes(items) == Seq::<u8>::empty());
                assert(t.len() == 2);
                assert(b[pos + 1] == t[1]);
                assert(b[pos + 1] == 0x5d);
                assert(items =~= Seq::<SpecValue>::empty());
                assert(sp_value(b, pos) == Some((v, pos + 2)));
            } else {
                assert(t =~= seq![0x5bu8] + (arr_bytes(items) + seq![0x5du8]));
                lemma_bytes_at_split(b, pos, seq![0x5bu8], arr_bytes(items) + seq![0x5du8]);
                lemma_json_head(items[0]);
                assert(arr_bytes(items)[0] == json_of(items[0])[0]) by {
                    if items.len() > 1 {
                        assert(arr_bytes(items) == json_of(items[0]) + seq![0x2cu8] + arr_bytes(
                            items.drop_first(),
                        ));
                    }
                }
                assert(b[pos + 1] == (arr_bytes(items) + seq![0x5du8])[0]);
                assert(b[pos + 1] != 0x5d);
                lemma_sp_items_of_json(items, b, pos + 1);
            }
        }
        SpecValue::Obj(pairs) => {
            if pairs.len() == 0 {
                assert(obj_bytes(pairs) == Seq::<u8>::empty());
                assert(t.len() == 2);
                assert(b[pos + 1] == t[1]);
                assert(b[pos + 1] == 0x7d);
                assert(pairs =~= Seq::<(Seq<u8>, SpecValue)>::empty());
                assert(sp_value(b, pos) == Some((v, pos + 2)));
            } else {
                assert(t =~= seq![0x7bu8] + (obj_bytes(pairs) + seq![0x7du8]));
                lemma_bytes_at_split(b, pos, seq![0x7bu8], obj_bytes(pairs) + seq![0x7du8]);
                assert(obj_bytes(pairs)[0] == 0x22) by {
                    let head = seq![0x22u8] + esc_bytes(pairs[0].0) + seq![0x22u8, 0x3au8]
                        + json_of(pairs[0].1);
                    assert(head[0] == 0x22);
                    if pairs.len() > 1 {
                        assert(obj_bytes(pairs) == head + seq![0x2cu8] + obj_bytes(
                            pairs.drop_first(),
                        ));
                    }
                }
                assert(b[pos + 1] == (obj_bytes(pairs) + seq![0x7du8])[0]);
                assert(b[pos + 1] != 0x7d);
                lemma_sp_pairs_of_json(pairs, b, pos + 1);
            }
        }
    }
}

/// The number case of the central theorem.
proof fn lemma_sp_of_int(i: int, b: Seq<u8>, pos: int)
    requires
        i64::MIN <= i <= i64::MAX,
        bytes_at(b, pos, int_bytes(i)),
        pos + int_bytes(i).len() == b.len() || !is_digit(b[pos + int_bytes(i).len()]),
    ensures
        sp_value(b, pos) == Some((SpecValue::Int(i), pos + int_bytes(i).len())),
{
    let t = int_bytes(i);
    let n: int = if i < 0 {
        -i
    } else {
        i
    };
    let ds = dec_digits(n);
    lemma_dec_digits(n);
    assert(pow10(19) == 10000000000000000000) by {
        reveal_with_fuel(pow10, 21);
    }
    lemma_dec_digits_len(n, 19);
    let dpos: int = if i < 0 {
        pos + 1
    } else {
        pos
    };
    if i < 0 {
        assert(t =~= seq![0x2du8] + ds);
        lemma_bytes_at_split(b, pos, seq![0x2du8], ds);
        lemma_byte_at(b, pos, seq![0x2du8], 0);
        assert(b[pos] == 0x2d);
    }
    assert(bytes_at(b, dpos, ds));
    let e = dpos + ds.len();
    assert forall|j: int| dpos <= j < e implies is_digit(#[trigger] b[j]) by {
        assert(b[j] == ds[j - dpos]);
        assert(is_digit(ds[j - dpos]));
    }
    lemma_digit_run_unique(b, dpos, e);
    let run = b.subrange(dpos, e);
    assert(run =~= ds);
    assert(dec_val(run) == n);
    if i < 0 {
        assert(b[pos] == 0x2d && !is_digit(0x2d));
        assert(n >= 1);
        assert(sp_value(b, pos) == sp_number(b, pos));
    } else {
        assert(is_digit(b[pos]));
        assert(b[pos] != 0x2d);
        assert(sp_value(b, pos) == sp_number(b, pos));
    }
}

/// The array case of the central theorem: the laid-out elements decode to
/// themselves, ending past the closing bracket.
proof fn lemma_sp_items_of_json(items: Seq<SpecValue>, b: Seq<u8>, pos: int)
    requires
        items.len() >= 1,
        forall|i: int| 0 <= i < items.len() ==> value_wf(#[trigger] items[i]),
        bytes_at(b, pos, arr_bytes(items) + seq![0x5du8]),
    ensures
        sp_arr_items(b, pos) == Some((items, pos + arr_bytes(items).len() + 1)),
    decreases items, 1int,
{
    let head = items[0];
    let jh = json_of(head);
    lemma_json_head(head);
    if items.len() == 1 {
        assert(arr_bytes(items) == jh);
        assert(arr_bytes(items) + seq![0x5du8] =~= jh + seq![0x5du8]);
        lemma_bytes_at_split(b, pos, jh, seq![0x5du8]);
        let p2 = pos + jh.len();
        lemma_byte_at(b, p2, seq![0x5du8], 0);
        assert(b[p2] == 0x5d);
        lemma_sp_of_json(head, b, pos);
        assert(seq![head] =~= items);
    } else {
        let rest = items.drop_first();
        assert(forall|i: int| 0 <= i < rest.len() ==> #[trigger] rest[i] == items[i + 1]);
        assert(arr_bytes(items) == jh + seq![0x2cu8] + arr_bytes(rest));
        let tail = arr_bytes(rest) + seq![0x5du8];
        assert(arr_bytes(items) + seq![0x5du8] =~= jh + (seq![0x2cu8] + tail));
        lemma_bytes_at_split(b, pos, jh, seq![0x2cu8] + tail);
        let p2 = pos + jh.len();
        lemma_bytes_at_split(b, p2, seq![0x2cu8], tail);
        lemma_byte_at(b, p2, seq![0x2cu8], 0);
        assert(b[p2] == 0x2c);
        lemma_sp_of_json(head, b, pos);
        lemma_sp_items_of_json(rest, b, p2 + 1);
        assert(seq![head] + rest =~= items);
    }
}

/// The object case of the central theorem: the laid-out fields decode to
/// themselves, ending past the closing brace.
proof fn lemma_sp_pairs_of_json(pairs: Seq<(Seq<u8>, SpecValue)>, b: Seq<u8>, pos: int)
    requires
        pairs.len() >= 1,
        forall|i: int| 0 <= i < pairs.len() ==> value_wf((#[trigger] pairs[i]).1),
        bytes_at(b, pos, obj_bytes(pairs) + seq![0x7du8]),
    ensures
        sp_obj_items(b, pos) == Some((pairs, pos + obj_bytes(pairs).len() + 1)),
    decreases pairs, 1int,
{
    let k = pairs[0].0;
    let v = pairs[0].1;
    let jv = json_of(v);
    let ek = esc_bytes(k);
    let head = seq![0x22u8] + ek + seq![0x22u8, 0x3au8] + jv;
    lemma_json_head(v);
    let p1 = pos + 1 + ek.len() + 1;
    let p2 = p1 + 1 + jv.len();
    if pairs.len() == 1 {
        assert(obj_bytes(pairs) == head);
        assert(obj_bytes(pairs) + seq![0x7du8] =~= seq![0x22u8] + ((ek + seq![0x22u8]) + (seq![
            0x3au8,
        ] + (jv + seq![0x7du8]))));
        lemma_bytes_at_split(b, pos, seq![0x22u8], (ek + seq![0x22u8]) + (seq![0x3au8] + (jv
            + seq![0x7du8])));
        lemma_bytes_at_split(b, pos + 1, ek + seq![0x22u8], seq![0x3au8] + (jv + seq![0x7du8]));
        lemma_bytes_at_split(b, p1, seq![0x3au8], jv + seq![0x7du8]);
        lemma_bytes_at_split(b, p1 + 1, jv, seq![0x7du8]);
        lemma_byte_at(b, pos, seq![0x22u8], 0);
        lemma_byte_at(b, p1, seq![0x3au8], 0);
        lemma_byte_at(b, p2, seq![0x7du8], 0);
        assert(b[pos] == 0x22);
        assert(b[p1] == 0x3a);
        assert(b[p2] == 0x7d);
        lemma_sp_str_of_esc(k, b, pos + 1);
        lemma_sp_of_json(v, b, p1 + 1);
        assert(seq![(k, v)] =~= pairs);
    } else {
        let rest = pairs.drop_first();
        assert(forall|i: int| 0 <= i < rest.len() ==> #[trigger] rest[i] == pairs[i + 1]);
        assert(obj_bytes(pairs) == head + seq![0x2cu8] + obj_bytes(rest));
        let tail = obj_bytes(rest) + seq![0x7du8];
        assert(obj_bytes(pairs) + seq![0x7du8] =~= seq![0x22u8] + ((ek + seq![0x22u8]) + (seq![
            0x3au8,
        ] + (jv + (seq![0x2cu8] + tail)))));
        lemma_bytes_at_split(b, pos, seq![0x22u8], (ek + seq![0x22u8]) + (seq![0x3au8] + (jv + (
        seq![0x2cu8] + tail))));
        lemma_bytes_at_split(b, pos + 1, ek + seq![0x22u8], seq![0x3au8] + (jv + (seq![0x2cu8]
            + tail)));
        lemma_bytes_at_split(b, p1, seq![0x3au8], jv + (seq![0x2cu8] + tail));
        lemma_bytes_at_split(b, p1 + 1, jv, seq![0x2cu8] + tail);
        lemma_bytes_at_split(b, p2, seq![0x2cu8], tail);
        lemma_byte_at(b, pos, seq![0x22u8], 0);
        lemma_byte_at(b, p1, seq![0x3au8], 0);
        lemma_byte_at(b, p2, seq![0x2cu8], 0);
        assert(b[pos] == 0x22);
        assert(b[p1] == 0x3a);
        assert(b[p2] == 0x2c);
        lemma_sp_str_of_esc(k, b, pos + 1);
        lemma_sp_of_json(v, b, p1 + 1);
        lemma_sp_pairs_of_json(rest, b, p2 + 1);
        assert(seq![(k, v)] + rest =~= pairs);
    }
}

/// Round trip: decoding an encoded value yields the value back, consuming
/// the whole encoding.
pub proof fn lemma_parse_of_encoding(v: SpecValue)
    requires
        value_wf(v),
    ensures
        sp_value(json_of(v), 0) == Some((v, json_of(v).len() as int)),
{
    lemma_sp_of_json(v, json_of(v), 0);
}

/// The encoding is injective: two well-formed values with the same
/// encoding are the same value.
pub proof fn lemma_encoding_injective(a: SpecValue, c: SpecValue)
    requires
        value_wf(a),
        value_wf(c),
        json_of(a) == json_of(c),
    ensures
        a == c,
{
    lemma_parse_of_encoding(a);
    lemma_parse_of_encoding(c);
}

} // verus!
