//! A JSON value tree over raw bytes, with a verified serializer.
//!
//! A message on the wire is UTF-8 text; the tree keeps string contents as
//! the raw bytes between the quotes, with escapes resolved.  Numbers are
//! restricted to 64-bit signed integers, which is all the protocol uses.

use vstd::prelude::*;

verus! {

broadcast use
    vstd::std_specs::vec::axiom_vec_index_decreases,
    vstd::std_specs::vec::axiom_vec_decreases_to_view,
    vstd::seq::axiom_seq_index_decreases,
    vstd::seq::axiom_seq_subrange_decreases;

/// A JSON value; string contents and object keys are unescaped bytes.
/// A number that is a plain 64-bit integer is an `Int`; any other
/// number keeps the raw bytes of its token, carried through verbatim.
#[derive(Debug, PartialEq)]
pub enum Json {
    Null,
    Bool(bool),
    Int(i64),
    Num(Vec<u8>),
    Str(Vec<u8>),
    Arr(Vec<Json>),
    Obj(Vec<(Vec<u8>, Json)>),
}

/// The mathematical model of a JSON value.
pub enum JVal {
    Null,
    Bool(bool),
    Int(i64),
    Num(Seq<u8>),
    Str(Seq<u8>),
    Arr(Seq<JVal>),
    Obj(Seq<(Seq<u8>, JVal)>),
}

/// The model of a concrete value.
pub open spec fn jv(j: Json) -> JVal
    decreases j,
{
    match j {
        Json::Null => JVal::Null,
        Json::Bool(b) => JVal::Bool(b),
        Json::Int(n) => JVal::Int(n),
        Json::Num(t) => JVal::Num(t@),
        Json::Str(s) => JVal::Str(s@),
        Json::Arr(items) => JVal::Arr(jv_seq(items@)),
        Json::Obj(fields) => JVal::Obj(jv_fields(fields@)),
    }
}

pub open spec fn jv_seq(s: Seq<Json>) -> Seq<JVal>
    decreases s,
{
    if s.len() == 0 {
        Seq::empty()
    } else {
        seq![jv(s[0])] + jv_seq(s.subrange(1, s.len() as int))
    }
}

pub open spec fn jv_fields(s: Seq<(Vec<u8>, Json)>) -> Seq<(Seq<u8>, JVal)>
    decreases s,
{
    if s.len() == 0 {
        Seq::empty()
    } else {
        seq![(s[0].0@, jv(s[0].1))] + jv_fields(s.subrange(1, s.len() as int))
    }
}

pub proof fn lemma_jv_seq(s: Seq<Json>)
    ensures
        jv_seq(s).len() == s.len(),
        forall|i: int| 0 <= i < s.len() ==> jv_seq(s)[i] == jv(s[i]),
    decreases s,
{
    if s.len() > 0 {
        lemma_jv_seq(s.subrange(1, s.len() as int));
    }
}

pub proof fn lemma_jv_fields(s: Seq<(Vec<u8>, Json)>)
    ensures
        jv_fields(s).len() == s.len(),
        forall|i: int|
            0 <= i < s.len() ==> jv_fields(s)[i] == (s[i].0@, jv(s[i].1)),
    decreases s,
{
    if s.len() > 0 {
        lemma_jv_fields(s.subrange(1, s.len() as int));
    }
}

/// The decimal digits of a natural number, most significant first.
pub open spec fn dec_digits(n: nat) -> Seq<u8>
    decreases n,
{
    if n < 10 {
        seq![(0x30 + n) as u8]
    } else {
        dec_digits(n / 10) + seq![(0x30 + n % 10) as u8]
    }
}

/// The decimal text of an integer.
pub open spec fn dec_int(n: int) -> Seq<u8> {
    if n < 0 {
        seq![0x2du8] + dec_digits((-n) as nat)
    } else {
        dec_digits(n as nat)
    }
}

/// Lower-case hexadecimal digit for a value below 16.
pub open spec fn hex_digit(d: nat) -> u8 {
    if d < 10 {
        (0x30 + d) as u8
    } else {
        (0x57 + d) as u8
    }
}

/// The escape sequence a single string byte serializes to.
pub open spec fn esc_byte(b: u8) -> Seq<u8> {
    if b == 0x22 {
        seq![0x5cu8, 0x22]
    } else if b == 0x5c {
        seq![0x5cu8, 0x5c]
    } else if b == 0x08 {
        seq![0x5cu8, 0x62]
    } else if b == 0x0c {
        seq![0x5cu8, 0x66]
    } else if b == 0x0a {
        seq![0x5cu8, 0x6e]
    } else if b == 0x0d {
        seq![0x5cu8, 0x72]
    } else if b == 0x09 {
        seq![0x5cu8, 0x74]
    } else if b < 0x20 {
        seq![0x5cu8, 0x75, 0x30, 0x30, hex_digit((b / 16) as nat), hex_digit((b % 16) as nat)]
    } else {
        seq![b]
    }
}

/// The serialized form of a string's content bytes.
pub open spec fn esc(s: Seq<u8>) -> Seq<u8>
    decreases s.len(),
{
    if s.len() == 0 {
        Seq::empty()
    } else {
        esc_byte(s[0]) + esc(s.subrange(1, s.len() as int))
    }
}

/// Canonical serialization of a JSON value: no inter-token whitespace,
/// object fields in the order held.
pub open spec fn jser(v: JVal) -> Seq<u8>
    decreases v,
{
    match v {
        JVal::Null => seq![0x6eu8, 0x75, 0x6c, 0x6c],
        JVal::Bool(b) => if b {
            seq![0x74u8, 0x72, 0x75, 0x65]
        } else {
            seq![0x66u8, 0x61, 0x6c, 0x73, 0x65]
        },
        JVal::Int(n) => dec_int(n as int),
        JVal::Num(t) => t,
        JVal::Str(s) => seq![0x22u8] + esc(s) + seq![0x22u8],
        JVal::Arr(vs) => seq![0x5bu8] + jser_items(vs) + seq![0x5du8],
        JVal::Obj(fs) => seq![0x7bu8] + jser_fields(fs) + seq![0x7du8],
    }
}

pub open spec fn jser_items(vs: Seq<JVal>) -> Seq<u8>
    decreases vs,
{
    if vs.len() == 0 {
        Seq::empty()
    } else if vs.len() == 1 {
        jser(vs[0])
    } else {
        jser(vs[0]) + seq![0x2cu8] + jser_items(vs.subrange(1, vs.len() as int))
    }
}

pub open spec fn jser_fields(fs: Seq<(Seq<u8>, JVal)>) -> Seq<u8>
    decreases fs,
{
    if fs.len() == 0 {
        Seq::empty()
    } else if fs.len() == 1 {
        jser_field(fs[0])
    } else {
        jser_field(fs[0]) + seq![0x2cu8] + jser_fields(fs.subrange(1, fs.len() as int))
    }
}

pub open spec fn jser_field(f: (Seq<u8>, JVal)) -> Seq<u8>
    decreases f,
{
    seq![0x22u8] + esc(f.0) + seq![0x22u8, 0x3a] + jser(f.1)
}

pub proof fn lemma_esc_append(a: Seq<u8>, b: Seq<u8>)
    ensures
        esc(a + b) == esc(a) + esc(b),
    decreases a.len(),
{
    if a.len() == 0 {
        assert(a + b =~= b);
        assert(esc(a) + esc(b) =~= esc(b));
    } else {
        assert((a + b).subrange(1, (a + b).len() as int) =~= a.subrange(1, a.len() as int) + b);
        lemma_esc_append(a.subrange(1, a.len() as int), b);
        assert(esc(a + b) =~= esc(a) + esc(b));
    }
}

fn push_escaped_byte(b: u8, out: &mut Vec<u8>)
    ensures
        final(out)@ == old(out)@ + esc_byte(b),
{
    if b == 0x22 {
        out.push(0x5c);
        out.push(0x22);
    } else if b == 0x5c {
        out.push(0x5c);
        out.push(0x5c);
    } else if b == 0x08 {
        out.push(0x5c);
        out.push(0x62);
    } else if b == 0x0c {
        out.push(0x5c);
        out.push(0x66);
    } else if b == 0x0a {
        out.push(0x5c);
        out.push(0x6e);
    } else if b == 0x0d {
        out.push(0x5c);
        out.push(0x72);
    } else if b == 0x09 {
        out.push(0x5c);
        out.push(0x74);
    } else if b < 0x20 {
        out.push(0x5c);
        out.push(0x75);
        out.push(0x30);
        out.push(0x30);
        let hi = b / 16;
        let lo = b % 16;
        out.push(if hi < 10 { 0x30 + hi } else { 0x57 + hi });
        out.push(if lo < 10 { 0x30 + lo } else { 0x57 + lo });
    } else {
        out.push(b);
    }
    assert(out@ =~= old(out)@ + esc_byte(b));
}

fn write_escaped(s: &Vec<u8>, out: &mut Vec<u8>)
    ensures
        final(out)@ == old(out)@ + esc(s@),
{
    let mut i: usize = 0;
    while i < s.len()
        invariant
            i <= s.len(),
            out@ == old(out)@ + esc(s@.subrange(0, i as int)),
        decreases s.len() - i,
    {
        proof {
            assert(s@.subrange(0, i + 1 as int) =~= s@.subrange(0, i as int) + seq![s@[i as int]]);
            lemma_esc_append(s@.subrange(0, i as int), seq![s@[i as int]]);
            assert(seq![s@[i as int]].subrange(1, 1) =~= Seq::<u8>::empty());
            assert(esc(Seq::<u8>::empty()) =~= Seq::<u8>::empty());
            assert(esc(seq![s@[i as int]]) =~= esc_byte(s@[i as int]));
        }
        push_escaped_byte(s[i], out);
        i = i + 1;
    }
    assert(s@.subrange(0, s@.len() as int) =~= s@);
}

fn write_dec_u64(m: u64, out: &mut Vec<u8>)
    ensures
        final(out)@ == old(out)@ + dec_digits(m as nat),
    decreases m,
{
    if m < 10 {
        out.push(0x30 + m as u8);
        assert(out@ =~= old(out)@ + dec_digits(m as nat));
    } else {
        write_dec_u64(m / 10, out);
        out.push(0x30 + (m % 10) as u8);
        assert(out@ =~= old(out)@ + dec_digits(m as nat));
    }
}

fn write_int(n: i64, out: &mut Vec<u8>)
    ensures
        final(out)@ == old(out)@ + dec_int(n as int),
{
    if n < 0 {
        out.push(0x2d);
        let wide: i128 = n as i128;
        let mag: u64 = (-wide) as u64;
        write_dec_u64(mag, out);
        assert(out@ =~= old(out)@ + dec_int(n as int));
    } else {
        let mag: u64 = n as u64;
        write_dec_u64(mag, out);
    }
}

fn write_json(j: &Json, out: &mut Vec<u8>)
    ensures
        final(out)@ == old(out)@ + jser(jv(*j)),
    decreases *j, 0int,
{
    match j {
        Json::Null => {
            out.push(0x6e);
            out.push(0x75);
            out.push(0x6c);
            out.push(0x6c);
            assert(out@ =~= old(out)@ + jser(jv(*j)));
        },
        Json::Bool(b) => {
            if *b {
                out.push(0x74);
                out.push(0x72);
                out.push(0x75);
                out.push(0x65);
            } else {
                out.push(0x66);
                out.push(0x61);
                out.push(0x6c);
                out.push(0x73);
                out.push(0x65);
            }
            assert(out@ =~= old(out)@ + jser(jv(*j)));
        },
        Json::Int(n) => {
            write_int(*n, out);
        },
        Json::Num(t) => {
            push_bytes(out, t);
        },
        Json::Str(s) => {
            out.push(0x22);
            write_escaped(s, out);
            out.push(0x22);
            assert(out@ =~= old(out)@ + jser(jv(*j)));
        },
        Json::Arr(items) => {
            out.push(0x5b);
            write_items(items, 0, out);
            out.push(0x5d);
            proof {
                assert(items@.subrange(0, items@.len() as int) =~= items@);
                assert(out@ =~= old(out)@ + jser(jv(*j)));
            }
        },
        Json::Obj(fields) => {
            out.push(0x7b);
            write_fields(fields, 0, out);
            out.push(0x7d);
            proof {
                assert(fields@.subrange(0, fields@.len() as int) =~= fields@);
                assert(out@ =~= old(out)@ + jser(jv(*j)));
            }
        },
    }
}

fn write_items(items: &Vec<Json>, i: usize, out: &mut Vec<u8>)
    requires
        i <= items.len(),
    ensures
        final(out)@ == old(out)@ + jser_items(jv_seq(items@.subrange(i as int, items@.len() as int))),
    decreases *items, items.len() - i,
{
    let ghost tail = items@.subrange(i as int, items@.len() as int);
    proof {
        lemma_jv_seq(tail);
    }
    if i < items.len() {
        write_json(&items[i], out);
        proof {
            assert(jv_seq(tail)[0] == jv(items@[i as int]));
        }
        if i + 1 < items.len() {
            out.push(0x2c);
            write_items(items, i + 1, out);
            proof {
                assert(jv_seq(tail).subrange(1, jv_seq(tail).len() as int) =~= jv_seq(
                    items@.subrange(i + 1 as int, items@.len() as int),
                )) by {
                    lemma_jv_seq(items@.subrange(i + 1 as int, items@.len() as int));
                    assert(forall|k: int|
                        0 <= k < tail.len() - 1 ==> tail.subrange(1, tail.len() as int)[k] == tail[
                            k + 1
                        ]);
                    lemma_jv_seq(tail);
                }
                assert(out@ =~= old(out)@ + jser_items(jv_seq(tail)));
            }
        } else {
            assert(out@ =~= old(out)@ + jser_items(jv_seq(tail)));
        }
    } else {
        assert(out@ =~= old(out)@ + jser_items(jv_seq(tail)));
    }
}

fn write_fields(fields: &Vec<(Vec<u8>, Json)>, i: usize, out: &mut Vec<u8>)
    requires
        i <= fields.len(),
    ensures
        final(out)@ == old(out)@ + jser_fields(jv_fields(fields@.subrange(i as int, fields@.len() as int))),
    decreases *fields, fields.len() - i,
{
    let ghost tail = fields@.subrange(i as int, fields@.len() as int);
    proof {
        lemma_jv_fields(tail);
    }
    if i < fields.len() {
        out.push(0x22);
        write_escaped(&fields[i].0, out);
        out.push(0x22);
        out.push(0x3a);
        write_json(&fields[i].1, out);
        proof {
            assert(jv_fields(tail)[0] == (fields@[i as int].0@, jv(fields@[i as int].1)));
            assert(out@ =~= old(out)@ + jser_field(jv_fields(tail)[0]));
        }
        if i + 1 < fields.len() {
            out.push(0x2c);
            write_fields(fields, i + 1, out);
            proof {
                assert(jv_fields(tail).subrange(1, jv_fields(tail).len() as int) =~= jv_fields(
                    fields@.subrange(i + 1 as int, fields@.len() as int),
                )) by {
                    lemma_jv_fields(fields@.subrange(i + 1 as int, fields@.len() as int));
                    lemma_jv_fields(tail);
                }
                assert(out@ =~= old(out)@ + jser_fields(jv_fields(tail)));
            }
        } else {
            assert(out@ =~= old(out)@ + jser_fields(jv_fields(tail)));
        }
    } else {
        assert(out@ =~= old(out)@ + jser_fields(jv_fields(tail)));
    }
}

/// Serialize a JSON value to its canonical wire bytes.
pub fn encode_json(j: &Json) -> (out: Vec<u8>)
    ensures
        out@ == jser(jv(*j)),
{
    let mut out: Vec<u8> = Vec::new();
    write_json(j, &mut out);
    assert(out@ =~= jser(jv(*j)));
    out
}

/// Byte-for-byte equality of two byte strings.
pub fn bytes_eq(a: &Vec<u8>, b: &Vec<u8>) -> (r: bool)
    ensures
        r == (a@ == b@),
{
    if a.len() != b.len() {
        return false;
    }
    let mut i: usize = 0;
    while i < a.len()
        invariant
            i <= a.len(),
            a.len() == b.len(),
            forall|k: int| 0 <= k < i ==> a@[k] == b@[k],
        decreases a.len() - i,
    {
        if a[i] != b[i] {
            return false;
        }
        i = i + 1;
    }
    proof {
        assert(a@ =~= b@);
    }
    true
}

/// An owned copy of a byte string.
pub fn clone_bytes(src: &Vec<u8>) -> (out: Vec<u8>)
    ensures
        out@ == src@,
{
    let mut out: Vec<u8> = Vec::new();
    let mut i: usize = 0;
    while i < src.len()
        invariant
            i <= src.len(),
            out@ == src@.subrange(0, i as int),
        decreases src.len() - i,
    {
        out.push(src[i]);
        proof {
            assert(src@.subrange(0, i + 1 as int) =~= src@.subrange(0, i as int) + seq![
                src@[i as int],
            ]);
        }
        i = i + 1;
    }
    proof {
        assert(src@.subrange(0, src@.len() as int) =~= src@);
    }
    out
}

/// Append a copy of `src` to `dst`.
pub fn push_bytes(dst: &mut Vec<u8>, src: &Vec<u8>)
    ensures
        final(dst)@ == old(dst)@ + src@,
{
    let mut i: usize = 0;
    while i < src.len()
        invariant
            i <= src.len(),
            dst@ == old(dst)@ + src@.subrange(0, i as int),
        decreases src.len() - i,
    {
        dst.push(src[i]);
        proof {
            assert(src@.subrange(0, i + 1 as int) =~= src@.subrange(0, i as int) + seq![
                src@[i as int],
            ]);
            assert(dst@ =~= old(dst)@ + src@.subrange(0, i + 1 as int));
        }
        i = i + 1;
    }
    proof {
        assert(src@.subrange(0, src@.len() as int) =~= src@);
    }
}

pub open spec fn is_ws(b: u8) -> bool {
    b == 0x20 || b == 0x09 || b == 0x0a || b == 0x0d
}

pub open spec fn is_digit(b: u8) -> bool {
    0x30 <= b && b <= 0x39
}

/// A byte that could continue a number token.
pub open spec fn can_extend_number(b: u8) -> bool {
    is_digit(b) || b == 0x2e || b == 0x65 || b == 0x45
}

/// Holds when all numbers inside a value are plain 64-bit integers,
/// with no raw number token anywhere.
pub open spec fn int_only(v: JVal) -> bool
    decreases v,
{
    match v {
        JVal::Num(_) => false,
        JVal::Arr(vs) => forall|i: int| 0 <= i < vs.len() ==> int_only(#[trigger] vs[i]),
        JVal::Obj(fs) => forall|i: int| 0 <= i < fs.len() ==> int_only(#[trigger] fs[i].1),
        _ => true,
    }
}

/// First index at or after `i` that does not hold whitespace.
pub open spec fn skip_ws(s: Seq<u8>, i: int) -> int
    decreases s.len() - i when 0 <= i <= s.len()
{
    if i < s.len() && is_ws(s[i]) {
        skip_ws(s, i + 1)
    } else {
        i
    }
}

/// First index at or after `i` that does not hold a digit.
pub open spec fn digits_end(s: Seq<u8>, i: int) -> int
    decreases s.len() - i when 0 <= i <= s.len()
{
    if i < s.len() && is_digit(s[i]) {
        digits_end(s, i + 1)
    } else {
        i
    }
}

/// End of an optional fraction part at `i`: a dot must be followed by
/// at least one digit.
pub open spec fn frac_end(s: Seq<u8>, i: int) -> Option<int> {
    if 0 <= i && i < s.len() && s[i] == 0x2e {
        let fd = digits_end(s, i + 1);
        if fd > i + 1 {
            Some(fd)
        } else {
            None
        }
    } else {
        Some(i)
    }
}

/// End of an optional exponent part at `i`: `e` or `E`, an optional
/// sign, then at least one digit.
pub open spec fn exp_end(s: Seq<u8>, i: int) -> Option<int> {
    if 0 <= i && i < s.len() && (s[i] == 0x65 || s[i] == 0x45) {
        let j = if i + 1 < s.len() && (s[i + 1] == 0x2b || s[i + 1] == 0x2d) {
            i + 2
        } else {
            i + 1
        };
        let ed = digits_end(s, j);
        if ed > j {
            Some(ed)
        } else {
            None
        }
    } else {
        Some(i)
    }
}

/// A number token: optional minus, an integer part without leading
/// zeros, then optional fraction and exponent parts.  A plain integer
/// that fits 64 signed bits becomes `Int`; any other number keeps its
/// token bytes verbatim as `Num`.
pub open spec fn sp_number(s: Seq<u8>, i: int) -> Option<(JVal, int)> {
    if 0 <= i && i < s.len() {
        let p = if s[i] == 0x2d {
            i + 1
        } else {
            i
        };
        if p < s.len() && is_digit(s[p]) {
            let de = digits_end(s, p);
            if s[p] == 0x30 && de > p + 1 {
                None
            } else {
                match frac_end(s, de) {
                    Some(fe) => match exp_end(s, fe) {
                        Some(ee) => if fe == de && ee == de {
                            let m = lfold(0, s.subrange(p, de));
                            if s[i] == 0x2d {
                                if m <= 0x8000_0000_0000_0000 {
                                    Some((JVal::Int((-m) as i64), de))
                                } else {
                                    Some((JVal::Num(s.subrange(i, de)), de))
                                }
                            } else {
                                if m <= 0x7fff_ffff_ffff_ffff {
                                    Some((JVal::Int(m as i64), de))
                                } else {
                                    Some((JVal::Num(s.subrange(i, de)), de))
                                }
                            }
                        } else {
                            Some((JVal::Num(s.subrange(i, ee)), ee))
                        },
                        None => None,
                    },
                    None => None,
                }
            }
        } else {
            None
        }
    } else {
        None
    }
}

pub open spec fn is_hex(b: u8) -> bool {
    is_digit(b) || (0x61 <= b && b <= 0x66) || (0x41 <= b && b <= 0x46)
}

pub open spec fn hex_val(b: u8) -> int {
    if is_digit(b) {
        b - 0x30
    } else if 0x61 <= b && b <= 0x66 {
        b - 0x57
    } else {
        b - 0x37
    }
}

/// What a simple escape `\c` stands for, if `c` is one.
pub open spec fn unescape(e: u8) -> Option<u8> {
    if e == 0x22 {
        Some(0x22u8)
    } else if e == 0x5c {
        Some(0x5cu8)
    } else if e == 0x2f {
        Some(0x2fu8)
    } else if e == 0x62 {
        Some(0x08u8)
    } else if e == 0x66 {
        Some(0x0cu8)
    } else if e == 0x6e {
        Some(0x0au8)
    } else if e == 0x72 {
        Some(0x0du8)
    } else if e == 0x74 {
        Some(0x09u8)
    } else {
        None
    }
}

/// The UTF-8 encoding of a code point.
pub open spec fn utf8_bytes(v: int) -> Seq<u8> {
    if v < 0x80 {
        seq![v as u8]
    } else if v < 0x800 {
        seq![(0xc0 + v / 64) as u8, (0x80 + v % 64) as u8]
    } else if v < 0x10000 {
        seq![(0xe0 + v / 4096) as u8, (0x80 + (v / 64) % 64) as u8, (0x80 + v % 64) as u8]
    } else {
        seq![
            (0xf0 + v / 262144) as u8,
            (0x80 + (v / 4096) % 64) as u8,
            (0x80 + (v / 64) % 64) as u8,
            (0x80 + v % 64) as u8,
        ]
    }
}

/// String content from `i` (just after the opening quote) up to and past
/// the closing quote.  A `\u` escape becomes the UTF-8 bytes of its code
/// point, a surrogate pair those of the paired point; raw bytes at or
/// above 0x20 pass through unchanged.
pub open spec fn sp_string(s: Seq<u8>, i: int) -> Option<(Seq<u8>, int)>
    decreases s.len() - i when 0 <= i <= s.len()
{
    if i < s.len() {
        let c = s[i];
        if c == 0x22 {
            Some((Seq::empty(), i + 1))
        } else if c == 0x5c {
            if i + 2 <= s.len() {
                let e = s[i + 1];
                if e == 0x75 {
                    if i + 6 <= s.len() && is_hex(s[i + 2]) && is_hex(s[i + 3]) && is_hex(s[i + 4])
                        && is_hex(s[i + 5]) {
                        let v = hex_val(s[i + 2]) * 4096 + hex_val(s[i + 3]) * 256 + hex_val(
                            s[i + 4],
                        ) * 16 + hex_val(s[i + 5]);
                        if 0xd800 <= v && v < 0xdc00 {
                            if i + 12 <= s.len() && s[i + 6] == 0x5c && s[i + 7] == 0x75 && is_hex(
                                s[i + 8],
                            ) && is_hex(s[i + 9]) && is_hex(s[i + 10]) && is_hex(s[i + 11]) {
                                let v2 = hex_val(s[i + 8]) * 4096 + hex_val(s[i + 9]) * 256
                                    + hex_val(s[i + 10]) * 16 + hex_val(s[i + 11]);
                                if 0xdc00 <= v2 && v2 < 0xe000 {
                                    let code = 0x10000 + (v - 0xd800) * 1024 + (v2 - 0xdc00);
                                    match sp_string(s, i + 12) {
                                        Some((cs, k)) => Some((utf8_bytes(code) + cs, k)),
                                        None => None,
                                    }
                                } else {
                                    None
                                }
                            } else {
                                None
                            }
                        } else if 0xdc00 <= v && v < 0xe000 {
                            None
                        } else {
                            match sp_string(s, i + 6) {
                                Some((cs, k)) => Some((utf8_bytes(v) + cs, k)),
                                None => None,
                            }
                        }
                    } else {
                        None
                    }
                } else {
                    match unescape(e) {
                        Some(b) => match sp_string(s, i + 2) {
                            Some((cs, k)) => Some((seq![b] + cs, k)),
                            None => None,
                        },
                        None => None,
                    }
                }
            } else {
                None
            }
        } else if c < 0x20 {
            None
        } else {
            match sp_string(s, i + 1) {
                Some((cs, k)) => Some((seq![c] + cs, k)),
                None => None,
            }
        }
    } else {
        None
    }
}

/// One JSON value starting at `i`, leading whitespace allowed; gives the
/// value and the index just past it.
pub open spec fn sp_value(s: Seq<u8>, i: int) -> Option<(JVal, int)>
    decreases s.len() - i, 1int when 0 <= i <= s.len()
{
    let j = skip_ws(s, i);
    if i <= j && j < s.len() {
        let c = s[j];
        if c == 0x6e {
            if s.len() - j >= 4 && s[j + 1] == 0x75 && s[j + 2] == 0x6c && s[j + 3] == 0x6c {
                Some((JVal::Null, j + 4))
            } else {
                None
            }
        } else if c == 0x74 {
            if s.len() - j >= 4 && s[j + 1] == 0x72 && s[j + 2] == 0x75 && s[j + 3] == 0x65 {
                Some((JVal::Bool(true), j + 4))
            } else {
                None
            }
        } else if c == 0x66 {
            if j + 5 <= s.len() && s[j + 1] == 0x61 && s[j + 2] == 0x6c && s[j + 3] == 0x73 && s[j
                + 4] == 0x65 {
                Some((JVal::Bool(false), j + 5))
            } else {
                None
            }
        } else if c == 0x22 {
            match sp_string(s, j + 1) {
                Some((cs, k)) => Some((JVal::Str(cs), k)),
                None => None,
            }
        } else if c == 0x2d || is_digit(c) {
            sp_number(s, j)
        } else if c == 0x5b {
            let m = skip_ws(s, j + 1);
            if j + 1 <= m && m < s.len() && s[m] == 0x5d {
                Some((JVal::Arr(Seq::empty()), m + 1))
            } else {
                match sp_items(s, j + 1) {
                    Some((vs, k)) => Some((JVal::Arr(vs), k)),
                    None => None,
                }
            }
        } else if c == 0x7b {
            let m = skip_ws(s, j + 1);
            if j + 1 <= m && m < s.len() && s[m] == 0x7d {
                Some((JVal::Obj(Seq::empty()), m + 1))
            } else {
                match sp_fields(s, j + 1) {
                    Some((fs, k)) => Some((JVal::Obj(fs), k)),
                    None => None,
                }
            }
        } else {
            None
        }
    } else {
        None
    }
}

/// One or more comma-separated array items, ending just past `]`.
pub open spec fn sp_items(s: Seq<u8>, i: int) -> Option<(Seq<JVal>, int)>
    decreases s.len() - i, 2int when 0 <= i <= s.len()
{
    match sp_value(s, i) {
        Some((v, k)) => if i < k && k <= s.len() {
            let m = skip_ws(s, k);
            if k <= m && m < s.len() {
                if s[m] == 0x2c {
                    match sp_items(s, m + 1) {
                        Some((vs, e)) => Some((seq![v] + vs, e)),
                        None => None,
                    }
                } else if s[m] == 0x5d {
                    Some((seq![v], m + 1))
                } else {
                    None
                }
            } else {
                None
            }
        } else {
            None
        },
        None => None,
    }
}

/// One or more `"key": value` object fields, ending just past `}`.
pub open spec fn sp_fields(s: Seq<u8>, i: int) -> Option<(Seq<(Seq<u8>, JVal)>, int)>
    decreases s.len() - i, 2int when 0 <= i <= s.len()
{
    let j = skip_ws(s, i);
    if i <= j && j < s.len() && s[j] == 0x22 {
        match sp_string(s, j + 1) {
            Some((key, k)) => if j + 1 < k && k <= s.len() {
                let m = skip_ws(s, k);
                if k <= m && m < s.len() && s[m] == 0x3a {
                    match sp_value(s, m + 1) {
                        Some((v, e)) => if m + 1 < e && e <= s.len() {
                            let m2 = skip_ws(s, e);
                            if e <= m2 && m2 < s.len() {
                                if s[m2] == 0x2c {
                                    match sp_fields(s, m2 + 1) {
                                        Some((fs, e2)) => Some((seq![(key, v)] + fs, e2)),
                                        None => None,
                                    }
                                } else if s[m2] == 0x7d {
                                    Some((seq![(key, v)], m2 + 1))
                                } else {
                                    None
                                }
                            } else {
                                None
                            }
                        } else {
                            None
                        },
                        None => None,
                    }
                } else {
                    None
                }
            } else {
                None
            },
            None => None,
        }
    } else {
        None
    }
}

/// A whole message: one value, with whitespace allowed around it and
/// nothing else after it.
pub open spec fn sp_json(s: Seq<u8>) -> Option<JVal> {
    match sp_value(s, 0) {
        Some((v, e)) => if 0 <= e <= s.len() && skip_ws(s, e) == s.len() {
            Some(v)
        } else {
            None
        },
        None => None,
    }
}

fn p_skip_ws(s: &Vec<u8>, i: usize) -> (r: usize)
    requires
        i <= s.len(),
    ensures
        r as int == skip_ws(s@, i as int),
        i <= r <= s.len(),
{
    let mut k: usize = i;
    loop
        invariant
            i <= k <= s.len(),
            skip_ws(s@, i as int) == skip_ws(s@, k as int),
        decreases s.len() - k,
    {
        if k < s.len() {
            let b = s[k];
            if b == 0x20 || b == 0x09 || b == 0x0a || b == 0x0d {
                k = k + 1;
            } else {
                return k;
            }
        } else {
            return k;
        }
    }
}

fn hex_digit_val(b: u8) -> (r: Option<u8>)
    ensures
        match r {
            Some(v) => is_hex(b) && v as int == hex_val(b),
            None => !is_hex(b),
        },
{
    if 0x30 <= b && b <= 0x39 {
        Some(b - 0x30)
    } else if 0x61 <= b && b <= 0x66 {
        Some(b - 0x57)
    } else if 0x41 <= b && b <= 0x46 {
        Some(b - 0x37)
    } else {
        None
    }
}

fn p_string(s: &Vec<u8>, i: usize) -> (r: Option<(Vec<u8>, usize)>)
    requires
        i <= s.len(),
    ensures
        match r {
            Some(p) => sp_string(s@, i as int) == Some((p.0@, p.1 as int)) && i < p.1 <= s.len(),
            None => sp_string(s@, i as int) is None,
        },
{
    let mut acc: Vec<u8> = Vec::new();
    let mut k: usize = i;
    loop
        invariant
            i <= k <= s.len(),
            sp_string(s@, i as int) == (match sp_string(s@, k as int) {
                Some((cs, e)) => Some((acc@ + cs, e)),
                None => None::<(Seq<u8>, int)>,
            }),
        decreases s.len() - k,
    {
        if k >= s.len() {
            return None;
        }
        let c = s[k];
        if c == 0x22 {
            proof {
                assert(acc@ + Seq::<u8>::empty() =~= acc@);
            }
            return Some((acc, k + 1));
        } else if c == 0x5c {
            if s.len() - k >= 2 {
                let e = s[k + 1];
                if e == 0x75 {
                    if s.len() - k >= 6 {
                        let h0 = hex_digit_val(s[k + 2]);
                        let h1 = hex_digit_val(s[k + 3]);
                        let h2 = hex_digit_val(s[k + 4]);
                        let h3 = hex_digit_val(s[k + 5]);
                        match (h0, h1, h2, h3) {
                            (Some(a), Some(b), Some(cc), Some(d)) => {
                                let v: u32 = a as u32 * 4096 + b as u32 * 256 + cc as u32 * 16
                                    + d as u32;
                                if 0xd800 <= v && v < 0xdc00 {
                                    if s.len() - k >= 12 && s[k + 6] == 0x5c && s[k + 7] == 0x75 {
                                        let g0 = hex_digit_val(s[k + 8]);
                                        let g1 = hex_digit_val(s[k + 9]);
                                        let g2 = hex_digit_val(s[k + 10]);
                                        let g3 = hex_digit_val(s[k + 11]);
                                        match (g0, g1, g2, g3) {
                                            (Some(a2), Some(b2), Some(c2), Some(d2)) => {
                                                let v2: u32 = a2 as u32 * 4096 + b2 as u32 * 256
                                                    + c2 as u32 * 16 + d2 as u32;
                                                if 0xdc00 <= v2 && v2 < 0xe000 {
                                                    let code: u32 = 0x10000 + (v - 0xd800) * 1024
                                                        + (v2 - 0xdc00);
                                                    let ghost acc0 = acc@;
                                                    push_utf8(code, &mut acc);
                                                    proof {
                                                        lemma_push_chunk(
                                                            acc0,
                                                            utf8_bytes(code as int),
                                                            s@,
                                                            k as int,
                                                            k + 12 as int,
                                                        );
                                                    }
                                                    k = k + 12;
                                                } else {
                                                    return None;
                                                }
                                            },
                                            _ => {
                                                return None;
                                            },
                                        }
                                    } else {
                                        return None;
                                    }
                                } else if 0xdc00 <= v && v < 0xe000 {
                                    return None;
                                } else {
                                    let ghost acc0 = acc@;
                                    push_utf8(v, &mut acc);
                                    proof {
                                        lemma_push_chunk(
                                            acc0,
                                            utf8_bytes(v as int),
                                            s@,
                                            k as int,
                                            k + 6 as int,
                                        );
                                    }
                                    k = k + 6;
                                }
                            },
                            _ => {
                                return None;
                            },
                        }
                    } else {
                        return None;
                    }
                } else {
                    match unescape_byte(e) {
                        Some(b) => {
                            let ghost acc0 = acc@;
                            acc.push(b);
                            proof {
                                lemma_push_chunk(acc0, seq![b], s@, k as int, k + 2 as int);
                            }
                            k = k + 2;
                        },
                        None => {
                            return None;
                        },
                    }
                }
            } else {
                return None;
            }
        } else if c < 0x20 {
            return None;
        } else {
            let ghost acc0 = acc@;
            acc.push(c);
            proof {
                lemma_push_chunk(acc0, seq![c], s@, k as int, k + 1 as int);
            }
            k = k + 1;
        }
    }
}

/// After one content chunk `bs` (spanning `s[k..k2]`) is taken, folding
/// the rest onto `acc + bs` is folding `bs + rest` onto `acc`.
proof fn lemma_push_chunk(acc: Seq<u8>, bs: Seq<u8>, s: Seq<u8>, k: int, k2: int)
    requires
        0 <= k2 <= s.len(),
        sp_string(s, k) == (match sp_string(s, k2) {
            Some((cs, e)) => Some((bs + cs, e)),
            None => None::<(Seq<u8>, int)>,
        }),
    ensures
        (match sp_string(s, k) {
            Some((cs, e)) => Some((acc + cs, e)),
            None => None::<(Seq<u8>, int)>,
        }) == (match sp_string(s, k2) {
            Some((cs, e)) => Some(((acc + bs) + cs, e)),
            None => None::<(Seq<u8>, int)>,
        }),
{
    match sp_string(s, k2) {
        Some((cs, e)) => {
            assert(acc + (bs + cs) =~= (acc + bs) + cs);
        },
        None => {},
    }
}

/// Append the UTF-8 bytes of a code point.
fn push_utf8(v: u32, out: &mut Vec<u8>)
    requires
        v < 0x110000,
    ensures
        final(out)@ == old(out)@ + utf8_bytes(v as int),
{
    if v < 0x80 {
        out.push(v as u8);
    } else if v < 0x800 {
        out.push(0xc0 + (v / 64) as u8);
        out.push(0x80 + (v % 64) as u8);
    } else if v < 0x10000 {
        out.push(0xe0 + (v / 4096) as u8);
        out.push(0x80 + ((v / 64) % 64) as u8);
        out.push(0x80 + (v % 64) as u8);
    } else {
        out.push(0xf0 + (v / 262144) as u8);
        out.push(0x80 + ((v / 4096) % 64) as u8);
        out.push(0x80 + ((v / 64) % 64) as u8);
        out.push(0x80 + (v % 64) as u8);
    }
    assert(out@ =~= old(out)@ + utf8_bytes(v as int));
}

fn unescape_byte(e: u8) -> (r: Option<u8>)
    ensures
        r == unescape(e),
{
    if e == 0x22 {
        Some(0x22)
    } else if e == 0x5c {
        Some(0x5c)
    } else if e == 0x2f {
        Some(0x2f)
    } else if e == 0x62 {
        Some(0x08)
    } else if e == 0x66 {
        Some(0x0c)
    } else if e == 0x6e {
        Some(0x0a)
    } else if e == 0x72 {
        Some(0x0d)
    } else if e == 0x74 {
        Some(0x09)
    } else {
        None
    }
}

fn p_digits_end(s: &Vec<u8>, i: usize) -> (r: usize)
    requires
        i <= s.len(),
    ensures
        r as int == digits_end(s@, i as int),
        i <= r <= s.len(),
        i < s.len() && is_digit(s@[i as int]) ==> i < r,
{
    let mut k: usize = i;
    loop
        invariant
            i <= k <= s.len(),
            digits_end(s@, i as int) == digits_end(s@, k as int),
            i < s.len() && is_digit(s@[i as int]) ==> i < k || k == i,
        decreases s.len() - k,
    {
        if k < s.len() {
            let b = s[k];
            if 0x30 <= b && b <= 0x39 {
                k = k + 1;
            } else {
                return k;
            }
        } else {
            return k;
        }
    }
}

/// All indices before a digit run's end hold digits, and the run stops
/// at the end of input or a non-digit.
proof fn lemma_digits_end_props(s: Seq<u8>, i: int)
    requires
        0 <= i <= s.len(),
    ensures
        i <= digits_end(s, i) <= s.len(),
        forall|t: int| i <= t < digits_end(s, i) ==> is_digit(s[t]),
        digits_end(s, i) == s.len() || !is_digit(s[digits_end(s, i)]),
    decreases s.len() - i,
{
    if i < s.len() && is_digit(s[i]) {
        lemma_digits_end_props(s, i + 1);
    }
}

fn copy_range(s: &Vec<u8>, a: usize, b: usize) -> (out: Vec<u8>)
    requires
        a <= b && b <= s.len(),
    ensures
        out@ == s@.subrange(a as int, b as int),
{
    let mut out: Vec<u8> = Vec::new();
    let mut k: usize = a;
    proof {
        assert(s@.subrange(a as int, a as int) =~= Seq::<u8>::empty());
    }
    while k < b
        invariant
            a <= k <= b <= s.len(),
            out@ == s@.subrange(a as int, k as int),
        decreases b - k,
    {
        out.push(s[k]);
        proof {
            assert(s@.subrange(a as int, k + 1 as int) =~= s@.subrange(a as int, k as int) + seq![
                s@[k as int],
            ]);
            assert(out@ =~= s@.subrange(a as int, k + 1 as int));
        }
        k = k + 1;
    }
    out
}

#[verifier::loop_isolation(false)]
fn p_number(s: &Vec<u8>, i: usize) -> (r: Option<(Json, usize)>)
    requires
        i < s.len(),
        s@[i as int] == 0x2d || is_digit(s@[i as int]),
    ensures
        match r {
            Some(p) => sp_number(s@, i as int) == Some((jv(p.0), p.1 as int)) && i < p.1 <= s.len(),
            None => sp_number(s@, i as int) is None,
        },
{
    let p: usize = if s[i] == 0x2d {
        i + 1
    } else {
        i
    };
    if p >= s.len() {
        return None;
    }
    let first = s[p];
    if !(0x30 <= first && first <= 0x39) {
        return None;
    }
    let de = p_digits_end(s, p);
    if first == 0x30 && de > p + 1 {
        return None;
    }
    let mut fe: usize = de;
    if de < s.len() && s[de] == 0x2e {
        let fd = p_digits_end(s, de + 1);
        if fd > de + 1 {
            fe = fd;
        } else {
            return None;
        }
    }
    let mut ee: usize = fe;
    if fe < s.len() && (s[fe] == 0x65 || s[fe] == 0x45) {
        let j: usize = if fe + 1 < s.len() && (s[fe + 1] == 0x2b || s[fe + 1] == 0x2d) {
            fe + 2
        } else {
            fe + 1
        };
        let ed = p_digits_end(s, j);
        if ed > j {
            ee = ed;
        } else {
            return None;
        }
    }
    if fe == de && ee == de {
        let ghost run = s@.subrange(p as int, de as int);
        proof {
            lemma_digits_end_props(s@, p as int);
        }
        let mut acc: u64 = 0;
        let mut k: usize = p;
        while k < de
            invariant
                p <= k <= de <= s.len(),
                de as int == digits_end(s@, p as int),
                run == s@.subrange(p as int, de as int),
                forall|t: int| p <= t < de ==> is_digit(s@[t]),
                acc <= 0x8000_0000_0000_0000,
                lfold(0, run) == lfold(acc as int, s@.subrange(k as int, de as int)),
            decreases de - k,
        {
            let d = (s[k] - 0x30) as u64;
            let a2: u128 = acc as u128 * 10 + d as u128;
            proof {
                assert(s@.subrange(k as int, de as int)[0] == s@[k as int]);
                assert(s@.subrange(k as int, de as int).subrange(
                    1,
                    (de - k) as int,
                ) =~= s@.subrange(k + 1 as int, de as int));
            }
            if a2 > 0x8000_0000_0000_0000u128 {
                proof {
                    assert(digits_ok(s@.subrange(k + 1 as int, de as int))) by {
                        assert(forall|t: int|
                            0 <= t < de - k - 1 ==> #[trigger] s@.subrange(
                                k + 1 as int,
                                de as int,
                            )[t] == s@[k + 1 + t]);
                    }
                    lemma_lfold_ge(a2 as int, s@.subrange(k + 1 as int, de as int));
                }
                let tok = copy_range(s, i, de);
                return Some((Json::Num(tok), de));
            }
            acc = a2 as u64;
            k = k + 1;
        }
        proof {
            assert(s@.subrange(de as int, de as int) =~= Seq::<u8>::empty());
            assert(lfold(0, run) == acc as int);
        }
        if s[i] == 0x2d {
            let n: i64 = (-(acc as i128)) as i64;
            Some((Json::Int(n), de))
        } else {
            if acc <= 0x7fff_ffff_ffff_ffffu64 {
                Some((Json::Int(acc as i64), de))
            } else {
                let tok = copy_range(s, i, de);
                Some((Json::Num(tok), de))
            }
        }
    } else {
        let tok = copy_range(s, i, ee);
        Some((Json::Num(tok), ee))
    }
}

fn p_value(s: &Vec<u8>, i: usize) -> (r: Option<(Json, usize)>)
    requires
        i <= s.len(),
    ensures
        match r {
            Some(p) => sp_value(s@, i as int) == Some((jv(p.0), p.1 as int)) && i < p.1 <= s.len(),
            None => sp_value(s@, i as int) is None,
        },
    decreases s.len() - i, 1int,
{
    let j = p_skip_ws(s, i);
    if j >= s.len() {
        return None;
    }
    let c = s[j];
    if c == 0x6e {
        if s.len() - j >= 4 && s[j + 1] == 0x75 && s[j + 2] == 0x6c && s[j + 3] == 0x6c {
            Some((Json::Null, j + 4))
        } else {
            None
        }
    } else if c == 0x74 {
        if s.len() - j >= 4 && s[j + 1] == 0x72 && s[j + 2] == 0x75 && s[j + 3] == 0x65 {
            Some((Json::Bool(true), j + 4))
        } else {
            None
        }
    } else if c == 0x66 {
        if s.len() - j >= 5 && s[j + 1] == 0x61 && s[j + 2] == 0x6c && s[j + 3] == 0x73 && s[j + 4]
            == 0x65 {
            Some((Json::Bool(false), j + 5))
        } else {
            None
        }
    } else if c == 0x22 {
        match p_string(s, j + 1) {
            Some((cs, k)) => Some((Json::Str(cs), k)),
            None => None,
        }
    } else if c == 0x2d || (0x30 <= c && c <= 0x39) {
        p_number(s, j)
    } else if c == 0x5b {
        let m = p_skip_ws(s, j + 1);
        if m < s.len() && s[m] == 0x5d {
            let empty: Vec<Json> = Vec::new();
            proof {
                lemma_jv_seq(empty@);
                assert(jv_seq(empty@) =~= Seq::<JVal>::empty());
            }
            Some((Json::Arr(empty), m + 1))
        } else {
            match p_items(s, j + 1) {
                Some((vs, k)) => Some((Json::Arr(vs), k)),
                None => None,
            }
        }
    } else if c == 0x7b {
        let m = p_skip_ws(s, j + 1);
        if m < s.len() && s[m] == 0x7d {
            let empty: Vec<(Vec<u8>, Json)> = Vec::new();
            proof {
                lemma_jv_fields(empty@);
                assert(jv_fields(empty@) =~= Seq::<(Seq<u8>, JVal)>::empty());
            }
            Some((Json::Obj(empty), m + 1))
        } else {
            match p_fields(s, j + 1) {
                Some((fs, k)) => Some((Json::Obj(fs), k)),
                None => None,
            }
        }
    } else {
        None
    }
}

fn p_items(s: &Vec<u8>, i: usize) -> (r: Option<(Vec<Json>, usize)>)
    requires
        i <= s.len(),
    ensures
        match r {
            Some(p) => sp_items(s@, i as int) == Some((jv_seq(p.0@), p.1 as int)) && i < p.1
                <= s.len(),
            None => sp_items(s@, i as int) is None,
        },
    decreases s.len() - i, 2int,
{
    match p_value(s, i) {
        None => None,
        Some((v, k)) => {
            let m = p_skip_ws(s, k);
            if m >= s.len() {
                return None;
            }
            let b = s[m];
            if b == 0x2c {
                match p_items(s, m + 1) {
                    Some((vs, e)) => {
                        let mut all = vs;
                        let ghost rest = all@;
                        all.insert(0, v);
                        proof {
                            assert(all@ =~= seq![v] + rest);
                            lemma_jv_seq_cons(v, rest);
                        }
                        Some((all, e))
                    },
                    None => None,
                }
            } else if b == 0x5d {
                let mut one: Vec<Json> = Vec::new();
                one.push(v);
                proof {
                    assert(one@ =~= seq![v] + Seq::<Json>::empty());
                    lemma_jv_seq_cons(v, Seq::<Json>::empty());
                    assert(jv_seq(Seq::<Json>::empty()) =~= Seq::<JVal>::empty());
                    assert(jv_seq(one@) =~= seq![jv(v)]);
                }
                Some((one, m + 1))
            } else {
                None
            }
        },
    }
}

proof fn lemma_jv_seq_cons(v: Json, rest: Seq<Json>)
    ensures
        jv_seq(seq![v] + rest) == seq![jv(v)] + jv_seq(rest),
{
    let whole = seq![v] + rest;
    assert(whole[0] == v);
    assert(whole.subrange(1, whole.len() as int) =~= rest);
}

proof fn lemma_jv_fields_cons(key: Vec<u8>, v: Json, rest: Seq<(Vec<u8>, Json)>)
    ensures
        jv_fields(seq![(key, v)] + rest) == seq![(key@, jv(v))] + jv_fields(rest),
{
    let whole = seq![(key, v)] + rest;
    assert(whole[0] == (key, v));
    assert(whole.subrange(1, whole.len() as int) =~= rest);
}

fn p_fields(s: &Vec<u8>, i: usize) -> (r: Option<(Vec<(Vec<u8>, Json)>, usize)>)
    requires
        i <= s.len(),
    ensures
        match r {
            Some(p) => sp_fields(s@, i as int) == Some((jv_fields(p.0@), p.1 as int)) && i < p.1
                <= s.len(),
            None => sp_fields(s@, i as int) is None,
        },
    decreases s.len() - i, 2int,
{
    let j = p_skip_ws(s, i);
    if j >= s.len() {
        return None;
    }
    if s[j] != 0x22 {
        return None;
    }
    match p_string(s, j + 1) {
        None => None,
        Some((key, k)) => {
            let m = p_skip_ws(s, k);
            if m >= s.len() {
                return None;
            }
            if s[m] != 0x3a {
                return None;
            }
            match p_value(s, m + 1) {
                None => None,
                Some((v, e)) => {
                    let m2 = p_skip_ws(s, e);
                    if m2 >= s.len() {
                        return None;
                    }
                    let b = s[m2];
                    if b == 0x2c {
                        match p_fields(s, m2 + 1) {
                            Some((fs, e2)) => {
                                let mut all = fs;
                                let ghost rest = all@;
                                all.insert(0, (key, v));
                                proof {
                                    assert(all@ =~= seq![(key, v)] + rest);
                                    lemma_jv_fields_cons(key, v, rest);
                                }
                                Some((all, e2))
                            },
                            None => None,
                        }
                    } else if b == 0x7d {
                        let ghost gkey = key@;
                        let ghost gv = jv(v);
                        let mut one: Vec<(Vec<u8>, Json)> = Vec::new();
                        one.push((key, v));
                        proof {
                            assert(one@.subrange(1, 1) =~= Seq::<(Vec<u8>, Json)>::empty());
                            assert(jv_fields(Seq::<(Vec<u8>, Json)>::empty()) =~= Seq::<(
                                Seq<u8>,
                                JVal,
                            )>::empty());
                            assert(one@[0].0@ == gkey);
                            assert(jv(one@[0].1) == gv);
                            assert(jv_fields(one@) =~= seq![(gkey, gv)]);
                        }
                        Some((one, m2 + 1))
                    } else {
                        None
                    }
                },
            }
        },
    }
}

pub open spec fn digits_ok(d: Seq<u8>) -> bool {
    forall|k: int| 0 <= k < d.len() ==> is_digit(d[k])
}

/// Fold a digit string onto an accumulator, most significant first.
pub open spec fn lfold(acc: int, d: Seq<u8>) -> int
    decreases d.len(),
{
    if d.len() == 0 {
        acc
    } else {
        lfold(acc * 10 + (d[0] - 0x30), d.subrange(1, d.len() as int))
    }
}

proof fn lemma_lfold_snoc(acc: int, d: Seq<u8>, c: u8)
    ensures
        lfold(acc, d + seq![c]) == lfold(acc, d) * 10 + (c - 0x30),
    decreases d.len(),
{
    if d.len() == 0 {
        assert(d + seq![c] =~= seq![c]);
        assert(seq![c].subrange(1, 1) =~= Seq::<u8>::empty());
        assert(lfold(acc * 10 + (c - 0x30), Seq::<u8>::empty()) == acc * 10 + (c - 0x30));
        assert(seq![c][0] == c);
        assert(lfold(acc, d) == acc);
    } else {
        assert((d + seq![c]).subrange(1, (d + seq![c]).len() as int) =~= d.subrange(
            1,
            d.len() as int,
        ) + seq![c]);
        assert((d + seq![c])[0] == d[0]);
        lemma_lfold_snoc(acc * 10 + (d[0] - 0x30), d.subrange(1, d.len() as int), c);
    }
}

proof fn lemma_lfold_ge(acc: int, d: Seq<u8>)
    requires
        acc >= 0,
        digits_ok(d),
    ensures
        lfold(acc, d) >= acc,
    decreases d.len(),
{
    if d.len() > 0 {
        lemma_lfold_ge(acc * 10 + (d[0] - 0x30), d.subrange(1, d.len() as int));
    }
}

proof fn lemma_dec_digits_ok(m: nat)
    ensures
        digits_ok(dec_digits(m)),
        dec_digits(m).len() >= 1,
        is_digit(dec_digits(m)[0]),
    decreases m,
{
    if m >= 10 {
        lemma_dec_digits_ok(m / 10);
    }
}

proof fn lemma_lfold_dec(m: nat)
    ensures
        lfold(0, dec_digits(m)) == m,
    decreases m,
{
    if m < 10 {
        assert(dec_digits(m) =~= seq![(0x30 + m) as u8]);
        assert(dec_digits(m).subrange(1, 1) =~= Seq::<u8>::empty());
        assert(((0x30 + m) as u8) == 0x30 + m);
        assert(lfold((0x30 + m) as u8 - 0x30, Seq::<u8>::empty()) == m);
        assert(seq![(0x30 + m) as u8][0] == (0x30 + m) as u8);
    } else {
        lemma_lfold_dec(m / 10);
        lemma_lfold_snoc(0, dec_digits(m / 10), (0x30 + m % 10) as u8);
        assert(((0x30 + m % 10) as u8) == 0x30 + m % 10);
        assert(lfold(0, dec_digits(m)) == (m / 10) * 10 + m % 10);
        assert((m / 10) * 10 + m % 10 == m);
    }
}

proof fn lemma_digits_end_run(s: Seq<u8>, j: int, e: int)
    requires
        0 <= j <= e <= s.len(),
        forall|t: int| j <= t < e ==> is_digit(s[t]),
        e == s.len() || !is_digit(s[e]),
    ensures
        digits_end(s, j) == e,
    decreases e - j,
{
    if j < e {
        lemma_digits_end_run(s, j + 1, e);
    }
}

/// A positive number's decimal text never starts with a zero.
proof fn lemma_dec_first_nonzero(m: nat)
    requires
        m >= 1,
    ensures
        dec_digits(m)[0] != 0x30,
    decreases m,
{
    if m >= 10 {
        lemma_dec_first_nonzero(m / 10);
        assert(dec_digits(m)[0] == dec_digits(m / 10)[0]);
    }
}

proof fn lemma_parse_number_at(s: Seq<u8>, i: int, n: i64)
    requires
        0 <= i,
        i + dec_int(n as int).len() <= s.len(),
        s.subrange(i, i + dec_int(n as int).len()) == dec_int(n as int),
        i + dec_int(n as int).len() == s.len() || !can_extend_number(
            s[i + dec_int(n as int).len()],
        ),
    ensures
        sp_number(s, i) == Some((JVal::Int(n), i + dec_int(n as int).len())),
{
    let d = dec_int(n as int);
    let e = i + d.len();
    assert forall|k: int| 0 <= k < d.len() implies s[i + k] == d[k] by {
        assert(s.subrange(i, i + d.len() as int)[k] == s[i + k]);
    }
    if n >= 0 {
        let m = n as nat;
        lemma_dec_digits_ok(m);
        lemma_lfold_dec(m);
        assert forall|k: int| i <= k < e implies is_digit(s[k]) by {
            assert(s[i + (k - i)] == d[k - i]);
            assert(is_digit(d[k - i]));
        }
        assert(is_digit(s[i]));
        assert(s[i] != 0x2d);
        lemma_digits_end_run(s, i, e);
        if m >= 10 {
            lemma_dec_first_nonzero(m);
            assert(s[i] == d[0]);
            assert(s[i] != 0x30);
        } else {
            assert(d.len() == 1);
        }
        assert(s.subrange(i, e) =~= dec_digits(m));
        assert(frac_end(s, e) == Some(e));
        assert(exp_end(s, e) == Some(e));
        assert(lfold(0, s.subrange(i, e)) == m);
    } else {
        let m = (-(n as int)) as nat;
        lemma_dec_digits_ok(m);
        lemma_lfold_dec(m);
        assert(d =~= seq![0x2du8] + dec_digits(m));
        assert(d[0] == 0x2d);
        assert(s[i + 0] == d[0]);
        assert(s[i] == 0x2d);
        assert forall|k: int| 0 <= k < dec_digits(m).len() implies s[i + 1 + k] == dec_digits(
            m,
        )[k] by {
            assert(s[i + (1 + k)] == d[1 + k]);
            assert(d[1 + k] == dec_digits(m)[k]);
        }
        assert forall|k: int| i + 1 <= k < e implies is_digit(s[k]) by {
            assert(s[i + 1 + (k - i - 1)] == dec_digits(m)[k - i - 1]);
            assert(is_digit(dec_digits(m)[k - i - 1]));
        }
        assert(is_digit(s[i + 1]));
        lemma_digits_end_run(s, i + 1, e);
        if m >= 10 {
            lemma_dec_first_nonzero(m);
            assert(s[i + 1] == dec_digits(m)[0]);
            assert(s[i + 1] != 0x30);
        } else {
            assert(dec_digits(m).len() == 1);
        }
        assert(s.subrange(i + 1, e) =~= dec_digits(m));
        assert(frac_end(s, e) == Some(e));
        assert(exp_end(s, e) == Some(e));
        assert(lfold(0, s.subrange(i + 1, e)) == m);
        assert((-(m as int)) as i64 == n);
    }
}

proof fn lemma_hex_of(dv: nat)
    requires
        dv < 16,
    ensures
        is_hex(hex_digit(dv)),
        hex_val(hex_digit(dv)) == dv,
{
}

proof fn lemma_parse_string_content(s: Seq<u8>, i: int, content: Seq<u8>)
    requires
        0 <= i,
        i + esc(content).len() + 1 <= s.len(),
        s.subrange(i, i + esc(content).len()) == esc(content),
        s[i + esc(content).len()] == 0x22,
    ensures
        sp_string(s, i) == Some((content, i + esc(content).len() + 1)),
    decreases content.len(),
{
    let whole = esc(content);
    assert forall|k: int| 0 <= k < whole.len() implies s[i + k] == whole[k] by {
        assert(s.subrange(i, i + whole.len() as int)[k] == s[i + k]);
    }
    if content.len() == 0 {
        assert(whole =~= Seq::<u8>::empty());
        assert(s[i] == 0x22);
        assert(content =~= Seq::<u8>::empty());
    } else {
        let b = content[0];
        let rest = content.subrange(1, content.len() as int);
        let eb = esc_byte(b);
        assert(whole == eb + esc(rest));
        assert forall|k: int| 0 <= k < eb.len() implies s[i + k] == eb[k] by {
            assert(s[i + k] == whole[k]);
            assert(whole[k] == eb[k]);
        }
        let i2 = i + eb.len();
        assert forall|k: int| 0 <= k < esc(rest).len() implies s[i2 + k] == esc(rest)[k] by {
            assert(s[i + (eb.len() + k)] == whole[eb.len() + k]);
            assert(whole[eb.len() + k] == esc(rest)[k]);
        }
        assert(s.subrange(i2, i2 + esc(rest).len() as int) =~= esc(rest));
        assert(s[i2 + esc(rest).len()] == 0x22);
        lemma_parse_string_content(s, i2, rest);
        assert(seq![b] + rest =~= content);
        if b == 0x22 || b == 0x5c || b == 0x08 || b == 0x0c || b == 0x0a || b == 0x0d || b
            == 0x09 {
            assert(s[i] == 0x5c);
            assert(unescape(s[i + 1]) == Some(b));
        } else if b < 0x20 {
            assert(s[i] == 0x5c && s[i + 1] == 0x75);
            assert(s[i + 2] == 0x30 && s[i + 3] == 0x30);
            assert(s[i + 4] == hex_digit((b / 16) as nat));
            assert(s[i + 5] == hex_digit((b % 16) as nat));
            lemma_hex_of((b / 16) as nat);
            lemma_hex_of((b % 16) as nat);
            assert(hex_val(0x30) == 0);
            let v = hex_val(s[i + 2]) * 4096 + hex_val(s[i + 3]) * 256 + hex_val(s[i + 4]) * 16
                + hex_val(s[i + 5]);
            assert(v == (b / 16) * 16 + (b % 16));
            assert(v == b);
        } else {
            assert(s[i] == b);
            assert(b != 0x22 && b != 0x5c && !(b < 0x20));
        }
    }
}

proof fn lemma_jser_first(v: JVal)
    requires
        !(v matches JVal::Num(_)),
    ensures
        jser(v).len() >= 1,
        !is_ws(jser(v)[0]),
        jser(v)[0] != 0x5d,
        jser(v)[0] != 0x7d,
        jser(v)[0] != 0x2c,
        jser(v)[0] != 0x3a,
{
    match v {
        JVal::Int(n) => {
            if n >= 0 {
                lemma_dec_digits_ok(n as nat);
            } else {
                lemma_dec_digits_ok((-(n as int)) as nat);
                assert(jser(v)[0] == 0x2d);
            }
        },
        _ => {},
    }
}

proof fn lemma_parse_value_at(s: Seq<u8>, i: int, v: JVal)
    requires
        int_only(v),
        0 <= i,
        i + jser(v).len() <= s.len(),
        s.subrange(i, i + jser(v).len()) == jser(v),
        i + jser(v).len() == s.len() || !can_extend_number(s[i + jser(v).len()]),
    ensures
        sp_value(s, i) == Some((v, i + jser(v).len())),
    decreases v, 0int,
{
    let w = jser(v);
    let n_ = w.len();
    assert forall|k: int| 0 <= k < n_ implies s[i + k] == w[k] by {
        assert(s.subrange(i, i + n_ as int)[k] == s[i + k]);
    }
    assert(!(v matches JVal::Num(_)));
    lemma_jser_first(v);
    assert(s[i + 0] == w[0]);
    assert(skip_ws(s, i) == i);
    match v {
        JVal::Null => {
            assert(s[i] == 0x6e && s[i + 1] == 0x75 && s[i + 2] == 0x6c && s[i + 3] == 0x6c);
        },
        JVal::Bool(b) => {
            if b {
                assert(s[i] == 0x74 && s[i + 1] == 0x72 && s[i + 2] == 0x75 && s[i + 3] == 0x65);
            } else {
                assert(s[i] == 0x66 && s[i + 1] == 0x61 && s[i + 2] == 0x6c && s[i + 3] == 0x73
                    && s[i + 4] == 0x65);
            }
        },
        JVal::Int(n) => {
            lemma_parse_number_at(s, i, n);
            assert(s[i] == 0x2d || is_digit(s[i]));
        },
        JVal::Num(_) => {
            assert(false);
        },
        JVal::Str(content) => {
            assert(w =~= seq![0x22u8] + esc(content) + seq![0x22u8]);
            assert(w[0] == 0x22);
            assert(s[i + 0] == w[0]);
            assert forall|k: int| 0 <= k < esc(content).len() implies s[i + 1 + k] == esc(
                content,
            )[k] by {
                assert(s[i + (1 + k)] == w[1 + k]);
                assert(w[1 + k] == esc(content)[k]);
            }
            assert(s.subrange(i + 1, i + 1 + esc(content).len() as int) =~= esc(content));
            assert(s[i + 1 + esc(content).len()] == w[1 + esc(content).len() as int]);
            assert(w[1 + esc(content).len() as int] == 0x22);
            lemma_parse_string_content(s, i + 1, content);
        },
        JVal::Arr(vs) => {
            assert(s[i] == 0x5b);
            if vs.len() == 0 {
                assert(jser_items(vs) =~= Seq::<u8>::empty());
                assert(w =~= seq![0x5bu8] + Seq::<u8>::empty() + seq![0x5du8]);
                assert(w[1] == 0x5d);
                assert(s[i + 1] == w[1]);
                assert(skip_ws(s, i + 1) == i + 1);
                assert(vs =~= Seq::<JVal>::empty());
            } else {
                let items = jser_items(vs);
                assert forall|k: int| 0 <= k < items.len() implies s[i + 1 + k] == items[k] by {
                    assert(s[i + (1 + k)] == w[1 + k]);
                    assert(w[1 + k] == items[k]);
                }
                assert(int_only(vs[0]));
                lemma_jser_first(vs[0]);
                assert(items[0] == jser(vs[0])[0]);
                assert(s[i + 1] == items[0]);
                assert(skip_ws(s, i + 1) == i + 1);
                assert(s[i + 1] != 0x5d);
                assert(s.subrange(i + 1, i + 1 + items.len() as int) =~= items);
                assert(s[i + 1 + items.len()] == w[1 + items.len() as int]);
                assert(w[1 + items.len() as int] == 0x5d);
                lemma_parse_items_at(s, i + 1, vs);
            }
        },
        JVal::Obj(fs) => {
            assert(s[i] == 0x7b);
            if fs.len() == 0 {
                assert(jser_fields(fs) =~= Seq::<u8>::empty());
                assert(w =~= seq![0x7bu8] + Seq::<u8>::empty() + seq![0x7du8]);
                assert(w[1] == 0x7d);
                assert(s[i + 1] == w[1]);
                assert(skip_ws(s, i + 1) == i + 1);
                assert(fs =~= Seq::<(Seq<u8>, JVal)>::empty());
            } else {
                let body = jser_fields(fs);
                assert forall|k: int| 0 <= k < body.len() implies s[i + 1 + k] == body[k] by {
                    assert(s[i + (1 + k)] == w[1 + k]);
                    assert(w[1 + k] == body[k]);
                }
                assert(jser_field(fs[0]) =~= seq![0x22u8] + esc(fs[0].0) + seq![0x22u8, 0x3a]
                    + jser(fs[0].1));
                assert(jser_field(fs[0])[0] == 0x22);
                assert(body[0] == jser_field(fs[0])[0]);
                assert(s[i + 1] == 0x22);
                assert(skip_ws(s, i + 1) == i + 1);
                assert(s[i + 1] != 0x7d);
                assert(s.subrange(i + 1, i + 1 + body.len() as int) =~= body);
                assert(s[i + 1 + body.len()] == w[1 + body.len() as int]);
                assert(w[1 + body.len() as int] == 0x7d);
                lemma_parse_fields_at(s, i + 1, fs);
            }
        },
    }
}

proof fn lemma_parse_items_at(s: Seq<u8>, i: int, vs: Seq<JVal>)
    requires
        forall|t: int| 0 <= t < vs.len() ==> int_only(#[trigger] vs[t]),
        vs.len() >= 1,
        0 <= i,
        i + jser_items(vs).len() + 1 <= s.len(),
        s.subrange(i, i + jser_items(vs).len()) == jser_items(vs),
        s[i + jser_items(vs).len()] == 0x5d,
    ensures
        sp_items(s, i) == Some((vs, i + jser_items(vs).len() + 1)),
    decreases vs, 1int,
{
    let w = jser_items(vs);
    assert forall|k: int| 0 <= k < w.len() implies s[i + k] == w[k] by {
        assert(s.subrange(i, i + w.len() as int)[k] == s[i + k]);
    }
    assert(int_only(vs[0]));
    if vs.len() == 1 {
        assert(w == jser(vs[0]));
        lemma_parse_value_at(s, i, vs[0]);
        let k = i + w.len();
        lemma_jser_first(vs[0]);
        assert(skip_ws(s, k) == k);
        assert(seq![vs[0]] =~= vs);
    } else {
        let rest = vs.subrange(1, vs.len() as int);
        assert(w == jser(vs[0]) + seq![0x2cu8] + jser_items(rest));
        let l0 = jser(vs[0]).len() as int;
        assert(s[i + l0] == w[l0]);
        assert(w[l0] == 0x2c);
        assert(s.subrange(i, i + l0 as int) =~= jser(vs[0])) by {
            assert(forall|k: int|
                0 <= k < l0 ==> #[trigger] s.subrange(i, i + l0 as int)[k] == s[i + k]);
        }
        lemma_parse_value_at(s, i, vs[0]);
        let k = i + l0;
        assert(skip_ws(s, k) == k);
        assert forall|k2: int| 0 <= k2 < jser_items(rest).len() implies s[k + 1 + k2]
            == jser_items(rest)[k2] by {
            assert(s[i + (l0 + 1 + k2)] == w[l0 + 1 + k2]);
            assert(w[l0 + 1 + k2] == jser_items(rest)[k2]);
        }
        assert(s.subrange(k + 1, k + 1 + jser_items(rest).len() as int) =~= jser_items(rest));
        assert(s[k + 1 + jser_items(rest).len()] == 0x5d);
        assert(forall|t: int| 0 <= t < rest.len() ==> int_only(#[trigger] rest[t])) by {
            assert(forall|t: int| 0 <= t < rest.len() ==> #[trigger] rest[t] == vs[t + 1]);
        }
        lemma_parse_items_at(s, k + 1, rest);
        assert(seq![vs[0]] + rest =~= vs);
    }
}

proof fn lemma_parse_fields_at(s: Seq<u8>, i: int, fs: Seq<(Seq<u8>, JVal)>)
    requires
        forall|t: int| 0 <= t < fs.len() ==> int_only(#[trigger] fs[t].1),
        fs.len() >= 1,
        0 <= i,
        i + jser_fields(fs).len() + 1 <= s.len(),
        s.subrange(i, i + jser_fields(fs).len()) == jser_fields(fs),
        s[i + jser_fields(fs).len()] == 0x7d,
    ensures
        sp_fields(s, i) == Some((fs, i + jser_fields(fs).len() + 1)),
    decreases fs, 1int,
{
    let w = jser_fields(fs);
    assert forall|k: int| 0 <= k < w.len() implies s[i + k] == w[k] by {
        assert(s.subrange(i, i + w.len() as int)[k] == s[i + k]);
    }
    let key = fs[0].0;
    let val = fs[0].1;
    let f0 = jser_field(fs[0]);
    let el = esc(key).len() as int;
    let lv = jser(val).len() as int;
    assert(f0 =~= seq![0x22u8] + esc(key) + seq![0x22u8, 0x3a] + jser(val));
    let sep = if fs.len() == 1 {
        0x7du8
    } else {
        0x2cu8
    };
    if fs.len() == 1 {
        assert(w == f0);
    } else {
        assert(w == f0 + seq![0x2cu8] + jser_fields(fs.subrange(1, fs.len() as int)));
        assert(s[i + f0.len()] == w[f0.len() as int]);
        assert(w[f0.len() as int] == 0x2c);
    }
    assert forall|k: int| 0 <= k < f0.len() implies s[i + k] == f0[k] by {
        assert(s[i + k] == w[k]);
        assert(w[k] == f0[k]);
    }
    assert(f0[0] == 0x22);
    assert(s[i + 0] == f0[0]);
    assert(s[i] == 0x22);
    assert(skip_ws(s, i) == i);
    assert forall|k: int| 0 <= k < el implies s[i + 1 + k] == esc(key)[k] by {
        assert(s[i + (1 + k)] == f0[1 + k]);
        assert(f0[1 + k] == esc(key)[k]);
    }
    assert(s.subrange(i + 1, i + 1 + el as int) =~= esc(key));
    assert(s[i + 1 + el] == f0[1 + el]);
    assert(f0[1 + el] == 0x22);
    lemma_parse_string_content(s, i + 1, key);
    let k0 = i + 2 + el;
    assert(sp_string(s, i + 1) == Some((key, k0)));
    assert(s[k0] == f0[2 + el]);
    assert(f0[2 + el] == 0x3a);
    assert(skip_ws(s, k0) == k0);
    assert forall|k: int| 0 <= k < lv implies s[k0 + 1 + k] == jser(val)[k] by {
        assert(s[i + (3 + el + k)] == f0[3 + el + k]);
        assert(f0[3 + el + k] == jser(val)[k]);
    }
    assert(s.subrange(k0 + 1, k0 + 1 + lv as int) =~= jser(val));
    let e = k0 + 1 + lv;
    assert(e == i + f0.len());
    assert(s[e] == sep);
    assert(int_only(fs[0].1));
    lemma_parse_value_at(s, k0 + 1, val);
    assert(skip_ws(s, e) == e);
    if fs.len() == 1 {
        assert(s[e] == 0x7d);
        assert(seq![(key, val)] =~= fs);
        assert((key, val) == fs[0]);
    } else {
        let rest = fs.subrange(1, fs.len() as int);
        assert(s[e] == 0x2c);
        assert forall|k2: int| 0 <= k2 < jser_fields(rest).len() implies s[e + 1 + k2]
            == jser_fields(rest)[k2] by {
            assert(s[i + (f0.len() + 1 + k2)] == w[f0.len() + 1 + k2]);
            assert(w[f0.len() + 1 + k2] == jser_fields(rest)[k2]);
        }
        assert(s.subrange(e + 1, e + 1 + jser_fields(rest).len() as int) =~= jser_fields(rest));
        assert(s[e + 1 + jser_fields(rest).len()] == 0x7d);
        assert(forall|t: int| 0 <= t < rest.len() ==> int_only(#[trigger] rest[t].1)) by {
            assert(forall|t: int| 0 <= t < rest.len() ==> #[trigger] rest[t] == fs[t + 1]);
        }
        lemma_parse_fields_at(s, e + 1, rest);
        assert(seq![(key, val)] + rest =~= fs);
    }
}

/// Parsing the canonical serialization of a value gives that value
/// back: the codec round-trips.  Stated for values whose numbers are
/// all plain integers: a raw number token is parsed back faithfully
/// only when it is not itself the text of a plain integer, which is
/// true of every token the parser produces but not of every token.
pub proof fn lemma_json_roundtrip(v: JVal)
    requires
        int_only(v),
    ensures
        sp_json(jser(v)) == Some(v),
{
    let s = jser(v);
    assert(s.subrange(0, s.len() as int) =~= s);
    lemma_parse_value_at(s, 0, v);
    assert(skip_ws(s, s.len() as int) == s.len());
}

/// Parse one message's bytes into a JSON value.  Succeeds exactly when
/// the whole input is one JSON value, up to surrounding whitespace.
pub fn parse_json(s: &Vec<u8>) -> (r: Option<Json>)
    ensures
        match r {
            Some(j) => sp_json(s@) == Some(jv(j)),
            None => sp_json(s@) is None,
        },
{
    match p_value(s, 0) {
        Some((j, k)) => {
            let e = p_skip_ws(s, k);
            if e == s.len() {
                Some(j)
            } else {
                None
            }
        },
        None => None,
    }
}

} // verus!
