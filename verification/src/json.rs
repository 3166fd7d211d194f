use vstd::prelude::*;

verus! {

/// A JSON-like document value. Strings are held as their UTF-8 bytes, so
/// encoding, decoding and equality all work byte for byte; an object is a
/// sequence of key/value bindings in insertion order.
pub enum JsonValue {
    Null,
    Bool(bool),
    Int(i64),
    Str(Vec<u8>),
    Arr(Vec<JsonValue>),
    Obj(Vec<(Vec<u8>, JsonValue)>),
}

/// The mathematical model of a document value.
pub enum Json {
    Null,
    Bool(bool),
    Int(int),
    Str(Seq<u8>),
    Arr(Seq<Json>),
    Obj(Seq<(Seq<u8>, Json)>),
}

/// The model of a sequence of array elements.
pub open spec fn view_arr(es: Seq<JsonValue>) -> Seq<Json>
    decreases es,
{
    if es.len() == 0 {
        Seq::empty()
    } else {
        seq![es[0].view()] + view_arr(es.skip(1))
    }
}

/// The model of a sequence of object bindings.
pub open spec fn view_obj(ps: Seq<(Vec<u8>, JsonValue)>) -> Seq<(Seq<u8>, Json)>
    decreases ps,
{
    if ps.len() == 0 {
        Seq::empty()
    } else {
        seq![(ps[0].0@, ps[0].1.view())] + view_obj(ps.skip(1))
    }
}

impl View for JsonValue {
    type V = Json;

    open spec fn view(&self) -> Json
        decreases self,
    {
        match self {
            JsonValue::Null => Json::Null,
            JsonValue::Bool(b) => Json::Bool(*b),
            JsonValue::Int(i) => Json::Int(*i as int),
            JsonValue::Str(s) => Json::Str(s@),
            JsonValue::Arr(es) => Json::Arr(view_arr(es@)),
            JsonValue::Obj(ps) => Json::Obj(view_obj(ps@)),
        }
    }
}

/// `view_arr` pinned down pointwise.
pub proof fn lemma_view_arr_index(es: Seq<JsonValue>)
    ensures
        view_arr(es).len() == es.len(),
        forall|i: int| 0 <= i < es.len() ==> view_arr(es)[i] == es[i].view(),
    decreases es,
{
    if es.len() > 0 {
        lemma_view_arr_index(es.skip(1));
        assert(view_arr(es) == seq![es[0].view()] + view_arr(es.skip(1)));
        assert forall|i: int| 0 <= i < es.len() implies view_arr(es)[i] == es[i].view() by {
            if i > 0 {
                assert(view_arr(es)[i] == view_arr(es.skip(1))[i - 1]);
                assert(es.skip(1)[i - 1] == es[i]);
            }
        }
    }
}

/// `view_obj` pinned down pointwise.
pub proof fn lemma_view_obj_index(ps: Seq<(Vec<u8>, JsonValue)>)
    ensures
        view_obj(ps).len() == ps.len(),
        forall|i: int|
            0 <= i < ps.len() ==> view_obj(ps)[i] == (ps[i].0@, ps[i].1.view()),
    decreases ps,
{
    if ps.len() > 0 {
        lemma_view_obj_index(ps.skip(1));
        assert(view_obj(ps) == seq![(ps[0].0@, ps[0].1.view())] + view_obj(ps.skip(1)));
        assert forall|i: int|
            0 <= i < ps.len() implies view_obj(ps)[i] == (ps[i].0@, ps[i].1.view()) by {
            if i > 0 {
                assert(view_obj(ps)[i] == view_obj(ps.skip(1))[i - 1]);
                assert(ps.skip(1)[i - 1] == ps[i]);
            }
        }
    }
}

/// Whether a byte is an ASCII decimal digit.
pub open spec fn is_digit(b: u8) -> bool {
    0x30 <= b <= 0x39
}

/// Whether a byte is an ASCII hexadecimal digit as this codec writes them:
/// a decimal digit or a lower-case letter `a` through `f`.
pub open spec fn is_hex(b: u8) -> bool {
    is_digit(b) || 0x61 <= b <= 0x66
}

/// The value of one hexadecimal digit byte.
pub open spec fn hex_val(b: u8) -> int {
    if is_digit(b) {
        b - 0x30
    } else {
        b - 0x57
    }
}

/// The hexadecimal digit byte for a value below sixteen.
pub open spec fn hex_digit(n: int) -> u8 {
    if n < 10 {
        (0x30 + n) as u8
    } else {
        (0x57 + n) as u8
    }
}

/// The decimal digit bytes of `n`, most significant first.
pub open spec fn dec_digits(n: nat) -> Seq<u8>
    decreases n,
{
    if n < 10 {
        seq![(0x30 + n) as u8]
    } else {
        dec_digits(n / 10) + seq![(0x30 + (n % 10)) as u8]
    }
}

/// The canonical decimal encoding of an integer: an optional minus sign and
/// the digits of its magnitude.
pub open spec fn enc_int(i: int) -> Seq<u8> {
    if i < 0 {
        seq![0x2du8] + dec_digits((-i) as nat)
    } else {
        dec_digits(i as nat)
    }
}

/// How one string byte is written: quote and backslash get a backslash
/// escape, control bytes a `\u00` escape, anything else stands as itself.
pub open spec fn esc_byte(b: u8) -> Seq<u8> {
    if b == 0x22 {
        seq![0x5cu8, 0x22u8]
    } else if b == 0x5c {
        seq![0x5cu8, 0x5cu8]
    } else if b < 0x20 {
        seq![0x5cu8, 0x75u8, 0x30u8, 0x30u8, hex_digit(b as int / 16), hex_digit(b as int % 16)]
    } else {
        seq![b]
    }
}

/// The escaped form of a string's bytes.
pub open spec fn esc(s: Seq<u8>) -> Seq<u8>
    decreases s.len(),
{
    if s.len() == 0 {
        Seq::empty()
    } else {
        esc_byte(s[0]) + esc(s.skip(1))
    }
}

/// The canonical encoding of a document value: JSON text without any
/// whitespace, with strings escaped by `esc` and integers in decimal.
pub open spec fn enc(v: Json) -> Seq<u8>
    decreases v, 1int,
{
    match v {
        Json::Null => seq![0x6eu8, 0x75u8, 0x6cu8, 0x6cu8],
        Json::Bool(b) => if b {
            seq![0x74u8, 0x72u8, 0x75u8, 0x65u8]
        } else {
            seq![0x66u8, 0x61u8, 0x6cu8, 0x73u8, 0x65u8]
        },
        Json::Int(i) => enc_int(i),
        Json::Str(s) => seq![0x22u8] + esc(s) + seq![0x22u8],
        Json::Arr(es) => if es.len() == 0 {
            seq![0x5bu8, 0x5du8]
        } else {
            seq![0x5bu8] + enc_items(es) + seq![0x5du8]
        },
        Json::Obj(ps) => if ps.len() == 0 {
            seq![0x7bu8, 0x7du8]
        } else {
            seq![0x7bu8] + enc_pairs(ps) + seq![0x7du8]
        },
    }
}

/// The comma-separated encodings of one or more array elements.
pub open spec fn enc_items(es: Seq<Json>) -> Seq<u8>
    decreases es, 0int,
{
    if es.len() <= 1 {
        if es.len() == 0 {
            Seq::empty()
        } else {
            enc(es[0])
        }
    } else {
        enc(es[0]) + seq![0x2cu8] + enc_items(es.skip(1))
    }
}

/// The encoding of one object binding: the escaped key in quotes, a colon,
/// then the value.
pub open spec fn enc_pair(k: Seq<u8>, v: Json) -> Seq<u8>
    decreases v, 2int,
{
    seq![0x22u8] + esc(k) + seq![0x22u8, 0x3au8] + enc(v)
}

/// The comma-separated encodings of one or more object bindings.
pub open spec fn enc_pairs(ps: Seq<(Seq<u8>, Json)>) -> Seq<u8>
    decreases ps, 0int,
{
    if ps.len() <= 1 {
        if ps.len() == 0 {
            Seq::empty()
        } else {
            enc_pair(ps[0].0, ps[0].1)
        }
    } else {
        enc_pair(ps[0].0, ps[0].1) + seq![0x2cu8] + enc_pairs(ps.skip(1))
    }
}

/// Whether a model value fits the executable representation: every integer
/// in it fits a 64-bit signed machine word.
pub open spec fn wf_json(v: Json) -> bool
    decreases v, 1int,
{
    match v {
        Json::Null => true,
        Json::Bool(_) => true,
        Json::Int(i) => i64::MIN <= i <= i64::MAX,
        Json::Str(_) => true,
        Json::Arr(es) => wf_items(es),
        Json::Obj(ps) => wf_pairs(ps),
    }
}

/// Whether every element of an array fits the executable representation.
pub open spec fn wf_items(es: Seq<Json>) -> bool
    decreases es, 0int,
{
    if es.len() == 0 {
        true
    } else {
        wf_json(es[0]) && wf_items(es.skip(1))
    }
}

/// Whether every binding of an object fits the executable representation.
pub open spec fn wf_pairs(ps: Seq<(Seq<u8>, Json)>) -> bool
    decreases ps, 0int,
{
    if ps.len() == 0 {
        true
    } else {
        wf_json(ps[0].1) && wf_pairs(ps.skip(1))
    }
}

/// The position just past the run of decimal digits starting at `pos`.
pub open spec fn digits_end(s: Seq<u8>, pos: int) -> int
    decreases s.len() - pos,
{
    if 0 <= pos < s.len() && is_digit(s[pos]) {
        digits_end(s, pos + 1)
    } else {
        pos
    }
}

/// The value of the decimal digit bytes of `s` between `start` and `end`.
pub open spec fn digits_val(s: Seq<u8>, start: int, end: int) -> nat
    decreases end - start,
{
    if end <= start {
        0
    } else {
        digits_val(s, start, end - 1) * 10 + (if 0 <= end - 1 < s.len() {
            (s[end - 1] - 0x30) as nat
        } else {
            0
        })
    }
}

/// Parses a string body starting just after the opening quote: the decoded
/// bytes and the position just past the closing quote.
pub open spec fn parse_str(s: Seq<u8>, pos: int) -> Option<(Seq<u8>, int)>
    decreases s.len() - pos,
{
    if pos < 0 || pos >= s.len() {
        None
    } else if s[pos] == 0x22 {
        Some((Seq::empty(), pos + 1))
    } else if s[pos] == 0x5c {
        if pos + 1 < s.len() && (s[pos + 1] == 0x22 || s[pos + 1] == 0x5c) {
            match parse_str(s, pos + 2) {
                Some((c, e)) => Some((seq![s[pos + 1]] + c, e)),
                None => None,
            }
        } else if pos + 5 < s.len() && s[pos + 1] == 0x75 && s[pos + 2] == 0x30 && s[pos + 3]
            == 0x30 && is_hex(s[pos + 4]) && is_hex(s[pos + 5]) {
            match parse_str(s, pos + 6) {
                Some((c, e)) => Some(
                    (seq![(16 * hex_val(s[pos + 4]) + hex_val(s[pos + 5])) as u8] + c, e),
                ),
                None => None,
            }
        } else {
            None
        }
    } else if s[pos] < 0x20 {
        None
    } else {
        match parse_str(s, pos + 1) {
            Some((c, e)) => Some((seq![s[pos]] + c, e)),
            None => None,
        }
    }
}

/// Parses one document value at `pos`: the value and the position just past
/// it. Only the canonical form written by `enc` is accepted.
pub open spec fn parse_val(s: Seq<u8>, pos: int) -> Option<(Json, int)>
    decreases s.len() - pos, 2int,
{
    if pos < 0 || pos >= s.len() {
        None
    } else if s[pos] == 0x6e {
        if pos + 4 <= s.len() && s[pos + 1] == 0x75 && s[pos + 2] == 0x6c && s[pos + 3] == 0x6c {
            Some((Json::Null, pos + 4))
        } else {
            None
        }
    } else if s[pos] == 0x74 {
        if pos + 4 <= s.len() && s[pos + 1] == 0x72 && s[pos + 2] == 0x75 && s[pos + 3] == 0x65 {
            Some((Json::Bool(true), pos + 4))
        } else {
            None
        }
    } else if s[pos] == 0x66 {
        if pos + 5 <= s.len() && s[pos + 1] == 0x61 && s[pos + 2] == 0x6c && s[pos + 3] == 0x73
            && s[pos + 4] == 0x65 {
            Some((Json::Bool(false), pos + 5))
        } else {
            None
        }
    } else if is_digit(s[pos]) {
        let e = digits_end(s, pos);
        let n = digits_val(s, pos, e);
        if n <= i64::MAX {
            Some((Json::Int(n as int), e))
        } else {
            None
        }
    } else if s[pos] == 0x2d {
        if pos + 1 < s.len() && is_digit(s[pos + 1]) {
            let e = digits_end(s, pos + 1);
            let n = digits_val(s, pos + 1, e);
            if n <= 0x8000000000000000 {
                Some((Json::Int(-(n as int)), e))
            } else {
                None
            }
        } else {
            None
        }
    } else if s[pos] == 0x22 {
        match parse_str(s, pos + 1) {
            Some((c, e)) => Some((Json::Str(c), e)),
            None => None,
        }
    } else if s[pos] == 0x5b {
        if pos + 1 < s.len() && s[pos + 1] == 0x5d {
            Some((Json::Arr(Seq::empty()), pos + 2))
        } else {
            match parse_items(s, pos + 1) {
                Some((es, e)) => Some((Json::Arr(es), e)),
                None => None,
            }
        }
    } else if s[pos] == 0x7b {
        if pos + 1 < s.len() && s[pos + 1] == 0x7d {
            Some((Json::Obj(Seq::empty()), pos + 2))
        } else {
            match parse_pairs(s, pos + 1) {
                Some((ps, e)) => Some((Json::Obj(ps), e)),
                None => None,
            }
        }
    } else {
        None
    }
}

/// Parses one or more comma-separated array elements and the closing
/// bracket: the elements and the position just past the bracket.
pub open spec fn parse_items(s: Seq<u8>, pos: int) -> Option<(Seq<Json>, int)>
    decreases s.len() - pos, 3int,
{
    if pos < 0 || pos > s.len() {
        None
    } else {
        match parse_val(s, pos) {
            Some((v, n)) => if pos < n && n < s.len() {
                if s[n] == 0x2c {
                    match parse_items(s, n + 1) {
                        Some((es, e)) => Some((seq![v] + es, e)),
                        None => None,
                    }
                } else if s[n] == 0x5d {
                    Some((seq![v], n + 1))
                } else {
                    None
                }
            } else {
                None
            },
            None => None,
        }
    }
}

/// Parses one or more comma-separated object bindings and the closing
/// brace: the bindings and the position just past the brace.
pub open spec fn parse_pairs(s: Seq<u8>, pos: int) -> Option<(Seq<(Seq<u8>, Json)>, int)>
    decreases s.len() - pos, 3int,
{
    if 0 <= pos < s.len() && s[pos] == 0x22 {
        match parse_str(s, pos + 1) {
            Some((k, p)) => if pos < p && p < s.len() && s[p] == 0x3a {
                match parse_val(s, p + 1) {
                    Some((v, q)) => if p < q && q < s.len() {
                        if s[q] == 0x2c {
                            match parse_pairs(s, q + 1) {
                                Some((ps, e)) => Some((seq![(k, v)] + ps, e)),
                                None => None,
                            }
                        } else if s[q] == 0x7d {
                            Some((seq![(k, v)], q + 1))
                        } else {
                            None
                        }
                    } else {
                        None
                    },
                    None => None,
                }
            } else {
                None
            },
            None => None,
        }
    } else {
        None
    }
}

/// The document a stored byte sequence holds: the parse must consume every
/// byte, or the bytes hold no document.
pub open spec fn doc_of(bytes: Seq<u8>) -> Option<Json> {
    match parse_val(bytes, 0) {
        Some((v, e)) => if e == bytes.len() {
            Some(v)
        } else {
            None
        },
        None => None,
    }
}


/// Escaping distributes over concatenation.
pub proof fn lemma_esc_append(a: Seq<u8>, b: Seq<u8>)
    ensures
        esc(a + b) == esc(a) + esc(b),
    decreases a.len(),
{
    if a.len() == 0 {
        assert(a + b =~= b);
        assert(esc(a) + esc(b) =~= esc(b));
    } else {
        lemma_esc_append(a.skip(1), b);
        assert((a + b).skip(1) =~= a.skip(1) + b);
        assert(esc(a + b) =~= esc(a) + esc(b));
    }
}

/// Escaping one more byte appends that byte's escape.
pub proof fn lemma_esc_snoc(s: Seq<u8>, i: int)
    requires
        0 <= i < s.len(),
    ensures
        esc(s.take(i + 1)) == esc(s.take(i)) + esc_byte(s[i]),
{
    let unit = seq![s[i]];
    assert(s.take(i + 1) =~= s.take(i) + unit);
    lemma_esc_append(s.take(i), unit);
    assert(unit.skip(1) =~= Seq::<u8>::empty());
    assert(esc(Seq::<u8>::empty()) == Seq::<u8>::empty());
    assert(esc(unit) =~= esc_byte(s[i]));
}

/// Appends the decimal digits of `n`.
fn push_dec_digits(n: u64, out: &mut Vec<u8>)
    ensures
        final(out)@ == old(out)@ + dec_digits(n as nat),
    decreases n,
{
    if n < 10 {
        out.push(0x30u8 + n as u8);
        proof {
            assert(out@ =~= old(out)@ + dec_digits(n as nat));
        }
    } else {
        push_dec_digits(n / 10, out);
        out.push(0x30u8 + (n % 10) as u8);
        proof {
            assert((n / 10) as nat == n as nat / 10);
            assert((n % 10) as nat == n as nat % 10);
            assert(out@ =~= old(out)@ + dec_digits(n as nat));
        }
    }
}

/// Appends the canonical decimal encoding of `i`.
fn push_int(i: i64, out: &mut Vec<u8>)
    ensures
        final(out)@ == old(out)@ + enc_int(i as int),
{
    if i < 0 {
        out.push(0x2du8);
        let mag: u64 = if i == i64::MIN {
            0x8000000000000000u64
        } else {
            (-i) as u64
        };
        proof {
            assert(mag as nat == (-(i as int)) as nat);
        }
        push_dec_digits(mag, out);
        proof {
            assert(out@ =~= old(out)@ + enc_int(i as int));
        }
    } else {
        push_dec_digits(i as u64, out);
    }
}

/// Appends the escaped form of a string's bytes.
fn push_escaped(s: &Vec<u8>, out: &mut Vec<u8>)
    ensures
        final(out)@ == old(out)@ + esc(s@),
{
    let mut i: usize = 0;
    while i < s.len()
        invariant
            i <= s@.len(),
            out@ == old(out)@ + esc(s@.take(i as int)),
        decreases s@.len() - i,
    {
        let b = s[i];
        if b == 0x22 {
            out.push(0x5cu8);
            out.push(0x22u8);
        } else if b == 0x5c {
            out.push(0x5cu8);
            out.push(0x5cu8);
        } else if b < 0x20 {
            out.push(0x5cu8);
            out.push(0x75u8);
            out.push(0x30u8);
            out.push(0x30u8);
            let hi = b / 16;
            let lo = b % 16;
            out.push(if hi < 10 {
                0x30u8 + hi
            } else {
                0x57u8 + hi
            });
            out.push(if lo < 10 {
                0x30u8 + lo
            } else {
                0x57u8 + lo
            });
        } else {
            out.push(b);
        }
        proof {
            lemma_esc_snoc(s@, i as int);
            assert(out@ =~= old(out)@ + esc(s@.take(i + 1)));
        }
        i = i + 1;
    }
    proof {
        assert(s@.take(s@.len() as int) =~= s@);
    }
}

/// Appends the canonical encoding of a document value.
fn encode_into(v: &JsonValue, out: &mut Vec<u8>)
    ensures
        final(out)@ == old(out)@ + enc(v@),
    decreases v, 1int,
{
    match v {
        JsonValue::Null => {
            out.push(0x6eu8);
            out.push(0x75u8);
            out.push(0x6cu8);
            out.push(0x6cu8);
            proof {
                assert(out@ =~= old(out)@ + enc(v@));
            }
        },
        JsonValue::Bool(b) => {
            if *b {
                out.push(0x74u8);
                out.push(0x72u8);
                out.push(0x75u8);
                out.push(0x65u8);
            } else {
                out.push(0x66u8);
                out.push(0x61u8);
                out.push(0x6cu8);
                out.push(0x73u8);
                out.push(0x65u8);
            }
            proof {
                assert(out@ =~= old(out)@ + enc(v@));
            }
        },
        JsonValue::Int(i) => {
            push_int(*i, out);
        },
        JsonValue::Str(s) => {
            out.push(0x22u8);
            push_escaped(s, out);
            out.push(0x22u8);
            proof {
                assert(out@ =~= old(out)@ + enc(v@));
            }
        },
        JsonValue::Arr(es) => {
            out.push(0x5bu8);
            if es.len() > 0 {
                encode_items_into(es, 0, out);
                proof {
                    lemma_view_arr_index(es@);
                    assert(view_arr(es@).skip(0) =~= view_arr(es@));
                }
            }
            out.push(0x5du8);
            proof {
                lemma_view_arr_index(es@);
                assert(out@ =~= old(out)@ + enc(v@));
            }
        },
        JsonValue::Obj(ps) => {
            out.push(0x7bu8);
            if ps.len() > 0 {
                encode_pairs_into(ps, 0, out);
                proof {
                    lemma_view_obj_index(ps@);
                    assert(view_obj(ps@).skip(0) =~= view_obj(ps@));
                }
            }
            out.push(0x7du8);
            proof {
                lemma_view_obj_index(ps@);
                assert(out@ =~= old(out)@ + enc(v@));
            }
        },
    }
}

/// Appends the encodings of the array elements from `i` on, comma-separated.
fn encode_items_into(es: &Vec<JsonValue>, i: usize, out: &mut Vec<u8>)
    requires
        i < es@.len(),
    ensures
        final(out)@ == old(out)@ + enc_items(view_arr(es@).skip(i as int)),
    decreases es@, es@.len() - i,
{
    proof {
        lemma_view_arr_index(es@);
    }
    encode_into(&es[i], out);
    let ghost q = view_arr(es@).skip(i as int);
    proof {
        assert(q[0] == es@[i as int]@);
    }
    if es.len() - i > 1 {
        out.push(0x2cu8);
        encode_items_into(es, i + 1, out);
        proof {
            assert(q.skip(1) =~= view_arr(es@).skip(i + 1));
            assert(out@ =~= old(out)@ + enc_items(q));
        }
    } else {
        proof {
            assert(q.len() == 1);
            assert(out@ =~= old(out)@ + enc_items(q));
        }
    }
}

/// Appends the encodings of the object bindings from `i` on, comma-separated.
fn encode_pairs_into(ps: &Vec<(Vec<u8>, JsonValue)>, i: usize, out: &mut Vec<u8>)
    requires
        i < ps@.len(),
    ensures
        final(out)@ == old(out)@ + enc_pairs(view_obj(ps@).skip(i as int)),
    decreases ps@, ps@.len() - i,
{
    proof {
        lemma_view_obj_index(ps@);
    }
    out.push(0x22u8);
    push_escaped(&ps[i].0, out);
    out.push(0x22u8);
    out.push(0x3au8);
    encode_into(&ps[i].1, out);
    let ghost q = view_obj(ps@).skip(i as int);
    proof {
        assert(q[0] == (ps@[i as int].0@, ps@[i as int].1@));
        assert(enc_pair(q[0].0, q[0].1) == seq![0x22u8] + esc(ps@[i as int].0@) + seq![
            0x22u8,
            0x3au8,
        ] + enc(ps@[i as int].1@));
    }
    if ps.len() - i > 1 {
        out.push(0x2cu8);
        encode_pairs_into(ps, i + 1, out);
        proof {
            assert(q.skip(1) =~= view_obj(ps@).skip(i + 1));
            assert(out@ =~= old(out)@ + enc_pairs(q));
        }
    } else {
        proof {
            assert(q.len() == 1);
            assert(out@ =~= old(out)@ + enc_pairs(q));
        }
    }
}

/// The canonical encoded bytes of a document value.
pub fn encode_json(v: &JsonValue) -> (r: Vec<u8>)
    ensures
        r@ == enc(v@),
{
    let mut out: Vec<u8> = Vec::new();
    encode_into(v, &mut out);
    proof {
        assert(out@ =~= enc(v@));
    }
    out
}


/// The decimal digits of `n`: at least one byte, all of them digit bytes.
pub proof fn lemma_dec_digits_props(n: nat)
    ensures
        dec_digits(n).len() >= 1,
        forall|k: int| 0 <= k < dec_digits(n).len() ==> is_digit(dec_digits(n)[k]),
    decreases n,
{
    if n >= 10 {
        lemma_dec_digits_props(n / 10);
        vstd::arithmetic::div_mod::lemma_mod_bound(n as int, 10);
        let d = dec_digits(n);
        let dq = dec_digits(n / 10);
        assert forall|k: int| 0 <= k < d.len() implies is_digit(d[k]) by {
            if k < dq.len() {
                assert(d[k] == dq[k]);
            } else {
                assert(d[k] == (0x30 + (n % 10)) as u8);
            }
        }
    }
}

/// A digit run bounded by a non-digit (or the end) ends exactly there.
pub proof fn lemma_digits_end_char(s: Seq<u8>, pos: int, e: int)
    requires
        0 <= pos <= e <= s.len(),
        forall|k: int| pos <= k < e ==> is_digit(s[k]),
        e == s.len() || !is_digit(s[e]),
    ensures
        digits_end(s, pos) == e,
    decreases e - pos,
{
    if pos < e {
        lemma_digits_end_char(s, pos + 1, e);
    }
}

/// Reading back the decimal digits of `n` yields `n`.
pub proof fn lemma_digits_val_of_dec(n: nat, s: Seq<u8>, pos: int)
    requires
        0 <= pos,
        pos + dec_digits(n).len() <= s.len(),
        s.subrange(pos, pos + dec_digits(n).len()) == dec_digits(n),
    ensures
        digits_val(s, pos, pos + dec_digits(n).len()) == n,
    decreases n,
{
    let d = dec_digits(n);
    let l = d.len() as int;
    assert forall|k: int| pos <= k < pos + l implies s[k] == d[k - pos] by {
        assert(d[k - pos] == s.subrange(pos, pos + l)[k - pos]);
    }
    if n < 10 {
        assert(s[pos] == (0x30 + n) as u8);
        assert(digits_val(s, pos, pos + 1) == digits_val(s, pos, pos) * 10 + (s[pos]
            - 0x30) as nat);
    } else {
        let dq = dec_digits(n / 10);
        vstd::arithmetic::div_mod::lemma_mod_bound(n as int, 10);
        assert(d == dq + seq![(0x30 + (n % 10)) as u8]);
        assert(s.subrange(pos, pos + dq.len()) =~= dq) by {
            assert forall|k: int| 0 <= k < dq.len() implies s.subrange(pos, pos + dq.len())[k]
                == dq[k] by {
                assert(s[pos + k] == d[k]);
                assert(d[k] == dq[k]);
            }
        }
        lemma_digits_val_of_dec(n / 10, s, pos);
        assert(s[pos + l - 1] == d[l - 1]);
        assert(d[l - 1] == (0x30 + (n % 10)) as u8);
        assert(digits_val(s, pos, pos + l) == digits_val(s, pos, pos + l - 1) * 10 + (s[pos + l
            - 1] - 0x30) as nat);
        vstd::arithmetic::div_mod::lemma_fundamental_div_mod(n as int, 10);
    }
}

/// A longer digit run never reads back as a smaller value.
pub proof fn lemma_digits_val_mono(s: Seq<u8>, start: int, e1: int, e2: int)
    requires
        start <= e1 <= e2,
    ensures
        digits_val(s, start, e1) <= digits_val(s, start, e2),
    decreases e2 - e1,
{
    if e1 < e2 {
        lemma_digits_val_mono(s, start, e1, e2 - 1);
        assert(digits_val(s, start, e2) >= digits_val(s, start, e2 - 1) * 10);
        assert(digits_val(s, start, e2 - 1) * 10 >= digits_val(s, start, e2 - 1)) by (nonlinear_arith);
    }
}

/// A parse of the escaped bytes of `c` followed by a closing quote yields
/// exactly `c` and stops just past the quote.
pub proof fn lemma_rt_str(c: Seq<u8>, s: Seq<u8>, pos: int)
    requires
        0 <= pos,
        pos + esc(c).len() + 1 <= s.len(),
        s.subrange(pos, pos + esc(c).len()) == esc(c),
        s[pos + esc(c).len()] == 0x22,
    ensures
        parse_str(s, pos) == Some((c, pos + esc(c).len() + 1)),
    decreases c.len(),
{
    let ec = esc(c);
    let l = ec.len() as int;
    assert forall|k: int| pos <= k < pos + l implies s[k] == ec[k - pos] by {
        assert(ec[k - pos] == s.subrange(pos, pos + l)[k - pos]);
    }
    if c.len() == 0 {
        assert(c =~= Seq::<u8>::empty());
    } else {
        let b = c[0];
        let eb = esc_byte(b);
        let rest = c.skip(1);
        assert(ec == eb + esc(rest));
        let pos2 = pos + eb.len();
        assert(s.subrange(pos2, pos2 + esc(rest).len()) =~= esc(rest)) by {
            assert forall|k: int|
                0 <= k < esc(rest).len() implies s.subrange(pos2, pos2 + esc(rest).len())[k]
                == esc(rest)[k] by {
                assert(s[pos2 + k] == ec[eb.len() + k]);
                assert(ec[eb.len() + k] == esc(rest)[k]);
            }
        }
        assert(s[pos2 + esc(rest).len()] == 0x22);
        lemma_rt_str(rest, s, pos2);
        if b == 0x22 {
            assert(s[pos] == 0x5c && s[pos + 1] == 0x22);
            assert(parse_str(s, pos) == Some((seq![s[pos + 1]] + rest, pos + l + 1)));
            assert(seq![s[pos + 1]] + rest =~= c);
        } else if b == 0x5c {
            assert(s[pos] == 0x5c && s[pos + 1] == 0x5c);
            assert(parse_str(s, pos) == Some((seq![s[pos + 1]] + rest, pos + l + 1)));
            assert(seq![s[pos + 1]] + rest =~= c);
        } else if b < 0x20 {
            assert(s[pos] == 0x5c && s[pos + 1] == 0x75 && s[pos + 2] == 0x30 && s[pos + 3]
                == 0x30);
            assert(s[pos + 4] == hex_digit(b as int / 16));
            assert(s[pos + 5] == hex_digit(b as int % 16));
            assert(is_hex(s[pos + 4]));
            assert(is_hex(s[pos + 5]));
            assert(hex_val(s[pos + 4]) == b as int / 16);
            assert(hex_val(s[pos + 5]) == b as int % 16);
            vstd::arithmetic::div_mod::lemma_fundamental_div_mod(b as int, 16);
            assert((16 * hex_val(s[pos + 4]) + hex_val(s[pos + 5])) as u8 == b);
            assert(parse_str(s, pos) == Some((seq![b] + rest, pos + l + 1)));
            assert(seq![b] + rest =~= c);
        } else {
            assert(s[pos] == b);
            assert(parse_str(s, pos) == Some((seq![b] + rest, pos + l + 1)));
            assert(seq![b] + rest =~= c);
        }
    }
}

/// An encoded value is never empty and never begins with a separator or a
/// closing bracket.
pub proof fn lemma_enc_first(v: Json)
    ensures
        enc(v).len() >= 1,
        enc(v)[0] != 0x5d,
        enc(v)[0] != 0x7d,
        enc(v)[0] != 0x2c,
        enc(v)[0] != 0x3a,
{
    match v {
        Json::Int(i) => {
            if i < 0 {
                lemma_dec_digits_props((-i) as nat);
            } else {
                lemma_dec_digits_props(i as nat);
                assert(enc(v)[0] == dec_digits(i as nat)[0]);
                assert(is_digit(dec_digits(i as nat)[0]));
            }
        },
        _ => {},
    }
}

/// A parse of the encoding of a well-formed value, when the byte after it
/// is not a digit, yields exactly that value and stops just past it.
#[verifier::rlimit(80)]
pub proof fn lemma_rt_val(v: Json, s: Seq<u8>, pos: int)
    requires
        wf_json(v),
        0 <= pos,
        pos + enc(v).len() <= s.len(),
        s.subrange(pos, pos + enc(v).len()) == enc(v),
        pos + enc(v).len() == s.len() || !is_digit(s[pos + enc(v).len()]),
    ensures
        parse_val(s, pos) == Some((v, pos + enc(v).len())),
    decreases v, 0int,
{
    let e = enc(v);
    let l = e.len() as int;
    lemma_enc_first(v);
    assert forall|k: int| pos <= k < pos + l implies s[k] == e[k - pos] by {
        assert(e[k - pos] == s.subrange(pos, pos + l)[k - pos]);
    }
    match v {
        Json::Null => {},
        Json::Bool(_) => {},
        Json::Int(i) => {
            if i >= 0 {
                let d = dec_digits(i as nat);
                lemma_dec_digits_props(i as nat);
                assert(is_digit(s[pos]));
                assert forall|k: int| pos <= k < pos + l implies is_digit(s[k]) by {
                    assert(s[k] == d[k - pos]);
                }
                lemma_digits_end_char(s, pos, pos + l);
                lemma_digits_val_of_dec(i as nat, s, pos);
            } else {
                let m = (-i) as nat;
                let d = dec_digits(m);
                lemma_dec_digits_props(m);
                assert(e == seq![0x2du8] + d);
                assert(s[pos] == 0x2d);
                assert(!is_digit(s[pos]));
                assert forall|k: int| pos + 1 <= k < pos + l implies is_digit(s[k]) by {
                    assert(s[k] == d[k - pos - 1]);
                }
                assert(is_digit(s[pos + 1]));
                lemma_digits_end_char(s, pos + 1, pos + l);
                assert(s.subrange(pos + 1, pos + 1 + d.len()) =~= d) by {
                    assert forall|k: int|
                        0 <= k < d.len() implies s.subrange(pos + 1, pos + 1 + d.len())[k]
                        == d[k] by {
                        assert(s[pos + 1 + k] == e[1 + k]);
                    }
                }
                lemma_digits_val_of_dec(m, s, pos + 1);
                assert(digits_val(s, pos + 1, pos + l) == m);
                assert(m <= 0x8000000000000000);
            }
        },
        Json::Str(c) => {
            assert(s[pos] == 0x22);
            assert(e == seq![0x22u8] + esc(c) + seq![0x22u8]);
            assert(s.subrange(pos + 1, pos + 1 + esc(c).len()) =~= esc(c)) by {
                assert forall|k: int|
                    0 <= k < esc(c).len() implies s.subrange(pos + 1, pos + 1 + esc(c).len())[k]
                    == esc(c)[k] by {
                    assert(s[pos + 1 + k] == e[1 + k]);
                }
            }
            assert(s[pos + 1 + esc(c).len()] == e[l - 1]);
            assert(e[l - 1] == 0x22);
            lemma_rt_str(c, s, pos + 1);
        },
        Json::Arr(es) => {
            assert(s[pos] == 0x5b);
            if es.len() == 0 {
                assert(s[pos + 1] == 0x5d);
                assert(parse_val(s, pos) == Some((Json::Arr(Seq::empty()), pos + 2)));
                assert(Seq::<Json>::empty() =~= es);
            } else {
                let li = enc_items(es).len() as int;
                assert(e == seq![0x5bu8] + enc_items(es) + seq![0x5du8]);
                lemma_enc_first(es[0]);
                assert(enc_items(es)[0] == enc(es[0])[0]);
                assert(s[pos + 1] == enc_items(es)[0]);
                assert(s[pos + 1] != 0x5d);
                assert(s.subrange(pos + 1, pos + 1 + li) =~= enc_items(es)) by {
                    assert forall|k: int|
                        0 <= k < li implies s.subrange(pos + 1, pos + 1 + li)[k]
                        == enc_items(es)[k] by {
                        assert(s[pos + 1 + k] == e[1 + k]);
                    }
                }
                assert(s[pos + 1 + li] == e[l - 1]);
                assert(e[l - 1] == 0x5d);
                lemma_rt_items(es, s, pos + 1);
            }
        },
        Json::Obj(ps) => {
            assert(s[pos] == 0x7b);
            if ps.len() == 0 {
                assert(s[pos + 1] == 0x7d);
                assert(parse_val(s, pos) == Some((Json::Obj(Seq::empty()), pos + 2)));
                assert(Seq::<(Seq<u8>, Json)>::empty() =~= ps);
            } else {
                let li = enc_pairs(ps).len() as int;
                assert(e == seq![0x7bu8] + enc_pairs(ps) + seq![0x7du8]);
                assert(enc_pairs(ps)[0] == enc_pair(ps[0].0, ps[0].1)[0]);
                assert(enc_pair(ps[0].0, ps[0].1)[0] == 0x22);
                assert(s[pos + 1] == 0x22);
                assert(s[pos + 1] != 0x7d);
                assert(s.subrange(pos + 1, pos + 1 + li) =~= enc_pairs(ps)) by {
                    assert forall|k: int|
                        0 <= k < li implies s.subrange(pos + 1, pos + 1 + li)[k]
                        == enc_pairs(ps)[k] by {
                        assert(s[pos + 1 + k] == e[1 + k]);
                    }
                }
                assert(s[pos + 1 + li] == e[l - 1]);
                assert(e[l - 1] == 0x7d);
                lemma_rt_pairs(ps, s, pos + 1);
            }
        },
    }
}

/// A parse of encoded array elements followed by a closing bracket yields
/// exactly those elements and stops just past the bracket.
pub proof fn lemma_rt_items(es: Seq<Json>, s: Seq<u8>, pos: int)
    requires
        es.len() >= 1,
        wf_items(es),
        0 <= pos,
        pos + enc_items(es).len() + 1 <= s.len(),
        s.subrange(pos, pos + enc_items(es).len()) == enc_items(es),
        s[pos + enc_items(es).len()] == 0x5d,
    ensures
        parse_items(s, pos) == Some((es, pos + enc_items(es).len() + 1)),
    decreases es, 1int,
{
    let ei = enc_items(es);
    let li = ei.len() as int;
    assert forall|k: int| pos <= k < pos + li implies s[k] == ei[k - pos] by {
        assert(ei[k - pos] == s.subrange(pos, pos + li)[k - pos]);
    }
    let e0 = enc(es[0]);
    let l0 = e0.len() as int;
    lemma_enc_first(es[0]);
    if es.len() == 1 {
        assert(ei == e0);
        lemma_rt_val(es[0], s, pos);
        let n = pos + l0;
        assert(s[n] == 0x5d);
        assert(parse_items(s, pos) == Some((seq![es[0]], n + 1)));
        assert(seq![es[0]] =~= es);
    } else {
        let rest = es.skip(1);
        assert(ei == e0 + seq![0x2cu8] + enc_items(rest));
        assert(s.subrange(pos, pos + l0) =~= e0) by {
            assert forall|k: int| 0 <= k < l0 implies s.subrange(pos, pos + l0)[k] == e0[k] by {
                assert(s[pos + k] == ei[k]);
            }
        }
        let n = pos + l0;
        assert(s[n] == ei[l0]);
        assert(ei[l0] == 0x2c);
        lemma_rt_val(es[0], s, pos);
        let pos2 = n + 1;
        let lr = enc_items(rest).len() as int;
        assert(s.subrange(pos2, pos2 + lr) =~= enc_items(rest)) by {
            assert forall|k: int|
                0 <= k < lr implies s.subrange(pos2, pos2 + lr)[k] == enc_items(rest)[k] by {
                assert(s[pos2 + k] == ei[l0 + 1 + k]);
                assert(ei[l0 + 1 + k] == enc_items(rest)[k]);
            }
        }
        assert(s[pos2 + lr] == 0x5d);
        lemma_rt_items(rest, s, pos2);
        assert(parse_items(s, pos) == Some((seq![es[0]] + rest, pos + li + 1)));
        assert(seq![es[0]] + rest =~= es);
    }
}

/// Parsing one encoded binding: the key parses back, the colon follows, and
/// the value parses back, ending exactly at the binding's end.
#[verifier::rlimit(60)]
pub proof fn lemma_rt_pair(k0: Seq<u8>, v0: Json, s: Seq<u8>, pos: int)
    requires
        wf_json(v0),
        0 <= pos,
        pos + enc_pair(k0, v0).len() < s.len(),
        s.subrange(pos, pos + enc_pair(k0, v0).len()) == enc_pair(k0, v0),
        !is_digit(s[pos + enc_pair(k0, v0).len()]),
    ensures
        enc_pair(k0, v0).len() == esc(k0).len() + 3 + enc(v0).len(),
        s[pos] == 0x22,
        parse_str(s, pos + 1) == Some((k0, pos + 2 + esc(k0).len())),
        s[pos + 2 + esc(k0).len()] == 0x3a,
        parse_val(s, pos + 3 + esc(k0).len()) == Some((v0, pos + enc_pair(k0, v0).len())),
    decreases v0, 3int,
{
    let e0 = enc_pair(k0, v0);
    let l0 = e0.len() as int;
    let lk = esc(k0).len() as int;
    let lv = enc(v0).len() as int;
    assert(e0 == seq![0x22u8] + esc(k0) + seq![0x22u8, 0x3au8] + enc(v0));
    assert forall|k: int| pos <= k < pos + l0 implies s[k] == e0[k - pos] by {
        assert(e0[k - pos] == s.subrange(pos, pos + l0)[k - pos]);
    }
    assert(s[pos] == e0[0]);
    assert(e0[0] == 0x22);
    assert(s.subrange(pos + 1, pos + 1 + lk) =~= esc(k0)) by {
        assert forall|k: int|
            0 <= k < lk implies s.subrange(pos + 1, pos + 1 + lk)[k] == esc(k0)[k] by {
            assert(s[pos + 1 + k] == e0[1 + k]);
            assert(e0[1 + k] == esc(k0)[k]);
        }
    }
    assert(s[pos + 1 + lk] == e0[1 + lk]);
    assert(e0[1 + lk] == 0x22);
    lemma_rt_str(k0, s, pos + 1);
    let p = pos + 2 + lk;
    assert(s[p] == e0[p - pos]);
    assert(e0[p - pos] == 0x3a);
    assert(s.subrange(p + 1, p + 1 + lv) =~= enc(v0)) by {
        assert forall|k: int|
            0 <= k < lv implies s.subrange(p + 1, p + 1 + lv)[k] == enc(v0)[k] by {
            assert(s[p + 1 + k] == e0[p + 1 - pos + k]);
            assert(e0[p + 1 - pos + k] == enc(v0)[k]);
        }
    }
    lemma_rt_val(v0, s, p + 1);
}

/// A parse of encoded object bindings followed by a closing brace yields
/// exactly those bindings and stops just past the brace.
#[verifier::rlimit(100)]
pub proof fn lemma_rt_pairs(ps: Seq<(Seq<u8>, Json)>, s: Seq<u8>, pos: int)
    requires
        ps.len() >= 1,
        wf_pairs(ps),
        0 <= pos,
        pos + enc_pairs(ps).len() + 1 <= s.len(),
        s.subrange(pos, pos + enc_pairs(ps).len()) == enc_pairs(ps),
        s[pos + enc_pairs(ps).len()] == 0x7d,
    ensures
        parse_pairs(s, pos) == Some((ps, pos + enc_pairs(ps).len() + 1)),
    decreases ps, 1int,
{
    let ep = enc_pairs(ps);
    let lp = ep.len() as int;
    assert forall|k: int| pos <= k < pos + lp implies s[k] == ep[k - pos] by {
        assert(ep[k - pos] == s.subrange(pos, pos + lp)[k - pos]);
    }
    let k0 = ps[0].0;
    let v0 = ps[0].1;
    let e0 = enc_pair(k0, v0);
    let l0 = e0.len() as int;
    lemma_enc_first(v0);
    if ps.len() == 1 {
        assert(ep == e0);
    } else {
        assert(ep == e0 + seq![0x2cu8] + enc_pairs(ps.skip(1)));
        assert(s[pos + l0] == ep[l0]);
        assert(ep[l0] == 0x2c);
    }
    assert(s.subrange(pos, pos + l0) =~= e0) by {
        assert forall|k: int| 0 <= k < l0 implies s.subrange(pos, pos + l0)[k] == e0[k] by {
            assert(s[pos + k] == ep[k]);
            if ps.len() > 1 {
                assert(ep[k] == e0[k]);
            }
        }
    }
    assert(!is_digit(s[pos + l0]));
    lemma_rt_pair(k0, v0, s, pos);
    let lk = esc(k0).len() as int;
    let p = pos + 2 + lk;
    let q = pos + l0;
    if ps.len() == 1 {
        assert(s[q] == 0x7d);
        assert(parse_pairs(s, pos) == Some((seq![(k0, v0)], q + 1)));
        assert(seq![(k0, v0)] =~= ps);
    } else {
        let rest = ps.skip(1);
        let pos2 = q + 1;
        let lr = enc_pairs(rest).len() as int;
        assert(s.subrange(pos2, pos2 + lr) =~= enc_pairs(rest)) by {
            assert forall|k: int|
                0 <= k < lr implies s.subrange(pos2, pos2 + lr)[k] == enc_pairs(rest)[k] by {
                assert(s[pos2 + k] == ep[l0 + 1 + k]);
                assert(ep[l0 + 1 + k] == enc_pairs(rest)[k]);
            }
        }
        assert(s[pos2 + lr] == 0x7d);
        lemma_rt_pairs(rest, s, pos2);
        assert(parse_pairs(s, pos) == Some((seq![(k0, v0)] + rest, pos + lp + 1)));
        assert(seq![(k0, v0)] + rest =~= ps);
    }
}

/// Every executable document value is well formed in the model.
pub proof fn lemma_view_wf(v: JsonValue)
    ensures
        wf_json(v@),
    decreases v, 1int,
{
    match v {
        JsonValue::Arr(es) => {
            lemma_view_wf_items(es@);
        },
        JsonValue::Obj(ps) => {
            lemma_view_wf_pairs(ps@);
        },
        _ => {},
    }
}

/// Every element of an executable array is well formed in the model.
pub proof fn lemma_view_wf_items(es: Seq<JsonValue>)
    ensures
        wf_items(view_arr(es)),
    decreases es, 0int,
{
    if es.len() > 0 {
        lemma_view_wf(es[0]);
        lemma_view_wf_items(es.skip(1));
        assert(view_arr(es)[0] == es[0]@);
        assert(view_arr(es).skip(1) =~= view_arr(es.skip(1)));
    }
}

/// Every binding of an executable object is well formed in the model.
pub proof fn lemma_view_wf_pairs(ps: Seq<(Vec<u8>, JsonValue)>)
    ensures
        wf_pairs(view_obj(ps)),
    decreases ps, 0int,
{
    if ps.len() > 0 {
        lemma_view_wf(ps[0].1);
        lemma_view_wf_pairs(ps.skip(1));
        assert(view_obj(ps)[0] == (ps[0].0@, ps[0].1@));
        assert(view_obj(ps).skip(1) =~= view_obj(ps.skip(1)));
    }
}

/// Decoding what was encoded yields the original value: the round trip of
/// the document codec.
pub proof fn lemma_doc_round_trip(v: Json)
    requires
        wf_json(v),
    ensures
        doc_of(enc(v)) == Some(v),
{
    let e = enc(v);
    assert(e.subrange(0, e.len() as int) =~= e);
    lemma_rt_val(v, e, 0);
}


/// The end of the run of digit bytes starting at `pos`.
fn digit_run_end(s: &Vec<u8>, pos: usize) -> (e: usize)
    requires
        pos <= s@.len(),
    ensures
        e as int == digits_end(s@, pos as int),
        pos <= e <= s@.len(),
        pos < s@.len() && is_digit(s@[pos as int]) ==> e > pos,
        forall|k: int| pos <= k < e ==> is_digit(s@[k]),
    decreases s@.len() - pos,
{
    if pos < s.len() {
        let b = s[pos];
        if 0x30 <= b && b <= 0x39 {
            let e = digit_run_end(s, pos + 1);
            assert forall|k: int| pos <= k < e implies is_digit(s@[k]) by {
                if k > pos {
                    assert(is_digit(s@[k]));
                }
            }
            return e;
        }
    }
    pos
}

/// The value of the digit run between `pos` and `e`, or nothing if it
/// exceeds what a 64-bit word can hold.
fn digit_run_val(s: &Vec<u8>, pos: usize, e: usize) -> (r: Option<u64>)
    requires
        pos <= e <= s@.len(),
        forall|k: int| pos <= k < e ==> is_digit(s@[k]),
    ensures
        match r {
            Some(n) => n as nat == digits_val(s@, pos as int, e as int),
            None => digits_val(s@, pos as int, e as int) > u64::MAX,
        },
{
    let mut acc: u64 = 0;
    let mut i: usize = pos;
    while i < e
        invariant
            pos <= i <= e <= s@.len(),
            forall|k: int| pos <= k < e ==> is_digit(s@[k]),
            acc as nat == digits_val(s@, pos as int, i as int),
        decreases e - i,
    {
        let d = (s[i] - 0x30) as u64;
        if acc > (u64::MAX - d) / 10 {
            proof {
                assert(acc * 10 + d > u64::MAX) by (nonlinear_arith)
                    requires
                        acc > (u64::MAX - d) / 10,
                        d <= 9,
                ;
                assert(digits_val(s@, pos as int, i + 1) == digits_val(s@, pos as int, i as int)
                    * 10 + d);
                lemma_digits_val_mono(s@, pos as int, i + 1, e as int);
            }
            return None;
        }
        proof {
            assert(acc * 10 + d <= u64::MAX) by (nonlinear_arith)
                requires
                    acc <= (u64::MAX - d) / 10,
                    d <= 9,
            ;
        }
        acc = acc * 10 + d;
        i = i + 1;
    }
    Some(acc)
}

/// Parses a string body starting just after the opening quote, mirroring
/// `parse_str` exactly.
fn p_str(s: &Vec<u8>, pos: usize) -> (r: Option<(Vec<u8>, usize)>)
    requires
        pos <= s@.len(),
    ensures
        match r {
            Some((c, e)) => pos < e <= s@.len() && parse_str(s@, pos as int) == Some(
                (c@, e as int),
            ),
            None => parse_str(s@, pos as int) is None,
        },
    decreases s@.len() - pos,
{
    if pos >= s.len() {
        return None;
    }
    let b = s[pos];
    if b == 0x22 {
        let c: Vec<u8> = Vec::new();
        proof {
            assert(c@ =~= Seq::<u8>::empty());
        }
        Some((c, pos + 1))
    } else if b == 0x5c {
        if pos + 1 < s.len() && (s[pos + 1] == 0x22 || s[pos + 1] == 0x5c) {
            match p_str(s, pos + 2) {
                Some((mut c, e)) => {
                    let u = s[pos + 1];
                    c.insert(0, u);
                    Some((c, e))
                },
                None => None,
            }
        } else if s.len() - pos > 5 && s[pos + 1] == 0x75 && s[pos + 2] == 0x30 && s[pos + 3]
            == 0x30 && hexish(s[pos + 4]) && hexish(s[pos + 5]) {
            match p_str(s, pos + 6) {
                Some((mut c, e)) => {
                    let hv = 16 * hex_value(s[pos + 4]) + hex_value(s[pos + 5]);
                    c.insert(0, hv);
                    Some((c, e))
                },
                None => None,
            }
        } else {
            None
        }
    } else if b < 0x20 {
        None
    } else {
        match p_str(s, pos + 1) {
            Some((mut c, e)) => {
                c.insert(0, b);
                Some((c, e))
            },
            None => None,
        }
    }
}

/// Whether a byte is a hexadecimal digit as the codec writes them.
fn hexish(b: u8) -> (r: bool)
    ensures
        r == is_hex(b),
{
    (0x30 <= b && b <= 0x39) || (0x61 <= b && b <= 0x66)
}

/// The value of one hexadecimal digit byte.
fn hex_value(b: u8) -> (r: u8)
    requires
        is_hex(b),
    ensures
        r as int == hex_val(b),
        r < 16,
{
    if 0x30 <= b && b <= 0x39 {
        b - 0x30
    } else {
        b - 0x57
    }
}


/// Parses one document value at `pos`, mirroring `parse_val` exactly.
fn p_val(s: &Vec<u8>, pos: usize) -> (r: Option<(JsonValue, usize)>)
    requires
        pos <= s@.len(),
    ensures
        match r {
            Some((v, e)) => pos < e <= s@.len() && parse_val(s@, pos as int) == Some(
                (v@, e as int),
            ),
            None => parse_val(s@, pos as int) is None,
        },
    decreases s@.len() - pos, 2int,
{
    if pos >= s.len() {
        return None;
    }
    let b = s[pos];
    if b == 0x6e {
        if s.len() - pos >= 4 && s[pos + 1] == 0x75 && s[pos + 2] == 0x6c && s[pos + 3] == 0x6c {
            Some((JsonValue::Null, pos + 4))
        } else {
            None
        }
    } else if b == 0x74 {
        if s.len() - pos >= 4 && s[pos + 1] == 0x72 && s[pos + 2] == 0x75 && s[pos + 3] == 0x65 {
            Some((JsonValue::Bool(true), pos + 4))
        } else {
            None
        }
    } else if b == 0x66 {
        if s.len() - pos >= 5 && s[pos + 1] == 0x61 && s[pos + 2] == 0x6c && s[pos + 3] == 0x73
            && s[pos + 4] == 0x65 {
            Some((JsonValue::Bool(false), pos + 5))
        } else {
            None
        }
    } else if 0x30 <= b && b <= 0x39 {
        let e = digit_run_end(s, pos);
        match digit_run_val(s, pos, e) {
            Some(n) => {
                if n <= i64::MAX as u64 {
                    Some((JsonValue::Int(n as i64), e))
                } else {
                    None
                }
            },
            None => None,
        }
    } else if b == 0x2d {
        if s.len() - pos > 1 && 0x30 <= s[pos + 1] && s[pos + 1] <= 0x39 {
            let e = digit_run_end(s, pos + 1);
            match digit_run_val(s, pos + 1, e) {
                Some(n) => {
                    if n <= 0x8000000000000000u64 {
                        let v: i64 = if n == 0x8000000000000000u64 {
                            i64::MIN
                        } else {
                            -(n as i64)
                        };
                        proof {
                            assert(v as int == -(digits_val(s@, pos + 1, e as int) as int));
                        }
                        Some((JsonValue::Int(v), e))
                    } else {
                        None
                    }
                },
                None => None,
            }
        } else {
            None
        }
    } else if b == 0x22 {
        match p_str(s, pos + 1) {
            Some((c, e)) => Some((JsonValue::Str(c), e)),
            None => None,
        }
    } else if b == 0x5b {
        if s.len() - pos > 1 && s[pos + 1] == 0x5d {
            let es: Vec<JsonValue> = Vec::new();
            proof {
                assert(view_arr(es@) =~= Seq::<Json>::empty());
            }
            Some((JsonValue::Arr(es), pos + 2))
        } else {
            match p_items(s, pos + 1) {
                Some((es, e)) => Some((JsonValue::Arr(es), e)),
                None => None,
            }
        }
    } else if b == 0x7b {
        if s.len() - pos > 1 && s[pos + 1] == 0x7d {
            let ps: Vec<(Vec<u8>, JsonValue)> = Vec::new();
            proof {
                assert(view_obj(ps@) =~= Seq::<(Seq<u8>, Json)>::empty());
            }
            Some((JsonValue::Obj(ps), pos + 2))
        } else {
            match p_pairs(s, pos + 1) {
                Some((ps, e)) => Some((JsonValue::Obj(ps), e)),
                None => None,
            }
        }
    } else {
        None
    }
}

/// Parses one or more comma-separated array elements and the closing
/// bracket, mirroring `parse_items` exactly.
fn p_items(s: &Vec<u8>, pos: usize) -> (r: Option<(Vec<JsonValue>, usize)>)
    requires
        pos <= s@.len(),
    ensures
        match r {
            Some((es, e)) => pos < e <= s@.len() && parse_items(s@, pos as int) == Some(
                (view_arr(es@), e as int),
            ),
            None => parse_items(s@, pos as int) is None,
        },
    decreases s@.len() - pos, 3int,
{
    match p_val(s, pos) {
        Some((v, n)) => {
            if n < s.len() {
                let b = s[n];
                if b == 0x2c {
                    match p_items(s, n + 1) {
                        Some((mut es, e)) => {
                            let ghost tail = es@;
                            let ghost v_model = v@;
                            es.insert(0, v);
                            proof {
                                assert(es@.skip(1) =~= tail);
                                assert(es@[0] == v);
                                assert(view_arr(es@) == seq![v_model] + view_arr(tail));
                            }
                            Some((es, e))
                        },
                        None => None,
                    }
                } else if b == 0x5d {
                    let ghost v_model = v@;
                    let mut es: Vec<JsonValue> = Vec::new();
                    es.push(v);
                    proof {
                        assert(es@.skip(1) =~= Seq::<JsonValue>::empty());
                        assert(view_arr(es@.skip(1)) == Seq::<Json>::empty());
                        assert(view_arr(es@) =~= seq![v_model]);
                    }
                    Some((es, n + 1))
                } else {
                    None
                }
            } else {
                None
            }
        },
        None => None,
    }
}

/// Parses one or more comma-separated object bindings and the closing
/// brace, mirroring `parse_pairs` exactly.
fn p_pairs(s: &Vec<u8>, pos: usize) -> (r: Option<(Vec<(Vec<u8>, JsonValue)>, usize)>)
    requires
        pos <= s@.len(),
    ensures
        match r {
            Some((ps, e)) => pos < e <= s@.len() && parse_pairs(s@, pos as int) == Some(
                (view_obj(ps@), e as int),
            ),
            None => parse_pairs(s@, pos as int) is None,
        },
    decreases s@.len() - pos, 3int,
{
    if pos >= s.len() || s[pos] != 0x22 {
        return None;
    }
    match p_str(s, pos + 1) {
        Some((k, p)) => {
            if p < s.len() && s[p] == 0x3a {
                match p_val(s, p + 1) {
                    Some((v, q)) => {
                        if q < s.len() {
                            let b = s[q];
                            if b == 0x2c {
                                match p_pairs(s, q + 1) {
                                    Some((mut ps, e)) => {
                                        let ghost tail = ps@;
                                        let ghost k_model = k@;
                                        let ghost v_model = v@;
                                        ps.insert(0, (k, v));
                                        proof {
                                            assert(ps@.skip(1) =~= tail);
                                            assert(ps@[0] == (k, v));
                                            assert(view_obj(ps@) == seq![(k_model, v_model)]
                                                + view_obj(tail));
                                        }
                                        Some((ps, e))
                                    },
                                    None => None,
                                }
                            } else if b == 0x7d {
                                let ghost k_model = k@;
                                let ghost v_model = v@;
                                let mut ps: Vec<(Vec<u8>, JsonValue)> = Vec::new();
                                ps.push((k, v));
                                proof {
                                    assert(ps@.skip(1) =~= Seq::<(Vec<u8>, JsonValue)>::empty());
                                    assert(view_obj(ps@.skip(1)) == Seq::<(Seq<u8>, Json)>::empty());
                                    assert(view_obj(ps@) =~= seq![(k_model, v_model)]);
                                }
                                Some((ps, q + 1))
                            } else {
                                None
                            }
                        } else {
                            None
                        }
                    },
                    None => None,
                }
            } else {
                None
            }
        },
        None => None,
    }
}

/// Decodes stored document bytes: the parse must consume every byte.
pub fn decode_json(bytes: &Vec<u8>) -> (r: Option<JsonValue>)
    ensures
        match r {
            Some(v) => doc_of(bytes@) == Some(v@),
            None => doc_of(bytes@) is None,
        },
{
    match p_val(bytes, 0) {
        Some((v, e)) => {
            if e == bytes.len() {
                Some(v)
            } else {
                None
            }
        },
        None => None,
    }
}


/// The value bound to key `k` in an object's bindings: the first binding
/// with that key, searched front to back.
pub open spec fn obj_get(ps: Seq<(Seq<u8>, Json)>, k: Seq<u8>) -> Option<Json>
    decreases ps.len(),
{
    if ps.len() == 0 {
        None
    } else if ps[0].0 == k {
        Some(ps[0].1)
    } else {
        obj_get(ps.skip(1), k)
    }
}

/// Whether a document matches a filter: the filter is an object and every
/// binding in it is present, with an equal value, among the document's
/// top-level bindings; nothing matches when either side is not an object.
pub open spec fn filter_matches(d: Json, f: Json) -> bool {
    match d {
        Json::Obj(dps) => match f {
            Json::Obj(fps) => forall|i: int|
                0 <= i < fps.len() ==> obj_get(dps, #[trigger] fps[i].0) == Some(fps[i].1),
            _ => false,
        },
        _ => false,
    }
}

/// Byte-vector equality.
pub fn bytes_eq(a: &Vec<u8>, b: &Vec<u8>) -> (r: bool)
    ensures
        r == (a@ == b@),
{
    if a.len() != b.len() {
        return false;
    }
    let mut i: usize = 0;
    while i < a.len()
        invariant
            a@.len() == b@.len(),
            i <= a@.len(),
            forall|j: int| 0 <= j < i ==> a@[j] == b@[j],
        decreases a@.len() - i,
    {
        if a[i] != b[i] {
            return false;
        }
        i = i + 1;
    }
    proof {
        assert(a@ =~= b@);
    }
    true
}

/// Deep equality of two document values, equivalent to equality of their
/// models.
pub fn value_eq(a: &JsonValue, b: &JsonValue) -> (r: bool)
    ensures
        r == (a@ == b@),
    decreases a, 1int,
{
    match (a, b) {
        (JsonValue::Null, JsonValue::Null) => true,
        (JsonValue::Bool(x), JsonValue::Bool(y)) => x == y,
        (JsonValue::Int(x), JsonValue::Int(y)) => x == y,
        (JsonValue::Str(x), JsonValue::Str(y)) => bytes_eq(x, y),
        (JsonValue::Arr(x), JsonValue::Arr(y)) => {
            proof {
                lemma_view_arr_index(x@);
                lemma_view_arr_index(y@);
            }
            if x.len() != y.len() {
                return false;
            }
            let r = arr_tail_eq(x, y, 0);
            proof {
                assert(view_arr(x@).skip(0) =~= view_arr(x@));
                assert(view_arr(y@).skip(0) =~= view_arr(y@));
            }
            r
        },
        (JsonValue::Obj(x), JsonValue::Obj(y)) => {
            proof {
                lemma_view_obj_index(x@);
                lemma_view_obj_index(y@);
            }
            if x.len() != y.len() {
                return false;
            }
            let r = obj_tail_eq(x, y, 0);
            proof {
                assert(view_obj(x@).skip(0) =~= view_obj(x@));
                assert(view_obj(y@).skip(0) =~= view_obj(y@));
            }
            r
        },
        _ => {
            proof {
                assert(a@ != b@);
            }
            false
        },
    }
}

/// Elementwise equality of two arrays' models from index `i` on.
fn arr_tail_eq(x: &Vec<JsonValue>, y: &Vec<JsonValue>, i: usize) -> (r: bool)
    requires
        x@.len() == y@.len(),
        i <= x@.len(),
    ensures
        r == (view_arr(x@).skip(i as int) == view_arr(y@).skip(i as int)),
    decreases x@, x@.len() - i,
{
    proof {
        lemma_view_arr_index(x@);
        lemma_view_arr_index(y@);
    }
    if i == x.len() {
        proof {
            assert(view_arr(x@).skip(i as int) =~= view_arr(y@).skip(i as int));
        }
        return true;
    }
    let ghost vx = view_arr(x@).skip(i as int);
    let ghost vy = view_arr(y@).skip(i as int);
    proof {
        assert(vx[0] == view_arr(x@)[i as int]);
        assert(vy[0] == view_arr(y@)[i as int]);
    }
    if !value_eq(&x[i], &y[i]) {
        proof {
            assert(vx[0] != vy[0]);
        }
        return false;
    }
    let r = arr_tail_eq(x, y, i + 1);
    proof {
        if r {
            assert(vx =~= vy) by {
                assert forall|j: int| 0 <= j < vx.len() implies #[trigger] vx[j] == vy[j] by {
                    if j > 0 {
                        assert(vx[j] == view_arr(x@).skip(i + 1)[j - 1]);
                        assert(vy[j] == view_arr(y@).skip(i + 1)[j - 1]);
                    }
                }
            }
        } else {
            if vx == vy {
                assert(view_arr(x@).skip(i + 1) =~= view_arr(y@).skip(i + 1)) by {
                    assert forall|j: int|
                        0 <= j < view_arr(x@).skip(i + 1).len() implies #[trigger] view_arr(
                        x@,
                    ).skip(i + 1)[j] == view_arr(y@).skip(i + 1)[j] by {
                        assert(view_arr(x@).skip(i + 1)[j] == vx[j + 1]);
                        assert(view_arr(y@).skip(i + 1)[j] == vy[j + 1]);
                    }
                }
                assert(false);
            }
        }
    }
    r
}

/// Elementwise equality of two objects' models from binding `i` on.
fn obj_tail_eq(x: &Vec<(Vec<u8>, JsonValue)>, y: &Vec<(Vec<u8>, JsonValue)>, i: usize) -> (r:
    bool)
    requires
        x@.len() == y@.len(),
        i <= x@.len(),
    ensures
        r == (view_obj(x@).skip(i as int) == view_obj(y@).skip(i as int)),
    decreases x@, x@.len() - i,
{
    proof {
        lemma_view_obj_index(x@);
        lemma_view_obj_index(y@);
    }
    if i == x.len() {
        proof {
            assert(view_obj(x@).skip(i as int) =~= view_obj(y@).skip(i as int));
        }
        return true;
    }
    let ghost vx = view_obj(x@).skip(i as int);
    let ghost vy = view_obj(y@).skip(i as int);
    proof {
        assert(vx[0] == view_obj(x@)[i as int]);
        assert(vy[0] == view_obj(y@)[i as int]);
    }
    if !bytes_eq(&x[i].0, &y[i].0) {
        proof {
            assert(vx[0].0 != vy[0].0);
        }
        return false;
    }
    if !value_eq(&x[i].1, &y[i].1) {
        proof {
            assert(vx[0].1 != vy[0].1);
        }
        return false;
    }
    let r = obj_tail_eq(x, y, i + 1);
    proof {
        if r {
            assert(vx =~= vy) by {
                assert forall|j: int| 0 <= j < vx.len() implies #[trigger] vx[j] == vy[j] by {
                    if j > 0 {
                        assert(vx[j] == view_obj(x@).skip(i + 1)[j - 1]);
                        assert(vy[j] == view_obj(y@).skip(i + 1)[j - 1]);
                    }
                }
            }
        } else {
            if vx == vy {
                assert(view_obj(x@).skip(i + 1) =~= view_obj(y@).skip(i + 1)) by {
                    assert forall|j: int|
                        0 <= j < view_obj(x@).skip(i + 1).len() implies #[trigger] view_obj(
                        x@,
                    ).skip(i + 1)[j] == view_obj(y@).skip(i + 1)[j] by {
                        assert(view_obj(x@).skip(i + 1)[j] == vx[j + 1]);
                        assert(view_obj(y@).skip(i + 1)[j] == vy[j + 1]);
                    }
                }
                assert(false);
            }
        }
    }
    r
}

/// Finds the first binding with key `k` among an object's bindings: its
/// index, or nothing when the key is absent.
pub fn obj_get_index(ps: &Vec<(Vec<u8>, JsonValue)>, k: &Vec<u8>) -> (r: Option<usize>)
    ensures
        match r {
            Some(i) => i < ps@.len() && ps@[i as int].0@ == k@ && obj_get(view_obj(ps@), k@)
                == Some(ps@[i as int].1@),
            None => obj_get(view_obj(ps@), k@) is None,
        },
{
    let ghost full = view_obj(ps@);
    proof {
        assert(full.skip(0) =~= full);
    }
    let mut i: usize = 0;
    while i < ps.len()
        invariant
            i <= ps@.len(),
            full == view_obj(ps@),
            obj_get(full, k@) == obj_get(full.skip(i as int), k@),
        decreases ps@.len() - i,
    {
        proof {
            lemma_view_obj_index(ps@);
            assert(full.skip(i as int)[0] == full[i as int]);
        }
        if bytes_eq(&ps[i].0, k) {
            proof {
                assert(obj_get(full.skip(i as int), k@) == Some(full[i as int].1));
            }
            return Some(i);
        }
        proof {
            assert(full.skip(i as int).skip(1) =~= full.skip(i + 1));
        }
        i = i + 1;
    }
    proof {
        lemma_view_obj_index(ps@);
        assert(full.skip(ps@.len() as int) =~= Seq::<(Seq<u8>, Json)>::empty());
    }
    None
}


/// Appending an element appends its model.
pub proof fn lemma_view_arr_push(es: Seq<JsonValue>, x: JsonValue)
    ensures
        view_arr(es.push(x)) == view_arr(es).push(x@),
{
    lemma_view_arr_index(es);
    lemma_view_arr_index(es.push(x));
    let pushed = view_arr(es).push(x@);
    assert forall|i: int| 0 <= i < es.len() + 1 implies view_arr(es.push(x))[i] == pushed[i] by {
        if i < es.len() {
            assert(es.push(x)[i] == es[i]);
        } else {
            assert(es.push(x)[i] == x);
        }
    }
    assert(view_arr(es.push(x)) =~= pushed);
}

} // verus!
