//! The wire envelope of the distributed bus: a JSON object holding the
//! event's fields, with the payload as an array of byte values and the
//! timestamp in milliseconds. The codec is the library's own: `encode`
//! produces exactly the canonical form below, and `decode` accepts exactly
//! that form, so an envelope round-trips losslessly.

use vstd::prelude::*;
use vstd::utf8::decode_utf8;
use vstd::utf8::encode_utf8;
use vstd::utf8::valid_utf8;

use crate::events::errors::Error;
use crate::events::event::Event;
use crate::text::string_from_utf8;

verus! {

// --- the fixed fragments of the envelope ---
pub open spec fn lit_id() -> Seq<u8> {
    seq![123, 34, 105, 100, 34, 58, 34]
}

pub open spec fn lit_entity_id() -> Seq<u8> {
    seq![
        34,
        44,
        34,
        101,
        110,
        116,
        105,
        116,
        121,
        95,
        105,
        100,
        34,
        58,
        34,
    ]
}

pub open spec fn lit_topic() -> Seq<u8> {
    seq![34, 44, 34, 116, 111, 112, 105, 99, 34, 58, 34]
}

pub open spec fn lit_payload() -> Seq<u8> {
    seq![34, 44, 34, 112, 97, 121, 108, 111, 97, 100, 34, 58, 91]
}

pub open spec fn lit_timestamp() -> Seq<u8> {
    seq![
        93,
        44,
        34,
        116,
        105,
        109,
        101,
        115,
        116,
        97,
        109,
        112,
        34,
        58,
    ]
}

pub open spec fn lit_close() -> Seq<u8> {
    seq![125]
}

// --- JSON string escaping, on UTF-8 bytes ---
/// The lowercase hex digit of `n`, for `n < 16`.
pub open spec fn hex_digit(n: u8) -> u8 {
    if n < 10 {
        (48 + n) as u8
    } else {
        (87 + n) as u8
    }
}

/// How one byte of a string is written inside a JSON string: quote and
/// backslash get a backslash escape, control bytes the `\u00XX` form with
/// lowercase hex, and every other byte stands as itself.
pub open spec fn esc_byte(b: u8) -> Seq<u8> {
    if b == 34 {
        seq![92, 34]
    } else if b == 92 {
        seq![92, 92]
    } else if b < 32 {
        seq![92, 117, 48, 48, hex_digit(b / 16), hex_digit(b % 16)]
    } else {
        seq![b]
    }
}

/// A whole byte string, escaped.
pub open spec fn esc(s: Seq<u8>) -> Seq<u8>
    decreases s.len(),
{
    if s.len() == 0 {
        Seq::<u8>::empty()
    } else {
        esc_byte(s[0]) + esc(s.skip(1))
    }
}

/// Escaping one more byte appends that byte's escape.
pub proof fn lemma_esc_push(s: Seq<u8>, b: u8)
    ensures
        esc(s.push(b)) == esc(s) + esc_byte(b),
    decreases s.len(),
{
    if s.len() == 0 {
        assert(s.push(b).skip(1) =~= Seq::<u8>::empty());
        assert(esc(Seq::<u8>::empty()) =~= Seq::<u8>::empty());
        assert(esc(s.push(b)) =~= esc_byte(b));
        assert(esc(s) + esc_byte(b) =~= esc_byte(b));
    } else {
        lemma_esc_push(s.skip(1), b);
        assert(s.push(b).skip(1) =~= s.skip(1).push(b));
        assert(esc(s.push(b)) == esc_byte(s[0]) + (esc(s.skip(1)) + esc_byte(b)));
        assert(esc_byte(s[0]) + (esc(s.skip(1)) + esc_byte(b)) =~= (esc_byte(s[0]) + esc(
            s.skip(1),
        )) + esc_byte(b));
    }
}

// --- decimal forms ---
/// The decimal digits of a byte value, without leading zeros.
pub open spec fn dec_u8(n: u8) -> Seq<u8> {
    if n < 10 {
        seq![(48 + n) as u8]
    } else if n < 100 {
        seq![(48 + n / 10) as u8, (48 + n % 10) as u8]
    } else {
        seq![(48 + n / 100) as u8, (48 + (n / 10) % 10) as u8, (48 + n % 10) as u8]
    }
}

/// The payload as comma-separated decimal byte values.
pub open spec fn payload_bytes(p: Seq<u8>) -> Seq<u8>
    decreases p.len(),
{
    if p.len() == 0 {
        Seq::<u8>::empty()
    } else if p.len() == 1 {
        dec_u8(p[0])
    } else {
        dec_u8(p[0]) + seq![44] + payload_bytes(p.skip(1))
    }
}

/// Writing one more payload byte appends a comma and its digits.
pub proof fn lemma_payload_push(p: Seq<u8>, b: u8)
    requires
        p.len() >= 1,
    ensures
        payload_bytes(p.push(b)) == payload_bytes(p) + seq![44] + dec_u8(b),
    decreases p.len(),
{
    if p.len() == 1 {
        assert(p.push(b).skip(1) =~= seq![b]);
        assert(payload_bytes(seq![b]) == dec_u8(b));
        assert(payload_bytes(p.push(b)) == dec_u8(p[0]) + seq![44] + dec_u8(b));
        assert(payload_bytes(p) == dec_u8(p[0]));
    } else {
        lemma_payload_push(p.skip(1), b);
        assert(p.push(b).skip(1) =~= p.skip(1).push(b));
        assert(payload_bytes(p.push(b)) == dec_u8(p[0]) + seq![44] + (payload_bytes(p.skip(1))
            + seq![44] + dec_u8(b)));
        assert(dec_u8(p[0]) + seq![44] + (payload_bytes(p.skip(1)) + seq![44] + dec_u8(b))
            =~= (dec_u8(p[0]) + seq![44] + payload_bytes(p.skip(1))) + seq![44] + dec_u8(b));
    }
}

/// The decimal digits of an unbounded natural number.
pub open spec fn dec_nat(n: nat) -> Seq<u8>
    decreases n,
{
    if n < 10 {
        seq![(48 + n) as u8]
    } else {
        dec_nat(n / 10).push((48 + n % 10) as u8)
    }
}

/// The decimal form of a signed number: a minus sign before the magnitude
/// when negative.
pub open spec fn dec_int(n: int) -> Seq<u8> {
    if n < 0 {
        seq![45] + dec_nat((-n) as nat)
    } else {
        dec_nat(n as nat)
    }
}

/// The whole envelope for an event's fields.
pub open spec fn envelope_bytes(
    id: Seq<char>,
    entity_id: Seq<char>,
    topic: Seq<char>,
    payload: Seq<u8>,
    timestamp: i64,
) -> Seq<u8> {
    lit_id() + esc(encode_utf8(id)) + lit_entity_id() + esc(encode_utf8(entity_id)) + lit_topic()
        + esc(encode_utf8(topic)) + lit_payload() + payload_bytes(payload) + lit_timestamp()
        + dec_int(timestamp as int) + lit_close()
}

/// The envelope of a whole event.
pub open spec fn spec_envelope(e: &Event) -> Seq<u8> {
    envelope_bytes(
        e.spec_id(),
        e.spec_entity_id(),
        e.spec_topic(),
        e.spec_payload(),
        e.spec_timestamp(),
    )
}

// --- the encoder ---
/// Appends `s`, escaped, to `out`.
fn push_escaped(out: &mut Vec<u8>, s: &[u8])
    ensures
        final(out)@ == old(out)@ + esc(s@),
{
    let ghost base = old(out)@;
    let mut i: usize = 0;
    proof {
        assert(s@.take(0) =~= Seq::<u8>::empty());
        assert(out@ =~= base + esc(s@.take(0)));
    }
    while i < s.len()
        invariant
            i <= s@.len(),
            out@ == base + esc(s@.take(i as int)),
        decreases s@.len() - i,
    {
        let b: u8 = s[i];
        proof {
            assert(s@.take(i as int + 1) =~= s@.take(i as int).push(s@[i as int]));
            lemma_esc_push(s@.take(i as int), s@[i as int]);
        }
        if b == 34 {
            out.push(92);
            out.push(34);
        } else if b == 92 {
            out.push(92);
            out.push(92);
        } else if b < 32 {
            out.push(92);
            out.push(117);
            out.push(48);
            out.push(48);
            let hi: u8 = b / 16;
            let lo: u8 = b % 16;
            out.push(if hi < 10 { 48 + hi } else { 87 + hi });
            out.push(if lo < 10 { 48 + lo } else { 87 + lo });
        } else {
            out.push(b);
        }
        proof {
            assert(out@ =~= base + esc(s@.take(i as int + 1)));
        }
        i = i + 1;
    }
    proof {
        assert(s@.take(s@.len() as int) =~= s@);
    }
}

/// Appends the decimal digits of `n` to `out`.
fn push_dec_u64(out: &mut Vec<u8>, n: u64)
    ensures
        final(out)@ == old(out)@ + dec_nat(n as nat),
{
    let ghost base = old(out)@;
    let mut tmp: Vec<u8> = Vec::new();
    let mut x: u64 = n;
    while x >= 10
        invariant
            dec_nat(n as nat) == dec_nat(x as nat) + tmp@.reverse(),
        decreases x,
    {
        let d: u8 = (48 + (x % 10)) as u8;
        proof {
            assert(tmp@.push(d).reverse() =~= seq![d] + tmp@.reverse());
            assert(dec_nat(x as nat) == dec_nat((x as nat) / 10).push(d));
            assert(dec_nat((x as nat) / 10).push(d) + tmp@.reverse() =~= dec_nat((x as nat) / 10)
                + (seq![d] + tmp@.reverse()));
        }
        tmp.push(d);
        x = x / 10;
    }
    let d: u8 = (48 + x) as u8;
    proof {
        assert(dec_nat(x as nat) == seq![d]);
        assert(tmp@.push(d).reverse() =~= seq![d] + tmp@.reverse());
    }
    tmp.push(d);
    let ghost digits = dec_nat(n as nat);
    proof {
        assert(tmp@.reverse() =~= digits);
        assert(tmp@.len() == digits.len());
    }
    let mut i: usize = tmp.len();
    while i > 0
        invariant
            i <= tmp@.len(),
            tmp@.len() == digits.len(),
            tmp@.reverse() == digits,
            forall|k: int| 0 <= k < tmp@.len() ==> digits[k] == tmp@[tmp@.len() - 1 - k],
            out@ == base + digits.take(tmp@.len() - i),
        decreases i,
    {
        i = i - 1;
        out.push(tmp[i]);
        proof {
            assert(digits.take(tmp@.len() - i) =~= digits.take(tmp@.len() - i - 1).push(
                digits[tmp@.len() - 1 - i],
            ));
        }
    }
    proof {
        assert(digits.take(tmp@.len() as int) =~= digits);
    }
}

/// Appends the decimal form of `n`, with a minus sign when negative.
fn push_dec_i64(out: &mut Vec<u8>, n: i64)
    ensures
        final(out)@ == old(out)@ + dec_int(n as int),
{
    if n >= 0 {
        push_dec_u64(out, n as u64);
    } else {
        out.push(45);
        let mag: u64 = ((-(n + 1)) as u64) + 1;
        proof {
            assert(mag as nat == (-(n as int)) as nat);
        }
        push_dec_u64(out, mag);
        proof {
            assert(out@ =~= old(out)@ + (seq![45] + dec_nat(mag as nat)));
        }
    }
}

/// Encodes an event into its wire envelope: exactly `spec_envelope`.
#[verifier::rlimit(100)]
pub fn encode_envelope(e: &Event) -> (r: Vec<u8>)
    ensures
        r@ == spec_envelope(e),
{
    let mut out: Vec<u8> = Vec::new();
    out.push(123);
    out.push(34);
    out.push(105);
    out.push(100);
    out.push(34);
    out.push(58);
    out.push(34);
    proof {
        assert(out@ =~= lit_id());
    }
    push_escaped(&mut out, e.id().as_bytes());
    out.push(34);
    out.push(44);
    out.push(34);
    out.push(101);
    out.push(110);
    out.push(116);
    out.push(105);
    out.push(116);
    out.push(121);
    out.push(95);
    out.push(105);
    out.push(100);
    out.push(34);
    out.push(58);
    out.push(34);
    proof {
        assert(out@ =~= lit_id() + esc(encode_utf8(e.spec_id())) + lit_entity_id());
    }
    push_escaped(&mut out, e.entity_id().as_bytes());
    out.push(34);
    out.push(44);
    out.push(34);
    out.push(116);
    out.push(111);
    out.push(112);
    out.push(105);
    out.push(99);
    out.push(34);
    out.push(58);
    out.push(34);
    proof {
        assert(out@ =~= lit_id() + esc(encode_utf8(e.spec_id())) + lit_entity_id() + esc(
            encode_utf8(e.spec_entity_id()),
        ) + lit_topic());
    }
    push_escaped(&mut out, e.topic().as_bytes());
    out.push(34);
    out.push(44);
    out.push(34);
    out.push(112);
    out.push(97);
    out.push(121);
    out.push(108);
    out.push(111);
    out.push(97);
    out.push(100);
    out.push(34);
    out.push(58);
    out.push(91);
    let ghost pre_payload = out@;
    proof {
        assert(pre_payload =~= lit_id() + esc(encode_utf8(e.spec_id())) + lit_entity_id() + esc(
            encode_utf8(e.spec_entity_id()),
        ) + lit_topic() + esc(encode_utf8(e.spec_topic())) + lit_payload());
    }
    push_payload(&mut out, e.payload());
    out.push(93);
    out.push(44);
    out.push(34);
    out.push(116);
    out.push(105);
    out.push(109);
    out.push(101);
    out.push(115);
    out.push(116);
    out.push(97);
    out.push(109);
    out.push(112);
    out.push(34);
    out.push(58);
    proof {
        assert(out@ =~= pre_payload + payload_bytes(e.spec_payload()) + lit_timestamp());
    }
    push_dec_i64(&mut out, e.timestamp());
    out.push(125);
    proof {
        assert(out@ =~= spec_envelope(e));
    }
    out
}

/// Appends the payload's comma-separated decimal bytes to `out`.
fn push_payload(out: &mut Vec<u8>, p: &[u8])
    ensures
        final(out)@ == old(out)@ + payload_bytes(p@),
{
    let ghost base = old(out)@;
    if p.len() == 0 {
        proof {
            assert(out@ =~= base + payload_bytes(p@));
        }
        return ;
    }
    push_dec_u8(out, p[0]);
    proof {
        assert(p@.take(1) =~= seq![p@[0]]);
        assert(payload_bytes(p@.take(1)) == dec_u8(p@[0]));
    }
    let mut i: usize = 1;
    while i < p.len()
        invariant
            1 <= i <= p@.len(),
            out@ == base + payload_bytes(p@.take(i as int)),
        decreases p@.len() - i,
    {
        out.push(44);
        push_dec_u8(out, p[i]);
        proof {
            assert(p@.take(i as int + 1) =~= p@.take(i as int).push(p@[i as int]));
            lemma_payload_push(p@.take(i as int), p@[i as int]);
        }
        i = i + 1;
    }
    proof {
        assert(p@.take(p@.len() as int) =~= p@);
    }
}

/// Appends the decimal digits of one byte value to `out`.
fn push_dec_u8(out: &mut Vec<u8>, b: u8)
    ensures
        final(out)@ == old(out)@ + dec_u8(b),
{
    if b < 10 {
        out.push(48 + b);
        proof {
            assert(out@ =~= old(out)@ + dec_u8(b));
        }
    } else if b < 100 {
        out.push(48 + b / 10);
        out.push(48 + b % 10);
        proof {
            assert(out@ =~= old(out)@ + dec_u8(b));
        }
    } else {
        out.push(48 + b / 100);
        out.push(48 + (b / 10) % 10);
        out.push(48 + b % 10);
        proof {
            assert(out@ =~= old(out)@ + dec_u8(b));
        }
    }
}

// --- the decoder: spec-level parsers ---
pub open spec fn is_dec_digit(b: u8) -> bool {
    48 <= b <= 57
}

pub open spec fn is_hex_lower(b: u8) -> bool {
    is_dec_digit(b) || (97 <= b <= 102)
}

/// The value of one lowercase hex digit.
pub open spec fn hex_val(b: u8) -> u8 {
    if b < 58 {
        (b - 48) as u8
    } else {
        (b - 87) as u8
    }
}

/// Unescapes a JSON string body: consumes escaped bytes up to, but not
/// including, the closing quote, and yields the raw bytes and how many
/// input bytes they occupied.
pub open spec fn unesc(b: Seq<u8>) -> Option<(Seq<u8>, int)>
    decreases b.len(),
{
    if b.len() == 0 {
        None
    } else if b[0] == 34 {
        Some((Seq::<u8>::empty(), 0))
    } else if b[0] == 92 {
        if b.len() >= 2 && (b[1] == 34 || b[1] == 92) {
            match unesc(b.skip(2)) {
                Some(t) => Some((seq![b[1]] + t.0, 2 + t.1)),
                None => None,
            }
        } else if b.len() >= 6 && b[1] == 117 && b[2] == 48 && b[3] == 48 && is_hex_lower(b[4])
            && is_hex_lower(b[5]) && hex_val(b[4]) * 16 + hex_val(b[5]) < 32 {
            match unesc(b.skip(6)) {
                Some(t) => Some((seq![(hex_val(b[4]) * 16 + hex_val(b[5])) as u8] + t.0, 6 + t.1)),
                None => None,
            }
        } else {
            None
        }
    } else if b[0] < 32 {
        None
    } else {
        match unesc(b.skip(1)) {
            Some(t) => Some((seq![b[0]] + t.0, 1 + t.1)),
            None => None,
        }
    }
}

/// Unescaping undoes escaping: on input that starts with an escaped string
/// followed by a quote, `unesc` recovers exactly the raw bytes.
pub proof fn lemma_unesc_esc(raw: Seq<u8>, rest: Seq<u8>)
    ensures
        unesc(esc(raw) + seq![34u8] + rest) == Some((raw, esc(raw).len() as int)),
    decreases raw.len(),
{
    let b = esc(raw) + seq![34u8] + rest;
    if raw.len() == 0 {
        assert(b =~= seq![34u8] + rest);
        assert(b[0] == 34);
    } else {
        lemma_unesc_esc(raw.skip(1), rest);
        let tail = esc(raw.skip(1)) + seq![34u8] + rest;
        let e0 = esc_byte(raw[0]);
        assert(esc(raw) == e0 + esc(raw.skip(1)));
        assert(b =~= e0 + tail);
        if raw[0] == 34 {
            assert(b.skip(2) =~= tail);
            assert(seq![b[1]] + raw.skip(1) =~= raw);
        } else if raw[0] == 92 {
            assert(b.skip(2) =~= tail);
            assert(seq![b[1]] + raw.skip(1) =~= raw);
        } else if raw[0] < 32 {
            assert(b.skip(6) =~= tail);
            assert(b[4] == hex_digit(raw[0] / 16) && b[5] == hex_digit(raw[0] % 16));
            assert(is_hex_lower(b[4]) && hex_val(b[4]) == raw[0] / 16);
            assert(is_hex_lower(b[5]) && hex_val(b[5]) == raw[0] % 16);
            assert(hex_val(b[4]) * 16 + hex_val(b[5]) == raw[0]);
            assert(seq![(hex_val(b[4]) * 16 + hex_val(b[5])) as u8] + raw.skip(1) =~= raw);
        } else {
            assert(b.skip(1) =~= tail);
            assert(b[0] == raw[0]);
            assert(!(b[0] == 34) && !(b[0] == 92) && !(b[0] < 32));
            assert(seq![b[0]] + raw.skip(1) =~= raw);
        }
    }
}

/// Whatever `unesc` accepts re-escapes to exactly the consumed input, and
/// stops right before a quote.
pub proof fn lemma_unesc_sound(b: Seq<u8>)
    requires
        unesc(b) is Some,
    ensures
        ({
            let t = unesc(b).unwrap();
            &&& 0 <= t.1 < b.len()
            &&& b.take(t.1) == esc(t.0)
            &&& b[t.1] == 34
        }),
    decreases b.len(),
{
    let t = unesc(b).unwrap();
    if b[0] == 34 {
        assert(b.take(0) =~= esc(Seq::<u8>::empty()));
    } else if b[0] == 92 {
        if b.len() >= 2 && (b[1] == 34 || b[1] == 92) {
            lemma_unesc_sound(b.skip(2));
            let u = unesc(b.skip(2)).unwrap();
            assert(esc_byte(b[1]) =~= seq![92u8, b[1]]);
            assert(esc(seq![b[1]] + u.0) == esc_byte(b[1]) + esc((seq![b[1]] + u.0).skip(1)));
            assert((seq![b[1]] + u.0).skip(1) =~= u.0);
            assert(b.take(t.1) =~= seq![92u8, b[1]] + b.skip(2).take(u.1));
            assert(b[t.1] == b.skip(2)[u.1]);
        } else {
            lemma_unesc_sound(b.skip(6));
            let u = unesc(b.skip(6)).unwrap();
            let v = (hex_val(b[4]) * 16 + hex_val(b[5])) as u8;
            assert(v < 32 && !(v == 34) && !(v == 92));
            assert(v / 16 == hex_val(b[4]) && v % 16 == hex_val(b[5]));
            assert(hex_digit(v / 16) == b[4] && hex_digit(v % 16) == b[5]);
            assert(esc_byte(v) =~= seq![92u8, 117, 48, 48, b[4], b[5]]);
            assert(esc(seq![v] + u.0) == esc_byte(v) + esc((seq![v] + u.0).skip(1)));
            assert((seq![v] + u.0).skip(1) =~= u.0);
            assert(b.take(t.1) =~= seq![92u8, 117u8, 48u8, 48u8, b[4], b[5]] + b.skip(6).take(u.1));
            assert(b[t.1] == b.skip(6)[u.1]);
        }
    } else {
        lemma_unesc_sound(b.skip(1));
        let u = unesc(b.skip(1)).unwrap();
        assert(esc_byte(b[0]) =~= seq![b[0]]);
        assert(esc(seq![b[0]] + u.0) == esc_byte(b[0]) + esc((seq![b[0]] + u.0).skip(1)));
        assert((seq![b[0]] + u.0).skip(1) =~= u.0);
        assert(b.take(t.1) =~= seq![b[0]] + b.skip(1).take(u.1));
        assert(b[t.1] == b.skip(1)[u.1]);
    }
}

/// Parses one decimal byte value: up to three digits, no leading zero,
/// value at most 255.
pub open spec fn parse_u8_digits(b: Seq<u8>) -> Option<(u8, int)> {
    if b.len() >= 1 && is_dec_digit(b[0]) {
        if b[0] == 48 {
            Some((0u8, 1))
        } else if b.len() >= 2 && is_dec_digit(b[1]) {
            if b.len() >= 3 && is_dec_digit(b[2]) {
                let v = (b[0] - 48) * 100 + (b[1] - 48) * 10 + (b[2] - 48);
                if v <= 255 {
                    Some((v as u8, 3))
                } else {
                    None
                }
            } else {
                Some((((b[0] - 48) * 10 + (b[1] - 48)) as u8, 2))
            }
        } else {
            Some(((b[0] - 48) as u8, 1))
        }
    } else {
        None
    }
}

/// A parsed byte value re-encodes to exactly the consumed digits.
pub proof fn lemma_parse_u8_sound(b: Seq<u8>)
    requires
        parse_u8_digits(b) is Some,
    ensures
        ({
            let t = parse_u8_digits(b).unwrap();
            &&& 1 <= t.1 <= b.len()
            &&& b.take(t.1) == dec_u8(t.0)
        }),
{
    let t = parse_u8_digits(b).unwrap();
    assert(b.take(t.1) =~= dec_u8(t.0));
}

/// Parsing digits undoes writing them, when what follows is not a digit.
pub proof fn lemma_parse_u8_dec(v: u8, rest: Seq<u8>)
    requires
        rest.len() >= 1,
        !is_dec_digit(rest[0]),
    ensures
        parse_u8_digits(dec_u8(v) + rest) == Some((v, dec_u8(v).len() as int)),
{
    let b = dec_u8(v) + rest;
    if v < 10 {
        assert(b[0] == 48 + v);
        assert(b[1] == rest[0]);
    } else if v < 100 {
        assert(b[0] == 48 + v / 10 && b[1] == 48 + v % 10 && b[2] == rest[0]);
        assert(b[0] != 48);
        assert((b[0] - 48) * 10 + (b[1] - 48) == v);
    } else {
        assert(b[0] == 48 + v / 100 && b[1] == 48 + (v / 10) % 10 && b[2] == 48 + v % 10 && b[3]
            == rest[0]);
        assert(b[0] != 48);
        assert((b[0] - 48) * 100 + (b[1] - 48) * 10 + (b[2] - 48) == v);
    }
}

/// Parses a whole payload array body: one or more comma-separated byte
/// values, stopping before whatever follows the last one.
pub open spec fn parse_payload(b: Seq<u8>) -> Option<(Seq<u8>, int)>
    decreases b.len(),
{
    match parse_u8_digits(b) {
        None => None,
        Some(t) => {
            if 1 <= t.1 && t.1 < b.len() && b[t.1] == 44 {
                match parse_payload(b.skip(t.1 + 1)) {
                    Some(u) => Some((seq![t.0] + u.0, t.1 + 1 + u.1)),
                    None => None,
                }
            } else {
                Some((seq![t.0], t.1))
            }
        },
    }
}

/// A parsed payload re-encodes to exactly the consumed input.
pub proof fn lemma_parse_payload_sound(b: Seq<u8>)
    requires
        parse_payload(b) is Some,
    ensures
        ({
            let t = parse_payload(b).unwrap();
            &&& 1 <= t.1 <= b.len()
            &&& t.0.len() >= 1
            &&& b.take(t.1) == payload_bytes(t.0)
        }),
    decreases b.len(),
{
    let t = parse_payload(b).unwrap();
    let n = parse_u8_digits(b).unwrap();
    lemma_parse_u8_sound(b);
    if 1 <= n.1 && n.1 < b.len() && b[n.1] == 44 {
        lemma_parse_payload_sound(b.skip(n.1 + 1));
        let u = parse_payload(b.skip(n.1 + 1)).unwrap();
        assert((seq![n.0] + u.0).len() >= 2);
        assert((seq![n.0] + u.0)[0] == n.0);
        assert((seq![n.0] + u.0).skip(1) =~= u.0);
        assert(payload_bytes(seq![n.0] + u.0) == dec_u8(n.0) + seq![44u8] + payload_bytes(u.0));
        assert(b.take(t.1) =~= b.take(n.1) + seq![b[n.1]] + b.skip(n.1 + 1).take(u.1));
    } else {
        assert(payload_bytes(seq![n.0]) == dec_u8(n.0));
    }
}

/// Parsing a payload undoes writing one, when what follows is neither a
/// digit nor a comma.
pub proof fn lemma_parse_payload_enc(p: Seq<u8>, rest: Seq<u8>)
    requires
        p.len() >= 1,
        rest.len() >= 1,
        !is_dec_digit(rest[0]),
        rest[0] != 44,
    ensures
        parse_payload(payload_bytes(p) + rest) == Some((p, payload_bytes(p).len() as int)),
    decreases p.len(),
{
    let b = payload_bytes(p) + rest;
    if p.len() == 1 {
        assert(payload_bytes(p) == dec_u8(p[0]));
        lemma_parse_u8_dec(p[0], rest);
        assert(b =~= dec_u8(p[0]) + rest);
        let t = parse_u8_digits(b).unwrap();
        assert(t.0 == p[0] && t.1 == dec_u8(p[0]).len());
        assert(b[t.1] == rest[0]);
        assert(seq![p[0]] =~= p);
    } else {
        lemma_parse_payload_enc(p.skip(1), rest);
        assert(payload_bytes(p) == dec_u8(p[0]) + seq![44u8] + payload_bytes(p.skip(1)));
        let commatail = seq![44u8] + payload_bytes(p.skip(1)) + rest;
        assert(b =~= dec_u8(p[0]) + commatail);
        lemma_parse_u8_dec(p[0], commatail);
        let t = parse_u8_digits(b).unwrap();
        assert(t.0 == p[0] && t.1 == dec_u8(p[0]).len());
        assert(b[t.1] == 44);
        assert(b.skip(t.1 + 1) =~= payload_bytes(p.skip(1)) + rest);
        let u = parse_payload(b.skip(t.1 + 1)).unwrap();
        assert(seq![p[0]] + p.skip(1) =~= p);
    }
}

/// How many leading decimal digits `b` has.
pub open spec fn digit_run(b: Seq<u8>) -> int
    decreases b.len(),
{
    if b.len() > 0 && is_dec_digit(b[0]) {
        1 + digit_run(b.skip(1))
    } else {
        0
    }
}

/// The value of a sequence of decimal digits.
pub open spec fn digits_val(d: Seq<u8>) -> nat
    decreases d.len(),
{
    if d.len() == 0 {
        0
    } else {
        digits_val(d.take(d.len() - 1)) * 10 + (d[d.len() - 1] - 48) as nat
    }
}

/// Parses an unsigned decimal number: the maximal digit run, rejected when
/// empty or when a multi-digit run starts with a zero.
pub open spec fn parse_nat(b: Seq<u8>) -> Option<(nat, int)> {
    let n = digit_run(b);
    if n >= 1 && (b[0] != 48 || n == 1) {
        Some((digits_val(b.take(n)), n))
    } else {
        None
    }
}

/// Parses a signed decimal number into the range of `i64`; a minus sign
/// must be followed by a positive magnitude.
pub open spec fn parse_i64(b: Seq<u8>) -> Option<(i64, int)> {
    if b.len() >= 1 && b[0] == 45 {
        match parse_nat(b.skip(1)) {
            Some(t) => if 1 <= t.0 <= 0x8000000000000000 {
                Some(((-(t.0 as int)) as i64, 1 + t.1))
            } else {
                None
            },
            None => None,
        }
    } else {
        match parse_nat(b) {
            Some(t) => if t.0 <= 0x7fffffffffffffff {
                Some((t.0 as i64, t.1))
            } else {
                None
            },
            None => None,
        }
    }
}

/// The decimal digits of a number are digits, and the first is nonzero
/// unless the number is zero.
pub proof fn lemma_dec_nat_shape(n: nat)
    ensures
        dec_nat(n).len() >= 1,
        forall|i: int| 0 <= i < dec_nat(n).len() ==> is_dec_digit(#[trigger] dec_nat(n)[i]),
        n >= 1 ==> dec_nat(n)[0] != 48,
        n < 10 ==> dec_nat(n).len() == 1,
    decreases n,
{
    if n >= 10 {
        lemma_dec_nat_shape(n / 10);
        assert(forall|i: int|
            0 <= i < dec_nat(n / 10).len() ==> is_dec_digit(#[trigger] dec_nat(n / 10)[i]));
        assert(dec_nat(n) == dec_nat(n / 10).push((48 + n % 10) as u8));
    }
}

/// The digit run of digits followed by a non-digit is their count.
pub proof fn lemma_digit_run(d: Seq<u8>, rest: Seq<u8>)
    requires
        forall|i: int| 0 <= i < d.len() ==> is_dec_digit(#[trigger] d[i]),
        rest.len() >= 1,
        !is_dec_digit(rest[0]),
    ensures
        digit_run(d + rest) == d.len(),
    decreases d.len(),
{
    if d.len() == 0 {
        assert(d + rest =~= rest);
    } else {
        lemma_digit_run(d.skip(1), rest);
        assert((d + rest).skip(1) =~= d.skip(1) + rest);
        assert(is_dec_digit((d + rest)[0]));
    }
}

/// Reading back the digits of a number gives the number.
pub proof fn lemma_digits_val_dec_nat(n: nat)
    ensures
        digits_val(dec_nat(n)) == n,
    decreases n,
{
    if n < 10 {
        let d = dec_nat(n);
        assert(d == seq![(48 + n) as u8]);
        assert(d.take(d.len() - 1) =~= Seq::<u8>::empty());
        assert(digits_val(Seq::<u8>::empty()) == 0);
        assert(digits_val(d) == digits_val(d.take(d.len() - 1)) * 10 + (d[d.len() - 1] - 48) as nat);
        assert(digits_val(d) == n);
    } else {
        lemma_digits_val_dec_nat(n / 10);
        let d = dec_nat(n);
        assert(d == dec_nat(n / 10).push((48 + n % 10) as u8));
        assert(d.take(d.len() - 1) =~= dec_nat(n / 10));
        assert(d[d.len() - 1] == (48 + n % 10) as u8);
        assert((((48 + n % 10) as u8) - 48) as nat == n % 10);
        assert(digits_val(d) == (n / 10) * 10 + n % 10);
        assert((n / 10) * 10 + n % 10 == n);
    }
}

/// Writing back a parsed digit sequence gives the sequence, provided it
/// has no leading zero.
pub proof fn lemma_dec_nat_digits(d: Seq<u8>)
    requires
        d.len() >= 1,
        forall|i: int| 0 <= i < d.len() ==> is_dec_digit(#[trigger] d[i]),
        d[0] != 48 || d.len() == 1,
    ensures
        dec_nat(digits_val(d)) == d,
        digits_val(d) >= 1 || d == seq![48u8],
    decreases d.len(),
{
    if d.len() == 1 {
        assert(d.take(0) =~= Seq::<u8>::empty());
        assert(digits_val(Seq::<u8>::empty()) == 0);
        assert(digits_val(d) == (d[0] - 48) as nat);
        assert(dec_nat(digits_val(d)) =~= d);
        if d[0] != 48 {
            assert(digits_val(d) >= 1);
        } else {
            assert(d =~= seq![48u8]);
        }
    } else {
        let head = d.take(d.len() - 1);
        lemma_dec_nat_digits(head);
        let v = digits_val(d);
        let hv = digits_val(head);
        assert(head[0] == d[0] && head[0] != 48);
        assert(hv >= 1);
        let last: nat = (d[d.len() - 1] - 48) as nat;
        assert(v == hv * 10 + last);
        assert(v >= 10);
        assert(v / 10 == hv && v % 10 == last) by (nonlinear_arith)
            requires
                v == hv * 10 + last,
                last < 10,
        ;
        assert(dec_nat(v) == dec_nat(hv).push((48 + v % 10) as u8));
        assert(dec_nat(v) =~= d);
    }
}

/// A prefix of a digit sequence never has a larger value.
pub proof fn lemma_digits_val_prefix(d: Seq<u8>, k: int)
    requires
        0 <= k <= d.len(),
        forall|i: int| 0 <= i < d.len() ==> is_dec_digit(#[trigger] d[i]),
    ensures
        digits_val(d.take(k)) <= digits_val(d),
    decreases d.len() - k,
{
    if k < d.len() {
        lemma_digits_val_prefix(d, k + 1);
        let a = d.take(k + 1);
        assert(a.take(a.len() - 1) =~= d.take(k));
        assert(digits_val(d.take(k)) <= digits_val(a));
    } else {
        assert(d.take(k) =~= d);
    }
}

/// Parsing a signed decimal undoes writing one, when what follows is not
/// a digit; the magnitude of an `i64` always fits the accepted range.
pub proof fn lemma_parse_i64_dec(n: i64, rest: Seq<u8>)
    requires
        rest.len() >= 1,
        !is_dec_digit(rest[0]),
    ensures
        parse_i64(dec_int(n as int) + rest) == Some((n, dec_int(n as int).len() as int)),
{
    let b = dec_int(n as int) + rest;
    if n >= 0 {
        lemma_dec_nat_shape(n as nat);
        lemma_digit_run(dec_nat(n as nat), rest);
        lemma_digits_val_dec_nat(n as nat);
        assert(b =~= dec_nat(n as nat) + rest);
        let run = digit_run(b);
        assert(run == dec_nat(n as nat).len());
        assert(b.take(run) =~= dec_nat(n as nat));
        assert(b[0] == dec_nat(n as nat)[0]);
        assert(b[0] != 45);
    } else {
        let m = (-(n as int)) as nat;
        lemma_dec_nat_shape(m);
        lemma_digit_run(dec_nat(m), rest);
        lemma_digits_val_dec_nat(m);
        assert(b =~= seq![45u8] + (dec_nat(m) + rest));
        assert(b[0] == 45);
        assert(b.skip(1) =~= dec_nat(m) + rest);
        let run = digit_run(b.skip(1));
        assert(run == dec_nat(m).len());
        assert(b.skip(1).take(run) =~= dec_nat(m));
        assert(b.skip(1)[0] != 48);
        assert(1 <= m <= 0x8000000000000000);
    }
}

/// A digit run counts only digits and never passes the end.
pub proof fn lemma_digit_run_digits(s: Seq<u8>)
    ensures
        0 <= digit_run(s) <= s.len(),
        forall|i: int| 0 <= i < digit_run(s) ==> is_dec_digit(#[trigger] s[i]),
    decreases s.len(),
{
    if s.len() > 0 && is_dec_digit(s[0]) {
        lemma_digit_run_digits(s.skip(1));
        assert forall|i: int| 0 <= i < digit_run(s) implies is_dec_digit(#[trigger] s[i]) by {
            if i >= 1 {
                assert(is_dec_digit(s.skip(1)[i - 1]));
            }
        }
    }
}

/// A digit run covers at least every position known to hold a digit.
pub proof fn lemma_digit_run_ge(s: Seq<u8>, k: int)
    requires
        0 <= k <= s.len(),
        forall|i: int| 0 <= i < k ==> is_dec_digit(#[trigger] s[i]),
    ensures
        digit_run(s) >= k,
    decreases k,
{
    if k > 0 {
        assert(is_dec_digit(s[0]));
        assert forall|i: int| 0 <= i < k - 1 implies is_dec_digit(#[trigger] s.skip(1)[i]) by {
            assert(s.skip(1)[i] == s[i + 1]);
        }
        lemma_digit_run_ge(s.skip(1), k - 1);
        assert(digit_run(s) == 1 + digit_run(s.skip(1)));
    } else {
        lemma_digit_run_digits(s);
    }
}

// --- the decoder: executable parsers, each exactly its spec parser ---
/// Decides `parse_u8_digits` at position `pos`.
fn parse_u8_exec(b: &[u8], pos: usize) -> (r: Option<(u8, usize)>)
    requires
        pos <= b@.len(),
    ensures
        r matches Some(t) ==> pos < t.1 <= b@.len() && parse_u8_digits(b@.skip(pos as int))
            == Some((t.0, t.1 - pos as int)),
        r is None ==> parse_u8_digits(b@.skip(pos as int)) is None,
{
    let n = b.len();
    let ghost s = b@.skip(pos as int);
    if pos >= n || b[pos] < 48 || b[pos] > 57 {
        return None;
    }
    let d0: u8 = b[pos];
    proof {
        assert(s[0] == d0);
    }
    if d0 == 48 {
        return Some((0, pos + 1));
    }
    if pos + 1 >= n || b[pos + 1] < 48 || b[pos + 1] > 57 {
        return Some((d0 - 48, pos + 1));
    }
    let d1: u8 = b[pos + 1];
    proof {
        assert(s[1] == d1);
    }
    if pos + 2 >= n || b[pos + 2] < 48 || b[pos + 2] > 57 {
        return Some(((d0 - 48) * 10 + (d1 - 48), pos + 2));
    }
    let d2: u8 = b[pos + 2];
    proof {
        assert(s[2] == d2);
    }
    let v: u32 = (d0 - 48) as u32 * 100 + (d1 - 48) as u32 * 10 + (d2 - 48) as u32;
    if v <= 255 {
        Some((v as u8, pos + 3))
    } else {
        None
    }
}

/// Decides `parse_nat` at position `pos`, within the range of `u64`.
fn parse_nat_exec(b: &[u8], pos: usize) -> (r: Option<(u64, usize)>)
    requires
        pos <= b@.len(),
    ensures
        r matches Some(t) ==> pos < t.1 <= b@.len() && parse_nat(b@.skip(pos as int)) == Some(
            (t.0 as nat, t.1 - pos as int),
        ),
        r is None ==> (parse_nat(b@.skip(pos as int)) is None || parse_nat(
            b@.skip(pos as int),
        ).unwrap().0 > u64::MAX),
{
    let n = b.len();
    let ghost s = b@.skip(pos as int);
    if pos >= n || b[pos] < 48 || b[pos] > 57 {
        proof {
            assert(digit_run(s) == 0);
        }
        return None;
    }
    proof {
        assert(s[0] == b@[pos as int]);
        assert(is_dec_digit(s[0]));
    }
    if b[pos] == 48 {
        if pos + 1 < n && b[pos + 1] >= 48 && b[pos + 1] <= 57 {
            proof {
                assert(is_dec_digit(s[1]));
                lemma_digit_run_ge(s, 2);
            }
            return None;
        }
        proof {
            if s.len() >= 2 && is_dec_digit(s[1]) {
                assert(false);
            }
            if s.len() >= 2 {
                assert(s.skip(1)[0] == b@[pos as int + 1]);
                assert(digit_run(s.skip(1)) == 0);
            } else {
                assert(s.skip(1) =~= Seq::<u8>::empty());
                assert(digit_run(Seq::<u8>::empty()) == 0);
            }
            assert(digit_run(s) == 1);
            assert(s.take(1) =~= seq![48u8]);
            assert(s.take(1).take(0) =~= Seq::<u8>::empty());
            assert(digits_val(Seq::<u8>::empty()) == 0);
            assert(digits_val(s.take(1)) == 0);
        }
        return Some((0, pos + 1));
    }
    let mut val: u64 = 0;
    let mut p: usize = pos;
    proof {
        assert(b@.subrange(pos as int, pos as int) =~= Seq::<u8>::empty());
        assert(digits_val(Seq::<u8>::empty()) == 0);
    }
    while p < n && b[p] >= 48 && b[p] <= 57
        invariant
            pos <= p <= n,
            n == b@.len(),
            s == b@.skip(pos as int),
            pos < b@.len() && s[0] != 48 && is_dec_digit(s[0]),
            forall|i: int| pos <= i < p ==> is_dec_digit(#[trigger] b@[i]),
            val == digits_val(b@.subrange(pos as int, p as int)),
        decreases n - p,
    {
        let d: u8 = b[p] - 48;
        proof {
            assert(is_dec_digit(b@[p as int]));
        }
        if val > (u64::MAX - d as u64) / 10 {
            proof {
                let run = digit_run(s);
                lemma_digit_run_digits(s);
                lemma_digit_run_ge(s, p + 1 - pos as int);
                let full = s.take(run);
                assert(forall|i: int| 0 <= i < full.len() ==> is_dec_digit(#[trigger] full[i]));
                lemma_digits_val_prefix(full, p + 1 - pos as int);
                assert(full.take(p + 1 - pos as int) =~= b@.subrange(pos as int, p as int + 1));
                let cur = b@.subrange(pos as int, p as int + 1);
                assert(cur.take(cur.len() - 1) =~= b@.subrange(pos as int, p as int));
                assert(cur[cur.len() - 1] == b@[p as int]);
                assert(digits_val(cur) == val * 10 + d);
                assert(val * 10 + d > u64::MAX) by (nonlinear_arith)
                    requires
                        val > (u64::MAX - d as u64) / 10,
                        0 <= d < 10,
                        0 <= val,
                ;
                assert(parse_nat(s).unwrap().0 >= digits_val(cur));
            }
            return None;
        }
        proof {
            assert(val * 10 + d <= u64::MAX) by (nonlinear_arith)
                requires
                    val <= (u64::MAX - d as u64) / 10,
                    0 <= d < 10,
                    0 <= val,
            ;
            let cur = b@.subrange(pos as int, p as int + 1);
            assert(cur.take(cur.len() - 1) =~= b@.subrange(pos as int, p as int));
            assert(cur[cur.len() - 1] == b@[p as int]);
        }
        val = val * 10 + d as u64;
        p = p + 1;
    }
    proof {
        if p == pos {
            assert(b@[pos as int] == s[0]);
            assert(false);
        }
        let k = p - pos as int;
        lemma_digit_run_ge(s, k);
        lemma_digit_run_digits(s);
        assert(forall|i: int| 0 <= i < k ==> is_dec_digit(#[trigger] s[i]));
        if digit_run(s) > k {
            assert(p < b@.len());
            assert(is_dec_digit(s[k]));
            assert(s[k] == b@[p as int]);
            assert(false);
        }
        assert(digit_run(s) == k);
        assert(s.take(k) =~= b@.subrange(pos as int, p as int));
        assert(parse_nat(s) == Some((digits_val(s.take(k)), k)));
    }
    Some((val, p))
}

/// Decides `parse_i64` at position `pos`.
fn parse_i64_exec(b: &[u8], pos: usize) -> (r: Option<(i64, usize)>)
    requires
        pos <= b@.len(),
    ensures
        r matches Some(t) ==> pos < t.1 <= b@.len() && parse_i64(b@.skip(pos as int)) == Some(
            (t.0, t.1 - pos as int),
        ),
        r is None ==> parse_i64(b@.skip(pos as int)) is None,
{
    let n = b.len();
    let ghost s = b@.skip(pos as int);
    if pos < n && b[pos] == 45 {
        proof {
            assert(s[0] == 45);
            assert(s.skip(1) =~= b@.skip(pos as int + 1));
        }
        match parse_nat_exec(b, pos + 1) {
            None => {
                proof {
                    if parse_nat(s.skip(1)) is Some {
                        assert(parse_nat(s.skip(1)).unwrap().0 > u64::MAX);
                    }
                }
                None
            },
            Some((v, p2)) => {
                if v == 0 {
                    return None;
                }
                if v <= 0x8000000000000000 {
                    let ts: i64 = if v == 0x8000000000000000 {
                        i64::MIN
                    } else {
                        -(v as i64)
                    };
                    proof {
                        assert(ts as int == -(v as int));
                    }
                    Some((ts, p2))
                } else {
                    None
                }
            },
        }
    } else {
        proof {
            if s.len() >= 1 {
                assert(s[0] == b@[pos as int]);
            }
        }
        match parse_nat_exec(b, pos) {
            None => {
                proof {
                    if parse_nat(s) is Some {
                        assert(parse_nat(s).unwrap().0 > u64::MAX);
                    }
                }
                None
            },
            Some((v, p2)) => {
                if v <= 0x7fffffffffffffff {
                    Some((v as i64, p2))
                } else {
                    None
                }
            },
        }
    }
}

/// Decides `unesc` at position `pos`, yielding the raw bytes.
fn unesc_exec(b: &[u8], pos: usize) -> (r: Option<(Vec<u8>, usize)>)
    requires
        pos <= b@.len(),
    ensures
        r matches Some(t) ==> pos <= t.1 <= b@.len() && unesc(b@.skip(pos as int)) == Some(
            (t.0@, t.1 - pos as int),
        ),
        r is None ==> unesc(b@.skip(pos as int)) is None,
    decreases b@.len() - pos,
{
    let n = b.len();
    let ghost s = b@.skip(pos as int);
    if pos >= n {
        return None;
    }
    let c: u8 = b[pos];
    proof {
        assert(s[0] == c);
    }
    if c == 34 {
        return Some((Vec::new(), pos));
    }
    if c == 92 {
        if n - pos > 1 && (b[pos + 1] == 34 || b[pos + 1] == 92) {
            let d: u8 = b[pos + 1];
            proof {
                assert(s[1] == d);
                assert(s.skip(2) =~= b@.skip(pos as int + 2));
            }
            match unesc_exec(b, pos + 2) {
                None => None,
                Some((rest, p2)) => {
                    let mut out: Vec<u8> = Vec::new();
                    out.push(d);
                    let mut rest = rest;
                    let ghost restv = rest@;
                    out.append(&mut rest);
                    proof {
                        assert(out@ =~= seq![d] + restv);
                    }
                    Some((out, p2))
                },
            }
        } else if n - pos > 5 && b[pos + 1] == 117 && b[pos + 2] == 48 && b[pos + 3] == 48 && (
        (48 <= b[pos + 4] && b[pos + 4] <= 57) || (97 <= b[pos + 4] && b[pos + 4] <= 102)) && ((48
            <= b[pos + 5] && b[pos + 5] <= 57) || (97 <= b[pos + 5] && b[pos + 5] <= 102)) {
            let h1: u8 = b[pos + 4];
            let h2: u8 = b[pos + 5];
            let v1: u8 = if h1 < 58 {
                h1 - 48
            } else {
                h1 - 87
            };
            let v2: u8 = if h2 < 58 {
                h2 - 48
            } else {
                h2 - 87
            };
            proof {
                assert(s[1] == 117 && s[2] == 48 && s[3] == 48 && s[4] == h1 && s[5] == h2);
                assert(v1 == hex_val(s[4]) && v2 == hex_val(s[5]));
            }
            if v1 * 16 + v2 >= 32 {
                return None;
            }
            let v: u8 = v1 * 16 + v2;
            proof {
                assert(s.skip(6) =~= b@.skip(pos as int + 6));
            }
            match unesc_exec(b, pos + 6) {
                None => None,
                Some((rest, p2)) => {
                    let mut out: Vec<u8> = Vec::new();
                    out.push(v);
                    let mut rest = rest;
                    let ghost restv = rest@;
                    out.append(&mut rest);
                    proof {
                        assert(out@ =~= seq![v] + restv);
                    }
                    Some((out, p2))
                },
            }
        } else {
            proof {
                if s.len() >= 2 {
                    assert(s[1] == b@[pos as int + 1]);
                }
                if s.len() >= 6 {
                    assert(s[4] == b@[pos as int + 4] && s[5] == b@[pos as int + 5]);
                }
            }
            None
        }
    } else if c < 32 {
        None
    } else {
        proof {
            assert(s.skip(1) =~= b@.skip(pos as int + 1));
        }
        match unesc_exec(b, pos + 1) {
            None => None,
            Some((rest, p2)) => {
                let mut out: Vec<u8> = Vec::new();
                out.push(c);
                let mut rest = rest;
                let ghost restv = rest@;
                out.append(&mut rest);
                proof {
                    assert(out@ =~= seq![c] + restv);
                }
                Some((out, p2))
            },
        }
    }
}

/// Decides `parse_payload` at position `pos`.
fn parse_payload_exec(b: &[u8], pos: usize) -> (r: Option<(Vec<u8>, usize)>)
    requires
        pos <= b@.len(),
    ensures
        r matches Some(t) ==> pos < t.1 <= b@.len() && parse_payload(b@.skip(pos as int)) == Some(
            (t.0@, t.1 - pos as int),
        ),
        r is None ==> parse_payload(b@.skip(pos as int)) is None,
{
    let mut out: Vec<u8> = Vec::new();
    let mut p: usize;
    match parse_u8_exec(b, pos) {
        None => {
            proof {
                assert(parse_payload(b@.skip(pos as int)) is None);
            }
            return None;
        },
        Some((v, p2)) => {
            out.push(v);
            p = p2;
            proof {
                let s = b@.skip(pos as int);
                let c = p as int - pos as int;
                assert(parse_u8_digits(s) == Some((v, c)));
                if p < b@.len() && b@[p as int] == 44 {
                    assert(s[c] == b@[p as int]);
                    assert(s.skip(c + 1) =~= b@.skip(p as int + 1));
                    assert(parse_payload(s) == (match parse_payload(b@.skip(p as int + 1)) {
                        Some(u) => Some::<(Seq<u8>, int)>((seq![v] + u.0, c + 1 + u.1)),
                        None => None::<(Seq<u8>, int)>,
                    }));
                    if parse_payload(b@.skip(p as int + 1)) is Some {
                        let u = parse_payload(b@.skip(p as int + 1)).unwrap();
                        assert(seq![v] + u.0 =~= out@ + u.0);
                    }
                } else {
                    if c < s.len() {
                        assert(s[c] == b@[p as int]);
                    }
                    assert(parse_payload(s) == Some::<(Seq<u8>, int)>((seq![v], c)));
                    assert(seq![v] =~= out@);
                }
            }
        },
    }
    while p < b.len() && b[p] == 44
        invariant
            pos < p <= b@.len(),
            out@.len() >= 1,
            ({
                if p < b@.len() && b@[p as int] == 44 {
                    parse_payload(b@.skip(pos as int)) == (match parse_payload(
                        b@.skip(p as int + 1),
                    ) {
                        Some(u) => Some::<(Seq<u8>, int)>((out@ + u.0, p + 1 - pos as int + u.1)),
                        None => None::<(Seq<u8>, int)>,
                    })
                } else {
                    parse_payload(b@.skip(pos as int)) == Some::<(Seq<u8>, int)>(
                        (out@, p - pos as int),
                    )
                }
            }),
        decreases b@.len() - p,
    {
        let ghost prev_out = out@;
        let ghost prev_p = p as int;
        match parse_u8_exec(b, p + 1) {
            None => {
                proof {
                    assert(parse_u8_digits(b@.skip(prev_p + 1)) is None);
                    assert(parse_payload(b@.skip(prev_p + 1)) is None);
                }
                return None;
            },
            Some((v, p2)) => {
                out.push(v);
                p = p2;
                proof {
                    let rest = b@.skip(prev_p + 1);
                    assert(parse_u8_digits(rest) == Some((v, p as int - (prev_p + 1))));
                    let c = p as int - (prev_p + 1);
                    if p < b@.len() && b@[p as int] == 44 {
                        assert(rest[c] == b@[p as int]);
                        assert(rest.skip(c + 1) =~= b@.skip(p as int + 1));
                        assert(parse_payload(rest) == (match parse_payload(b@.skip(p as int + 1)) {
                            Some(u) => Some::<(Seq<u8>, int)>((seq![v] + u.0, c + 1 + u.1)),
                            None => None::<(Seq<u8>, int)>,
                        }));
                        if parse_payload(b@.skip(p as int + 1)) is Some {
                            let u = parse_payload(b@.skip(p as int + 1)).unwrap();
                            assert(prev_out + (seq![v] + u.0) =~= out@ + u.0);
                        }
                    } else {
                        if c < rest.len() {
                            assert(rest[c] == b@[p as int]);
                        }
                        assert(parse_payload(rest) == Some::<(Seq<u8>, int)>((seq![v], c)));
                        assert(prev_out + seq![v] =~= out@);
                    }
                }
            },
        }
    }
    Some((out, p))
}

/// Whether `pat` occurs in `b` at position `pos`; on success the position
/// right after it.
fn expect_bytes(b: &[u8], pos: usize, pat: &Vec<u8>) -> (r: Option<usize>)
    requires
        pos <= b@.len(),
    ensures
        r matches Some(p2) ==> p2 == pos + pat@.len() && pos + pat@.len() <= b@.len()
            && b@.subrange(pos as int, p2 as int) == pat@,
        r is None ==> !(pos + pat@.len() <= b@.len() && b@.subrange(
            pos as int,
            pos as int + pat@.len() as int,
        ) == pat@),
{
    let n = b.len();
    if pat.len() > n - pos {
        return None;
    }
    let mut j: usize = 0;
    while j < pat.len()
        invariant
            j <= pat@.len(),
            n == b@.len(),
            pos + pat@.len() <= b@.len(),
            forall|k: int| 0 <= k < j ==> b@[pos + k] == pat@[k],
        decreases pat@.len() - j,
    {
        if b[pos + j] != pat[j] {
            proof {
                let w = b@.subrange(pos as int, pos as int + pat@.len() as int);
                assert(w[j as int] != pat@[j as int]);
            }
            return None;
        }
        j = j + 1;
    }
    proof {
        assert(b@.subrange(pos as int, pos as int + pat@.len() as int) =~= pat@);
    }
    Some(pos + pat.len())
}

/// A parsed signed decimal re-encodes to exactly the consumed input.
pub proof fn lemma_parse_i64_sound(s: Seq<u8>)
    requires
        parse_i64(s) is Some,
    ensures
        ({
            let t = parse_i64(s).unwrap();
            &&& 1 <= t.1 <= s.len()
            &&& s.take(t.1) == dec_int(t.0 as int)
        }),
{
    let t = parse_i64(s).unwrap();
    if s.len() >= 1 && s[0] == 45 {
        let u = parse_nat(s.skip(1)).unwrap();
        let run = digit_run(s.skip(1));
        lemma_digit_run_digits(s.skip(1));
        let d = s.skip(1).take(run);
        assert(forall|i: int| 0 <= i < d.len() ==> is_dec_digit(#[trigger] d[i]));
        lemma_dec_nat_digits(d);
        assert(u.0 >= 1);
        assert(dec_nat(u.0) == d);
        assert(t.0 as int == -(u.0 as int));
        assert(dec_int(t.0 as int) == seq![45u8] + dec_nat(u.0));
        assert(s.take(t.1) =~= seq![45u8] + d);
    } else {
        let u = parse_nat(s).unwrap();
        let run = digit_run(s);
        lemma_digit_run_digits(s);
        let d = s.take(run);
        assert(forall|i: int| 0 <= i < d.len() ==> is_dec_digit(#[trigger] d[i]));
        lemma_dec_nat_digits(d);
        assert(dec_nat(u.0) == d);
        assert(t.0 as int == u.0);
        assert(dec_int(t.0 as int) == dec_nat(u.0));
        assert(s.take(t.1) =~= d);
    }
}

// --- executable copies of the fixed fragments ---
fn lit_id_vec() -> (r: Vec<u8>)
    ensures
        r@ == lit_id(),
{
    let mut v: Vec<u8> = Vec::new();
    v.push(123);
    v.push(34);
    v.push(105);
    v.push(100);
    v.push(34);
    v.push(58);
    v.push(34);
    proof {
        assert(v@ =~= lit_id());
    }
    v
}

fn lit_entity_id_vec() -> (r: Vec<u8>)
    ensures
        r@ == lit_entity_id(),
{
    let mut v: Vec<u8> = Vec::new();
    v.push(34);
    v.push(44);
    v.push(34);
    v.push(101);
    v.push(110);
    v.push(116);
    v.push(105);
    v.push(116);
    v.push(121);
    v.push(95);
    v.push(105);
    v.push(100);
    v.push(34);
    v.push(58);
    v.push(34);
    proof {
        assert(v@ =~= lit_entity_id());
    }
    v
}

fn lit_topic_vec() -> (r: Vec<u8>)
    ensures
        r@ == lit_topic(),
{
    let mut v: Vec<u8> = Vec::new();
    v.push(34);
    v.push(44);
    v.push(34);
    v.push(116);
    v.push(111);
    v.push(112);
    v.push(105);
    v.push(99);
    v.push(34);
    v.push(58);
    v.push(34);
    proof {
        assert(v@ =~= lit_topic());
    }
    v
}

fn lit_payload_vec() -> (r: Vec<u8>)
    ensures
        r@ == lit_payload(),
{
    let mut v: Vec<u8> = Vec::new();
    v.push(34);
    v.push(44);
    v.push(34);
    v.push(112);
    v.push(97);
    v.push(121);
    v.push(108);
    v.push(111);
    v.push(97);
    v.push(100);
    v.push(34);
    v.push(58);
    v.push(91);
    proof {
        assert(v@ =~= lit_payload());
    }
    v
}

fn lit_timestamp_vec() -> (r: Vec<u8>)
    ensures
        r@ == lit_timestamp(),
{
    let mut v: Vec<u8> = Vec::new();
    v.push(93);
    v.push(44);
    v.push(34);
    v.push(116);
    v.push(105);
    v.push(109);
    v.push(101);
    v.push(115);
    v.push(116);
    v.push(97);
    v.push(109);
    v.push(112);
    v.push(34);
    v.push(58);
    proof {
        assert(v@ =~= lit_timestamp());
    }
    v
}

fn lit_close_vec() -> (r: Vec<u8>)
    ensures
        r@ == lit_close(),
{
    let mut v: Vec<u8> = Vec::new();
    v.push(125);
    proof {
        assert(v@ =~= lit_close());
    }
    v
}

/// Whether `b` is the envelope of a valid event with the given fields.
pub open spec fn is_envelope_of(
    b: Seq<u8>,
    id: Seq<char>,
    eid: Seq<char>,
    top: Seq<char>,
    pay: Seq<u8>,
    ts: i64,
) -> bool {
    b == envelope_bytes(id, eid, top, pay, ts) && id.len() > 0 && eid.len() > 0 && top.len() > 0
        && pay.len() > 0
}

/// On a canonical envelope the opening literal and the three string
/// fields parse, at the offsets the encoding dictates.
#[verifier::spinoff_prover]
#[verifier::rlimit(100)]
pub proof fn lemma_envelope_head(
    id: Seq<char>,
    eid: Seq<char>,
    top: Seq<char>,
    pay: Seq<u8>,
    ts: i64,
    b: Seq<u8>,
)
    requires
        is_envelope_of(b, id, eid, top, pay, ts),
    ensures
        ({
            let r1 = esc(encode_utf8(id));
            let r2 = esc(encode_utf8(eid));
            let r3 = esc(encode_utf8(top));
            let o1 = 7 + r1.len() as int;
            let o2 = o1 + 15 + r2.len() as int;
            &&& b.len() >= head_end(id, eid, top)
            &&& b.take(7) == lit_id()
            &&& unesc(b.skip(7)) == Some((encode_utf8(id), r1.len() as int))
            &&& b.subrange(o1, o1 + 15) == lit_entity_id()
            &&& unesc(b.skip(o1 + 15)) == Some((encode_utf8(eid), r2.len() as int))
            &&& b.subrange(o2, o2 + 11) == lit_topic()
            &&& unesc(b.skip(o2 + 11)) == Some((encode_utf8(top), r3.len() as int))
            &&& valid_utf8(encode_utf8(id))
            &&& valid_utf8(encode_utf8(eid))
            &&& valid_utf8(encode_utf8(top))
            &&& decode_utf8(encode_utf8(id)) == id
            &&& decode_utf8(encode_utf8(eid)) == eid
            &&& decode_utf8(encode_utf8(top)) == top
        }),
{
    let r1 = esc(encode_utf8(id));
    let r2 = esc(encode_utf8(eid));
    let r3 = esc(encode_utf8(top));
    let pb = payload_bytes(pay);
    let tb = dec_int(ts as int);
    let o1 = 7 + r1.len() as int;
    let o2 = o1 + 15 + r2.len() as int;
    assert(b.take(7) =~= lit_id());
    let rest1 = lit_entity_id().skip(1) + r2 + lit_topic() + r3 + lit_payload() + pb
        + lit_timestamp() + tb + lit_close();
    assert(b.skip(7) =~= r1 + seq![34u8] + rest1);
    lemma_unesc_esc(encode_utf8(id), rest1);
    assert(b.subrange(o1, o1 + 15) =~= lit_entity_id());
    let rest2 = lit_topic().skip(1) + r3 + lit_payload() + pb + lit_timestamp() + tb + lit_close();
    assert(b.skip(o1 + 15) =~= r2 + seq![34u8] + rest2);
    lemma_unesc_esc(encode_utf8(eid), rest2);
    assert(b.subrange(o2, o2 + 11) =~= lit_topic());
    let rest3 = lit_payload().skip(1) + pb + lit_timestamp() + tb + lit_close();
    assert(b.skip(o2 + 11) =~= r3 + seq![34u8] + rest3);
    lemma_unesc_esc(encode_utf8(top), rest3);
    vstd::utf8::encode_utf8_valid_utf8(id);
    vstd::utf8::encode_utf8_valid_utf8(eid);
    vstd::utf8::encode_utf8_valid_utf8(top);
    vstd::utf8::encode_utf8_decode_utf8(id);
    vstd::utf8::encode_utf8_decode_utf8(eid);
    vstd::utf8::encode_utf8_decode_utf8(top);
}

/// On a canonical envelope the payload, the timestamp and the closing
/// brace parse, and together they end exactly at the end of the input.
#[verifier::spinoff_prover]
#[verifier::rlimit(100)]
pub proof fn lemma_envelope_tail(
    id: Seq<char>,
    eid: Seq<char>,
    top: Seq<char>,
    pay: Seq<u8>,
    ts: i64,
    b: Seq<u8>,
)
    requires
        is_envelope_of(b, id, eid, top, pay, ts),
    ensures
        ({
            let o3 = head_end(id, eid, top);
            let o4 = o3 + 13 + payload_bytes(pay).len() as int;
            let o5 = o4 + 14 + dec_int(ts as int).len() as int;
            &&& b.len() == o5 + 1
            &&& b.subrange(o3, o3 + 13) == lit_payload()
            &&& parse_payload(b.skip(o3 + 13)) == Some((pay, payload_bytes(pay).len() as int))
            &&& b.subrange(o4, o4 + 14) == lit_timestamp()
            &&& parse_i64(b.skip(o4 + 14)) == Some((ts, dec_int(ts as int).len() as int))
            &&& b.subrange(o5, o5 + 1) == lit_close()
        }),
{
    let pb = payload_bytes(pay);
    let tb = dec_int(ts as int);
    let o3 = head_end(id, eid, top);
    let o4 = o3 + 13 + pb.len() as int;
    let o5 = o4 + 14 + tb.len() as int;
    assert(b.len() == o5 + 1);
    assert(b.subrange(o3, o3 + 13) =~= lit_payload());
    let rest4 = lit_timestamp() + tb + lit_close();
    assert(b.skip(o3 + 13) =~= pb + rest4);
    assert(rest4[0] == 93 && !is_dec_digit(rest4[0]) && rest4[0] != 44);
    lemma_parse_payload_enc(pay, rest4);
    assert(b.subrange(o4, o4 + 14) =~= lit_timestamp());
    assert(b.skip(o4 + 14) =~= tb + lit_close());
    assert(!is_dec_digit(lit_close()[0]));
    lemma_parse_i64_dec(ts, lit_close());
    assert(b.subrange(o5, o5 + 1) =~= lit_close());
}

/// The canonical offset where the payload literal of an envelope with
/// these string fields begins.
pub open spec fn head_end(id: Seq<char>, eid: Seq<char>, top: Seq<char>) -> int {
    7 + esc(encode_utf8(id)).len() as int + 15 + esc(encode_utf8(eid)).len() as int + 11 + esc(
        encode_utf8(top),
    ).len() as int
}

/// Parses the opening brace and the three string fields of an envelope.
#[verifier::spinoff_prover]
#[verifier::rlimit(100)]
fn parse_head(b: &[u8]) -> (r: Option<(String, String, String, usize)>)
    ensures
        r matches Some(t) ==> t.3 <= b@.len() && b@.take(t.3 as int) == lit_id() + esc(
            encode_utf8(t.0@),
        ) + lit_entity_id() + esc(encode_utf8(t.1@)) + lit_topic() + esc(encode_utf8(t.2@)),
        forall|id: Seq<char>, eid: Seq<char>, top: Seq<char>, pay: Seq<u8>, ts: i64|
            #[trigger] is_envelope_of(b@, id, eid, top, pay, ts) ==> (r matches Some(t) && t.0@
                == id && t.1@ == eid && t.2@ == top && t.3 == head_end(id, eid, top)),
{
    let l1 = lit_id_vec();
    let l2 = lit_entity_id_vec();
    let l3 = lit_topic_vec();
    let step1: Option<(String, usize, usize)> = match expect_bytes(b, 0, &l1) {
        None => None,
        Some(p1) => match unesc_exec(b, p1) {
            None => None,
            Some((raw1, q1)) => match string_from_utf8(raw1) {
                None => None,
                Some(s1) => Some((s1, p1, q1)),
            },
        },
    };
    let step2: Option<(String, String, usize, usize, usize, usize)> = match step1 {
        None => None,
        Some((s1, p1, q1)) => match expect_bytes(b, q1, &l2) {
            None => None,
            Some(p2) => match unesc_exec(b, p2) {
                None => None,
                Some((raw2, q2)) => match string_from_utf8(raw2) {
                    None => None,
                    Some(s2) => Some((s1, s2, p1, q1, p2, q2)),
                },
            },
        },
    };
    match step2 {
        None => {
            proof {
                assert forall|id: Seq<char>, eid: Seq<char>, top: Seq<char>, pay: Seq<u8>, ts: i64|
                    !is_envelope_of(b@, id, eid, top, pay, ts) by {
                    if is_envelope_of(b@, id, eid, top, pay, ts) {
                        lemma_envelope_head(id, eid, top, pay, ts, b@);
                        assert(b@.subrange(0, 7) =~= b@.take(7));
                        assert(false);
                    }
                }
            }
            None
        },
        Some((s1, s2, p1, q1, p2, q2)) => {
            let step3: Option<(String, usize, usize)> = match expect_bytes(b, q2, &l3) {
                None => None,
                Some(p3) => match unesc_exec(b, p3) {
                    None => None,
                    Some((raw3, q3)) => match string_from_utf8(raw3) {
                        None => None,
                        Some(s3) => Some((s3, p3, q3)),
                    },
                },
            };
            match step3 {
                None => {
                    proof {
                        assert forall|
                            id: Seq<char>,
                            eid: Seq<char>,
                            top: Seq<char>,
                            pay: Seq<u8>,
                            ts: i64,
                        |
                            !is_envelope_of(b@, id, eid, top, pay, ts) by {
                            if is_envelope_of(b@, id, eid, top, pay, ts) {
                                lemma_envelope_head(id, eid, top, pay, ts, b@);
                                assert(b@.subrange(0, 7) =~= b@.take(7));
                                assert(false);
                            }
                        }
                    }
                    None
                },
                Some((s3, p3, q3)) => {
                    proof {
                        lemma_unesc_sound(b@.skip(p1 as int));
                        lemma_unesc_sound(b@.skip(p2 as int));
                        lemma_unesc_sound(b@.skip(p3 as int));
                        vstd::utf8::decode_utf8_encode_utf8(
                            unesc(b@.skip(p1 as int)).unwrap().0,
                        );
                        vstd::utf8::decode_utf8_encode_utf8(
                            unesc(b@.skip(p2 as int)).unwrap().0,
                        );
                        vstd::utf8::decode_utf8_encode_utf8(
                            unesc(b@.skip(p3 as int)).unwrap().0,
                        );
                        assert(b@.skip(p1 as int).take(q1 - p1) =~= b@.subrange(
                            p1 as int,
                            q1 as int,
                        ));
                        assert(b@.skip(p2 as int).take(q2 - p2) =~= b@.subrange(
                            p2 as int,
                            q2 as int,
                        ));
                        assert(b@.skip(p3 as int).take(q3 - p3) =~= b@.subrange(
                            p3 as int,
                            q3 as int,
                        ));
                        assert(b@.take(q3 as int) =~= b@.subrange(0, p1 as int) + b@.subrange(
                            p1 as int,
                            q1 as int,
                        ) + b@.subrange(q1 as int, p2 as int) + b@.subrange(p2 as int, q2 as int)
                            + b@.subrange(q2 as int, p3 as int) + b@.subrange(
                            p3 as int,
                            q3 as int,
                        ));
                        assert forall|
                            id: Seq<char>,
                            eid: Seq<char>,
                            top: Seq<char>,
                            pay: Seq<u8>,
                            ts: i64,
                        |
                            #[trigger] is_envelope_of(b@, id, eid, top, pay, ts) implies (s1@ == id
                            && s2@ == eid && s3@ == top && q3 == head_end(id, eid, top)) by {
                            lemma_envelope_head(id, eid, top, pay, ts, b@);
                        }
                    }
                    Some((s1, s2, s3, q3))
                },
            }
        },
    }
}

/// Parses the payload array, the timestamp and the closing brace of an
/// envelope, from `pos` on.
#[verifier::spinoff_prover]
#[verifier::rlimit(100)]
fn parse_tail(b: &[u8], pos: usize) -> (r: Option<(Vec<u8>, i64, usize)>)
    requires
        pos <= b@.len(),
    ensures
        r matches Some(t) ==> pos <= t.2 <= b@.len() && t.0@.len() >= 1 && b@.subrange(
            pos as int,
            t.2 as int,
        ) == lit_payload() + payload_bytes(t.0@) + lit_timestamp() + dec_int(t.1 as int)
            + lit_close(),
        forall|id: Seq<char>, eid: Seq<char>, top: Seq<char>, pay: Seq<u8>, ts: i64|
            (#[trigger] is_envelope_of(b@, id, eid, top, pay, ts) && pos == head_end(id, eid, top))
                ==> (r matches Some(t) && t.0@ == pay && t.1 == ts && t.2 == b@.len()),
{
    let l4 = lit_payload_vec();
    let l5 = lit_timestamp_vec();
    let l6 = lit_close_vec();
    let parsed: Option<(Vec<u8>, usize, i64, usize, usize, usize, usize)> = match expect_bytes(
        b,
        pos,
        &l4,
    ) {
        None => None,
        Some(p4) => match parse_payload_exec(b, p4) {
            None => None,
            Some((payv, q4)) => match expect_bytes(b, q4, &l5) {
                None => None,
                Some(p5) => match parse_i64_exec(b, p5) {
                    None => None,
                    Some((ts, q5)) => match expect_bytes(b, q5, &l6) {
                        None => None,
                        Some(p6) => Some((payv, q4, ts, q5, p4, p5, p6)),
                    },
                },
            },
        },
    };
    match parsed {
        None => {
            proof {
                assert forall|id: Seq<char>, eid: Seq<char>, top: Seq<char>, pay: Seq<u8>, ts: i64|
                    !(is_envelope_of(b@, id, eid, top, pay, ts) && pos == head_end(
                        id,
                        eid,
                        top,
                    )) by {
                    if is_envelope_of(b@, id, eid, top, pay, ts) && pos == head_end(id, eid, top) {
                        lemma_envelope_tail(id, eid, top, pay, ts, b@);
                        assert(false);
                    }
                }
            }
            None
        },
        Some((payv, q4, ts, q5, p4, p5, p6)) => {
            proof {
                lemma_parse_payload_sound(b@.skip(p4 as int));
                lemma_parse_i64_sound(b@.skip(p5 as int));
                assert(b@.skip(p4 as int).take(q4 - p4) =~= b@.subrange(p4 as int, q4 as int));
                assert(b@.skip(p5 as int).take(q5 - p5) =~= b@.subrange(p5 as int, q5 as int));
                assert(b@.subrange(pos as int, p6 as int) =~= b@.subrange(pos as int, p4 as int)
                    + b@.subrange(p4 as int, q4 as int) + b@.subrange(q4 as int, p5 as int)
                    + b@.subrange(p5 as int, q5 as int) + b@.subrange(q5 as int, p6 as int));
                assert forall|
                    id: Seq<char>,
                    eid: Seq<char>,
                    top: Seq<char>,
                    pay: Seq<u8>,
                    tw: i64,
                |
                    (#[trigger] is_envelope_of(b@, id, eid, top, pay, tw) && pos == head_end(
                        id,
                        eid,
                        top,
                    )) implies (payv@ == pay && ts == tw && p6 == b@.len()) by {
                    lemma_envelope_tail(id, eid, top, pay, tw, b@);
                }
            }
            Some((payv, ts, p6))
        },
    }
}

/// Decodes a wire envelope back into a validated event. Whatever it
/// accepts re-encodes to exactly the input, so only canonical envelopes
/// pass; and on the envelope of any valid event it succeeds and returns
/// exactly that event.
pub fn decode_envelope(b: &[u8]) -> (r: Result<Event, Error>)
    ensures
        r matches Ok(e) ==> e.wf() && b@ == spec_envelope(&e),
        forall|id: Seq<char>, eid: Seq<char>, top: Seq<char>, pay: Seq<u8>, ts: i64|
            #[trigger] is_envelope_of(b@, id, eid, top, pay, ts) ==> (r matches Ok(e)
                && e.spec_id() == id && e.spec_entity_id() == eid && e.spec_topic() == top
                && e.spec_payload() == pay && e.spec_timestamp() == ts),
{
    let (s1, s2, s3, q3) = match parse_head(b) {
        Some(t) => t,
        None => {
            return Err(Error::DeserializingEvent);
        },
    };
    let (payv, ts, end) = match parse_tail(b, q3) {
        Some(t) => t,
        None => {
            return Err(Error::DeserializingEvent);
        },
    };
    if end != b.len() {
        return Err(Error::DeserializingEvent);
    }
    proof {
        assert(b@ =~= b@.take(q3 as int) + b@.subrange(q3 as int, end as int));
        assert(b@ == envelope_bytes(s1@, s2@, s3@, payv@, ts));
    }
    match Event::new(s1, s2, s3, payv, ts) {
        Ok(e) => Ok(e),
        Err(_) => Err(Error::InvalidEvent),
    }
}

} // verus!
