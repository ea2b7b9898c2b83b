//! Standard base64 (the wire alphabet of the shift-sequence payloads) and the
//! modified-base64 payload form: padding stripped and `/` replaced by `,`.
//!
//! The base64 work itself is done by the `base64` crate; the contracts of the
//! two wrappers below state exactly what that crate computes, over the spec
//! functions of this module, and everything around the calls is verified.

use vstd::prelude::*;

use crate::text::chars_to_string;
use crate::text::string_to_chars;

verus! {

/// The 6-bit value of a standard-base64 symbol; 64 marks a non-symbol.
pub open spec fn b64_val(c: char) -> nat {
    let u = c as u32;
    if 0x41 <= u && u <= 0x5a {
        (u - 0x41) as nat
    } else if 0x61 <= u && u <= 0x7a {
        (u - 0x61 + 26) as nat
    } else if 0x30 <= u && u <= 0x39 {
        (u - 0x30 + 52) as nat
    } else if u == 0x2b {
        62
    } else if u == 0x2f {
        63
    } else {
        64
    }
}

/// True when `c` is one of the 64 standard-base64 symbols (`=` is not one).
pub open spec fn is_b64_symbol(c: char) -> bool {
    b64_val(c) < 64
}

/// The standard-base64 symbol carrying the 6-bit value `v`.
pub open spec fn b64_char(v: nat) -> char
    recommends
        v < 64,
{
    if v < 26 {
        ((0x41 + v) as u32) as char
    } else if v < 52 {
        ((0x61 + (v - 26)) as u32) as char
    } else if v < 62 {
        ((0x30 + (v - 52)) as u32) as char
    } else if v == 62 {
        '+'
    } else {
        '/'
    }
}

/// Four symbols encoding three bytes.
pub open spec fn enc_group3(b0: u8, b1: u8, b2: u8) -> Seq<char> {
    seq![
        b64_char((b0 / 4) as nat),
        b64_char(((b0 % 4) * 16 + b1 / 16) as nat),
        b64_char(((b1 % 16) * 4 + b2 / 64) as nat),
        b64_char((b2 % 64) as nat),
    ]
}

/// Three symbols and one pad encoding two bytes.
pub open spec fn enc_group2(b0: u8, b1: u8) -> Seq<char> {
    seq![
        b64_char((b0 / 4) as nat),
        b64_char(((b0 % 4) * 16 + b1 / 16) as nat),
        b64_char(((b1 % 16) * 4) as nat),
        '=',
    ]
}

/// Two symbols and two pads encoding one byte.
pub open spec fn enc_group1(b0: u8) -> Seq<char> {
    seq![b64_char((b0 / 4) as nat), b64_char(((b0 % 4) * 16) as nat), '=', '=']
}

/// Standard base64 with `=` padding, as `base64::encode` produces it.
pub open spec fn std_b64_encode(bytes: Seq<u8>) -> Seq<char>
    decreases bytes.len(),
{
    if bytes.len() == 0 {
        Seq::empty()
    } else if bytes.len() == 1 {
        enc_group1(bytes[0])
    } else if bytes.len() == 2 {
        enc_group2(bytes[0], bytes[1])
    } else {
        enc_group3(bytes[0], bytes[1], bytes[2]) + std_b64_encode(bytes.skip(3))
    }
}

/// Validity of a final quad: at most two `=`, only as a suffix, and the bits
/// of the last symbol that padding discards must be zero.
pub open spec fn quad_ok(c0: char, c1: char, c2: char, c3: char) -> bool {
    is_b64_symbol(c0) && is_b64_symbol(c1) && if c2 == '=' {
        c3 == '=' && b64_val(c1) % 16 == 0
    } else if c3 == '=' {
        is_b64_symbol(c2) && b64_val(c2) % 4 == 0
    } else {
        is_b64_symbol(c2) && is_b64_symbol(c3)
    }
}

/// The inputs of length divisible by four that `base64::decode` accepts:
/// every quad but the last holds four symbols, and the last is `quad_ok`.
pub open spec fn valid_std_b64(s: Seq<char>) -> bool
    decreases s.len(),
{
    if s.len() % 4 != 0 {
        false
    } else if s.len() == 0 {
        true
    } else if s.len() == 4 {
        quad_ok(s[0], s[1], s[2], s[3])
    } else {
        is_b64_symbol(s[0]) && is_b64_symbol(s[1]) && is_b64_symbol(s[2]) && is_b64_symbol(s[3])
            && valid_std_b64(s.skip(4))
    }
}

/// The bytes held by one quad (one to three of them, by the padding).
pub open spec fn dec_quad(c0: char, c1: char, c2: char, c3: char) -> Seq<u8> {
    let v0 = b64_val(c0);
    let v1 = b64_val(c1);
    let v2 = b64_val(c2);
    let v3 = b64_val(c3);
    if c2 == '=' {
        seq![(v0 * 4 + v1 / 16) as u8]
    } else if c3 == '=' {
        seq![(v0 * 4 + v1 / 16) as u8, ((v1 % 16) * 16 + v2 / 4) as u8]
    } else {
        seq![(v0 * 4 + v1 / 16) as u8, ((v1 % 16) * 16 + v2 / 4) as u8, ((v2 % 4) * 64 + v3) as u8]
    }
}

/// What `base64::decode` returns on a `valid_std_b64` input.
pub open spec fn std_b64_decode(s: Seq<char>) -> Seq<u8>
    recommends
        valid_std_b64(s),
    decreases s.len(),
{
    if s.len() < 4 {
        Seq::empty()
    } else if s.len() == 4 {
        dec_quad(s[0], s[1], s[2], s[3])
    } else {
        dec_quad(s[0], s[1], s[2], s[3]) + std_b64_decode(s.skip(4))
    }
}

/// Encode-side alphabet substitution of the modified form.
pub open spec fn to_modified(c: char) -> char {
    if c == '/' {
        ','
    } else {
        c
    }
}

/// Decode-side alphabet substitution of the modified form.
pub open spec fn to_std(c: char) -> char {
    if c == ',' {
        '/'
    } else {
        c
    }
}

/// How many payload symbols (no padding) encode `n` bytes.
pub open spec fn payload_len(n: nat) -> nat {
    if n % 3 == 0 {
        4 * (n / 3)
    } else if n % 3 == 1 {
        4 * (n / 3) + 2
    } else {
        4 * (n / 3) + 3
    }
}

/// The modified-base64 payload of a byte buffer: standard base64 with the
/// padding stripped and `/` replaced by `,`.
pub open spec fn mb64_payload(bytes: Seq<u8>) -> Seq<char> {
    std_b64_encode(bytes).take(payload_len(bytes.len()) as int).map_values(
        |c: char| to_modified(c),
    )
}

/// How many `=` bring a payload of length `l` back to a multiple of four.
pub open spec fn pad_count(l: nat) -> nat {
    if l % 4 == 0 {
        0
    } else {
        (4 - l % 4) as nat
    }
}

/// A payload with its alphabet restored, character by character.
pub open spec fn restored(p: Seq<char>) -> Seq<char> {
    p.map_values(|c: char| to_std(c))
}

/// A payload with its alphabet restored and its padding re-appended: the
/// string handed back to `base64::decode`.
pub open spec fn restored_padded(p: Seq<char>) -> Seq<char> {
    restored(p) + Seq::new(pad_count(p.len()), |i: int| '=')
}

/// The symbol of a 6-bit value is in the alphabet, carries that value back,
/// and is none of the structural characters of the wire format.
pub proof fn lemma_b64_char_val(v: nat)
    requires
        v < 64,
    ensures
        is_b64_symbol(b64_char(v)),
        b64_val(b64_char(v)) == v,
        b64_char(v) != '=',
        b64_char(v) != '&',
        b64_char(v) != '-',
        b64_char(v) != ',',
{
    if v < 26 {
        assert((b64_char(v) as u32) == 0x41 + v);
    } else if v < 52 {
        assert((b64_char(v) as u32) == 0x61 + (v - 26));
    } else if v < 62 {
        assert((b64_char(v) as u32) == 0x30 + (v - 52));
    } else {
    }
}

/// A symbol is never `=`, `&`, `-` or `,`.
pub proof fn lemma_symbol_not_special(c: char)
    requires
        is_b64_symbol(c),
    ensures
        c != '=',
        c != '&',
        c != '-',
        c != ',',
{
}

/// Shape and correctness of the standard encoding: its length, where its
/// padding sits, that it is a valid decoder input, and that decoding it
/// yields the bytes again.
pub proof fn lemma_encode_props(bytes: Seq<u8>)
    ensures
        std_b64_encode(bytes).len() == 4 * ((bytes.len() + 2) / 3),
        payload_len(bytes.len()) <= std_b64_encode(bytes).len(),
        valid_std_b64(std_b64_encode(bytes)),
        std_b64_decode(std_b64_encode(bytes)) == bytes,
        forall|i: int|
            0 <= i < payload_len(bytes.len()) ==> is_b64_symbol(
                #[trigger] std_b64_encode(bytes)[i],
            ),
        forall|i: int|
            payload_len(bytes.len()) <= i < std_b64_encode(bytes).len() ==> std_b64_encode(
                bytes,
            )[i] == '=',
    decreases bytes.len(),
{
    let e = std_b64_encode(bytes);
    if bytes.len() == 0 {
        assert(std_b64_decode(e) =~= bytes);
    } else if bytes.len() == 1 {
        let b0 = bytes[0];
        lemma_b64_char_val((b0 / 4) as nat);
        lemma_b64_char_val(((b0 % 4) * 16) as nat);
        assert(b64_val(e[1]) % 16 == 0);
        assert(quad_ok(e[0], e[1], e[2], e[3]));
        assert(b64_val(e[0]) * 4 + b64_val(e[1]) / 16 == b0);
        assert(std_b64_decode(e) =~= bytes);
    } else if bytes.len() == 2 {
        let b0 = bytes[0];
        let b1 = bytes[1];
        lemma_b64_char_val((b0 / 4) as nat);
        lemma_b64_char_val(((b0 % 4) * 16 + b1 / 16) as nat);
        lemma_b64_char_val(((b1 % 16) * 4) as nat);
        assert(b64_val(e[2]) % 4 == 0);
        assert(quad_ok(e[0], e[1], e[2], e[3]));
        assert(b64_val(e[0]) * 4 + b64_val(e[1]) / 16 == b0);
        assert((b64_val(e[1]) % 16) * 16 + b64_val(e[2]) / 4 == b1);
        assert(std_b64_decode(e) =~= bytes);
    } else {
        let b0 = bytes[0];
        let b1 = bytes[1];
        let b2 = bytes[2];
        let rest = bytes.skip(3);
        let g = enc_group3(b0, b1, b2);
        let er = std_b64_encode(rest);
        lemma_b64_char_val((b0 / 4) as nat);
        lemma_b64_char_val(((b0 % 4) * 16 + b1 / 16) as nat);
        lemma_b64_char_val(((b1 % 16) * 4 + b2 / 64) as nat);
        lemma_b64_char_val((b2 % 64) as nat);
        lemma_encode_props(rest);
        assert(e == g + er);
        assert(b64_val(g[0]) * 4 + b64_val(g[1]) / 16 == b0);
        assert((b64_val(g[1]) % 16) * 16 + b64_val(g[2]) / 4 == b1);
        assert((b64_val(g[2]) % 4) * 64 + b64_val(g[3]) == b2);
        assert(dec_quad(g[0], g[1], g[2], g[3]) =~= seq![b0, b1, b2]);
        if rest.len() == 0 {
            assert(e.len() == 4);
            assert(quad_ok(e[0], e[1], e[2], e[3]));
            assert(std_b64_decode(e) =~= bytes);
        } else {
            assert(e.len() > 4);
            assert(e.skip(4) =~= er);
            assert(valid_std_b64(e));
            assert(std_b64_decode(e) == dec_quad(e[0], e[1], e[2], e[3]) + std_b64_decode(
                e.skip(4),
            ));
            assert(std_b64_decode(e) =~= bytes);
        }
        assert(payload_len(bytes.len()) == 4 + payload_len(rest.len()));
        assert forall|i: int| 0 <= i < payload_len(bytes.len()) implies is_b64_symbol(
            #[trigger] e[i],
        ) by {
            if i >= 4 {
                assert(e[i] == er[i - 4]);
            }
        }
        assert forall|i: int|
            payload_len(bytes.len()) <= i < e.len() implies #[trigger] e[i] == '=' by {
            assert(e[i] == er[i - 4]);
        }
    }
}

/// Restoring the alphabet of a payload and re-appending its padding yields
/// exactly the standard encoding, and no payload character is `&` or `-`.
pub proof fn lemma_payload_props(bytes: Seq<u8>)
    ensures
        mb64_payload(bytes).len() == payload_len(bytes.len()),
        restored_padded(mb64_payload(bytes)) == std_b64_encode(bytes),
        forall|i: int|
            0 <= i < mb64_payload(bytes).len() ==> #[trigger] mb64_payload(bytes)[i] != '&'
                && mb64_payload(bytes)[i] != '-',
        bytes.len() > 0 ==> mb64_payload(bytes).len() > 0,
{
    lemma_encode_props(bytes);
    let e = std_b64_encode(bytes);
    let p = mb64_payload(bytes);
    let plen = payload_len(bytes.len());
    assert(p.len() == plen);
    assert forall|i: int| 0 <= i < p.len() implies #[trigger] p[i] != '&' && p[i] != '-' by {
        assert(p[i] == to_modified(e[i]));
        lemma_symbol_not_special(e[i]);
    }
    assert(pad_count(plen) == e.len() - plen);
    assert forall|i: int| 0 <= i < plen implies #[trigger] to_std(p[i]) == e[i] by {
        assert(p[i] == to_modified(e[i]));
        lemma_symbol_not_special(e[i]);
    }
    assert(restored_padded(p) =~= e);
}

/// Relies on `base64::encode` (0.13): standard alphabet, `=`-padded output.
#[verifier::external_body]
pub(crate) fn b64_encode_exec(bytes: &Vec<u8>) -> (r: String)
    ensures
        r@ == std_b64_encode(bytes@),
{
    base64::encode(bytes)
}

/// Relies on `base64::decode` (0.13): standard alphabet; rejects a symbol
/// outside the alphabet, padding other than a final run of one or two `=`
/// inside the last quad, and a last symbol whose discarded bits are not
/// zero.  A char outside ASCII turns into bytes above 0x7f, which the crate
/// rejects as invalid symbols, so the contract holds over chars as well.
#[verifier::external_body]
pub(crate) fn b64_decode_exec(s: &str) -> (r: Option<Vec<u8>>)
    requires
        s@.len() % 4 == 0,
    ensures
        r is Some <==> valid_std_b64(s@),
        r matches Some(b) ==> b@ == std_b64_decode(s@),
{
    base64::decode(s).ok()
}

/// The modified-base64 payload of a byte buffer.
pub(crate) fn encode_payload(bytes: &Vec<u8>) -> (p: Vec<char>)
    ensures
        p@ == mb64_payload(bytes@),
{
    proof {
        lemma_encode_props(bytes@);
        lemma_payload_props(bytes@);
    }
    let s = b64_encode_exec(bytes);
    let cs = string_to_chars(s.as_str());
    let ghost plen = payload_len(bytes@.len());
    let mut p: Vec<char> = Vec::new();
    let mut i: usize = 0;
    while i < cs.len() && cs[i] != '='
        invariant
            cs@ == std_b64_encode(bytes@),
            i <= plen <= cs.len(),
            plen == payload_len(bytes@.len()),
            p@ == mb64_payload(bytes@).take(i as int),
            forall|k: int| 0 <= k < plen ==> is_b64_symbol(#[trigger] cs@[k]),
            forall|k: int| plen <= k < cs@.len() ==> cs@[k] == '=',
        decreases cs.len() - i,
    {
        proof {
            if i >= plen {
                assert(cs@[i as int] == '=');
                assert(false);
            }
        }
        let c = cs[i];
        if c == '/' {
            p.push(',');
        } else {
            p.push(c);
        }
        i = i + 1;
        proof {
            assert(p@ =~= mb64_payload(bytes@).take(i as int));
        }
    }
    proof {
        if i < plen {
            assert(is_b64_symbol(cs@[i as int]));
            lemma_symbol_not_special(cs@[i as int]);
            assert(false);
        }
        assert(p@ =~= mb64_payload(bytes@));
    }
    p
}

/// The bytes held by a payload, or `None` when it is not well-formed
/// modified base64 after its padding is restored.
pub(crate) fn decode_payload_bytes(p: &Vec<char>) -> (r: Option<Vec<u8>>)
    ensures
        r is Some <==> valid_std_b64(restored_padded(p@)),
        r matches Some(b) ==> b@ == std_b64_decode(restored_padded(p@)),
{
    let mut q: Vec<char> = Vec::new();
    let mut i: usize = 0;
    while i < p.len()
        invariant
            i <= p.len(),
            q@ == restored(p@).take(i as int),
        decreases p.len() - i,
    {
        let c = p[i];
        if c == ',' {
            q.push('/');
        } else {
            q.push(c);
        }
        i = i + 1;
        proof {
            assert(q@ =~= restored(p@).take(i as int));
        }
    }
    proof {
        assert(q@ =~= restored(p@));
    }
    let rem = p.len() % 4;
    let pads = if rem == 0 {
        0
    } else {
        4 - rem
    };
    let mut j: usize = 0;
    while j < pads
        invariant
            j <= pads,
            pads == pad_count(p@.len()),
            q@ == restored(p@) + Seq::new(j as nat, |i: int| '='),
        decreases pads - j,
    {
        q.push('=');
        j = j + 1;
        proof {
            assert(q@ =~= restored(p@) + Seq::new(j as nat, |i: int| '='));
        }
    }
    proof {
        assert(q@ =~= restored_padded(p@));
        assert(q@.len() % 4 == 0);
    }
    let s = chars_to_string(&q);
    b64_decode_exec(s.as_str())
}

} // verus!
