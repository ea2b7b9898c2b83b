//! UTF-16BE, the intermediate wire form of a non-ASCII run: each character
//! becomes one 16-bit code unit, or a surrogate pair above the Basic
//! Multilingual Plane, and each unit becomes two big-endian bytes.

use vstd::prelude::*;

use crate::Utf7Error;

verus! {

/// The UTF-16 code units of one character: itself, or a surrogate pair.
pub open spec fn utf16_units_of_char(c: char) -> Seq<u16> {
    let u = c as u32;
    if u < 0x10000 {
        seq![u as u16]
    } else {
        seq![(0xd800 + (u - 0x10000) / 0x400) as u16, (0xdc00 + (u - 0x10000) % 0x400) as u16]
    }
}

/// The UTF-16 code units of a character sequence.
pub open spec fn utf16_units(s: Seq<char>) -> Seq<u16>
    decreases s.len(),
{
    if s.len() == 0 {
        Seq::empty()
    } else {
        utf16_units_of_char(s[0]) + utf16_units(s.drop_first())
    }
}

/// The big-endian bytes of a code-unit sequence.
pub open spec fn be_bytes_of_units(us: Seq<u16>) -> Seq<u8>
    decreases us.len(),
{
    if us.len() == 0 {
        Seq::empty()
    } else {
        seq![(us[0] / 256) as u8, (us[0] % 256) as u8] + be_bytes_of_units(us.drop_first())
    }
}

/// The UTF-16BE byte buffer of a character sequence.
pub open spec fn utf16be_bytes(s: Seq<char>) -> Seq<u8> {
    be_bytes_of_units(utf16_units(s))
}

/// The code units read from a big-endian byte buffer (a trailing odd byte
/// is ignored; callers reject odd buffers first).
pub open spec fn units_of_be_bytes(bs: Seq<u8>) -> Seq<u16>
    decreases bs.len(),
{
    if bs.len() < 2 {
        Seq::empty()
    } else {
        seq![(bs[0] * 256 + bs[1]) as u16] + units_of_be_bytes(bs.skip(2))
    }
}

/// A high (leading) surrogate code unit.
pub open spec fn is_high_surrogate(u: u16) -> bool {
    0xd800 <= u && u < 0xdc00
}

/// A low (trailing) surrogate code unit.
pub open spec fn is_low_surrogate(u: u16) -> bool {
    0xdc00 <= u && u < 0xe000
}

/// The characters of a code-unit sequence, respecting surrogate pairs;
/// `None` on an unpaired surrogate.
pub open spec fn decode_units(us: Seq<u16>) -> Option<Seq<char>>
    decreases us.len(),
{
    if us.len() == 0 {
        Some(Seq::empty())
    } else if !is_high_surrogate(us[0]) && !is_low_surrogate(us[0]) {
        match decode_units(us.drop_first()) {
            Some(cs) => Some(seq![(us[0] as u32) as char] + cs),
            None => None,
        }
    } else if is_high_surrogate(us[0]) && us.len() >= 2 && is_low_surrogate(us[1]) {
        match decode_units(us.skip(2)) {
            Some(cs) => Some(
                seq![((0x10000 + (us[0] - 0xd800) * 0x400 + (us[1] - 0xdc00)) as u32) as char] + cs,
            ),
            None => None,
        }
    } else {
        None
    }
}

/// What decoding a UTF-16BE byte buffer yields: the characters, or the
/// first structural fault of the buffer.
pub open spec fn utf16be_decode_spec(bs: Seq<u8>) -> Result<Seq<char>, Utf7Error> {
    if bs.len() % 2 != 0 {
        Err(Utf7Error::OddByteBuffer)
    } else {
        match decode_units(units_of_be_bytes(bs)) {
            Some(cs) => Ok(cs),
            None => Err(Utf7Error::UnpairedSurrogate),
        }
    }
}

/// `utf16_units` distributes over concatenation.
pub proof fn lemma_utf16_units_concat(a: Seq<char>, b: Seq<char>)
    ensures
        utf16_units(a + b) == utf16_units(a) + utf16_units(b),
    decreases a.len(),
{
    if a.len() == 0 {
        assert(a + b =~= b);
        assert(utf16_units(a) + utf16_units(b) =~= utf16_units(b));
    } else {
        assert((a + b).drop_first() =~= a.drop_first() + b);
        lemma_utf16_units_concat(a.drop_first(), b);
        assert(utf16_units(a + b) =~= utf16_units(a) + utf16_units(b));
    }
}

/// `be_bytes_of_units` distributes over concatenation.
pub proof fn lemma_be_bytes_concat(a: Seq<u16>, b: Seq<u16>)
    ensures
        be_bytes_of_units(a + b) == be_bytes_of_units(a) + be_bytes_of_units(b),
    decreases a.len(),
{
    if a.len() == 0 {
        assert(a + b =~= b);
        assert(be_bytes_of_units(a) + be_bytes_of_units(b) =~= be_bytes_of_units(b));
    } else {
        assert((a + b).drop_first() =~= a.drop_first() + b);
        lemma_be_bytes_concat(a.drop_first(), b);
        assert(be_bytes_of_units(a + b) =~= be_bytes_of_units(a) + be_bytes_of_units(b));
    }
}

/// The byte form of a single code unit.
pub proof fn lemma_be_bytes_single(u: u16)
    ensures
        be_bytes_of_units(seq![u]) == seq![(u / 256) as u8, (u % 256) as u8],
{
    assert(seq![u][0] == u);
    assert(seq![u].drop_first() =~= Seq::<u16>::empty());
    assert(be_bytes_of_units(Seq::<u16>::empty()) == Seq::<u8>::empty());
    assert(be_bytes_of_units(seq![u]) =~= seq![(u / 256) as u8, (u % 256) as u8]);
}

/// The unit read from a single big-endian byte pair.
pub proof fn lemma_units_single(b0: u8, b1: u8)
    ensures
        units_of_be_bytes(seq![b0, b1]) == seq![(b0 * 256 + b1) as u16],
{
    assert(seq![b0, b1][0] == b0);
    assert(seq![b0, b1][1] == b1);
    assert(seq![b0, b1].skip(2) =~= Seq::<u8>::empty());
    assert(units_of_be_bytes(Seq::<u8>::empty()) == Seq::<u16>::empty());
    assert(units_of_be_bytes(seq![b0, b1]) =~= seq![(b0 * 256 + b1) as u16]);
}

/// The units of a single character.
pub proof fn lemma_utf16_units_single(c: char)
    ensures
        utf16_units(seq![c]) == utf16_units_of_char(c),
{
    assert(seq![c][0] == c);
    assert(seq![c].drop_first() =~= Seq::<char>::empty());
    assert(utf16_units(Seq::<char>::empty()) == Seq::<u16>::empty());
    assert(utf16_units(seq![c]) =~= utf16_units_of_char(c));
}

/// Each character takes at least one code unit.
pub proof fn lemma_units_len(s: Seq<char>)
    ensures
        utf16_units(s).len() >= s.len(),
    decreases s.len(),
{
    if s.len() > 0 {
        lemma_units_len(s.drop_first());
    }
}

/// Reading the big-endian bytes of a unit sequence gives the units back.
pub proof fn lemma_units_bytes_roundtrip(us: Seq<u16>)
    ensures
        be_bytes_of_units(us).len() == 2 * us.len(),
        units_of_be_bytes(be_bytes_of_units(us)) == us,
    decreases us.len(),
{
    if us.len() == 0 {
        assert(units_of_be_bytes(be_bytes_of_units(us)) =~= us);
    } else {
        lemma_units_bytes_roundtrip(us.drop_first());
        let bs = be_bytes_of_units(us);
        assert(bs.skip(2) =~= be_bytes_of_units(us.drop_first()));
        assert(bs[0] * 256 + bs[1] == us[0]);
        assert(units_of_be_bytes(bs) =~= us);
    }
}

/// Decoding the code units of a character sequence gives it back.
pub proof fn lemma_decode_units_roundtrip(s: Seq<char>)
    ensures
        decode_units(utf16_units(s)) == Some(s),
    decreases s.len(),
{
    if s.len() == 0 {
        assert(utf16_units(s) =~= Seq::<u16>::empty());
        assert(decode_units(utf16_units(s)) == Some(Seq::<char>::empty()));
        assert(s =~= Seq::<char>::empty());
    } else {
        let c = s[0];
        let u = c as u32;
        let us = utf16_units(s);
        let rest = utf16_units(s.drop_first());
        lemma_decode_units_roundtrip(s.drop_first());
        vstd::utf8::char_is_scalar(c);
        vstd::utf8::char_u32_cast(c, u);
        if u < 0x10000 {
            let unit = u as u16;
            assert(us[0] == unit);
            assert(!is_high_surrogate(unit) && !is_low_surrogate(unit));
            assert(us.drop_first() =~= rest);
            assert(((us[0] as u32) as char) == c);
            assert(decode_units(us) == Some(seq![c] + s.drop_first()));
            assert(seq![c] + s.drop_first() =~= s);
        } else {
            let v = u - 0x10000;
            let hi = (0xd800 + v / 0x400) as u16;
            let lo = (0xdc00 + v % 0x400) as u16;
            assert(us[0] == hi && us[1] == lo);
            assert(is_high_surrogate(hi));
            assert(is_low_surrogate(lo));
            assert(us.skip(2) =~= rest);
            assert(0x10000 + (hi - 0xd800) * 0x400 + (lo - 0xdc00) == u);
            assert((((0x10000 + (us[0] - 0xd800) * 0x400 + (us[1] - 0xdc00)) as u32) as char) == c);
            assert(decode_units(us) == Some(seq![c] + s.drop_first()));
            assert(seq![c] + s.drop_first() =~= s);
        }
    }
}

/// Round trip of the whole byte form: decoding the UTF-16BE bytes of a
/// character sequence yields the sequence again.
pub proof fn lemma_utf16be_roundtrip(s: Seq<char>)
    ensures
        utf16be_decode_spec(utf16be_bytes(s)) == Ok::<Seq<char>, Utf7Error>(s),
        utf16be_bytes(s).len() == 2 * utf16_units(s).len(),
        s.len() > 0 ==> utf16be_bytes(s).len() >= 2,
{
    lemma_units_bytes_roundtrip(utf16_units(s));
    lemma_decode_units_roundtrip(s);
    lemma_units_len(s);
}

/// Relies on `char::from_u32` of std: `Some` exactly on the Unicode scalar
/// values, holding the character with that value.
#[verifier::external_body]
pub(crate) fn char_from_u32(v: u32) -> (c: char)
    requires
        v < 0xd800 || (0xe000 <= v && v < 0x110000),
    ensures
        (c as u32) == v,
{
    char::from_u32(v).unwrap()
}

/// The UTF-16BE byte buffer of a character run.
pub(crate) fn utf16be_encode(run: &Vec<char>) -> (r: Vec<u8>)
    ensures
        r@ == utf16be_bytes(run@),
{
    let mut r: Vec<u8> = Vec::new();
    let mut i: usize = 0;
    while i < run.len()
        invariant
            i <= run.len(),
            r@ == utf16be_bytes(run@.take(i as int)),
        decreases run.len() - i,
    {
        let c = run[i];
        let u = c as u32;
        if u < 0x10000 {
            let unit = u as u16;
            r.push((unit / 256) as u8);
            r.push((unit % 256) as u8);
        } else {
            let v = u - 0x10000;
            let hi = (0xd800 + v / 0x400) as u16;
            let lo = (0xdc00 + v % 0x400) as u16;
            r.push((hi / 256) as u8);
            r.push((hi % 256) as u8);
            r.push((lo / 256) as u8);
            r.push((lo % 256) as u8);
        }
        proof {
            let pre = run@.take(i as int);
            assert(run@.take(i + 1) =~= pre + seq![c]);
            lemma_utf16_units_concat(pre, seq![c]);
            lemma_utf16_units_single(c);
            lemma_be_bytes_concat(utf16_units(pre), utf16_units_of_char(c));
            if u < 0x10000 {
                assert(utf16_units_of_char(c) =~= seq![u as u16]);
                lemma_be_bytes_single(u as u16);
            } else {
                let hi0 = (0xd800 + (u - 0x10000) / 0x400) as u16;
                let lo0 = (0xdc00 + (u - 0x10000) % 0x400) as u16;
                assert(utf16_units_of_char(c) =~= seq![hi0, lo0]);
                assert(seq![hi0, lo0] =~= seq![hi0] + seq![lo0]);
                lemma_be_bytes_concat(seq![hi0], seq![lo0]);
                lemma_be_bytes_single(hi0);
                lemma_be_bytes_single(lo0);
            }
            assert(r@ =~= utf16be_bytes(run@.take(i + 1)));
        }
        i = i + 1;
    }
    proof {
        assert(run@.take(run@.len() as int) =~= run@);
    }
    r
}

/// Carries an `Option` of decoded characters over a prefix already decoded.
pub open spec fn opt_prepend(pre: Seq<char>, o: Option<Seq<char>>) -> Option<Seq<char>> {
    match o {
        Some(cs) => Some(pre + cs),
        None => None,
    }
}

/// Decodes a UTF-16BE byte buffer, reporting an odd buffer or an unpaired
/// surrogate exactly as `utf16be_decode_spec` does.
pub(crate) fn utf16be_decode(bytes: &Vec<u8>) -> (r: Result<Vec<char>, Utf7Error>)
    ensures
        r matches Ok(v) ==> utf16be_decode_spec(bytes@) == Ok::<Seq<char>, Utf7Error>(v@),
        r matches Err(e) ==> utf16be_decode_spec(bytes@) == Err::<Seq<char>, Utf7Error>(e),
{
    if bytes.len() % 2 != 0 {
        return Err(Utf7Error::OddByteBuffer);
    }
    let mut us: Vec<u16> = Vec::new();
    let mut k: usize = 0;
    while k + 1 < bytes.len()
        invariant
            k % 2 == 0,
            k <= bytes.len(),
            bytes@.len() % 2 == 0,
            us@ == units_of_be_bytes(bytes@.take(k as int)),
        decreases bytes.len() - k,
    {
        let unit = (bytes[k] as u16) * 256 + (bytes[k + 1] as u16);
        us.push(unit);
        proof {
            let pre = bytes@.take(k as int);
            let two = seq![bytes@[k as int], bytes@[k as int + 1]];
            assert(bytes@.take(k + 2) =~= pre + two);
            lemma_units_concat(pre, two);
            assert(two[0] == bytes@[k as int] && two[1] == bytes@[k as int + 1]);
            lemma_units_single(two[0], two[1]);
            assert(unit == (two[0] * 256 + two[1]) as u16);
            assert(units_of_be_bytes(two) == seq![unit]);
            assert(us@ =~= units_of_be_bytes(bytes@.take(k + 2)));
        }
        k = k + 2;
    }
    proof {
        assert(k == bytes@.len());
        assert(bytes@.take(k as int) =~= bytes@);
    }
    let mut out: Vec<char> = Vec::new();
    let mut i: usize = 0;
    proof {
        broadcast use vstd::seq::Seq::add_empty_left;

        assert(us@.skip(0) =~= us@);
    }
    while i < us.len()
        invariant
            i <= us.len(),
            us@ == units_of_be_bytes(bytes@),
            bytes@.len() % 2 == 0,
            decode_units(us@) == opt_prepend(out@, decode_units(us@.skip(i as int))),
        decreases us.len() - i,
    {
        let ghost t = us@.skip(i as int);
        proof {
            assert(t[0] == us@[i as int]);
        }
        let u = us[i];
        if u < 0xd800 || u >= 0xe000 {
            let c = char_from_u32(u as u32);
            out.push(c);
            proof {
                assert(t.drop_first() =~= us@.skip(i + 1));
                assert(((t[0] as u32) as char) == c);
                assert(decode_units(us@) == opt_prepend(out@, decode_units(us@.skip(i + 1))));
            }
            i = i + 1;
        } else if u < 0xdc00 {
            if i + 1 < us.len() {
                let u2 = us[i + 1];
                if 0xdc00 <= u2 && u2 < 0xe000 {
                    proof {
                        assert(t[1] == us@[i as int + 1]);
                    }
                    let v: u32 = 0x10000 + ((u as u32) - 0xd800) * 0x400 + ((u2 as u32) - 0xdc00);
                    let c = char_from_u32(v);
                    out.push(c);
                    proof {
                        assert(t.skip(2) =~= us@.skip(i + 2));
                        assert((((0x10000 + (t[0] - 0xd800) * 0x400 + (t[1] - 0xdc00)) as u32)
                            as char) == c);
                        assert(decode_units(us@) == opt_prepend(
                            out@,
                            decode_units(us@.skip(i + 2)),
                        ));
                    }
                    i = i + 2;
                } else {
                    proof {
                        assert(decode_units(t) is None);
                    }
                    return Err(Utf7Error::UnpairedSurrogate);
                }
            } else {
                proof {
                    assert(t.len() == 1);
                    assert(decode_units(t) is None);
                }
                return Err(Utf7Error::UnpairedSurrogate);
            }
        } else {
            proof {
                assert(is_low_surrogate(t[0]));
                assert(decode_units(t) is None);
            }
            return Err(Utf7Error::UnpairedSurrogate);
        }
    }
    proof {
        assert(us@.skip(us@.len() as int) =~= Seq::<u16>::empty());
        assert(decode_units(us@) == Some(out@));
    }
    Ok(out)
}

/// `units_of_be_bytes` distributes over concatenation at an even boundary.
pub proof fn lemma_units_concat(a: Seq<u8>, b: Seq<u8>)
    requires
        a.len() % 2 == 0,
    ensures
        units_of_be_bytes(a + b) == units_of_be_bytes(a) + units_of_be_bytes(b),
    decreases a.len(),
{
    if a.len() == 0 {
        assert(a + b =~= b);
        assert(units_of_be_bytes(a) + units_of_be_bytes(b) =~= units_of_be_bytes(b));
    } else {
        assert((a + b).skip(2) =~= a.skip(2) + b);
        lemma_units_concat(a.skip(2), b);
        assert(units_of_be_bytes(a + b) =~= units_of_be_bytes(a) + units_of_be_bytes(b));
    }
}

} // verus!
