//! A codec between plain Unicode text and the modified UTF-7 form that IMAP
//! uses for mailbox names (RFC 3501, section 5.1.3): printable ASCII stands
//! for itself, `&` is escaped as `&-`, and every other run of characters
//! becomes a `&...-` shift sequence holding modified base64 over UTF-16BE.

use vstd::prelude::*;

mod b64;
mod text;
mod utf16;

use crate::b64::decode_payload_bytes;
use crate::b64::encode_payload;
use crate::b64::lemma_encode_props;
use crate::b64::lemma_payload_props;
use crate::b64::mb64_payload;
use crate::b64::restored_padded;
use crate::b64::std_b64_decode;
use crate::b64::std_b64_encode;
use crate::b64::valid_std_b64;
use crate::text::chars_to_string;
use crate::text::dash_idx;
use crate::text::direct_char;
use crate::text::is_direct_char;
use crate::text::lemma_dash_idx;
use crate::text::lemma_nonascii_run_len;
use crate::text::lemma_nonascii_run_len_le;
use crate::text::nonascii_run_len;
use crate::text::string_to_chars;
use crate::utf16::lemma_utf16be_roundtrip;
use crate::utf16::utf16be_bytes;
use crate::utf16::utf16be_decode;
use crate::utf16::utf16be_decode_spec;
use crate::utf16::utf16be_encode;

pub use crate::text::get_ascii;
pub use crate::text::get_nonascii;
pub use crate::text::is_ascii_custom;
pub use crate::text::remove_ascii;
pub use crate::text::remove_nonascii;

verus! {

/// The ways a decode can fail, reported for the leftmost failing shift
/// sequence.
#[derive(Clone, Copy, Debug, PartialEq, Eq, Structural)]
pub enum Utf7Error {
    /// A shift-sequence payload is not valid modified base64 once its
    /// padding is restored.
    MalformedPayload,
    /// A decoded byte buffer has odd length and so holds no whole sequence
    /// of 16-bit code units.
    OddByteBuffer,
    /// A high surrogate without its low partner, or a stray low surrogate.
    UnpairedSurrogate,
    /// A `&` with no closing `-` before the end of the input.
    UnterminatedShiftSequence,
}

/// The encoded form of a text: printable ASCII passes through, `&` becomes
/// `&-`, and each maximal non-ASCII run becomes one `&...-` shift sequence
/// over the run's UTF-16BE bytes in modified base64.
pub open spec fn encode_spec(s: Seq<char>) -> Seq<char>
    decreases s.len(),
    via encode_spec_dec
{
    if s.len() == 0 {
        Seq::empty()
    } else if s[0] == '&' {
        seq!['&', '-'] + encode_spec(s.drop_first())
    } else if is_direct_char(s[0]) {
        seq![s[0]] + encode_spec(s.drop_first())
    } else {
        let n = nonascii_run_len(s) as int;
        seq!['&'] + mb64_payload(utf16be_bytes(s.take(n))) + seq!['-'] + encode_spec(s.skip(n))
    }
}

#[via_fn]
proof fn encode_spec_dec(s: Seq<char>) {
    if s.len() > 0 && s[0] != '&' && !is_direct_char(s[0]) {
        lemma_nonascii_run_len_le(s);
    }
}

/// Puts an already-decoded prefix in front of the rest of a decode.
pub open spec fn prepend_decoded(pre: Seq<char>, r: Result<Seq<char>, Utf7Error>) -> Result<
    Seq<char>,
    Utf7Error,
> {
    match r {
        Ok(cs) => Ok(pre + cs),
        Err(e) => Err(e),
    }
}

/// What one non-empty payload decodes to: its padding is restored, the
/// modified base64 is read back to bytes, and the bytes are read as
/// UTF-16BE; the leftmost fault of that pipeline is the error.
pub open spec fn decode_payload_spec(p: Seq<char>) -> Result<Seq<char>, Utf7Error> {
    if !valid_std_b64(restored_padded(p)) {
        Err(Utf7Error::MalformedPayload)
    } else {
        utf16be_decode_spec(std_b64_decode(restored_padded(p)))
    }
}

/// The decoded form of an encoded text: a single left-to-right pass in
/// which any character but `&` passes through, `&-` yields a literal `&`,
/// and `&` followed by a payload and `-` yields the payload's characters;
/// a `&` with no later `-` is unterminated.
pub open spec fn decode_spec(s: Seq<char>) -> Result<Seq<char>, Utf7Error>
    decreases s.len(),
{
    if s.len() == 0 {
        Ok(Seq::empty())
    } else if s[0] != '&' {
        prepend_decoded(seq![s[0]], decode_spec(s.drop_first()))
    } else {
        let d = dash_idx(s.skip(1)) as int;
        if d >= s.len() - 1 {
            Err(Utf7Error::UnterminatedShiftSequence)
        } else if d == 0 {
            prepend_decoded(seq!['&'], decode_spec(s.skip(2)))
        } else {
            match decode_payload_spec(s.subrange(1, 1 + d)) {
                Ok(cs) => prepend_decoded(cs, decode_spec(s.skip(2 + d))),
                Err(e) => Err(e),
            }
        }
    }
}

/// Prefixes gather on the left of a pending decode.
pub proof fn lemma_prepend_assoc(a: Seq<char>, b: Seq<char>, r: Result<Seq<char>, Utf7Error>)
    ensures
        prepend_decoded(a + b, r) == prepend_decoded(a, prepend_decoded(b, r)),
{
    match r {
        Ok(cs) => {
            assert((a + b) + cs =~= a + (b + cs));
        },
        Err(_) => {},
    }
}

/// Encode UTF-7 IMAP mailbox name.
///
/// Total: every Unicode text has exactly the encoded form `encode_spec`
/// describes.
pub fn encode_utf7_imap(text: String) -> (r: String)
    ensures
        r@ == encode_spec(text@),
{
    let v = string_to_chars(text.as_str());
    let n = v.len();
    let mut out: Vec<char> = Vec::new();
    let mut i: usize = 0;
    proof {
        broadcast use vstd::seq::Seq::add_empty_left;

        assert(v@.skip(0) =~= v@);
    }
    while i < n
        invariant
            i <= n,
            n == v.len(),
            v@ == text@,
            encode_spec(text@) == out@ + encode_spec(v@.skip(i as int)),
        decreases n - i,
    {
        let ghost t = v@.skip(i as int);
        proof {
            assert(t[0] == v@[i as int]);
        }
        let c = v[i];
        if c == '&' {
            let ghost prev = out@;
            out.push('&');
            out.push('-');
            proof {
                assert(out@ =~= prev + seq!['&', '-']);
                assert(t.drop_first() =~= v@.skip(i + 1));
                assert(encode_spec(t) == seq!['&', '-'] + encode_spec(v@.skip(i + 1)));
                assert(prev + encode_spec(t) =~= out@ + encode_spec(v@.skip(i + 1)));
            }
            i = i + 1;
        } else if direct_char(c) {
            let ghost prev = out@;
            out.push(c);
            proof {
                assert(out@ =~= prev + seq![c]);
                assert(t.drop_first() =~= v@.skip(i + 1));
                assert(encode_spec(t) == seq![c] + encode_spec(v@.skip(i + 1)));
                assert(prev + encode_spec(t) =~= out@ + encode_spec(v@.skip(i + 1)));
            }
            i = i + 1;
        } else {
            let mut j = i;
            while j < n && !direct_char(v[j])
                invariant
                    i <= j <= n,
                    n == v.len(),
                    forall|k: int| i <= k < j ==> !is_direct_char(#[trigger] v@[k]),
                decreases n - j,
            {
                j = j + 1;
            }
            let ghost m = j - i;
            proof {
                assert forall|k: int| 0 <= k < m implies !is_direct_char(#[trigger] t[k]) by {
                    assert(t[k] == v@[i + k]);
                }
                if m < t.len() {
                    assert(t[m as int] == v@[j as int]);
                }
                lemma_nonascii_run_len(t, m as int);
            }
            let mut run: Vec<char> = Vec::new();
            let mut k = i;
            while k < j
                invariant
                    i <= k <= j <= n,
                    n == v.len(),
                    run@ == v@.subrange(i as int, k as int),
                decreases j - k,
            {
                let c2 = v[k];
                run.push(c2);
                k = k + 1;
                proof {
                    assert(run@ =~= v@.subrange(i as int, k as int));
                }
            }
            proof {
                assert(run@ =~= t.take(m as int));
            }
            let bytes = utf16be_encode(&run);
            let mut payload = encode_payload(&bytes);
            let ghost pl = payload@;
            let ghost prev = out@;
            out.push('&');
            out.append(&mut payload);
            out.push('-');
            proof {
                assert(out@ =~= prev + (seq!['&'] + pl + seq!['-']));
                assert(encode_spec(t) == seq!['&'] + mb64_payload(utf16be_bytes(t.take(m as int)))
                    + seq!['-'] + encode_spec(t.skip(m as int)));
                assert(t.skip(m as int) =~= v@.skip(j as int));
                assert(encode_spec(t) =~= (seq!['&'] + pl + seq!['-']) + encode_spec(
                    v@.skip(j as int),
                ));
                assert(prev + encode_spec(t) =~= out@ + encode_spec(v@.skip(j as int)));
            }
            i = j;
        }
    }
    proof {
        assert(v@.skip(n as int) =~= Seq::<char>::empty());
        assert(out@ + encode_spec(v@.skip(n as int)) =~= out@);
    }
    chars_to_string(&out)
}

/// Decode UTF-7 IMAP mailbox name.
///
/// Returns the decoded text exactly when `decode_spec` does, and otherwise
/// the error of the leftmost malformed shift sequence.
pub fn decode_utf7_imap(text: String) -> (r: Result<String, Utf7Error>)
    ensures
        r is Ok <==> decode_spec(text@) is Ok,
        r matches Ok(t) ==> decode_spec(text@) == Ok::<Seq<char>, Utf7Error>(t@),
        r matches Err(e) ==> decode_spec(text@) == Err::<Seq<char>, Utf7Error>(e),
{
    let v = string_to_chars(text.as_str());
    let n = v.len();
    let mut out: Vec<char> = Vec::new();
    let mut i: usize = 0;
    proof {
        broadcast use vstd::seq::Seq::add_empty_left;

        assert(v@.skip(0) =~= v@);
    }
    while i < n
        invariant
            i <= n,
            n == v.len(),
            v@ == text@,
            decode_spec(text@) == prepend_decoded(out@, decode_spec(v@.skip(i as int))),
        decreases n - i,
    {
        let ghost t = v@.skip(i as int);
        proof {
            assert(t[0] == v@[i as int]);
        }
        let c = v[i];
        if c != '&' {
            let ghost prev = out@;
            out.push(c);
            proof {
                assert(out@ =~= prev + seq![c]);
                assert(t.drop_first() =~= v@.skip(i + 1));
                assert(decode_spec(t) == prepend_decoded(seq![c], decode_spec(v@.skip(i + 1))));
                lemma_prepend_assoc(prev, seq![c], decode_spec(v@.skip(i + 1)));
            }
            i = i + 1;
        } else {
            let mut j = i + 1;
            while j < n && v[j] != '-'
                invariant
                    i + 1 <= j <= n,
                    n == v.len(),
                    forall|k: int| i + 1 <= k < j ==> #[trigger] v@[k] != '-',
                decreases n - j,
            {
                j = j + 1;
            }
            let ghost t1 = t.skip(1);
            let ghost d = j - i - 1;
            proof {
                assert(t1 =~= v@.skip(i + 1));
                assert forall|k: int| 0 <= k < d implies #[trigger] t1[k] != '-' by {
                    assert(t1[k] == v@[i + 1 + k]);
                }
                if d < t1.len() {
                    assert(t1[d as int] == v@[j as int]);
                }
                lemma_dash_idx(t1, d as int);
            }
            if j == n {
                proof {
                    assert(d >= t.len() - 1);
                    assert(decode_spec(t) == Err::<Seq<char>, Utf7Error>(
                        Utf7Error::UnterminatedShiftSequence,
                    ));
                }
                return Err(Utf7Error::UnterminatedShiftSequence);
            }
            if j == i + 1 {
                let ghost prev = out@;
                out.push('&');
                proof {
                    assert(out@ =~= prev + seq!['&']);
                    assert(t.skip(2) =~= v@.skip(i + 2));
                    assert(decode_spec(t) == prepend_decoded(
                        seq!['&'],
                        decode_spec(v@.skip(i + 2)),
                    ));
                    lemma_prepend_assoc(prev, seq!['&'], decode_spec(v@.skip(i + 2)));
                }
                i = j + 1;
            } else {
                let mut p: Vec<char> = Vec::new();
                let mut k = i + 1;
                while k < j
                    invariant
                        i + 1 <= k <= j <= n,
                        n == v.len(),
                        p@ == v@.subrange(i + 1, k as int),
                    decreases j - k,
                {
                    let c2 = v[k];
                    p.push(c2);
                    k = k + 1;
                    proof {
                        assert(p@ =~= v@.subrange(i + 1, k as int));
                    }
                }
                proof {
                    assert(p@ =~= t.subrange(1, 1 + d));
                    assert(1 <= d < t.len() - 1);
                }
                match decode_payload_bytes(&p) {
                    None => {
                        proof {
                            assert(decode_payload_spec(p@) == Err::<Seq<char>, Utf7Error>(
                                Utf7Error::MalformedPayload,
                            ));
                            assert(decode_spec(t) == Err::<Seq<char>, Utf7Error>(
                                Utf7Error::MalformedPayload,
                            ));
                        }
                        return Err(Utf7Error::MalformedPayload);
                    },
                    Some(bytes) => {
                        match utf16be_decode(&bytes) {
                            Err(e) => {
                                proof {
                                    assert(decode_payload_spec(p@) == Err::<Seq<char>, Utf7Error>(
                                        e,
                                    ));
                                    assert(decode_spec(t) == Err::<Seq<char>, Utf7Error>(e));
                                }
                                return Err(e);
                            },
                            Ok(mut cs) => {
                                let ghost csv = cs@;
                                let ghost prev = out@;
                                out.append(&mut cs);
                                proof {
                                    assert(decode_payload_spec(p@) == Ok::<Seq<char>, Utf7Error>(
                                        csv,
                                    ));
                                    assert(t.skip(2 + d) =~= v@.skip(j + 1));
                                    assert(decode_spec(t) == prepend_decoded(
                                        csv,
                                        decode_spec(v@.skip(j + 1)),
                                    ));
                                    lemma_prepend_assoc(prev, csv, decode_spec(v@.skip(j + 1)));
                                }
                                i = j + 1;
                            },
                        }
                    },
                }
            }
        }
    }
    proof {
        broadcast use vstd::seq::Seq::add_empty_right;

        assert(v@.skip(n as int) =~= Seq::<char>::empty());
        assert(decode_spec(text@) == Ok::<Seq<char>, Utf7Error>(out@));
    }
    Ok(chars_to_string(&out))
}

/// Round trip: decoding what the encoder produced yields the original text,
/// for every Unicode text.
/// One step of the round trip: an escaped `&` at the head.
proof fn lemma_round_trip_amp(s: Seq<char>)
    requires
        s.len() > 0,
        s[0] == '&',
        decode_spec(encode_spec(s.drop_first())) == Ok::<Seq<char>, Utf7Error>(s.drop_first()),
    ensures
        decode_spec(encode_spec(s)) == Ok::<Seq<char>, Utf7Error>(s),
{
    let er = encode_spec(s.drop_first());
    let e = encode_spec(s);
    assert(e == seq!['&', '-'] + er);
    assert(e[0] == '&');
    assert(e.skip(1) =~= seq!['-'] + er);
    assert((seq!['-'] + er)[0] == '-');
    assert(dash_idx(e.skip(1)) == 0);
    assert(e.len() >= 2);
    assert(e.skip(2) =~= er);
    assert(decode_spec(e) == prepend_decoded(seq!['&'], Ok::<Seq<char>, Utf7Error>(
        s.drop_first(),
    )));
    assert(seq!['&'] + s.drop_first() =~= s);
}

/// One step of the round trip: a direct character at the head.
proof fn lemma_round_trip_direct(s: Seq<char>)
    requires
        s.len() > 0,
        s[0] != '&',
        is_direct_char(s[0]),
        decode_spec(encode_spec(s.drop_first())) == Ok::<Seq<char>, Utf7Error>(s.drop_first()),
    ensures
        decode_spec(encode_spec(s)) == Ok::<Seq<char>, Utf7Error>(s),
{
    let er = encode_spec(s.drop_first());
    let e = encode_spec(s);
    assert(e == seq![s[0]] + er);
    assert(e[0] == s[0]);
    assert(e.drop_first() =~= er);
    assert(decode_spec(e) == prepend_decoded(seq![s[0]], Ok::<Seq<char>, Utf7Error>(
        s.drop_first(),
    )));
    assert(seq![s[0]] + s.drop_first() =~= s);
}

/// One step of the round trip: a non-ASCII run at the head becomes one
/// shift sequence and decodes back to the run.
#[verifier::rlimit(100)]
proof fn lemma_round_trip_run(s: Seq<char>)
    requires
        s.len() > 0,
        s[0] != '&',
        !is_direct_char(s[0]),
        decode_spec(encode_spec(s.skip(nonascii_run_len(s) as int))) == Ok::<Seq<char>, Utf7Error>(
            s.skip(nonascii_run_len(s) as int),
        ),
    ensures
        decode_spec(encode_spec(s)) == Ok::<Seq<char>, Utf7Error>(s),
{
    lemma_nonascii_run_len_le(s);
    let n = nonascii_run_len(s) as int;
    let run = s.take(n);
    let bytes = utf16be_bytes(run);
    let payload = mb64_payload(bytes);
    let er = encode_spec(s.skip(n));
    let e = encode_spec(s);
    lemma_utf16be_roundtrip(run);
    lemma_encode_props(bytes);
    lemma_payload_props(bytes);
    assert(e == seq!['&'] + payload + seq!['-'] + er);
    let d = payload.len() as int;
    assert(d >= 1);
    assert(e.len() == 2 + d + er.len());
    assert(e[0] == '&');
    let t1 = e.skip(1);
    assert forall|k: int| 0 <= k < d implies #[trigger] t1[k] != '-' by {
        assert(t1[k] == payload[k]);
    }
    assert(t1[d] == '-');
    lemma_dash_idx(t1, d);
    assert(d < e.len() - 1);
    assert(e.subrange(1, 1 + d) =~= payload);
    assert(decode_payload_spec(payload) == Ok::<Seq<char>, Utf7Error>(run)) by {
        assert(restored_padded(payload) == std_b64_encode(bytes));
        assert(valid_std_b64(restored_padded(payload)));
        assert(std_b64_decode(restored_padded(payload)) == bytes);
        assert(utf16be_decode_spec(bytes) == Ok::<Seq<char>, Utf7Error>(run));
    }
    assert(e.skip(2 + d) =~= er);
    assert(decode_spec(e) == prepend_decoded(run, Ok::<Seq<char>, Utf7Error>(s.skip(n))));
    assert(run + s.skip(n) =~= s);
}

/// Round trip: decoding what the encoder produced yields the original text,
/// for every Unicode text.
pub proof fn lemma_round_trip(s: Seq<char>)
    ensures
        decode_spec(encode_spec(s)) == Ok::<Seq<char>, Utf7Error>(s),
    decreases s.len(),
{
    if s.len() == 0 {
        assert(s =~= Seq::<char>::empty());
        assert(encode_spec(s) == Seq::<char>::empty());
    } else if s[0] == '&' {
        lemma_round_trip(s.drop_first());
        lemma_round_trip_amp(s);
    } else if is_direct_char(s[0]) {
        lemma_round_trip(s.drop_first());
        lemma_round_trip_direct(s);
    } else {
        lemma_nonascii_run_len_le(s);
        lemma_round_trip(s.skip(nonascii_run_len(s) as int));
        lemma_round_trip_run(s);
    }
}

/// Plain printable ASCII other than `&` is never transformed: a text of
/// such characters is its own encoded form.
pub proof fn lemma_direct_text_unchanged(s: Seq<char>)
    requires
        forall|k: int| 0 <= k < s.len() ==> is_direct_char(#[trigger] s[k]) && s[k] != '&',
    ensures
        encode_spec(s) == s,
    decreases s.len(),
{
    if s.len() == 0 {
        assert(s =~= Seq::<char>::empty());
    } else {
        lemma_direct_text_unchanged(s.drop_first());
        assert(seq![s[0]] + s.drop_first() =~= s);
    }
}

/// What the encoder produced always decodes, and encoding the decoded text
/// gives the same encoded text again: the encoder's output is a fixed
/// point of decode-then-encode.
pub proof fn lemma_reencode(s: Seq<char>)
    ensures
        decode_spec(encode_spec(s)) is Ok,
        encode_spec(decode_spec(encode_spec(s))->Ok_0) == encode_spec(s),
{
    lemma_round_trip(s);
}

} // verus!

