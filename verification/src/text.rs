//! Characters, runs and scanning: the segmenter of the codec.
//!
//! A character is *direct* when it is printable ASCII (0x20 to 0x7e); a
//! maximal span of direct characters passes through the encoder as it is
//! (with `&` escaped), and a maximal span of the others becomes one shift
//! sequence.

use vstd::prelude::*;
use vstd::string::*;

verus! {

/// True for printable ASCII (0x20 to 0x7e), the characters that stand for
/// themselves in the encoded form.
pub open spec fn is_direct_char(c: char) -> bool {
    0x20 <= (c as u32) && (c as u32) <= 0x7e
}

/// Length of the maximal direct prefix of `s`.
pub open spec fn ascii_run_len(s: Seq<char>) -> nat
    decreases s.len(),
{
    if s.len() == 0 || !is_direct_char(s[0]) {
        0
    } else {
        1 + ascii_run_len(s.drop_first())
    }
}

/// Length of the maximal non-direct prefix of `s`.
pub open spec fn nonascii_run_len(s: Seq<char>) -> nat
    decreases s.len(),
{
    if s.len() == 0 || is_direct_char(s[0]) {
        0
    } else {
        1 + nonascii_run_len(s.drop_first())
    }
}

/// Index of the first `-` in `s`, or `s.len()` when there is none.
pub open spec fn dash_idx(s: Seq<char>) -> nat
    decreases s.len(),
{
    if s.len() == 0 {
        0
    } else if s[0] == '-' {
        0
    } else {
        1 + dash_idx(s.drop_first())
    }
}

/// A scan that stops at the first non-direct character has found the
/// maximal direct prefix.
pub proof fn lemma_ascii_run_len(s: Seq<char>, m: int)
    requires
        0 <= m <= s.len(),
        forall|k: int| 0 <= k < m ==> is_direct_char(#[trigger] s[k]),
        m == s.len() || !is_direct_char(s[m]),
    ensures
        ascii_run_len(s) == m,
    decreases m,
{
    if m == 0 {
    } else {
        lemma_ascii_run_len(s.drop_first(), m - 1);
    }
}

/// A scan that stops at the first direct character has found the maximal
/// non-direct prefix.
pub proof fn lemma_nonascii_run_len(s: Seq<char>, m: int)
    requires
        0 <= m <= s.len(),
        forall|k: int| 0 <= k < m ==> !is_direct_char(#[trigger] s[k]),
        m == s.len() || is_direct_char(s[m]),
    ensures
        nonascii_run_len(s) == m,
    decreases m,
{
    if m == 0 {
    } else {
        lemma_nonascii_run_len(s.drop_first(), m - 1);
    }
}

/// A non-direct run is never longer than the text, and never empty when
/// the text starts with a non-direct character.
pub proof fn lemma_nonascii_run_len_le(s: Seq<char>)
    ensures
        nonascii_run_len(s) <= s.len(),
        s.len() > 0 && !is_direct_char(s[0]) ==> nonascii_run_len(s) >= 1,
    decreases s.len(),
{
    if s.len() > 0 && !is_direct_char(s[0]) {
        lemma_nonascii_run_len_le(s.drop_first());
    }
}

/// A scan that stops at the first `-` has found `dash_idx`.
pub proof fn lemma_dash_idx(s: Seq<char>, m: int)
    requires
        0 <= m <= s.len(),
        forall|k: int| 0 <= k < m ==> #[trigger] s[k] != '-',
        m == s.len() || s[m] == '-',
    ensures
        dash_idx(s) == m,
    decreases m,
{
    if m == 0 {
    } else {
        lemma_dash_idx(s.drop_first(), m - 1);
    }
}

/// The characters of a string, in order.
pub fn string_to_chars(s: &str) -> (v: Vec<char>)
    ensures
        v@ == s@,
{
    let n = s.unicode_len();
    let mut v: Vec<char> = Vec::new();
    let mut i: usize = 0;
    while i < n
        invariant
            i <= n,
            n == s@.len(),
            v@ == s@.take(i as int),
        decreases n - i,
    {
        let c = s.get_char(i);
        v.push(c);
        i = i + 1;
        proof {
            assert(v@ =~= s@.take(i as int));
        }
    }
    proof {
        assert(v@ =~= s@);
    }
    v
}

/// Builds a `String` from its characters.  Relies on `String`'s
/// `FromIterator<char>` implementation of std.
#[verifier::external_body]
pub(crate) fn chars_to_string(v: &Vec<char>) -> (r: String)
    ensures
        r@ == v@,
{
    v.iter().collect()
}

/// Exec test for a direct character.
pub(crate) fn direct_char(c: char) -> (r: bool)
    ensures
        r == is_direct_char(c),
{
    let u = c as u32;
    0x20 <= u && u <= 0x7e
}

/// True when the byte is printable ASCII (0x20 to 0x7e).
pub fn is_ascii_custom(c: u8) -> (r: bool)
    ensures
        r == (0x20 <= c && c <= 0x7e),
{
    0x20 <= c && c <= 0x7e
}

/// The maximal printable-ASCII prefix of `s`.
pub fn get_ascii<'a>(s: &'a str) -> (r: &'a str)
    ensures
        r@ == s@.take(ascii_run_len(s@) as int),
{
    let n = s.unicode_len();
    let mut i: usize = 0;
    while i < n && direct_char(s.get_char(i))
        invariant
            i <= n,
            n == s@.len(),
            forall|k: int| 0 <= k < i ==> is_direct_char(#[trigger] s@[k]),
        decreases n - i,
    {
        i = i + 1;
    }
    proof {
        lemma_ascii_run_len(s@, i as int);
    }
    s.substring_char(0, i)
}

/// The maximal prefix of `s` holding no printable-ASCII character.
pub fn get_nonascii<'a>(s: &'a str) -> (r: &'a str)
    ensures
        r@ == s@.take(nonascii_run_len(s@) as int),
{
    let n = s.unicode_len();
    let mut i: usize = 0;
    while i < n && !direct_char(s.get_char(i))
        invariant
            i <= n,
            n == s@.len(),
            forall|k: int| 0 <= k < i ==> !is_direct_char(#[trigger] s@[k]),
        decreases n - i,
    {
        i = i + 1;
    }
    proof {
        lemma_nonascii_run_len(s@, i as int);
    }
    s.substring_char(0, i)
}

/// What is left of `s` after its maximal printable-ASCII prefix.
pub fn remove_ascii<'a>(s: &'a str) -> (r: &'a str)
    ensures
        r@ == s@.skip(ascii_run_len(s@) as int),
{
    let n = s.unicode_len();
    let mut i: usize = 0;
    while i < n && direct_char(s.get_char(i))
        invariant
            i <= n,
            n == s@.len(),
            forall|k: int| 0 <= k < i ==> is_direct_char(#[trigger] s@[k]),
        decreases n - i,
    {
        i = i + 1;
    }
    proof {
        lemma_ascii_run_len(s@, i as int);
    }
    s.substring_char(i, n)
}

/// What is left of `s` after its maximal non-printable-ASCII prefix.
pub fn remove_nonascii<'a>(s: &'a str) -> (r: &'a str)
    ensures
        r@ == s@.skip(nonascii_run_len(s@) as int),
{
    let n = s.unicode_len();
    let mut i: usize = 0;
    while i < n && !direct_char(s.get_char(i))
        invariant
            i <= n,
            n == s@.len(),
            forall|k: int| 0 <= k < i ==> !is_direct_char(#[trigger] s@[k]),
        decreases n - i,
    {
        i = i + 1;
    }
    proof {
        lemma_nonascii_run_len(s@, i as int);
    }
    s.substring_char(i, n)
}

} // verus!
