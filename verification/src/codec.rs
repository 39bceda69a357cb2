//! The modified-base64 codec: URL-safe alphabet (`-`/`_` for `+`/`/`) with
//! optional `=` padding.  Decoding re-pads, restores the standard alphabet,
//! base64-decodes, and reads the bytes as UTF-8; encoding is the reverse,
//! with the padding stripped.

use crate::errors::ResolveError;
use crate::text::{chars_of, string_from_chars, subvec};
use vstd::prelude::*;
use vstd::utf8::{decode_utf8, valid_utf8};

verus! {

// ---------------------------------------------------------------------------
// The base64 primitive, taken on trust
// ---------------------------------------------------------------------------

/// What standard base64 decoding yields on a character sequence, `None` when
/// the input is rejected.
pub uninterp spec fn b64_decode_of(s: Seq<char>) -> Option<Seq<u8>>;

/// What standard, padded base64 encoding yields on a byte sequence.
pub uninterp spec fn b64_encode_of(b: Seq<u8>) -> Seq<char>;

/// A character of the standard base64 alphabet.
pub open spec fn is_std_b64_char(c: char) -> bool {
    (('A' as u32) <= (c as u32) && (c as u32) <= ('Z' as u32)) || (('a' as u32) <= (c as u32) && (
    c as u32) <= ('z' as u32)) || (('0' as u32) <= (c as u32) && (c as u32) <= ('9' as u32)) || c
        == '+' || c == '/'
}

/// A character that [`encode`] can emit: the URL-safe alphabet plus `=`.
pub open spec fn is_url_b64_out_char(c: char) -> bool {
    (('A' as u32) <= (c as u32) && (c as u32) <= ('Z' as u32)) || (('a' as u32) <= (c as u32) && (
    c as u32) <= ('z' as u32)) || (('0' as u32) <= (c as u32) && (c as u32) <= ('9' as u32)) || c
        == '-' || c == '_' || c == '='
}

/// Relies on base64's `Engine::decode` with the `STANDARD` engine: the result
/// is a function of the input characters alone, and decoding either yields
/// bytes or rejects the input.
#[verifier::external_body]
fn b64_decode_chars(v: &Vec<char>) -> (r: Option<Vec<u8>>)
    ensures
        r matches Some(b) ==> b64_decode_of(v@) == Some(b@),
        r is None ==> b64_decode_of(v@) is None,
{
    let s: String = v.iter().collect();
    base64::Engine::decode(&base64::engine::general_purpose::STANDARD, s.as_bytes()).ok()
}

/// Relies on base64's `Engine::encode` with the `STANDARD` engine: the output
/// is canonical padded base64 — its length is a multiple of four, its
/// characters come from the standard alphabet with `=` at most in the last
/// two positions, and `Engine::decode` inverts it.
#[verifier::external_body]
fn b64_encode_bytes(b: &Vec<u8>) -> (r: Vec<char>)
    ensures
        r@ == b64_encode_of(b@),
        b64_decode_of(r@) == Some(b@),
        r@.len() % 4 == 0,
        forall|i: int| 0 <= i < r@.len() ==> is_std_b64_char(#[trigger] r@[i]) || r@[i] == '=',
        forall|i: int| 0 <= i < r@.len() && #[trigger] r@[i] == '=' ==> i + 2 >= r@.len(),
{
    base64::Engine::encode(&base64::engine::general_purpose::STANDARD, b.as_slice())
        .chars()
        .collect()
}

/// Relies on `String::from_utf8`: it succeeds exactly on valid UTF-8 and
/// yields its decoding.
#[verifier::external_body]
fn string_from_utf8(b: Vec<u8>) -> (r: Option<String>)
    ensures
        r is Some <==> valid_utf8(b@),
        r matches Some(s) ==> s@ == decode_utf8(b@),
{
    String::from_utf8(b).ok()
}

// ---------------------------------------------------------------------------
// The character-level transformations
// ---------------------------------------------------------------------------

/// `-` and `_` replaced by `+` and `/`: URL-safe back to standard alphabet.
pub open spec fn to_std_spec(s: Seq<char>) -> Seq<char> {
    s.map_values(
        |c: char|
            if c == '-' {
                '+'
            } else if c == '_' {
                '/'
            } else {
                c
            },
    )
}

/// `+` and `/` replaced by `-` and `_`: standard to URL-safe alphabet.
pub open spec fn to_url_spec(s: Seq<char>) -> Seq<char> {
    s.map_values(
        |c: char|
            if c == '+' {
                '-'
            } else if c == '/' {
                '_'
            } else {
                c
            },
    )
}

/// `=` appended until the length is a multiple of four.
pub open spec fn pad_spec(s: Seq<char>) -> Seq<char> {
    if s.len() % 4 == 0 {
        s
    } else {
        s + Seq::new((4 - s.len() % 4) as nat, |i: int| '=')
    }
}

/// Every trailing `=` removed.
pub open spec fn strip_pad_spec(s: Seq<char>) -> Seq<char>
    decreases s.len(),
{
    if s.len() > 0 && s.last() == '=' {
        strip_pad_spec(s.drop_last())
    } else {
        s
    }
}

/// `strip_pad_spec` removes exactly the trailing run of `=`.
pub proof fn lemma_strip_pad(s: Seq<char>)
    ensures
        strip_pad_spec(s).len() <= s.len(),
        s =~= strip_pad_spec(s) + Seq::new((s.len() - strip_pad_spec(s).len()) as nat, |i: int| '='),
        strip_pad_spec(s).len() > 0 ==> strip_pad_spec(s).last() != '=',
        strip_pad_spec(s) =~= s.take(strip_pad_spec(s).len() as int),
    decreases s.len(),
{
    if s.len() > 0 && s.last() == '=' {
        lemma_strip_pad(s.drop_last());
        assert(s =~= s.drop_last().push('='));
        assert(s =~= strip_pad_spec(s) + Seq::new(
            (s.len() - strip_pad_spec(s).len()) as nat,
            |i: int| '=',
        ));
    }
}

/// Restoring the standard alphabet undoes the URL-safe substitution on any
/// string without `-` or `_`.
pub proof fn lemma_to_std_to_url(s: Seq<char>)
    requires
        forall|i: int| 0 <= i < s.len() ==> s[i] != '-' && s[i] != '_',
    ensures
        to_std_spec(to_url_spec(s)) == s,
{
    assert(to_std_spec(to_url_spec(s)) =~= s);
}

// ---------------------------------------------------------------------------
// Decoding
// ---------------------------------------------------------------------------

/// What [`decode`] yields: re-pad, restore the standard alphabet,
/// base64-decode, read the bytes as UTF-8.
pub open spec fn decode_spec(s: Seq<char>) -> Result<Seq<char>, ResolveError> {
    match b64_decode_of(to_std_spec(pad_spec(s))) {
        None => Err(ResolveError::DecodeError),
        Some(bytes) => if valid_utf8(bytes) {
            Ok(decode_utf8(bytes))
        } else {
            Err(ResolveError::EncodingError)
        },
    }
}

/// What [`encode`] yields: standard base64, URL-safe substitution, padding
/// stripped.
pub open spec fn encode_spec(b: Seq<u8>) -> Seq<char> {
    to_url_spec(strip_pad_spec(b64_encode_of(b)))
}

fn pad_chars(v: &Vec<char>) -> (r: Vec<char>)
    ensures
        r@ == pad_spec(v@),
{
    let mut r: Vec<char> = Vec::new();
    crate::text::append_chars(&mut r, v);
    let rem: usize = r.len() % 4;
    if rem != 0 {
        let n: usize = 4 - rem;
        let mut k: usize = 0;
        while k < n
            invariant
                0 <= k <= n,
                v@.len() % 4 != 0,
                n == 4 - (v@.len() % 4),
                r@ == v@ + Seq::new(k as nat, |i: int| '='),
            decreases n - k,
        {
            r.push('=');
            proof {
                assert(v@ + Seq::new((k + 1) as nat, |i: int| '=') =~= (v@ + Seq::new(
                    k as nat,
                    |i: int| '=',
                )).push('='));
            }
            k += 1;
        }
        proof {
            assert(r@ =~= pad_spec(v@));
        }
    }
    r
}

fn to_std_chars(v: &Vec<char>) -> (r: Vec<char>)
    ensures
        r@ == to_std_spec(v@),
{
    let mut r: Vec<char> = Vec::new();
    let mut i: usize = 0;
    while i < v.len()
        invariant
            0 <= i <= v.len(),
            r@.len() == i,
            forall|j: int|
                0 <= j < i ==> r@[j] == (if v@[j] == '-' {
                    '+'
                } else if v@[j] == '_' {
                    '/'
                } else {
                    v@[j]
                }),
        decreases v.len() - i,
    {
        let c = v[i];
        if c == '-' {
            r.push('+');
        } else if c == '_' {
            r.push('/');
        } else {
            r.push(c);
        }
        i += 1;
    }
    proof {
        assert(r@ =~= to_std_spec(v@));
    }
    r
}

fn to_url_chars(v: &Vec<char>) -> (r: Vec<char>)
    ensures
        r@ == to_url_spec(v@),
{
    let mut r: Vec<char> = Vec::new();
    let mut i: usize = 0;
    while i < v.len()
        invariant
            0 <= i <= v.len(),
            r@.len() == i,
            forall|j: int|
                0 <= j < i ==> r@[j] == (if v@[j] == '+' {
                    '-'
                } else if v@[j] == '/' {
                    '_'
                } else {
                    v@[j]
                }),
        decreases v.len() - i,
    {
        let c = v[i];
        if c == '+' {
            r.push('-');
        } else if c == '/' {
            r.push('_');
        } else {
            r.push(c);
        }
        i += 1;
    }
    proof {
        assert(r@ =~= to_url_spec(v@));
    }
    r
}

fn strip_pad_chars(v: &Vec<char>) -> (r: Vec<char>)
    ensures
        r@ == strip_pad_spec(v@),
{
    let mut end: usize = v.len();
    proof {
        assert(v@.take(end as int) =~= v@);
    }
    while end > 0 && v[end - 1] == '='
        invariant
            0 <= end <= v.len(),
            strip_pad_spec(v@) == strip_pad_spec(v@.take(end as int)),
        decreases end,
    {
        proof {
            assert(v@.take(end as int).last() == '=');
            assert(v@.take(end as int).drop_last() =~= v@.take(end - 1));
        }
        end -= 1;
    }
    proof {
        if end > 0 {
            assert(v@.take(end as int).last() != '=');
        }
        assert(strip_pad_spec(v@.take(end as int)) == v@.take(end as int));
    }
    subvec(v, 0, end)
}

/// Decodes a modified-base64 character sequence into the UTF-8 text of the
/// bytes it denotes.
pub fn decode_chars(v: &Vec<char>) -> (r: Result<String, ResolveError>)
    ensures
        r matches Ok(t) ==> decode_spec(v@) == Ok::<Seq<char>, ResolveError>(t@),
        r matches Err(e) ==> decode_spec(v@) == Err::<Seq<char>, ResolveError>(e),
{
    let padded = pad_chars(v);
    let std = to_std_chars(&padded);
    match b64_decode_chars(&std) {
        None => Err(ResolveError::DecodeError),
        Some(bytes) => match string_from_utf8(bytes) {
            None => Err(ResolveError::EncodingError),
            Some(t) => Ok(t),
        },
    }
}

/// Decodes a modified-base64 string: missing `=` padding is tolerated, `-`
/// and `_` stand for `+` and `/`, and the decoded bytes must be valid UTF-8.
///
/// Fails with `DecodeError` when the base64 alphabet or length is violated
/// and with `EncodingError` when the bytes are not UTF-8.
pub fn decode(input: &str) -> (r: Result<String, ResolveError>)
    ensures
        r matches Ok(t) ==> decode_spec(input@) == Ok::<Seq<char>, ResolveError>(t@),
        r matches Err(e) ==> decode_spec(input@) == Err::<Seq<char>, ResolveError>(e),
{
    let v = chars_of(input);
    decode_chars(&v)
}

/// Encodes bytes as a modified-base64 string: standard base64, then the
/// URL-safe substitution, with the `=` padding stripped.
///
/// The second and third `ensures` clauses state the round-trip law: decoding
/// the encoding of any byte sequence yields exactly its UTF-8 text, or
/// `EncodingError` when the bytes are not valid UTF-8.
pub fn encode(b: &Vec<u8>) -> (r: String)
    ensures
        r@ == encode_spec(b@),
        valid_utf8(b@) ==> decode_spec(r@) == Ok::<Seq<char>, ResolveError>(decode_utf8(b@)),
        !valid_utf8(b@) ==> decode_spec(r@) == Err::<Seq<char>, ResolveError>(
            ResolveError::EncodingError,
        ),
        forall|i: int| 0 <= i < r@.len() ==> is_url_b64_out_char(#[trigger] r@[i]),
{
    let e = b64_encode_bytes(b);
    let stripped = strip_pad_chars(&e);
    let url = to_url_chars(&stripped);
    proof {
        lemma_strip_pad(e@);
        let t = e@.len() - stripped@.len();
        assert(t <= 2) by {
            if t >= 3 {
                assert(e@[e@.len() - 3] == '=');
            }
        }
        assert(forall|i: int|
            0 <= i < stripped@.len() ==> (is_std_b64_char(#[trigger] stripped@[i])
                || stripped@[i] == '='));
        assert(forall|i: int|
            0 <= i < stripped@.len() ==> stripped@[i] != '-' && stripped@[i] != '_');
        assert(forall|i: int| 0 <= i < url@.len() ==> is_url_b64_out_char(#[trigger] url@[i]));
        if t == 0 {
            assert(url@.len() % 4 == 0);
            assert(pad_spec(url@) == url@);
            lemma_to_std_to_url(stripped@);
            assert(to_std_spec(pad_spec(url@)) == e@);
        } else {
            assert(url@.len() % 4 == 4 - t);
            assert(pad_spec(url@) =~= url@ + Seq::new(t as nat, |i: int| '='));
            lemma_to_std_to_url(stripped@);
            assert(to_std_spec(url@ + Seq::new(t as nat, |i: int| '=')) =~= to_std_spec(url@)
                + Seq::new(t as nat, |i: int| '='));
            assert(to_std_spec(pad_spec(url@)) =~= e@);
        }
        assert(b64_decode_of(to_std_spec(pad_spec(url@))) == Some(b@));
    }
    string_from_chars(&url)
}

/// Padding fix-up is idempotent: appending one `=` to a string whose length
/// is not a multiple of four does not change what it decodes to, because
/// re-padding normalizes both inputs to the same string.  (When the length
/// is already a multiple of four the two inputs re-pad differently and are
/// never both valid base64.)
pub proof fn lemma_decode_padding_idempotent(s: Seq<char>)
    requires
        s.len() % 4 != 0,
    ensures
        decode_spec(s.push('=')) == decode_spec(s),
{
    let r = s.len() % 4;
    if r == 3 {
        assert(pad_spec(s.push('=')) =~= pad_spec(s));
    } else {
        assert(pad_spec(s.push('=')) =~= pad_spec(s));
    }
    assert(to_std_spec(pad_spec(s.push('='))) == to_std_spec(pad_spec(s)));
}

} // verus!
