//! Character-sequence utilities: searching, splitting, digit parsing, and
//! the conversions between `&str`/`String` and `Vec<char>` that the rest of
//! the crate works on.

use vstd::prelude::*;

verus! {

// ---------------------------------------------------------------------------
// Conversions between strings and character vectors
// ---------------------------------------------------------------------------

/// Relies on `str::chars`: iterating a string yields exactly the characters
/// of its view, in order.
#[verifier::external_body]
pub(crate) fn chars_of(s: &str) -> (r: Vec<char>)
    ensures
        r@ == s@,
{
    s.chars().collect()
}

/// Relies on `String`'s `FromIterator<char>` impl: collecting characters
/// builds the string of exactly those characters, in order.
#[verifier::external_body]
pub(crate) fn string_from_chars(v: &Vec<char>) -> (r: String)
    ensures
        r@ == v@,
{
    v.iter().collect()
}

// ---------------------------------------------------------------------------
// First occurrence of a character
// ---------------------------------------------------------------------------

/// The index of the first occurrence of `c` in `s`, if any.
pub open spec fn index_of_char(s: Seq<char>, c: char) -> Option<int>
    decreases s.len(),
{
    if s.len() == 0 {
        None
    } else if s[0] == c {
        Some(0)
    } else {
        match index_of_char(s.drop_first(), c) {
            None => None,
            Some(i) => Some(i + 1),
        }
    }
}

/// `index_of_char` finds `c` at the returned index and nowhere earlier;
/// `None` means `c` does not occur at all.
pub proof fn lemma_index_of_char(s: Seq<char>, c: char)
    ensures
        match index_of_char(s, c) {
            Some(i) => 0 <= i < s.len() && s[i] == c && (forall|j: int| 0 <= j < i ==> s[j] != c),
            None => forall|j: int| 0 <= j < s.len() ==> s[j] != c,
        },
    decreases s.len(),
{
    if s.len() == 0 {
    } else if s[0] == c {
    } else {
        lemma_index_of_char(s.drop_first(), c);
        assert(forall|j: int| 1 <= j < s.len() ==> s[j] == s.drop_first()[j - 1]);
    }
}

/// The converse: a first occurrence at `i` pins `index_of_char` to `Some(i)`.
pub proof fn lemma_index_of_char_at(s: Seq<char>, c: char, i: int)
    requires
        0 <= i < s.len(),
        s[i] == c,
        forall|j: int| 0 <= j < i ==> s[j] != c,
    ensures
        index_of_char(s, c) == Some(i),
{
    lemma_index_of_char(s, c);
    match index_of_char(s, c) {
        Some(k) => {
            if k < i {
                assert(s[k] != c);
            } else if i < k {
                assert(s[i] != c);
            }
        },
        None => {
            assert(s[i] != c);
        },
    }
}

/// How `index_of_char` behaves on a concatenation: the left part is searched
/// first.
pub proof fn lemma_index_of_char_append(s: Seq<char>, t: Seq<char>, c: char)
    ensures
        index_of_char(s + t, c) == match index_of_char(s, c) {
            Some(i) => Some(i),
            None => match index_of_char(t, c) {
                Some(j) => Some(s.len() + j),
                None => None::<int>,
            },
        },
{
    lemma_index_of_char(s, c);
    lemma_index_of_char(t, c);
    match index_of_char(s, c) {
        Some(i) => {
            assert((s + t)[i] == c);
            lemma_index_of_char_at(s + t, c, i);
        },
        None => {
            match index_of_char(t, c) {
                Some(j) => {
                    assert((s + t)[s.len() + j] == c);
                    assert(forall|k: int| 0 <= k < s.len() ==> (s + t)[k] == s[k]);
                    assert(forall|k: int|
                        s.len() <= k < s.len() + j ==> (s + t)[k] == t[k - s.len()]);
                    lemma_index_of_char_at(s + t, c, s.len() + j);
                },
                None => {
                    lemma_index_of_char(s + t, c);
                    match index_of_char(s + t, c) {
                        Some(k) => {
                            assert((s + t)[k] == c);
                            if k < s.len() {
                                assert(s[k] != c);
                            } else {
                                assert(t[k - s.len()] != c);
                            }
                        },
                        None => {},
                    }
                },
            }
        },
    }
}

/// The first occurrence of `c` in `v`, found by a scan.
pub fn find_char(v: &Vec<char>, c: char) -> (r: Option<usize>)
    ensures
        match r {
            Some(i) => index_of_char(v@, c) == Some(i as int),
            None => index_of_char(v@, c) is None,
        },
{
    let mut i: usize = 0;
    while i < v.len()
        invariant
            0 <= i <= v.len(),
            forall|j: int| 0 <= j < i ==> v@[j] != c,
        decreases v.len() - i,
    {
        if v[i] == c {
            proof {
                lemma_index_of_char_at(v@, c, i as int);
            }
            return Some(i);
        }
        i += 1;
    }
    proof {
        lemma_index_of_char(v@, c);
        match index_of_char(v@, c) {
            Some(k) => {
                assert(v@[k] != c);
            },
            None => {},
        }
    }
    None
}

// ---------------------------------------------------------------------------
// Splitting on a separator character
// ---------------------------------------------------------------------------

/// The pieces of `s` between occurrences of `c`, in order.  Never empty: a
/// string without the separator is one piece, a trailing separator yields a
/// trailing empty piece.
pub open spec fn split_char(s: Seq<char>, c: char) -> Seq<Seq<char>>
    decreases s.len(),
    via split_char_decreases
{
    match index_of_char(s, c) {
        None => seq![s],
        Some(i) => seq![s.take(i)] + split_char(s.skip(i + 1), c),
    }
}

#[via_fn]
proof fn split_char_decreases(s: Seq<char>, c: char) {
    lemma_index_of_char(s, c);
}

/// A split has at least one piece.
pub proof fn lemma_split_char_len(s: Seq<char>, c: char)
    ensures
        split_char(s, c).len() >= 1,
    decreases s.len(),
{
    lemma_index_of_char(s, c);
}

/// Appending the separator closes the current last piece and opens an empty
/// one.
pub proof fn lemma_split_char_push_sep(s: Seq<char>, c: char)
    ensures
        split_char(s.push(c), c) == split_char(s, c).push(Seq::<char>::empty()),
    decreases s.len(),
{
    lemma_index_of_char(s, c);
    lemma_index_of_char_append(s, seq![c], c);
    assert(s.push(c) =~= s + seq![c]);
    match index_of_char(s, c) {
        None => {
            assert(index_of_char(s.push(c), c) == Some(s.len() as int));
            assert(s.push(c).take(s.len() as int) =~= s);
            assert(s.push(c).skip(s.len() as int + 1) =~= Seq::<char>::empty());
            assert(split_char(Seq::<char>::empty(), c) =~~= seq![Seq::<char>::empty()]);
            assert(split_char(s.push(c), c) =~~= split_char(s, c).push(Seq::<char>::empty()));
        },
        Some(i) => {
            assert(index_of_char(s.push(c), c) == Some(i));
            assert(s.push(c).take(i) =~= s.take(i));
            assert(s.push(c).skip(i + 1) =~= s.skip(i + 1).push(c));
            lemma_split_char_push_sep(s.skip(i + 1), c);
            assert(split_char(s.push(c), c) =~~= split_char(s, c).push(Seq::<char>::empty()));
        },
    }
}

/// Appending any other character extends the last piece.
pub proof fn lemma_split_char_push_other(s: Seq<char>, x: char, c: char)
    requires
        x != c,
    ensures
        split_char(s.push(x), c) == split_char(s, c).update(
            split_char(s, c).len() - 1,
            split_char(s, c).last().push(x),
        ),
    decreases s.len(),
{
    lemma_index_of_char(s, c);
    lemma_index_of_char_append(s, seq![x], c);
    lemma_split_char_len(s, c);
    assert(s.push(x) =~= s + seq![x]);
    match index_of_char(s, c) {
        None => {
            assert(index_of_char(seq![x], c) is None) by {
                lemma_index_of_char(seq![x], c);
            }
            assert(index_of_char(s.push(x), c) is None);
            assert(split_char(s.push(x), c) =~~= split_char(s, c).update(
                split_char(s, c).len() - 1,
                split_char(s, c).last().push(x),
            ));
        },
        Some(i) => {
            assert(index_of_char(s.push(x), c) == Some(i));
            assert(s.push(x).take(i) =~= s.take(i));
            assert(s.push(x).skip(i + 1) =~= s.skip(i + 1).push(x));
            lemma_split_char_push_other(s.skip(i + 1), x, c);
            lemma_split_char_len(s.skip(i + 1), c);
            assert(split_char(s.push(x), c) =~~= split_char(s, c).update(
                split_char(s, c).len() - 1,
                split_char(s, c).last().push(x),
            ));
        },
    }
}

/// A separator-free prefix before an explicit separator is the first piece.
pub proof fn lemma_split_char_prefix(a: Seq<char>, rest: Seq<char>, c: char)
    requires
        forall|i: int| 0 <= i < a.len() ==> a[i] != c,
    ensures
        split_char(a + seq![c] + rest, c) == seq![a] + split_char(rest, c),
{
    let s = a + seq![c] + rest;
    assert(s[a.len() as int] == c);
    assert(forall|j: int| 0 <= j < a.len() ==> s[j] == a[j]);
    lemma_index_of_char_at(s, c, a.len() as int);
    assert(s.take(a.len() as int) =~= a);
    assert(s.skip(a.len() as int + 1) =~= rest);
    assert(split_char(s, c) =~~= seq![a] + split_char(rest, c));
}

/// A separator-free string is a single piece.
pub proof fn lemma_split_char_whole(s: Seq<char>, c: char)
    requires
        forall|i: int| 0 <= i < s.len() ==> s[i] != c,
    ensures
        split_char(s, c) == seq![s],
{
    lemma_index_of_char(s, c);
    match index_of_char(s, c) {
        Some(i) => {
            assert(s[i] != c);
        },
        None => {},
    }
}

/// The views of a vector of character vectors.
pub open spec fn seqs_of(r: Seq<Vec<char>>) -> Seq<Seq<char>> {
    r.map_values(|u: Vec<char>| u@)
}

/// Splits `v` at every occurrence of `c`.
pub fn split_char_exec(v: &Vec<char>, c: char) -> (r: Vec<Vec<char>>)
    ensures
        seqs_of(r@) == split_char(v@, c),
{
    let mut parts: Vec<Vec<char>> = Vec::new();
    let mut cur: Vec<char> = Vec::new();
    let mut i: usize = 0;
    proof {
        assert(v@.take(0) =~= Seq::<char>::empty());
        assert(seqs_of(parts@).push(cur@) =~~= split_char(v@.take(0), c));
    }
    while i < v.len()
        invariant
            0 <= i <= v.len(),
            seqs_of(parts@).push(cur@) == split_char(v@.take(i as int), c),
        decreases v.len() - i,
    {
        let x = v[i];
        proof {
            assert(v@.take(i + 1) =~= v@.take(i as int).push(v@[i as int]));
        }
        if x == c {
            proof {
                lemma_split_char_push_sep(v@.take(i as int), c);
            }
            parts.push(cur);
            cur = Vec::new();
            proof {
                assert(seqs_of(parts@).push(cur@) =~~= split_char(v@.take(i + 1), c));
            }
        } else {
            proof {
                lemma_split_char_push_other(v@.take(i as int), x, c);
                lemma_split_char_len(v@.take(i as int), c);
            }
            cur.push(x);
            proof {
                assert(seqs_of(parts@).push(cur@) =~~= split_char(v@.take(i + 1), c));
            }
        }
        i += 1;
    }
    proof {
        assert(v@.take(v@.len() as int) =~= v@);
    }
    parts.push(cur);
    proof {
        assert(seqs_of(parts@) =~~= split_char(v@, c));
    }
    parts
}

// ---------------------------------------------------------------------------
// Small vector helpers
// ---------------------------------------------------------------------------

/// The characters of `v` from `from` (inclusive) to `to` (exclusive).
pub fn subvec(v: &Vec<char>, from: usize, to: usize) -> (r: Vec<char>)
    requires
        from <= to <= v.len(),
    ensures
        r@ == v@.subrange(from as int, to as int),
{
    let mut r: Vec<char> = Vec::new();
    let mut j: usize = from;
    proof {
        assert(r@ =~= v@.subrange(from as int, from as int));
    }
    while j < to
        invariant
            from <= j <= to <= v.len(),
            r@ == v@.subrange(from as int, j as int),
        decreases to - j,
    {
        r.push(v[j]);
        proof {
            assert(v@.subrange(from as int, j + 1) =~= v@.subrange(from as int, j as int).push(
                v@[j as int],
            ));
        }
        j += 1;
    }
    r
}

/// Whether two character vectors hold the same characters.
pub fn eq_chars(a: &Vec<char>, b: &Vec<char>) -> (r: bool)
    ensures
        r <==> a@ == b@,
{
    if a.len() != b.len() {
        return false;
    }
    let mut i: usize = 0;
    while i < a.len()
        invariant
            0 <= i <= a.len(),
            a.len() == b.len(),
            forall|j: int| 0 <= j < i ==> a@[j] == b@[j],
        decreases a.len() - i,
    {
        if a[i] != b[i] {
            return false;
        }
        i += 1;
    }
    proof {
        assert(a@ =~= b@);
    }
    true
}

/// Appends all of `src` to `dst`.
pub fn append_chars(dst: &mut Vec<char>, src: &Vec<char>)
    ensures
        final(dst)@ == old(dst)@ + src@,
{
    let mut i: usize = 0;
    proof {
        assert(dst@ =~= old(dst)@ + src@.take(0));
    }
    while i < src.len()
        invariant
            0 <= i <= src.len(),
            dst@ == old(dst)@ + src@.take(i as int),
        decreases src.len() - i,
    {
        dst.push(src[i]);
        proof {
            assert(old(dst)@ + src@.take(i + 1) =~= (old(dst)@ + src@.take(i as int)).push(
                src@[i as int],
            ));
        }
        i += 1;
    }
    proof {
        assert(src@.take(src@.len() as int) =~= src@);
    }
}

// ---------------------------------------------------------------------------
// Decimal digits
// ---------------------------------------------------------------------------

/// Whether `c` is a decimal digit.
pub open spec fn is_digit_char(c: char) -> bool {
    ('0' as u32) <= (c as u32) && (c as u32) <= ('9' as u32)
}

/// The numeric value of a digit character.
pub open spec fn digit_val(c: char) -> int {
    (c as u32) - ('0' as u32)
}

/// Whether every character of `s` is a decimal digit.
pub open spec fn all_digits(s: Seq<char>) -> bool {
    forall|i: int| 0 <= i < s.len() ==> is_digit_char(s[i])
}

/// The value of a digit string, most significant digit first.
pub open spec fn digits_val(s: Seq<char>) -> int
    decreases s.len(),
{
    if s.len() == 0 {
        0
    } else {
        digits_val(s.drop_last()) * 10 + digit_val(s.last())
    }
}

/// A digit string's value is non-negative and no smaller than the value of
/// any of its prefixes.
pub proof fn lemma_digits_val_prefix(s: Seq<char>, k: int)
    requires
        all_digits(s),
        0 <= k <= s.len(),
    ensures
        digits_val(s) >= digits_val(s.take(k)) >= 0,
    decreases s.len() - k,
{
    if k == s.len() {
        assert(s.take(k) =~= s);
        lemma_digits_val_nonneg(s);
    } else {
        lemma_digits_val_prefix(s, k + 1);
        assert(s.take(k + 1).drop_last() =~= s.take(k));
        assert(is_digit_char(s[k]));
        lemma_digits_val_nonneg(s.take(k));
    }
}

/// A digit string's value is non-negative.
pub proof fn lemma_digits_val_nonneg(s: Seq<char>)
    requires
        all_digits(s),
    ensures
        digits_val(s) >= 0,
    decreases s.len(),
{
    if s.len() > 0 {
        assert(all_digits(s.drop_last()));
        lemma_digits_val_nonneg(s.drop_last());
    }
}

/// The parse of a digit string as a 32-bit unsigned integer: defined exactly
/// when the string is non-empty, all digits, and the value fits.
pub open spec fn parse_u32_spec(s: Seq<char>) -> Option<u32> {
    if s.len() > 0 && all_digits(s) && digits_val(s) <= u32::MAX {
        Some(digits_val(s) as u32)
    } else {
        None
    }
}

/// Parses a digit string as a 32-bit unsigned integer.
pub fn parse_u32_chars(v: &Vec<char>) -> (r: Option<u32>)
    ensures
        r == parse_u32_spec(v@),
{
    if v.len() == 0 {
        return None;
    }
    let mut acc: u64 = 0;
    let mut i: usize = 0;
    while i < v.len()
        invariant
            0 <= i <= v.len(),
            v@.len() > 0,
            all_digits(v@.take(i as int)),
            acc == digits_val(v@.take(i as int)),
            acc <= u32::MAX,
        decreases v.len() - i,
    {
        let c = v[i];
        let cu: u32 = c as u32;
        if cu < ('0' as u32) || cu > ('9' as u32) {
            assert(!is_digit_char(v@[i as int]));
            assert(parse_u32_spec(v@) is None);
            return None;
        }
        let d: u64 = (cu - ('0' as u32)) as u64;
        proof {
            assert(v@.take(i + 1).drop_last() =~= v@.take(i as int));
            assert(v@.take(i + 1).last() == v@[i as int]);
        }
        acc = acc * 10 + d;
        if acc > (u32::MAX as u64) {
            proof {
                if all_digits(v@) {
                    lemma_digits_val_prefix(v@, i + 1);
                }
            }
            return None;
        }
        i += 1;
    }
    proof {
        assert(v@.take(v@.len() as int) =~= v@);
    }
    Some(acc as u32)
}

/// The digit characters of `n`, most significant first, without leading
/// zeros.
pub open spec fn dec_chars(n: u32) -> Seq<char>
    decreases n,
{
    if n < 10 {
        seq![digit_char(n as int)]
    } else {
        dec_chars((n / 10) as u32).push(digit_char((n % 10) as int))
    }
}

/// The character of the digit `d`.
pub open spec fn digit_char(d: int) -> char {
    if d == 0 {
        '0'
    } else if d == 1 {
        '1'
    } else if d == 2 {
        '2'
    } else if d == 3 {
        '3'
    } else if d == 4 {
        '4'
    } else if d == 5 {
        '5'
    } else if d == 6 {
        '6'
    } else if d == 7 {
        '7'
    } else if d == 8 {
        '8'
    } else {
        '9'
    }
}

/// A digit character carries the digit's value.
pub proof fn lemma_digit_char(d: int)
    requires
        0 <= d < 10,
    ensures
        is_digit_char(digit_char(d)),
        digit_val(digit_char(d)) == d,
{
    assert(digit_val('0') == 0);
    assert(digit_val('1') == 1);
    assert(digit_val('2') == 2);
    assert(digit_val('3') == 3);
    assert(digit_val('4') == 4);
    assert(digit_val('5') == 5);
    assert(digit_val('6') == 6);
    assert(digit_val('7') == 7);
    assert(digit_val('8') == 8);
    assert(digit_val('9') == 9);
}

/// `dec_chars` writes `n` in decimal: parsing it back yields `n`.
pub proof fn lemma_dec_chars(n: u32)
    ensures
        dec_chars(n).len() >= 1,
        all_digits(dec_chars(n)),
        digits_val(dec_chars(n)) == n,
        parse_u32_spec(dec_chars(n)) == Some(n),
    decreases n,
{
    if n < 10 {
        lemma_digit_char(n as int);
        let s = dec_chars(n);
        assert(s == seq![digit_char(n as int)]);
        assert(s.len() == 1);
        assert(s.last() == digit_char(n as int));
        assert(s.drop_last() =~= Seq::<char>::empty());
        assert(digits_val(s.drop_last()) == 0);
        assert(digits_val(s) == digits_val(s.drop_last()) * 10 + digit_val(s.last()));
        assert(digits_val(dec_chars(n)) == n);
    } else {
        lemma_dec_chars((n / 10) as u32);
        lemma_digit_char((n % 10) as int);
        assert(dec_chars(n).drop_last() =~= dec_chars((n / 10) as u32));
        assert(n == (n / 10) * 10 + (n % 10)) by (nonlinear_arith);
        assert(digits_val(dec_chars(n)) == n);
    }
}

/// Writes `n` in decimal.
pub fn u32_to_dec_chars(n: u32) -> (r: Vec<char>)
    ensures
        r@ == dec_chars(n),
    decreases n,
{
    let d: u32 = n % 10;
    let q: u32 = n / 10;
    let last = if d == 0 {
        '0'
    } else if d == 1 {
        '1'
    } else if d == 2 {
        '2'
    } else if d == 3 {
        '3'
    } else if d == 4 {
        '4'
    } else if d == 5 {
        '5'
    } else if d == 6 {
        '6'
    } else if d == 7 {
        '7'
    } else if d == 8 {
        '8'
    } else {
        '9'
    };
    if n < 10 {
        let mut r: Vec<char> = Vec::new();
        r.push(last);
        proof {
            assert(r@ =~= dec_chars(n));
        }
        r
    } else {
        let mut r = u32_to_dec_chars(q);
        r.push(last);
        proof {
            assert(r@ =~= dec_chars(n));
        }
        r
    }
}

} // verus!
