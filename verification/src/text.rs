//! Text groundwork for the message protocol: UTF-8 decoding, ASCII
//! whitespace tokenization of the start line, and decimal number tokens.

use vstd::prelude::*;
use vstd::string::StrSliceExecFns;
use vstd::utf8::{valid_utf8, decode_utf8, encode_utf8, encode_utf8_valid_utf8,
    encode_utf8_decode_utf8};

verus! {

/// ASCII whitespace, the separator between start-line tokens.
pub open spec fn is_ws(c: char) -> bool {
    c == ' ' || c == '\t' || c == '\n' || c == '\r' || c == '\u{c}'
}

/// Length of the maximal leading run of non-whitespace characters.
pub open spec fn word_len(s: Seq<char>) -> nat
    decreases s.len(),
{
    if s.len() == 0 || is_ws(s[0]) {
        0
    } else {
        (1 + word_len(s.drop_first())) as nat
    }
}

pub proof fn lemma_word_len_le(s: Seq<char>)
    ensures
        word_len(s) <= s.len(),
    decreases s.len(),
{
    if s.len() != 0 && !is_ws(s[0]) {
        lemma_word_len_le(s.drop_first());
    }
}

/// The line's tokens: the maximal whitespace-free words, in order.
pub open spec fn split_ws(s: Seq<char>) -> Seq<Seq<char>>
    decreases s.len() via split_ws_decreases
{
    if s.len() == 0 {
        Seq::empty()
    } else if is_ws(s[0]) {
        split_ws(s.drop_first())
    } else {
        let k = word_len(s) as int;
        seq![s.take(k)] + split_ws(s.skip(k))
    }
}

#[via_fn]
proof fn split_ws_decreases(s: Seq<char>) {
    lemma_word_len_le(s);
}

/// A token contains no whitespace.
pub open spec fn ws_free(s: Seq<char>) -> bool {
    forall|i: int| 0 <= i < s.len() ==> !is_ws(#[trigger] s[i])
}

/// The maximal word at the head of `w + rest` is `w` itself when `rest`
/// opens with whitespace or is empty.
pub proof fn lemma_word_len_concat(w: Seq<char>, rest: Seq<char>)
    requires
        ws_free(w),
        rest.len() == 0 || is_ws(rest[0]),
    ensures
        word_len(w + rest) == w.len(),
    decreases w.len(),
{
    if w.len() == 0 {
        assert(w + rest =~= rest);
    } else {
        assert((w + rest).drop_first() =~= w.drop_first() + rest);
        lemma_word_len_concat(w.drop_first(), rest);
    }
}

/// Tokenizing a word, a space, and a remainder yields the word, then the
/// remainder's tokens.
pub proof fn lemma_split_ws_step(w: Seq<char>, rest: Seq<char>)
    requires
        w.len() > 0,
        ws_free(w),
    ensures
        split_ws(w + seq![' '] + rest) == seq![w] + split_ws(rest),
{
    let s = w + seq![' '] + rest;
    assert(s =~= w + (seq![' '] + rest));
    lemma_word_len_concat(w, seq![' '] + rest);
    assert(word_len(s) == w.len());
    assert(!is_ws(w[0]));
    assert(s[0] == w[0]);
    assert(s.take(w.len() as int) =~= w);
    assert(s.skip(w.len() as int) =~= seq![' '] + rest);
    assert((seq![' '] + rest).drop_first() =~= rest);
    assert(split_ws(seq![' '] + rest) == split_ws(rest));
}

/// A single whitespace-free word is its own one token.
pub proof fn lemma_split_ws_word(w: Seq<char>)
    requires
        w.len() > 0,
        ws_free(w),
    ensures
        split_ws(w) == seq![w],
{
    assert(w =~= w + Seq::<char>::empty());
    lemma_word_len_concat(w, Seq::<char>::empty());
    assert(word_len(w) == w.len());
    assert(!is_ws(w[0]));
    assert(w.take(w.len() as int) =~= w);
    assert(w.skip(w.len() as int) =~= Seq::<char>::empty());
    assert(split_ws(w) == seq![w] + split_ws(Seq::<char>::empty()));
    assert(seq![w] + Seq::<Seq<char>>::empty() =~= seq![w]);
}

/// Exec mirror of [`is_ws`].
pub(crate) fn ws_char(c: char) -> (b: bool)
    ensures
        b == is_ws(c),
{
    c == ' ' || c == '\t' || c == '\n' || c == '\r' || c == '\u{c}'
}

/// Split a line into its whitespace-separated tokens.
pub(crate) fn tokenize(s: &Vec<char>) -> (toks: Vec<Vec<char>>)
    ensures
        toks.deep_view() == split_ws(s@),
{
    let mut toks: Vec<Vec<char>> = Vec::new();
    let mut i: usize = 0;
    proof {
        assert(s@.skip(0) =~= s@);
        assert(toks.deep_view() =~~= Seq::<Seq<char>>::empty());
        assert(toks.deep_view() + split_ws(s@) =~~= split_ws(s@));
    }
    while i < s.len()
        invariant
            0 <= i <= s@.len(),
            toks.deep_view() + split_ws(s@.skip(i as int)) =~~= split_ws(s@),
        decreases s@.len() - i,
    {
        if ws_char(s[i]) {
            proof {
                assert(s@.skip(i as int).drop_first() =~= s@.skip(i + 1));
            }
            i += 1;
        } else {
            let ghost start = i as int;
            let ghost dv0 = toks.deep_view();
            let mut word: Vec<char> = Vec::new();
            while i < s.len() && !ws_char(s[i])
                invariant
                    0 <= start <= i <= s@.len(),
                    start < s@.len(),
                    !is_ws(s@[start]),
                    word@ == s@.subrange(start, i as int),
                    ws_free(word@),
                decreases s@.len() - i,
            {
                word.push(s[i]);
                assert(word@ =~= s@.subrange(start, i + 1));
                i += 1;
            }
            proof {
                let tail = s@.skip(i as int);
                assert(s@.skip(start) =~= word@ + tail);
                assert(tail.len() == 0 || is_ws(tail[0]));
                lemma_word_len_concat(word@, tail);
                assert(word_len(s@.skip(start)) == word@.len());
                assert(s@.skip(start).take(word@.len() as int) =~= word@);
                assert(s@.skip(start).skip(word@.len() as int) =~= tail);
                assert(split_ws(s@.skip(start)) == seq![word@] + split_ws(tail));
            }
            let ghost wv = word@;
            toks.push(word);
            proof {
                assert(toks.deep_view() =~~= dv0.push(wv));
                assert(toks.deep_view() + split_ws(s@.skip(i as int)) =~~= split_ws(s@));
            }
        }
    }
    proof {
        assert(s@.skip(s@.len() as int) =~= Seq::<char>::empty());
        assert(toks.deep_view() =~~= split_ws(s@));
    }
    toks
}

/// Decimal digit characters and their values.
pub open spec fn is_digit(c: char) -> bool {
    48 <= c as u32 <= 57
}

/// The numeric value of a digit character.
pub open spec fn digit_val(c: char) -> int
    recommends
        is_digit(c),
{
    c as u32 - 48
}

/// Every character of the token is a decimal digit.
pub open spec fn all_digits(s: Seq<char>) -> bool {
    forall|i: int| 0 <= i < s.len() ==> is_digit(#[trigger] s[i])
}

/// The number a digit string denotes, most significant digit first.
pub open spec fn digits_val(s: Seq<char>) -> int
    recommends
        all_digits(s),
    decreases s.len(),
{
    if s.len() == 0 {
        0
    } else {
        digits_val(s.drop_last()) * 10 + digit_val(s.last())
    }
}

/// The character for one decimal digit.
pub open spec fn digit_char(d: int) -> char
    recommends
        0 <= d <= 9,
{
    if d == 0 { '0' } else if d == 1 { '1' } else if d == 2 { '2' }
    else if d == 3 { '3' } else if d == 4 { '4' } else if d == 5 { '5' }
    else if d == 6 { '6' } else if d == 7 { '7' } else if d == 8 { '8' }
    else { '9' }
}

/// The canonical decimal digits of a non-negative number.
pub open spec fn dec_chars(n: int) -> Seq<char>
    recommends
        n >= 0,
    decreases n,
{
    if n <= 9 {
        seq![digit_char(n)]
    } else {
        dec_chars(n / 10) + seq![digit_char(n % 10)]
    }
}

/// A number token with any leading `+` sign removed.
pub open spec fn sign_stripped(s: Seq<char>) -> Seq<char> {
    if s.len() > 0 && s[0] == '+' {
        s.drop_first()
    } else {
        s
    }
}

/// What a number token means: an optional leading `+`, then at least one
/// digit, denoting a value that fits in `usize`; anything else is rejected.
pub open spec fn parse_usize_spec(s: Seq<char>) -> Option<int> {
    let ds = sign_stripped(s);
    if ds.len() > 0 && all_digits(ds) && digits_val(ds) <= usize::MAX {
        Some(digits_val(ds))
    } else {
        None
    }
}

pub proof fn lemma_digits_val_nonneg(s: Seq<char>)
    requires
        all_digits(s),
    ensures
        digits_val(s) >= 0,
    decreases s.len(),
{
    if s.len() > 0 {
        assert(all_digits(s.drop_last()));
        lemma_digits_val_nonneg(s.drop_last());
        assert(digits_val(s.drop_last()) * 10 >= 0);
    }
}

/// Extending a digit string multiplies its value by ten and adds the digit.
pub proof fn lemma_digits_val_snoc(s: Seq<char>, c: char)
    ensures
        digits_val(s.push(c)) == digits_val(s) * 10 + digit_val(c),
{
    assert(s.push(c).drop_last() =~= s);
    assert(s.push(c).last() == c);
}

/// A longer prefix of a digit string never denotes a smaller number.
pub proof fn lemma_digits_val_prefix_le(s: Seq<char>, i: int)
    requires
        all_digits(s),
        0 <= i <= s.len(),
    ensures
        digits_val(s.take(i)) <= digits_val(s),
    decreases s.len() - i,
{
    if i < s.len() {
        let t = s.take(i + 1);
        assert(t.drop_last() =~= s.take(i));
        assert(all_digits(s.take(i)));
        lemma_digits_val_nonneg(s.take(i));
        assert(digits_val(t) == digits_val(s.take(i)) * 10 + digit_val(t.last()));
        assert(digits_val(s.take(i)) * 10 >= digits_val(s.take(i)));
        lemma_digits_val_prefix_le(s, i + 1);
    } else {
        assert(s.take(i) =~= s);
    }
}

/// The canonical digits of `n` denote `n`, are pure digits, and start with
/// no sign.
pub proof fn lemma_dec_chars_val(n: int)
    requires
        n >= 0,
    ensures
        dec_chars(n).len() >= 1,
        all_digits(dec_chars(n)),
        digits_val(dec_chars(n)) == n,
    decreases n,
{
    if n <= 9 {
        let s = dec_chars(n);
        assert(s.last() == digit_char(n));
        assert(s.drop_last() =~= Seq::<char>::empty());
        assert(digits_val(Seq::<char>::empty()) == 0);
        assert(digits_val(s) == 0 * 10 + digit_val(digit_char(n)));
        assert(digit_val(digit_char(n)) == n);
    } else {
        assert(0 <= n / 10 < n && 0 <= n % 10 <= 9) by (nonlinear_arith)
            requires n > 9;
        lemma_dec_chars_val(n / 10);
        let a = dec_chars(n / 10);
        let c = digit_char(n % 10);
        assert(dec_chars(n) == a + seq![c]);
        assert(a + seq![c] =~= a.push(c));
        lemma_digits_val_snoc(a, c);
        assert(digit_val(c) == n % 10);
        assert(digits_val(dec_chars(n)) == digits_val(a) * 10 + n % 10);
        assert((n / 10) * 10 + n % 10 == n) by (nonlinear_arith)
            requires n >= 0;
        assert(forall|i: int| 0 <= i < dec_chars(n).len() ==> is_digit(#[trigger] dec_chars(n)[i]));
    }
}

/// Parse a start-line number token, exactly as [`parse_usize_spec`] reads it.
pub(crate) fn parse_usize_chars(s: &Vec<char>) -> (r: Option<usize>)
    ensures
        r is Some <==> parse_usize_spec(s@) is Some,
        r matches Some(v) ==> parse_usize_spec(s@) == Some(v as int),
{
    let start: usize = if s.len() > 0 && s[0] == '+' {
        1
    } else {
        0
    };
    let ghost ds = sign_stripped(s@);
    assert(ds =~= s@.skip(start as int));
    if s.len() == start {
        return None;
    }
    let mut acc: usize = 0;
    let mut i: usize = start;
    while i < s.len()
        invariant
            start <= i <= s@.len(),
            start <= 1,
            ds == sign_stripped(s@),
            ds == s@.skip(start as int),
            all_digits(ds.take(i - start)),
            acc as int == digits_val(ds.take(i - start)),
        decreases s@.len() - i,
    {
        let u = s[i] as u32;
        if u < 48 || u > 57 {
            assert(!is_digit(s@[i as int]));
            assert(ds[i - start] == s@[i as int]);
            assert(!all_digits(ds));
            return None;
        }
        let d = (u - 48) as usize;
        proof {
            assert(is_digit(s@[i as int]));
            assert(ds.take(i + 1 - start).drop_last() =~= ds.take(i - start));
            assert(ds.take(i + 1 - start).last() == s@[i as int]);
            assert(all_digits(ds.take(i + 1 - start)));
        }
        if acc > (usize::MAX - d) / 10 {
            proof {
                let t = ds.take(i + 1 - start);
                assert(digits_val(t) == acc * 10 + d);
                assert(usize::MAX < acc * 10 + d) by (nonlinear_arith)
                    requires 0 <= d <= 9, 0 <= acc, (usize::MAX - d) / 10 < acc;
                if all_digits(ds) {
                    lemma_digits_val_prefix_le(ds, i + 1 - start);
                }
            }
            return None;
        }
        proof {
            assert(acc * 10 + d <= usize::MAX && acc * 10 <= usize::MAX) by (nonlinear_arith)
                requires 0 <= d <= 9, 0 <= acc, acc <= (usize::MAX - d) / 10;
        }
        acc = acc * 10 + d;
        i += 1;
    }
    proof {
        assert(ds.take(s@.len() - start) =~= ds);
    }
    Some(acc)
}

/// Exec mirror of [`digit_char`].
pub(crate) fn digit_char_of(d: usize) -> (c: char)
    requires
        d <= 9,
    ensures
        c == digit_char(d as int),
{
    if d == 0 { '0' } else if d == 1 { '1' } else if d == 2 { '2' }
    else if d == 3 { '3' } else if d == 4 { '4' } else if d == 5 { '5' }
    else if d == 6 { '6' } else if d == 7 { '7' } else if d == 8 { '8' }
    else { '9' }
}

/// The canonical decimal digits of a number, as characters.
pub(crate) fn usize_dec_chars(n: usize) -> (r: Vec<char>)
    ensures
        r@ == dec_chars(n as int),
    decreases n,
{
    if n <= 9 {
        let c = digit_char_of(n);
        let mut v: Vec<char> = Vec::new();
        v.push(c);
        assert(v@ =~= dec_chars(n as int));
        v
    } else {
        let mut v = usize_dec_chars(n / 10);
        let c = digit_char_of(n % 10);
        v.push(c);
        assert(v@ =~= dec_chars(n as int));
        v
    }
}

/// Relies on `str::from_utf8`: it succeeds exactly on valid UTF-8 and
/// yields the characters the bytes encode.
#[verifier::external_body]
pub(crate) fn utf8_chars(v: &[u8]) -> (r: Option<Vec<char>>)
    ensures
        r is Some <==> valid_utf8(v@),
        r matches Some(cs) ==> cs@ == decode_utf8(v@),
{
    match core::str::from_utf8(v) {
        Ok(s) => Some(s.chars().collect()),
        Err(_) => None,
    }
}

/// Relies on `String`'s `FromIterator`: the collected string holds exactly
/// the given characters.
#[verifier::external_body]
pub(crate) fn chars_to_string(v: &Vec<char>) -> (r: String)
    ensures
        r@ == v@,
{
    v.iter().collect()
}

/// The characters of a string slice.
pub(crate) fn str_chars(s: &str) -> (r: Vec<char>)
    ensures
        r@ == s@,
{
    proof {
        encode_utf8_valid_utf8(s@);
        encode_utf8_decode_utf8(s@);
    }
    let b = s.as_bytes();
    match utf8_chars(b) {
        Some(cs) => cs,
        None => vstd::pervasive::unreached(),
    }
}

/// The UTF-8 bytes of a character vector.
pub(crate) fn chars_utf8(v: &Vec<char>) -> (r: Vec<u8>)
    ensures
        r@ == encode_utf8(v@),
{
    let s = chars_to_string(v);
    let r = s.as_str().as_bytes_vec();
    assert(r@ == encode_utf8(v@));
    r
}

} // verus!
