//! The textual amounts that the bonds tool prints, such as `12.5 SOLs`.
//!
//! An amount is a decimal number followed by a unit. This module says which
//! texts are decimal numbers and takes the unit off an amount.

use vstd::prelude::*;
use vstd::utf8::*;

verus! {

/// The unit that follows every amount.
pub open spec fn unit_suffix() -> Seq<char> {
    seq![' ', 'S', 'O', 'L', 's']
}

/// `c` is a decimal digit.
pub open spec fn is_digit(c: char) -> bool {
    '0' <= c && c <= '9'
}

/// `c` is a plus or a minus sign.
pub open spec fn is_sign(c: char) -> bool {
    c == '+' || c == '-'
}

/// Every character of `s` is a decimal digit.
pub open spec fn is_digits(s: Seq<char>) -> bool {
    forall|i: int| 0 <= i < s.len() ==> is_digit(#[trigger] s[i])
}

/// `s` without its leading sign, if it has one.
pub open spec fn unsigned(s: Seq<char>) -> Seq<char> {
    if s.len() > 0 && is_sign(s[0]) {
        s.skip(1)
    } else {
        s
    }
}

/// Digits with at most one decimal point among them, and at least one digit:
/// `12`, `12.`, `12.5` and `.5`, but not `.`.
pub open spec fn is_mantissa(s: Seq<char>) -> bool {
    ||| s.len() > 0 && is_digits(s)
    ||| exists|k: int|
        0 <= k < s.len() && #[trigger] s[k] == '.' && s.len() > 1 && is_digits(s.take(k))
            && is_digits(s.skip(k + 1))
}

/// The letter `e` in either case, an optional sign, and at least one digit.
pub open spec fn is_exponent(s: Seq<char>) -> bool {
    &&& s.len() > 0
    &&& (s[0] == 'e' || s[0] == 'E')
    &&& unsigned(s.skip(1)).len() > 0
    &&& is_digits(unsigned(s.skip(1)))
}

/// A mantissa, optionally followed by an exponent.
pub open spec fn is_number(s: Seq<char>) -> bool {
    exists|k: int|
        0 <= k <= s.len() && is_mantissa(#[trigger] s.take(k)) && (k == s.len() || is_exponent(
            s.skip(k),
        ))
}

/// `c` with an ASCII capital letter turned into its small letter.
pub open spec fn folded(c: char) -> char {
    if 'A' <= c && c <= 'Z' {
        ((c as u8) + 32) as u8 as char
    } else {
        c
    }
}

/// `s` spells the lower-case `word`, whatever the case of its letters.
pub open spec fn spells(s: Seq<char>, word: Seq<char>) -> bool {
    &&& s.len() == word.len()
    &&& forall|i: int| 0 <= i < s.len() ==> folded(#[trigger] s[i]) == word[i]
}

/// The texts that stand for a floating-point number: an optional sign, then
/// a decimal number or one of the words `inf`, `infinity` and `nan`.
///
/// This is the grammar that the standard library documents for parsing a
/// 64-bit float from a string, so a text that satisfies it converts.
pub open spec fn is_float_text(s: Seq<char>) -> bool {
    ||| spells(unsigned(s), seq!['i', 'n', 'f'])
    ||| spells(unsigned(s), seq!['i', 'n', 'f', 'i', 'n', 'i', 't', 'y'])
    ||| spells(unsigned(s), seq!['n', 'a', 'n'])
    ||| is_number(unsigned(s))
}

/// Why a text is no amount.
#[derive(Debug, Clone, Copy, PartialEq, Eq, Structural)]
pub enum AmountError {
    /// The text does not end with the unit.
    MissingUnit,
    /// What stands before the unit is no number.
    NotANumber,
}

/// The number that an amount text carries: the text before the unit, where
/// that is a number.
pub open spec fn amount_number(text: Seq<char>) -> Result<Seq<char>, AmountError> {
    if !unit_suffix().is_suffix_of(text) {
        Err(AmountError::MissingUnit)
    } else if !is_float_text(text.take(text.len() - unit_suffix().len())) {
        Err(AmountError::NotANumber)
    } else {
        Ok(text.take(text.len() - unit_suffix().len()))
    }
}

// The ASCII codes that the scan tells apart.
const DIGIT_ZERO: u8 = 48;

const DIGIT_NINE: u8 = 57;

const POINT: u8 = 46;

const PLUS: u8 = 43;

const MINUS: u8 = 45;

const SMALL_E: u8 = 101;

const CAPITAL_E: u8 = 69;

const CAPITAL_A: u8 = 65;

const CAPITAL_Z: u8 = 90;

/// How far a small letter's code lies above its capital's.
const CASE_GAP: u8 = 32;

/// The characters that ASCII `bytes` stand for, one for one.
spec fn chars_of(bytes: Seq<u8>) -> Seq<char> {
    Seq::new(bytes.len(), |i: int| bytes[i] as char)
}

/// The first position at or after `from` that holds no decimal digit.
fn digits_end(bytes: &[u8], from: usize) -> (to: usize)
    requires
        from <= bytes@.len(),
    ensures
        from <= to <= bytes@.len(),
        forall|j: int| from <= j < to ==> is_digit(#[trigger] chars_of(bytes@)[j]),
        to < bytes@.len() ==> !is_digit(chars_of(bytes@)[to as int]),
{
    let mut to: usize = from;
    while to < bytes.len() && DIGIT_ZERO <= bytes[to] && bytes[to] <= DIGIT_NINE
        invariant
            from <= to <= bytes@.len(),
            forall|j: int| from <= j < to ==> is_digit(#[trigger] chars_of(bytes@)[j]),
        decreases bytes@.len() - to,
    {
        to = to + 1;
    }
    to
}

/// What a scan of `body` for a mantissa found: digits up to `whole`, then, if
/// a decimal point stands there, digits up to `end`.
spec fn scanned(body: Seq<char>, whole: int, pointed: bool, end: int) -> bool {
    &&& 0 <= whole <= body.len()
    &&& forall|j: int| 0 <= j < whole ==> is_digit(#[trigger] body[j])
    &&& whole < body.len() ==> !is_digit(body[whole])
    &&& pointed <==> whole < body.len() && body[whole] == '.'
    &&& !pointed ==> end == whole
    &&& pointed ==> {
        &&& whole < end <= body.len()
        &&& forall|j: int| whole < j < end ==> is_digit(#[trigger] body[j])
        &&& end < body.len() ==> !is_digit(body[end])
    }
}

/// `k` splits `body` into a mantissa and what may follow one.
spec fn splits_number(body: Seq<char>, k: int) -> bool {
    0 <= k <= body.len() && is_mantissa(body.take(k)) && (k == body.len() || is_exponent(
        body.skip(k),
    ))
}

/// The digits that a scan met.
spec fn scanned_digits(pointed: bool, end: int) -> int {
    if pointed {
        end - 1
    } else {
        end
    }
}

/// A mantissa that stops before anything that could continue it ends where
/// the scan stopped, and holds a digit.
proof fn lemma_mantissa_ends_at_scan(
    body: Seq<char>,
    whole: int,
    pointed: bool,
    end: int,
    k: int,
)
    requires
        scanned(body, whole, pointed, end),
        0 <= k <= body.len(),
        is_mantissa(body.take(k)),
        k < body.len() ==> !is_digit(body[k]) && body[k] != '.',
    ensures
        k == end,
        scanned_digits(pointed, end) > 0,
{
    let t = body.take(k);
    if t.len() > 0 && is_digits(t) {
        assert forall|j: int| 0 <= j < k implies is_digit(body[j]) by {
            assert(t[j] == body[j]);
        }
        if whole < k {
            assert(is_digit(body[whole]));
        }
        if k < whole {
            assert(is_digit(body[k]));
        }
    } else {
        let d = choose|d: int|
            0 <= d < t.len() && #[trigger] t[d] == '.' && t.len() > 1 && is_digits(t.take(d))
                && is_digits(t.skip(d + 1));
        assert(body[d] == '.');
        assert forall|j: int| 0 <= j < d implies is_digit(body[j]) by {
            assert(t.take(d)[j] == body[j]);
        }
        assert forall|j: int| d < j < k implies is_digit(body[j]) by {
            assert(t.skip(d + 1)[j - d - 1] == body[j]);
        }
        if d < whole {
            assert(is_digit(body[d]));
        }
        if whole < d {
            assert(is_digit(body[whole]));
        }
        assert(d == whole);
        if end < k {
            assert(is_digit(body[end]));
        }
        if k < end {
            assert(is_digit(body[k]));
        }
    }
}

/// A number's mantissa can only end where the scan stopped, and the scan
/// found a mantissa exactly when it met a digit.
proof fn lemma_scan_finds_mantissa(body: Seq<char>, whole: int, pointed: bool, end: int)
    requires
        scanned(body, whole, pointed, end),
    ensures
        is_number(body) <==> splits_number(body, end),
        is_mantissa(body.take(end)) <==> scanned_digits(pointed, end) > 0,
{
    if is_number(body) {
        let k = choose|k: int|
            0 <= k <= body.len() && is_mantissa(#[trigger] body.take(k)) && (k == body.len()
                || is_exponent(body.skip(k)));
        if k < body.len() {
            assert(body.skip(k)[0] == body[k]);
        }
        lemma_mantissa_ends_at_scan(body, whole, pointed, end, k);
    }
    if is_mantissa(body.take(end)) && pointed {
        assert(body.take(end)[whole] == '.');
    }
    if scanned_digits(pointed, end) > 0 {
        let t = body.take(end);
        if pointed {
            assert(t[whole] == '.');
            assert(is_digits(t.take(whole)));
            assert(is_digits(t.skip(whole + 1)));
        } else {
            assert(is_digits(t));
        }
    }
}

/// Whether the ASCII bytes from `from` on spell a decimal number.
fn number_from(bytes: &[u8], from: usize) -> (ok: bool)
    requires
        from <= bytes@.len(),
    ensures
        ok == is_number(chars_of(bytes@).skip(from as int)),
{
    let n = bytes.len();
    let ghost all = chars_of(bytes@);
    let ghost body = all.skip(from as int);
    let whole_end = digits_end(bytes, from);
    let pointed = whole_end < n && bytes[whole_end] == POINT;
    let mantissa_end = if pointed {
        digits_end(bytes, whole_end + 1)
    } else {
        whole_end
    };
    let ghost m = mantissa_end - from;
    proof {
        assert forall|j: int| 0 <= j < body.len() implies #[trigger] body[j] == all[from + j] by {}
        assert(scanned(body, whole_end - from, pointed, m));
        lemma_scan_finds_mantissa(body, whole_end - from, pointed, m);
    }
    let digits = if pointed {
        mantissa_end - from - 1
    } else {
        mantissa_end - from
    };
    if digits == 0 {
        return false;
    }
    if mantissa_end == n {
        return true;
    }
    if bytes[mantissa_end] != SMALL_E && bytes[mantissa_end] != CAPITAL_E {
        proof {
            assert(body.skip(m)[0] == body[m]);
        }
        return false;
    }
    let signed = mantissa_end + 1 < n && (bytes[mantissa_end + 1] == PLUS || bytes[mantissa_end + 1]
        == MINUS);
    let exponent_start = if signed {
        mantissa_end + 2
    } else {
        mantissa_end + 1
    };
    let exponent_end = digits_end(bytes, exponent_start);
    proof {
        let tail = body.skip(m);
        let rest = tail.skip(1);
        let shown = unsigned(rest);
        assert(tail[0] == body[m]);
        if rest.len() > 0 {
            assert(rest[0] == all[mantissa_end + 1]);
        }
        assert(shown.len() == n - exponent_start);
        assert forall|j: int| 0 <= j < shown.len() implies #[trigger] shown[j] == all[exponent_start
            + j] by {}
        if exponent_end == n {
            assert(is_digits(shown));
        } else {
            assert(shown[exponent_end - exponent_start] == all[exponent_end as int]);
        }
    }
    exponent_end > exponent_start && exponent_end == n
}

/// `b` with an ASCII capital letter turned into its small letter.
fn lowered(b: u8) -> (small: u8)
    ensures
        small as char == folded(b as char),
{
    if CAPITAL_A <= b && b <= CAPITAL_Z {
        b + CASE_GAP
    } else {
        b
    }
}

/// Whether the ASCII bytes from `from` on spell the lower-case `word`.
fn spells_from(bytes: &[u8], from: usize, word: &str) -> (ok: bool)
    requires
        from <= bytes@.len(),
        word.is_ascii(),
    ensures
        ok == spells(chars_of(bytes@).skip(from as int), word@),
{
    broadcast use is_ascii_chars_encode_utf8, is_ascii_chars_nat_bound;

    let letters = word.as_bytes();
    let ghost body = chars_of(bytes@).skip(from as int);
    assert(letters@.len() == word@.len());
    assert forall|i: int| 0 <= i < word@.len() implies #[trigger] word@[i] == letters@[i] as char by {
        assert(word@[i] as u8 == letters@[i]);
        assert((word@[i] as nat) < 128);
    }
    if bytes.len() - from != letters.len() {
        return false;
    }
    let mut at: usize = 0;
    while at < letters.len()
        invariant
            at <= letters@.len(),
            from + letters@.len() == bytes@.len() <= usize::MAX,
            body == chars_of(bytes@).skip(from as int),
            forall|i: int| 0 <= i < word@.len() ==> #[trigger] word@[i] == letters@[i] as char,
            letters@.len() == word@.len(),
            forall|i: int| 0 <= i < at ==> folded(#[trigger] body[i]) == word@[i],
        decreases letters@.len() - at,
    {
        if lowered(bytes[from + at]) != letters[at] {
            assert(body[at as int] == bytes@[from + at] as char);
            assert(folded(body[at as int]) != word@[at as int]);
            return false;
        }
        assert(body[at as int] == bytes@[from + at] as char);
        at = at + 1;
    }
    true
}

/// A number is written in ASCII.
proof fn lemma_number_is_ascii(s: Seq<char>)
    requires
        is_number(s),
    ensures
        is_ascii_chars(s),
{
    let k = choose|k: int|
        0 <= k <= s.len() && is_mantissa(#[trigger] s.take(k)) && (k == s.len() || is_exponent(
            s.skip(k),
        ));
    let t = s.take(k);
    assert forall|i: int| 0 <= i < s.len() implies '\0' <= #[trigger] s[i] <= '\u{7f}' by {
        if i < k {
            assert(t[i] == s[i]);
            if !(t.len() > 0 && is_digits(t)) {
                let d = choose|d: int|
                    0 <= d < t.len() && #[trigger] t[d] == '.' && t.len() > 1 && is_digits(
                        t.take(d),
                    ) && is_digits(t.skip(d + 1));
                if i < d {
                    assert(t.take(d)[i] == t[i]);
                } else if i > d {
                    assert(t.skip(d + 1)[i - d - 1] == t[i]);
                }
            }
        } else {
            let tail = s.skip(k);
            let rest = tail.skip(1);
            assert(tail[i - k] == s[i]);
            if i > k {
                assert(rest[i - k - 1] == s[i]);
                if rest.len() > 0 && is_sign(rest[0]) {
                    if i > k + 1 {
                        assert(unsigned(rest)[i - k - 2] == s[i]);
                    }
                } else {
                    assert(unsigned(rest)[i - k - 1] == s[i]);
                }
            }
        }
    }
}

/// A text that spells an ASCII word is written in ASCII.
proof fn lemma_spelling_is_ascii(s: Seq<char>, word: Seq<char>)
    requires
        spells(s, word),
        is_ascii_chars(word),
    ensures
        is_ascii_chars(s),
{
    assert forall|i: int| 0 <= i < s.len() implies '\0' <= #[trigger] s[i] <= '\u{7f}' by {
        assert(folded(s[i]) == word[i]);
    }
}

/// Every text that stands for a number is written in ASCII.
pub proof fn lemma_float_text_is_ascii(s: Seq<char>)
    requires
        is_float_text(s),
    ensures
        is_ascii_chars(s),
{
    let body = unsigned(s);
    if spells(body, seq!['i', 'n', 'f']) {
        lemma_spelling_is_ascii(body, seq!['i', 'n', 'f']);
    } else if spells(body, seq!['i', 'n', 'f', 'i', 'n', 'i', 't', 'y']) {
        lemma_spelling_is_ascii(body, seq!['i', 'n', 'f', 'i', 'n', 'i', 't', 'y']);
    } else if spells(body, seq!['n', 'a', 'n']) {
        lemma_spelling_is_ascii(body, seq!['n', 'a', 'n']);
    } else {
        lemma_number_is_ascii(body);
    }
    assert forall|i: int| 0 <= i < s.len() implies '\0' <= #[trigger] s[i] <= '\u{7f}' by {
        if s.len() > 0 && is_sign(s[0]) {
            if i > 0 {
                assert(body[i - 1] == s[i]);
            }
        }
    }
}

/// Whether `text` stands for a floating-point number.
pub fn is_number_text(text: &str) -> (ok: bool)
    ensures
        ok == is_float_text(text@),
{
    broadcast use is_ascii_chars_encode_utf8, is_ascii_chars_nat_bound;

    if !text.is_ascii() {
        proof {
            if is_float_text(text@) {
                lemma_float_text_is_ascii(text@);
            }
        }
        return false;
    }
    let bytes = text.as_bytes();
    assert(chars_of(bytes@) =~= text@) by {
        assert forall|i: int| 0 <= i < text@.len() implies #[trigger] text@[i] == bytes@[i] as char by {
            assert(text@[i] as u8 == bytes@[i]);
            assert((text@[i] as nat) < 128);
        }
    }
    let from: usize = if bytes.len() > 0 && (bytes[0] == PLUS || bytes[0] == MINUS) {
        1
    } else {
        0
    };
    assert(unsigned(text@) == chars_of(bytes@).skip(from as int));
    proof {
        reveal_strlit("inf");
        reveal_strlit("infinity");
        reveal_strlit("nan");
        assert("inf"@ =~= seq!['i', 'n', 'f']);
        assert("infinity"@ =~= seq!['i', 'n', 'f', 'i', 'n', 'i', 't', 'y']);
        assert("nan"@ =~= seq!['n', 'a', 'n']);
    }
    spells_from(bytes, from, "inf") || spells_from(bytes, from, "infinity") || spells_from(
        bytes,
        from,
        "nan",
    ) || number_from(bytes, from)
}

/// [`str::strip_suffix`]: with `Some`, `text` is what came back followed by
/// `suffix`; with `None`, `text` does not end with `suffix`.
#[verifier::external_body]
fn strip_suffix<'a>(text: &'a str, suffix: &str) -> (before: Option<&'a str>)
    ensures
        before matches Some(rest) ==> text@ == rest@ + suffix@,
        before is None ==> !suffix@.is_suffix_of(text@),
{
    text.strip_suffix(suffix)
}

/// Takes the unit off an amount and hands back the number before it.
///
/// Fails with [`AmountError::MissingUnit`] where `text` does not end with the
/// unit, and with [`AmountError::NotANumber`] where what precedes the unit is
/// no number.
pub fn parse_amount(text: &str) -> (number: Result<&str, AmountError>)
    ensures
        number matches Ok(n) ==> amount_number(text@) == Ok::<Seq<char>, AmountError>(n@),
        number matches Err(e) ==> amount_number(text@) == Err::<Seq<char>, AmountError>(e),
{
    proof {
        reveal_strlit(" SOLs");
        assert(" SOLs"@ =~= unit_suffix());
    }
    match strip_suffix(text, " SOLs") {
        None => Err(AmountError::MissingUnit),
        Some(rest) => {
            assert(rest@ =~= text@.take(text@.len() - unit_suffix().len()));
            assert(unit_suffix().is_suffix_of(text@));
            if is_number_text(rest) {
                Ok(rest)
            } else {
                Err(AmountError::NotANumber)
            }
        },
    }
}

} // verus!
