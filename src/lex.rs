//! Character classes, runs of characters, keywords and literals.
use vstd::prelude::*;
use crate::ast::{Exponent, ExponentModel, NumLit, NumLitModel};

verus! {

/// Byte values of the characters that the grammar names.
pub const DIGIT_0: u8 = 48;
pub const DIGIT_9: u8 = 57;
pub const UPPER_A: u8 = 65;
pub const UPPER_Z: u8 = 90;
pub const LOWER_A: u8 = 97;
pub const LOWER_Z: u8 = 122;
pub const UNDERSCORE: u8 = 95;
pub const PLUS: u8 = 43;
pub const MINUS: u8 = 45;
pub const DOT: u8 = 46;
pub const SPACE: u8 = 32;
pub const NEWLINE: u8 = 10;
pub const RETURN_CHAR: u8 = 13;
pub const QUOTE: u8 = 34;
pub const COMMA: u8 = 44;
pub const LETTER_A: u8 = 65;
pub const LETTER_B: u8 = 66;
pub const LETTER_C: u8 = 67;
pub const LETTER_D: u8 = 68;
pub const LETTER_E: u8 = 69;
pub const LETTER_F: u8 = 70;
pub const LETTER_G: u8 = 71;
pub const LETTER_H: u8 = 72;
pub const LETTER_I: u8 = 73;
pub const LETTER_J: u8 = 74;
pub const LETTER_K: u8 = 75;
pub const LETTER_L: u8 = 76;
pub const LETTER_M: u8 = 77;
pub const LETTER_N: u8 = 78;
pub const LETTER_O: u8 = 79;
pub const LETTER_P: u8 = 80;
pub const LETTER_Q: u8 = 81;
pub const LETTER_R: u8 = 82;
pub const LETTER_S: u8 = 83;
pub const LETTER_T: u8 = 84;
pub const LETTER_U: u8 = 85;
pub const LETTER_V: u8 = 86;
pub const LETTER_W: u8 = 87;
pub const LETTER_X: u8 = 88;
pub const LETTER_Y: u8 = 89;
pub const LETTER_Z: u8 = 90;

pub const SEMICOLON: u8 = 59;
pub const OPEN_PAREN: u8 = 40;
pub const CLOSE_PAREN: u8 = 41;
pub const DOLLAR: u8 = 36;
pub const STAR: u8 = 42;
pub const SLASH: u8 = 47;
pub const CARET: u8 = 94;
pub const EQUALS: u8 = 61;

pub open spec fn is_digit(c: u8) -> bool {
    DIGIT_0 <= c <= DIGIT_9
}

pub open spec fn is_upper(c: u8) -> bool {
    UPPER_A <= c <= UPPER_Z
}

/// A character that may continue an identifier.
pub open spec fn is_ident(c: u8) -> bool {
    is_digit(c) || is_upper(c) || (LOWER_A <= c <= LOWER_Z) || c == UNDERSCORE
}

/// A character of an unquoted string: letters, digits, `+`, `-`, `.`, space.
pub open spec fn is_bare(c: u8) -> bool {
    is_digit(c) || is_upper(c) || (LOWER_A <= c <= LOWER_Z) || c == PLUS || c == MINUS || c == DOT
        || c == SPACE
}

/// A character of a quoted string.
pub open spec fn is_quoted(c: u8) -> bool {
    c != NEWLINE && c != QUOTE
}

/// A character of a comment.
pub open spec fn is_remark(c: u8) -> bool {
    c != NEWLINE && c != RETURN_CHAR
}

/// `s[i]` exists and is `c`.
pub open spec fn at(s: Seq<u8>, i: int, c: u8) -> bool {
    0 <= i < s.len() && s[i] == c
}

pub open spec fn skip_spaces(s: Seq<u8>, i: int) -> int
    decreases s.len() - i,
{
    if 0 <= i < s.len() && s[i] == SPACE {
        skip_spaces(s, i + 1)
    } else {
        i
    }
}

pub open spec fn digits_end(s: Seq<u8>, i: int) -> int
    decreases s.len() - i,
{
    if 0 <= i < s.len() && is_digit(s[i]) {
        digits_end(s, i + 1)
    } else {
        i
    }
}

pub open spec fn quoted_end(s: Seq<u8>, i: int) -> int
    decreases s.len() - i,
{
    if 0 <= i < s.len() && is_quoted(s[i]) {
        quoted_end(s, i + 1)
    } else {
        i
    }
}

pub open spec fn bare_end(s: Seq<u8>, i: int) -> int
    decreases s.len() - i,
{
    if 0 <= i < s.len() && is_bare(s[i]) {
        bare_end(s, i + 1)
    } else {
        i
    }
}

pub open spec fn remark_end(s: Seq<u8>, i: int) -> int
    decreases s.len() - i,
{
    if 0 <= i < s.len() && is_remark(s[i]) {
        remark_end(s, i + 1)
    } else {
        i
    }
}

/// The end of `s[a..j]` once trailing spaces are removed.
pub open spec fn trim_end(s: Seq<u8>, a: int, j: int) -> int
    decreases j - a,
{
    if a < j && s[j - 1] == SPACE {
        trim_end(s, a, j - 1)
    } else {
        j
    }
}

/// A line end, `\n` or `\r\n`: the position after it.
pub open spec fn newline_at(s: Seq<u8>, i: int) -> Option<int> {
    if at(s, i, NEWLINE) {
        Some(i + 1)
    } else if at(s, i, RETURN_CHAR) && at(s, i + 1, NEWLINE) {
        Some(i + 2)
    } else {
        None
    }
}

/// The word `k` stands at `i` and is not the start of a longer identifier.
pub open spec fn keyword_at(s: Seq<u8>, i: int, k: Seq<u8>) -> bool {
    &&& 0 <= i
    &&& i + k.len() <= s.len()
    &&& s.subrange(i, i + k.len()) == k
    &&& !(i + k.len() < s.len() && is_ident(s[i + k.len()]))
}

/// An optional sign: whether it is `-`, and the position after it.
pub open spec fn sign_at(s: Seq<u8>, i: int) -> (bool, int) {
    if at(s, i, PLUS) {
        (false, i + 1)
    } else if at(s, i, MINUS) {
        (true, i + 1)
    } else {
        (false, i)
    }
}

/// The value of a run of decimal digits.
pub open spec fn digits_value(d: Seq<u8>) -> nat
    decreases d.len(),
{
    if d.len() == 0 {
        0
    } else {
        digits_value(d.drop_last()) * 10 + (d.last() - DIGIT_0) as nat
    }
}

/// An optional exponent `E[+|-]digits` at `c`; without digits there is none.
pub open spec fn exponent_at(s: Seq<u8>, c: int) -> (Option<ExponentModel>, int) {
    if at(s, c, LETTER_E) {
        let (neg, a) = sign_at(s, c + 1);
        let b = digits_end(s, a);
        if b > a {
            (Some(ExponentModel { negative: neg, digits: s.subrange(a, b) }), b)
        } else {
            (None, c)
        }
    } else {
        (None, c)
    }
}

/// The mantissa at `a`: `int.frac`, `int.`, `int` or `.frac`, as its integer
/// digits (`0` where none are written), its fraction digits, and its end.
pub open spec fn mantissa_at(s: Seq<u8>, a: int) -> Option<(Seq<u8>, Seq<u8>, int)> {
    let b = digits_end(s, a);
    if b > a {
        if at(s, b, DOT) {
            let e = digits_end(s, b + 1);
            Some((s.subrange(a, b), s.subrange(b + 1, e), e))
        } else {
            Some((s.subrange(a, b), Seq::empty(), b))
        }
    } else if at(s, a, DOT) && digits_end(s, a + 1) > a + 1 {
        Some((seq![DIGIT_0], s.subrange(a + 1, digits_end(s, a + 1)), digits_end(s, a + 1)))
    } else {
        None
    }
}

/// A numeric literal at `i`: optional sign, mantissa, optional exponent.
pub open spec fn num_lit_at(s: Seq<u8>, i: int) -> Option<(NumLitModel, int)> {
    if !(0 <= i <= s.len()) {
        None
    } else {
        let (neg, a) = sign_at(s, i);
        match mantissa_at(s, a) {
            None => None,
            Some((int_digits, frac_digits, c)) => {
                let (exponent, end) = exponent_at(s, c);
                Some((NumLitModel { negative: neg, int_digits, frac_digits, exponent }, end))
            },
        }
    }
}

/// A quoted string at `i`: its text and the position after the closing quote.
pub open spec fn quoted_at(s: Seq<u8>, i: int) -> Option<(Seq<u8>, int)> {
    if at(s, i, QUOTE) && at(s, quoted_end(s, i + 1), QUOTE) {
        Some((s.subrange(i + 1, quoted_end(s, i + 1)), quoted_end(s, i + 1) + 1))
    } else {
        None
    }
}

/// An unquoted string at `i`, trimmed of spaces; it may be empty.
pub open spec fn bare_at(s: Seq<u8>, i: int) -> (Seq<u8>, int) {
    let j = bare_end(s, i);
    let a = skip_spaces(s, i);
    (s.subrange(a, trim_end(s, a, j)), j)
}

// ---------------------------------------------------------------- lemmas

pub proof fn lemma_skip_spaces(s: Seq<u8>, i: int)
    requires
        0 <= i <= s.len(),
    ensures
        i <= skip_spaces(s, i) <= s.len(),
        forall|k: int| i <= k < skip_spaces(s, i) ==> s[k] == SPACE,
        !at(s, skip_spaces(s, i), SPACE),
    decreases s.len() - i,
{
    if i < s.len() && s[i] == SPACE {
        lemma_skip_spaces(s, i + 1);
    }
}

pub proof fn lemma_digits_end(s: Seq<u8>, i: int)
    requires
        0 <= i <= s.len(),
    ensures
        i <= digits_end(s, i) <= s.len(),
        forall|k: int| i <= k < digits_end(s, i) ==> is_digit(#[trigger] s[k]),
        !(digits_end(s, i) < s.len() && is_digit(s[digits_end(s, i)])),
    decreases s.len() - i,
{
    if i < s.len() && is_digit(s[i]) {
        lemma_digits_end(s, i + 1);
    }
}

pub proof fn lemma_bare_end(s: Seq<u8>, i: int)
    requires
        0 <= i <= s.len(),
    ensures
        i <= bare_end(s, i) <= s.len(),
        forall|k: int| i <= k < bare_end(s, i) ==> is_bare(#[trigger] s[k]),
        !(bare_end(s, i) < s.len() && is_bare(s[bare_end(s, i)])),
    decreases s.len() - i,
{
    if i < s.len() && is_bare(s[i]) {
        lemma_bare_end(s, i + 1);
    }
}

pub proof fn lemma_quoted_end(s: Seq<u8>, i: int)
    requires
        0 <= i <= s.len(),
    ensures
        i <= quoted_end(s, i) <= s.len(),
        forall|k: int| i <= k < quoted_end(s, i) ==> is_quoted(#[trigger] s[k]),
    decreases s.len() - i,
{
    if i < s.len() && is_quoted(s[i]) {
        lemma_quoted_end(s, i + 1);
    }
}

pub proof fn lemma_remark_end(s: Seq<u8>, i: int)
    requires
        0 <= i <= s.len(),
    ensures
        i <= remark_end(s, i) <= s.len(),
    decreases s.len() - i,
{
    if i < s.len() && is_remark(s[i]) {
        lemma_remark_end(s, i + 1);
    }
}

pub proof fn lemma_trim_end(s: Seq<u8>, a: int, j: int)
    requires
        a <= j,
    ensures
        a <= trim_end(s, a, j) <= j,
    decreases j - a,
{
    if a < j && s[j - 1] == SPACE {
        lemma_trim_end(s, a, j - 1);
    }
}

/// Appending a digit never makes the value smaller.
pub proof fn lemma_digits_value_prefix(d: Seq<u8>, k: int)
    requires
        0 <= k <= d.len(),
    ensures
        digits_value(d.subrange(0, k)) <= digits_value(d),
    decreases d.len(),
{
    if k < d.len() {
        assert(d.drop_last() == d.subrange(0, d.len() - 1));
        assert(d.subrange(0, k) == d.drop_last().subrange(0, k));
        lemma_digits_value_prefix(d.drop_last(), k);
    } else {
        assert(d.subrange(0, k) == d);
    }
}

// ---------------------------------------------------------------- exec

pub fn spaces(s: &[u8], i: usize) -> (r: usize)
    requires
        i <= s@.len(),
    ensures
        r == skip_spaces(s@, i as int),
        i <= r <= s@.len(),
{
    let mut j: usize = i;
    while j < s.len() && s[j] == SPACE
        invariant
            i <= j <= s@.len(),
            skip_spaces(s@, i as int) == skip_spaces(s@, j as int),
        decreases s@.len() - j,
    {
        j = j + 1;
    }
    j
}

pub fn digits(s: &[u8], i: usize) -> (r: usize)
    requires
        i <= s@.len(),
    ensures
        r == digits_end(s@, i as int),
        i <= r <= s@.len(),
{
    let mut j: usize = i;
    while j < s.len() && DIGIT_0 <= s[j] && s[j] <= DIGIT_9
        invariant
            i <= j <= s@.len(),
            digits_end(s@, i as int) == digits_end(s@, j as int),
        decreases s@.len() - j,
    {
        j = j + 1;
    }
    j
}

fn quoted_run(s: &[u8], i: usize) -> (r: usize)
    requires
        i <= s@.len(),
    ensures
        r == quoted_end(s@, i as int),
        i <= r <= s@.len(),
{
    let mut j: usize = i;
    while j < s.len() && s[j] != NEWLINE && s[j] != QUOTE
        invariant
            i <= j <= s@.len(),
            quoted_end(s@, i as int) == quoted_end(s@, j as int),
        decreases s@.len() - j,
    {
        j = j + 1;
    }
    j
}

fn is_ident_byte(c: u8) -> (r: bool)
    ensures
        r == is_ident(c),
{
    (DIGIT_0 <= c && c <= DIGIT_9) || (UPPER_A <= c && c <= UPPER_Z) || (LOWER_A <= c && c <= LOWER_Z)
        || c == UNDERSCORE
}

fn is_bare_byte(c: u8) -> (r: bool)
    ensures
        r == is_bare(c),
{
    (DIGIT_0 <= c && c <= DIGIT_9) || (UPPER_A <= c && c <= UPPER_Z) || (LOWER_A <= c && c <= LOWER_Z) || c == PLUS
        || c == MINUS || c == DOT || c == SPACE
}

fn bare_run(s: &[u8], i: usize) -> (r: usize)
    requires
        i <= s@.len(),
    ensures
        r == bare_end(s@, i as int),
        i <= r <= s@.len(),
{
    let mut j: usize = i;
    while j < s.len() && is_bare_byte(s[j])
        invariant
            i <= j <= s@.len(),
            bare_end(s@, i as int) == bare_end(s@, j as int),
        decreases s@.len() - j,
    {
        j = j + 1;
    }
    j
}

pub fn remark_run(s: &[u8], i: usize) -> (r: usize)
    requires
        i <= s@.len(),
    ensures
        r == remark_end(s@, i as int),
        i <= r <= s@.len(),
{
    let mut j: usize = i;
    while j < s.len() && s[j] != NEWLINE && s[j] != RETURN_CHAR
        invariant
            i <= j <= s@.len(),
            remark_end(s@, i as int) == remark_end(s@, j as int),
        decreases s@.len() - j,
    {
        j = j + 1;
    }
    j
}

pub fn byte_at(s: &[u8], i: usize, c: u8) -> (r: bool)
    ensures
        r == at(s@, i as int, c),
        r ==> i < s@.len(),
        s@.len() <= usize::MAX,
{
    let n = s.len();
    i < n && s[i] == c
}

/// Copies `s[a..b]`.
pub fn copy_range(s: &[u8], a: usize, b: usize) -> (r: Vec<u8>)
    requires
        a <= b <= s@.len(),
    ensures
        r@ == s@.subrange(a as int, b as int),
{
    let mut r: Vec<u8> = Vec::new();
    let mut k: usize = a;
    while k < b
        invariant
            a <= k <= b <= s@.len(),
            r@ == s@.subrange(a as int, k as int),
        decreases b - k,
    {
        r.push(s[k]);
        assert(r@ == s@.subrange(a as int, k + 1));
        k = k + 1;
    }
    r
}

pub fn newline(s: &[u8], i: usize) -> (r: Option<usize>)
    requires
        i <= s@.len(),
    ensures
        r matches Some(j) ==> newline_at(s@, i as int) == Some(j as int) && i < j <= s@.len(),
        r is None ==> newline_at(s@, i as int) is None,
{
    if byte_at(s, i, NEWLINE) {
        Some(i + 1)
    } else if byte_at(s, i, RETURN_CHAR) && byte_at(s, i + 1, NEWLINE) {
        Some(i + 2)
    } else {
        None
    }
}

pub fn keyword(s: &[u8], i: usize, k: &[u8]) -> (r: bool)
    requires
        i <= s@.len(),
    ensures
        r == keyword_at(s@, i as int, k@),
{
    if k.len() > s.len() - i {
        return false;
    }
    let mut n: usize = 0;
    while n < k.len()
        invariant
            i + k@.len() <= s@.len(),
            s@.len() <= usize::MAX,
            n <= k@.len(),
            forall|m: int| 0 <= m < n ==> s@[i + m] == k@[m],
        decreases k@.len() - n,
    {
        if s[i + n] != k[n] {
            assert(s@.subrange(i as int, i + k@.len())[n as int] != k@[n as int]);
            return false;
        }
        n = n + 1;
    }
    assert(s@.subrange(i as int, i + k@.len()) == k@);
    let e = i + k.len();
    !(e < s.len() && is_ident_byte(s[e]))
}

pub fn sign(s: &[u8], i: usize) -> (r: (bool, usize))
    requires
        i <= s@.len(),
    ensures
        r.0 == sign_at(s@, i as int).0,
        r.1 == sign_at(s@, i as int).1,
        i <= r.1 <= s@.len(),
{
    if byte_at(s, i, PLUS) {
        (false, i + 1)
    } else if byte_at(s, i, MINUS) {
        (true, i + 1)
    } else {
        (false, i)
    }
}

/// The value of the digits `s[a..b]`, where it fits in `usize`.
pub fn digits_to_usize(s: &[u8], a: usize, b: usize) -> (r: Option<usize>)
    requires
        a <= b <= s@.len(),
        forall|k: int| a <= k < b ==> is_digit(#[trigger] s@[k]),
    ensures
        r matches Some(v) ==> v == digits_value(s@.subrange(a as int, b as int)),
        r is None ==> digits_value(s@.subrange(a as int, b as int)) > usize::MAX,
{
    let mut v: usize = 0;
    let mut k: usize = a;
    while k < b
        invariant
            a <= k <= b <= s@.len(),
            forall|m: int| a <= m < b ==> is_digit(#[trigger] s@[m]),
            v == digits_value(s@.subrange(a as int, k as int)),
        decreases b - k,
    {
        let d = s[k] - DIGIT_0;
        assert(s@.subrange(a as int, k + 1).drop_last() == s@.subrange(a as int, k as int));
        assert(digits_value(s@.subrange(a as int, k + 1)) == v * 10 + d);
        if v > (usize::MAX - d as usize) / 10 {
            proof {
                assert(digits_value(s@.subrange(a as int, k + 1)) > usize::MAX) by (nonlinear_arith)
                    requires
                        v > (usize::MAX - d) / 10,
                        d <= 9,
                        digits_value(s@.subrange(a as int, k + 1)) == v * 10 + d,
                ;
                let full = s@.subrange(a as int, b as int);
                assert(full.subrange(0, k + 1 - a) == s@.subrange(a as int, k + 1));
                lemma_digits_value_prefix(full, k + 1 - a);
            }
            return None;
        }
        v = v * 10 + d as usize;
        k = k + 1;
    }
    Some(v)
}

/// A numeric literal at `i`, as `num_lit_at` states it.
pub fn num_lit(s: &[u8], i: usize) -> (r: Option<(NumLit, usize)>)
    requires
        i <= s@.len(),
    ensures
        r matches Some((n, j)) ==> num_lit_at(s@, i as int) == Some((n@, j as int)) && i < j
            <= s@.len(),
        r is None ==> num_lit_at(s@, i as int) is None,
{
    let (negative, a) = sign(s, i);
    let b = digits(s, a);
    let int_digits: Vec<u8>;
    let frac_digits: Vec<u8>;
    let c: usize;
    if b > a {
        int_digits = copy_range(s, a, b);
        if byte_at(s, b, DOT) {
            let e = digits(s, b + 1);
            frac_digits = copy_range(s, b + 1, e);
            c = e;
        } else {
            frac_digits = Vec::new();
            c = b;
        }
    } else if byte_at(s, a, DOT) && digits(s, a + 1) > a + 1 {
        let e = digits(s, a + 1);
        int_digits = vec![DIGIT_0];
        frac_digits = copy_range(s, a + 1, e);
        c = e;
        assert(int_digits@ == seq![DIGIT_0]);
    } else {
        return None;
    }
    assert(mantissa_at(s@, a as int) == Some((int_digits@, frac_digits@, c as int)));
    let mut exponent: Option<Exponent> = None;
    let mut end = c;
    if byte_at(s, c, LETTER_E) {
        let (eneg, ea) = sign(s, c + 1);
        let eb = digits(s, ea);
        if eb > ea {
            exponent = Some(Exponent { negative: eneg, digits: copy_range(s, ea, eb) });
            end = eb;
        }
    }
    let n = NumLit { negative, int_digits, frac_digits, exponent };
    assert(num_lit_at(s@, i as int) == Some((n@, end as int)));
    Some((n, end))
}

pub fn quoted(s: &[u8], i: usize) -> (r: Option<(Vec<u8>, usize)>)
    requires
        i <= s@.len(),
    ensures
        r matches Some((t, j)) ==> quoted_at(s@, i as int) == Some((t@, j as int)) && i < j
            <= s@.len(),
        r is None ==> quoted_at(s@, i as int) is None,
{
    if !byte_at(s, i, QUOTE) {
        return None;
    }
    let e = quoted_run(s, i + 1);
    if !byte_at(s, e, QUOTE) {
        return None;
    }
    Some((copy_range(s, i + 1, e), e + 1))
}

pub fn bare(s: &[u8], i: usize) -> (r: (Vec<u8>, usize))
    requires
        i <= s@.len(),
    ensures
        bare_at(s@, i as int) == (r.0@, r.1 as int),
        i <= r.1 <= s@.len(),
{
    let j = bare_run(s, i);
    let a = spaces(s, i);
    proof {
        lemma_skip_spaces(s@, i as int);
        lemma_bare_end(s@, i as int);
        if a > j {
            assert(s@[j as int] == SPACE);
            assert(is_bare(s@[j as int]));
        }
    }
    let mut e = j;
    while e > a && s[e - 1] == SPACE
        invariant
            a <= e <= j <= s@.len(),
            trim_end(s@, a as int, j as int) == trim_end(s@, a as int, e as int),
        decreases e,
    {
        e = e - 1;
    }
    (copy_range(s, a, e), j)
}

} // verus!
