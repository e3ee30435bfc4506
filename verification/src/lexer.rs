//! The tokens of SPL source text: white space and comments, keywords and punctuation,
//! identifiers and integer literals.
use vstd::prelude::*;
use crate::text::{digit_char, spec_decimal};

verus! {

/// What `char::is_alphabetic` answers for a character (the Unicode `Alphabetic` property).
pub uninterp spec fn alphabetic(c: char) -> bool;

/// What `char::is_alphanumeric` answers for a character (`Alphabetic` or `Numeric`).
pub uninterp spec fn alphanumeric(c: char) -> bool;

/// `char::is_alphabetic`: whether the character has the Unicode `Alphabetic` property.
#[verifier::external_body]
fn char_is_alphabetic(c: char) -> (r: bool)
    ensures
        r == alphabetic(c),
{
    c.is_alphabetic()
}

/// `char::is_alphanumeric`: whether the character is alphabetic or numeric in Unicode.
#[verifier::external_body]
fn char_is_alphanumeric(c: char) -> (r: bool)
    ensures
        r == alphanumeric(c),
{
    c.is_alphanumeric()
}

/// `String::push`: appends one character.
#[verifier::external_body]
pub(crate) fn push_char(s: &mut String, c: char)
    ensures
        final(s)@ == old(s)@.push(c),
{
    s.push(c);
}

/// Space, tab, carriage return or line feed.
pub open spec fn is_space(c: char) -> bool {
    c == ' ' || c == '\t' || c == '\r' || c == '\n'
}

/// Space or tab.
pub open spec fn is_blank(c: char) -> bool {
    c == ' ' || c == '\t'
}

/// A decimal digit.
pub open spec fn is_digit(c: char) -> bool {
    '0' <= c && c <= '9'
}

/// A hexadecimal digit.
pub open spec fn is_hex(c: char) -> bool {
    is_digit(c) || ('a' <= c && c <= 'f') || ('A' <= c && c <= 'F')
}

/// The value of a hexadecimal digit.
pub open spec fn hex_value(c: char) -> int {
    if is_digit(c) {
        c as int - '0' as int
    } else if 'a' <= c && c <= 'f' {
        c as int - 'a' as int + 10
    } else {
        c as int - 'A' as int + 10
    }
}

/// A character that can begin an identifier.
pub open spec fn ident_start(c: char) -> bool {
    alphabetic(c) || c == '_'
}

/// A character that can continue an identifier.
pub open spec fn ident_char(c: char) -> bool {
    alphanumeric(c) || c == '_'
}

/// The first position from `k` on whose character lies outside `class`, or the end.
pub open spec fn run_end(s: Seq<char>, k: int, class: spec_fn(char) -> bool) -> int
    decreases s.len() - k,
{
    if k < 0 || k >= s.len() || !class(s[k]) {
        k
    } else {
        run_end(s, k + 1, class)
    }
}

/// The first line feed or carriage return from `k` on, or the end.
pub open spec fn line_end(s: Seq<char>, k: int) -> int
    decreases s.len() - k,
{
    if k < 0 || k >= s.len() || s[k] == '\n' || s[k] == '\r' {
        k
    } else {
        line_end(s, k + 1)
    }
}

pub proof fn lemma_line_end(s: Seq<char>, k: int)
    ensures
        line_end(s, k) >= k,
        0 <= k <= s.len() ==> line_end(s, k) <= s.len(),
    decreases s.len() - k,
{
    if !(k < 0 || k >= s.len() || s[k] == '\n' || s[k] == '\r') {
        lemma_line_end(s, k + 1);
    }
}

pub proof fn lemma_run_end(s: Seq<char>, k: int, class: spec_fn(char) -> bool)
    ensures
        run_end(s, k, class) >= k,
        0 <= k <= s.len() ==> run_end(s, k, class) <= s.len(),
        forall|j: int| k <= j < run_end(s, k, class) ==> class(#[trigger] s[j]),
    decreases s.len() - k,
{
    if !(k < 0 || k >= s.len() || !class(s[k])) {
        lemma_run_end(s, k + 1, class);
    }
}

/// A comment `//` at `i` ends at its line: at a line feed, a carriage return followed by a
/// line feed, or the end of the text.
pub open spec fn comment_at(s: Seq<char>, i: int) -> bool {
    let e = line_end(s, i + 2);
    &&& 0 <= i
    &&& i + 1 < s.len()
    &&& s[i] == '/'
    &&& s[i + 1] == '/'
    &&& (e >= s.len() || s[e] == '\n' || (e + 1 < s.len() && s[e + 1] == '\n'))
}

/// The position after the white space and comments that start at `i`.
pub open spec fn skip_ws(s: Seq<char>, i: int) -> int
    decreases s.len() - i,
{
    if i < 0 || i >= s.len() {
        i
    } else if is_space(s[i]) {
        skip_ws(s, i + 1)
    } else if comment_at(s, i) {
        proof {
            lemma_line_end(s, i + 2);
        }
        skip_ws(s, line_end(s, i + 2))
    } else {
        i
    }
}

pub proof fn lemma_skip_ws(s: Seq<char>, i: int)
    ensures
        skip_ws(s, i) >= i,
        0 <= i <= s.len() ==> skip_ws(s, i) <= s.len(),
    decreases s.len() - i,
{
    if 0 <= i < s.len() {
        if is_space(s[i]) {
            lemma_skip_ws(s, i + 1);
        } else if comment_at(s, i) {
            lemma_line_end(s, i + 2);
            lemma_skip_ws(s, line_end(s, i + 2));
        }
    }
}

/// Whether `w` stands at position `j`.
pub open spec fn tag_at(s: Seq<char>, j: int, w: Seq<char>) -> bool {
    0 <= j && j + w.len() <= s.len() && s.subrange(j, j + w.len()) == w
}

/// `w`, with white space and comments around it: the position after them.
pub open spec fn lex_tag(s: Seq<char>, i: int, w: Seq<char>) -> Option<int> {
    let j = skip_ws(s, i);
    if tag_at(s, j, w) {
        Some(skip_ws(s, j + w.len()))
    } else {
        None
    }
}

/// An identifier, with white space and comments around it: the position after them and
/// the identifier's text.
pub open spec fn lex_ident(s: Seq<char>, i: int) -> Option<(int, Seq<char>)> {
    let j = skip_ws(s, i);
    if 0 <= j < s.len() && ident_start(s[j]) {
        let k = run_end(s, j + 1, |c: char| ident_char(c));
        Some((skip_ws(s, k), s.subrange(j, k)))
    } else {
        None
    }
}

/// The value of the decimal digits `s[j..k]`.
pub open spec fn dec_value(s: Seq<char>, j: int, k: int) -> int
    decreases k - j,
{
    if k <= j {
        0
    } else {
        dec_value(s, j, k - 1) * 10 + (s[k - 1] as int - '0' as int)
    }
}

/// The value of the hexadecimal digits `s[j..k]`.
pub open spec fn hex_digits_value(s: Seq<char>, j: int, k: int) -> int
    decreases k - j,
{
    if k <= j {
        0
    } else {
        hex_digits_value(s, j, k - 1) * 16 + hex_value(s[k - 1])
    }
}

/// The literal at `j`, without white space: `0x` and hexadecimal digits, decimal digits,
/// a character in quotes (its code), or `'\n'` (ten). The position after it and its value.
pub open spec fn literal_at(s: Seq<char>, j: int) -> Option<(int, int)> {
    if 0 <= j && j + 2 < s.len() && s[j] == '0' && s[j + 1] == 'x' && is_hex(s[j + 2]) {
        let k = run_end(s, j + 2, |c: char| is_hex(c));
        Some((k, hex_digits_value(s, j + 2, k)))
    } else if 0 <= j < s.len() && is_digit(s[j]) {
        let k = run_end(s, j, |c: char| is_digit(c));
        Some((k, dec_value(s, j, k)))
    } else if 0 <= j && j + 2 < s.len() && s[j] == '\'' && s[j + 2] == '\'' {
        Some((j + 3, (s[j + 1] as u32) as int))
    } else if tag_at(s, j, seq!['\'', '\\', 'n', '\'']) {
        Some((j + 4, 10))
    } else {
        None
    }
}

/// An integer literal that fits an `i32`, with white space and comments around it: the
/// position after them and the value.
pub open spec fn lex_intlit(s: Seq<char>, i: int) -> Option<(int, int)> {
    let j = skip_ws(s, i);
    match literal_at(s, j) {
        Some((k, v)) => if v <= i32::MAX {
            Some((skip_ws(s, k), v))
        } else {
            None
        },
        None => None,
    }
}

/// Skips white space and `//` comments from `i` on.
pub fn parse_whitespace(s: &Vec<char>, i: usize) -> (r: usize)
    requires
        i <= s@.len(),
    ensures
        r == skip_ws(s@, i as int),
        i <= r <= s@.len(),
{
    let mut k = i;
    proof {
        lemma_skip_ws(s@, i as int);
    }
    loop
        invariant
            i <= k <= s@.len(),
            skip_ws(s@, k as int) == skip_ws(s@, i as int),
        decreases s@.len() - k,
    {
        proof {
            lemma_skip_ws(s@, k as int);
        }
        if k >= s.len() {
            return k;
        }
        let c = s[k];
        if c == ' ' || c == '\t' || c == '\r' || c == '\n' {
            k = k + 1;
        } else if c == '/' && k + 1 < s.len() && s[k + 1] == '/' {
            let mut e = k + 2;
            while e < s.len() && s[e] != '\n' && s[e] != '\r'
                invariant
                    k + 2 <= e <= s@.len(),
                    line_end(s@, e as int) == line_end(s@, k + 2),
                decreases s@.len() - e,
            {
                e = e + 1;
            }
            let ends = e >= s.len() || s[e] == '\n' || (e + 1 < s.len() && s[e + 1] == '\n');
            if ends {
                k = e;
            } else {
                return k;
            }
        } else {
            return k;
        }
    }
}

/// Whether `w` stands at position `j`.
fn tag_at_exec(s: &Vec<char>, j: usize, w: &[char]) -> (r: bool)
    requires
        j <= s@.len(),
    ensures
        r == tag_at(s@, j as int, w@),
{
    if w.len() > s.len() - j {
        return false;
    }
    let n = s.len();
    let mut k: usize = 0;
    while k < w.len()
        invariant
            n == s@.len(),
            j + w@.len() <= s@.len(),
            0 <= k <= w@.len(),
            forall|m: int| 0 <= m < k ==> s@[j + m] == w@[m],
        decreases w@.len() - k,
    {
        if s[j + k] != w[k] {
            proof {
                assert(s@.subrange(j as int, j + w@.len())[k as int] != w@[k as int]);
            }
            return false;
        }
        k = k + 1;
    }
    proof {
        assert(s@.subrange(j as int, j + w@.len()) =~= w@);
    }
    true
}

/// `w` with white space and comments around it; the position after them.
pub fn parse_tag(s: &Vec<char>, i: usize, w: &[char]) -> (r: Option<usize>)
    requires
        i <= s@.len(),
    ensures
        match r {
            Some(e) => lex_tag(s@, i as int, w@) == Some(e as int) && i <= e <= s@.len() && (w@.len() > 0 ==> i < e),
            None => lex_tag(s@, i as int, w@) is None,
        },
{
    let j = parse_whitespace(s, i);
    let n = s.len();
    if tag_at_exec(s, j, w) {
        let e = parse_whitespace(s, j + w.len());
        Some(e)
    } else {
        None
    }
}

/// An identifier with white space and comments around it; the position after them and
/// the identifier.
pub fn ident(s: &Vec<char>, i: usize) -> (r: Option<(usize, String)>)
    requires
        i <= s@.len(),
    ensures
        match r {
            Some((e, name)) => lex_ident(s@, i as int) == Some((e as int, name@)) && i < e <= s@.len(),
            None => lex_ident(s@, i as int) is None,
        },
{
    let j = parse_whitespace(s, i);
    if j < s.len() && (char_is_alphabetic(s[j]) || s[j] == '_') {
        let mut name = String::new();
        push_char(&mut name, s[j]);
        let mut k = j + 1;
        proof {
            assert(name@ =~= s@.subrange(j as int, k as int));
            lemma_run_end(s@, j + 1, |c: char| ident_char(c));
        }
        while k < s.len() && (char_is_alphanumeric(s[k]) || s[k] == '_')
            invariant
                j < k <= s@.len(),
                name@ == s@.subrange(j as int, k as int),
                run_end(s@, k as int, |c: char| ident_char(c)) == run_end(s@, j + 1, |c: char| ident_char(c)),
            decreases s@.len() - k,
        {
            push_char(&mut name, s[k]);
            proof {
                assert(name@ =~= s@.subrange(j as int, k + 1));
            }
            k = k + 1;
        }
        let e = parse_whitespace(s, k);
        Some((e, name))
    } else {
        None
    }
}


pub proof fn lemma_dec_value_nonneg(s: Seq<char>, j: int, k: int)
    requires
        forall|m: int| j <= m < k ==> is_digit(#[trigger] s[m]),
    ensures
        dec_value(s, j, k) >= 0,
    decreases k - j,
{
    if k > j {
        lemma_dec_value_nonneg(s, j, k - 1);
    }
}

proof fn lemma_hex_value_nonneg(s: Seq<char>, j: int, k: int)
    requires
        forall|m: int| j <= m < k ==> is_hex(#[trigger] s[m]),
    ensures
        hex_digits_value(s, j, k) >= 0,
    decreases k - j,
{
    if k > j {
        lemma_hex_value_nonneg(s, j, k - 1);
    }
}

/// The end of the decimal digits from `j` on and their value, if it fits an `i32`.
fn dec_digits(s: &Vec<char>, j: usize) -> (r: (usize, Option<i32>))
    requires
        j <= s@.len(),
    ensures
        r.0 as int == run_end(s@, j as int, |c: char| is_digit(c)),
        r.1 == if dec_value(s@, j as int, r.0 as int) <= i32::MAX {
            Some(dec_value(s@, j as int, r.0 as int) as i32)
        } else {
            None::<i32>
        },
{
    let n = s.len();
    let mut k = j;
    let mut acc: u64 = 0;
    let mut big = false;
    proof {
        lemma_run_end(s@, j as int, |c: char| is_digit(c));
    }
    while k < n && '0' <= s[k] && s[k] <= '9'
        invariant
            n == s@.len(),
            j <= k <= n,
            run_end(s@, k as int, |c: char| is_digit(c)) == run_end(s@, j as int, |c: char| is_digit(c)),
            forall|m: int| j <= m < k ==> is_digit(#[trigger] s@[m]),
            !big ==> acc == dec_value(s@, j as int, k as int) && acc <= i32::MAX,
            big ==> dec_value(s@, j as int, k as int) > i32::MAX,
        decreases n - k,
    {
        let d = (s[k] as u32 - '0' as u32) as u64;
        proof {
            lemma_dec_value_nonneg(s@, j as int, k as int);
        }
        if !big {
            acc = acc * 10 + d;
            if acc > 2147483647u64 {
                big = true;
            }
        }
        k = k + 1;
    }
    if big {
        (k, None)
    } else {
        (k, Some(acc as i32))
    }
}

/// The end of the hexadecimal digits from `j` on and their value, if it fits an `i32`.
fn hex_digits(s: &Vec<char>, j: usize) -> (r: (usize, Option<i32>))
    requires
        j <= s@.len(),
    ensures
        r.0 as int == run_end(s@, j as int, |c: char| is_hex(c)),
        r.1 == if hex_digits_value(s@, j as int, r.0 as int) <= i32::MAX {
            Some(hex_digits_value(s@, j as int, r.0 as int) as i32)
        } else {
            None::<i32>
        },
{
    let n = s.len();
    let mut k = j;
    let mut acc: u64 = 0;
    let mut big = false;
    proof {
        lemma_run_end(s@, j as int, |c: char| is_hex(c));
    }
    while k < n && (('0' <= s[k] && s[k] <= '9') || ('a' <= s[k] && s[k] <= 'f') || ('A' <= s[k] && s[k] <= 'F'))
        invariant
            n == s@.len(),
            j <= k <= n,
            run_end(s@, k as int, |c: char| is_hex(c)) == run_end(s@, j as int, |c: char| is_hex(c)),
            forall|m: int| j <= m < k ==> is_hex(#[trigger] s@[m]),
            !big ==> acc == hex_digits_value(s@, j as int, k as int) && acc <= i32::MAX,
            big ==> hex_digits_value(s@, j as int, k as int) > i32::MAX,
        decreases n - k,
    {
        let c = s[k];
        let d: u64 = if '0' <= c && c <= '9' {
            (c as u32 - '0' as u32) as u64
        } else if 'a' <= c && c <= 'f' {
            (c as u32 - 'a' as u32 + 10) as u64
        } else {
            (c as u32 - 'A' as u32 + 10) as u64
        };
        proof {
            lemma_hex_value_nonneg(s@, j as int, k as int);
        }
        if !big {
            acc = acc * 16 + d;
            if acc > 2147483647u64 {
                big = true;
            }
        }
        k = k + 1;
    }
    if big {
        (k, None)
    } else {
        (k, Some(acc as i32))
    }
}

/// An integer literal with white space and comments around it; the position after them
/// and the value. A literal whose value does not fit an `i32` is not accepted.
pub fn intlit(s: &Vec<char>, i: usize) -> (r: Option<(usize, i32)>)
    requires
        i <= s@.len(),
    ensures
        match r {
            Some((e, v)) => lex_intlit(s@, i as int) == Some((e as int, v as int)) && i < e <= s@.len() && 0 <= v,
            None => lex_intlit(s@, i as int) is None,
        },
{
    let j = parse_whitespace(s, i);
    let n = s.len();
    let room = n > 2 && j < n - 2;
    proof {
        assert(seq!['\'', '\\', 'n', '\''] =~= ['\'', '\\', 'n', '\'']@);
    }
    let lit: Option<(usize, Option<i32>)> = if room && s[j] == '0' && s[j + 1] == 'x'
        && (('0' <= s[j + 2] && s[j + 2] <= '9') || ('a' <= s[j + 2] && s[j + 2] <= 'f') || ('A' <= s[j + 2] && s[j + 2] <= 'F')) {
        let (k, v) = hex_digits(s, j + 2);
        proof {
            lemma_run_end(s@, j + 2, |c: char| is_hex(c));
            assert forall|m: int| j + 2 <= m < k implies is_hex(#[trigger] s@[m]) by {
                assert((|c: char| is_hex(c))(s@[m]));
            }
            lemma_hex_value_nonneg(s@, j + 2, k as int);
            assert(literal_at(s@, j as int) == Some((k as int, hex_digits_value(s@, j + 2, k as int))));
            assert((|c: char| is_hex(c))(s@[j + 2]));
            lemma_run_end(s@, j + 3, |c: char| is_hex(c));
            assert(run_end(s@, j + 2, |c: char| is_hex(c)) == run_end(s@, j + 3, |c: char| is_hex(c)));
        }
        Some((k, v))
    } else if j < n && '0' <= s[j] && s[j] <= '9' {
        let (k, v) = dec_digits(s, j);
        proof {
            lemma_run_end(s@, j as int, |c: char| is_digit(c));
            assert forall|m: int| j <= m < k implies is_digit(#[trigger] s@[m]) by {
                assert((|c: char| is_digit(c))(s@[m]));
            }
            lemma_dec_value_nonneg(s@, j as int, k as int);
            assert(literal_at(s@, j as int) == Some((k as int, dec_value(s@, j as int, k as int))));
            assert((|c: char| is_digit(c))(s@[j as int]));
            lemma_run_end(s@, j + 1, |c: char| is_digit(c));
            assert(run_end(s@, j as int, |c: char| is_digit(c)) == run_end(s@, j + 1, |c: char| is_digit(c)));
        }
        Some((k, v))
    } else if room && s[j] == '\'' && s[j + 2] == '\'' {
        let c = s[j + 1];
        let code = c as u32;
        if code <= 2147483647u32 {
            Some((j + 3, Some(code as i32)))
        } else {
            Some((j + 3, None))
        }
    } else if tag_at_exec(s, j, &['\'', '\\', 'n', '\'']) {
        Some((j + 4, Some(10i32)))
    } else {
        None
    };
    match lit {
        Some((k, Some(v))) => {
            let e = parse_whitespace(s, k);
            Some((e, v))
        },
        _ => None,
    }
}

proof fn lemma_dec_value_prefix(s: Seq<char>, t: Seq<char>, k: int)
    requires
        0 <= k <= s.len(),
        k <= t.len(),
        s.subrange(0, k) == t.subrange(0, k),
    ensures
        dec_value(s, 0, k) == dec_value(t, 0, k),
    decreases k,
{
    if k > 0 {
        assert(s.subrange(0, k - 1) =~= s.subrange(0, k).subrange(0, k - 1));
        assert(t.subrange(0, k - 1) =~= t.subrange(0, k).subrange(0, k - 1));
        assert(s[k - 1] == s.subrange(0, k)[k - 1]);
        assert(t[k - 1] == t.subrange(0, k)[k - 1]);
        lemma_dec_value_prefix(s, t, k - 1);
    }
}

proof fn lemma_digit_char(d: nat)
    requires
        d < 10,
    ensures
        is_digit(digit_char(d)),
        digit_char(d) as int - '0' as int == d,
{
}

/// Reading back the decimal text of a number gives the number: the text is all digits,
/// and their decimal value, most significant digit first, is the number.
pub proof fn law_decimal_text_reads_back(n: nat)
    ensures
        forall|k: int| 0 <= k < spec_decimal(n).len() ==> is_digit(#[trigger] spec_decimal(n)[k]),
        dec_value(spec_decimal(n), 0, spec_decimal(n).len() as int) == n,
    decreases n,
{
    if n < 10 {
        lemma_digit_char(n);
        let s = spec_decimal(n);
        assert(dec_value(s, 0, 0) == 0);
        assert(dec_value(s, 0, 1) == dec_value(s, 0, 0) * 10 + (s[0] as int - '0' as int));
    } else {
        law_decimal_text_reads_back(n / 10);
        lemma_digit_char(n % 10);
        let p = spec_decimal(n / 10);
        let s = spec_decimal(n);
        assert(s == p.push(digit_char(n % 10)));
        assert(s.subrange(0, p.len() as int) =~= p.subrange(0, p.len() as int));
        lemma_dec_value_prefix(s, p, p.len() as int);
        assert(s[p.len() as int] == digit_char(n % 10));
        assert(dec_value(s, 0, s.len() as int) == dec_value(s, 0, p.len() as int) * 10 + (s[p.len() as int] as int - '0' as int));
        assert(n == (n / 10) * 10 + n % 10);
        assert forall|k: int| 0 <= k < s.len() implies is_digit(#[trigger] s[k]) by {
            if k < p.len() {
                assert(s[k] == p[k]);
            }
        }
    }
}

/// A run of decimal digits reads as the number whose decimal text it is, when it has no
/// leading zero: the lexer's reading and the decimal printing of numbers agree.
pub proof fn law_decimal_literal_value(n: nat, rest: Seq<char>)
    requires
        rest.len() == 0 || !is_digit(rest[0]),
    ensures
        run_end(spec_decimal(n) + rest, 0, |c: char| is_digit(c)) == spec_decimal(n).len(),
        dec_value(spec_decimal(n) + rest, 0, spec_decimal(n).len() as int) == n,
{
    law_decimal_text_reads_back(n);
    let d = spec_decimal(n);
    let s = d + rest;
    assert(s.subrange(0, d.len() as int) =~= d.subrange(0, d.len() as int));
    lemma_dec_value_prefix(s, d, d.len() as int);
    lemma_run_digits(s, d.len() as int, 0);
}

proof fn lemma_run_digits(s: Seq<char>, m: int, k: int)
    requires
        0 <= k <= m <= s.len(),
        forall|j: int| k <= j < m ==> is_digit(#[trigger] s[j]),
        m == s.len() || !is_digit(s[m]),
    ensures
        run_end(s, k, |c: char| is_digit(c)) == m,
    decreases m - k,
{
    if k < m {
        lemma_run_digits(s, m, k + 1);
    }
}

} // verus!
