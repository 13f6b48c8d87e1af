//! Lexical analysis: turning source text into a sequence of tokens.

use vstd::prelude::*;
use vstd::string::StrSliceExecFns;

verus! {

/// One lexical token of the source language.
#[derive(Debug, PartialEq)]
pub enum Token {
    Integer(i32),
    Identififier(String),
    // Keywords
    While,       // 'while'
    // Punctuation symbols
    Star,        // '*'
    PlusEq,      // '+='
    MinusEq,     // '-='
    Semi,        // ';'
    ParenOpen,   // '('
    ParenClose,  // ')'
    CurlyOpen,   // '{'
    CurlyClose,  // '}'
}

/// The mathematical model of a token: identifier names are sequences of
/// characters and integer values are unbounded.
pub enum TokenV {
    Integer(int),
    Identifier(Seq<char>),
    While,
    Star,
    PlusEq,
    MinusEq,
    Semi,
    ParenOpen,
    ParenClose,
    CurlyOpen,
    CurlyClose,
}

impl View for Token {
    type V = TokenV;

    open spec fn view(&self) -> TokenV {
        match self {
            Token::Integer(i) => TokenV::Integer(*i as int),
            Token::Identififier(s) => TokenV::Identifier(s@),
            Token::While => TokenV::While,
            Token::Star => TokenV::Star,
            Token::PlusEq => TokenV::PlusEq,
            Token::MinusEq => TokenV::MinusEq,
            Token::Semi => TokenV::Semi,
            Token::ParenOpen => TokenV::ParenOpen,
            Token::ParenClose => TokenV::ParenClose,
            Token::CurlyOpen => TokenV::CurlyOpen,
            Token::CurlyClose => TokenV::CurlyClose,
        }
    }
}

/// The views of a sequence of tokens, in order.
pub open spec fn token_views(ts: Seq<Token>) -> Seq<TokenV> {
    ts.map_values(|t: Token| t@)
}

/// An error produced by [`tokenize`].
#[derive(Debug, PartialEq, Eq, Structural)]
pub enum TokenizerError {
    /// No lexical rule matches at the current position; the field holds the
    /// offending character. This is the only error the lexer can report.
    UnexpectedCharacter { character: char },
    /// An index fell outside the input during scanning: an internal-invariant
    /// violation. A correct scan never produces it — [`lemma_no_input_error`]
    /// proves it unreachable through [`tokenize`].
    InputError,
}

/// Whitespace, discarded between tokens.
pub open spec fn is_space_char(c: char) -> bool {
    c == ' ' || c == '\t' || c == '\n' || c == '\r' || c == '\x0b' || c == '\x0c'
}

/// A decimal digit.
pub open spec fn is_digit_char(c: char) -> bool {
    '0' as u32 <= c as u32 && c as u32 <= '9' as u32
}

/// An ASCII letter.
pub open spec fn is_letter_char(c: char) -> bool {
    ('a' as u32 <= c as u32 && c as u32 <= 'z' as u32)
    || ('A' as u32 <= c as u32 && c as u32 <= 'Z' as u32)
}

/// A word character: letters, digits and underscores. A word character may
/// continue an identifier, and an integer literal must not be followed by one.
pub open spec fn is_word_char(c: char) -> bool {
    is_letter_char(c) || is_digit_char(c) || c == '_'
}

/// The characters of the keyword `while`.
pub open spec fn while_chars() -> Seq<char> {
    seq!['w', 'h', 'i', 'l', 'e']
}

/// The predicate satisfied by decimal digits.
pub open spec fn digit_pred() -> spec_fn(char) -> bool {
    |c: char| is_digit_char(c)
}

/// The predicate satisfied by word characters.
pub open spec fn word_pred() -> spec_fn(char) -> bool {
    |c: char| is_word_char(c)
}

/// The predicate satisfied by everything but a line break.
pub open spec fn not_newline_pred() -> spec_fn(char) -> bool {
    |c: char| c != '\n'
}

/// The length of the longest prefix of `s` whose characters all satisfy `p`:
/// the lexer's rules munch maximally.
pub open spec fn take_while_len(s: Seq<char>, p: spec_fn(char) -> bool) -> nat
    decreases s.len(),
{
    if s.len() == 0 || !p(s[0]) {
        0
    } else {
        (1 + take_while_len(s.drop_first(), p)) as nat
    }
}

/// The maximal prefix counted by [`take_while_len`] satisfies `p` throughout
/// and cannot be extended.
pub proof fn lemma_take_while(s: Seq<char>, p: spec_fn(char) -> bool)
    ensures
        take_while_len(s, p) <= s.len(),
        forall|i: int| 0 <= i < take_while_len(s, p) ==> p(s[i]),
        take_while_len(s, p) < s.len() ==> !p(s[take_while_len(s, p) as int]),
    decreases s.len(),
{
    if s.len() > 0 && p(s[0]) {
        lemma_take_while(s.drop_first(), p);
        assert forall|i: int| 0 <= i < take_while_len(s, p) implies p(s[i]) by {
            if i >= 1 {
                assert(p(s.drop_first()[i - 1]));
            }
        }
    }
}

/// Any prefix length that satisfies `p` throughout and is followed by a
/// character that fails `p` (or by the end) is the maximal prefix length.
pub proof fn lemma_take_while_is(s: Seq<char>, p: spec_fn(char) -> bool, k: int)
    requires
        0 <= k <= s.len(),
        forall|i: int| 0 <= i < k ==> p(s[i]),
        k < s.len() ==> !p(s[k]),
    ensures
        take_while_len(s, p) == k,
    decreases s.len(),
{
    if s.len() > 0 && p(s[0]) {
        assert(k >= 1);
        lemma_take_while_is(s.drop_first(), p, k - 1);
    }
}

/// True when a line comment starts at the front of `s`: two slashes followed
/// by at least one character on the same line.
pub open spec fn comment_match(s: Seq<char>) -> bool {
    s.len() >= 3 && s[0] == '/' && s[1] == '/' && s[2] != '\n'
}

/// The length of the comment at the front of `s`: the two slashes and the
/// rest of the line.
pub open spec fn comment_len(s: Seq<char>) -> int {
    2 + take_while_len(s.skip(2), not_newline_pred()) as int
}

/// True when an integer literal starts at the front of `s`: an optional
/// minus sign, at least one digit, and no word character directly after the
/// digits (so `123abc` is not a number followed by a name).
pub open spec fn integer_match(s: Seq<char>) -> bool {
    let j: int = if s.len() > 0 && s[0] == '-' { 1 } else { 0 };
    let d = take_while_len(s.skip(j), digit_pred());
    d >= 1 && (j + d == s.len() || !is_word_char(s[j + d]))
}

/// The length of the integer literal at the front of `s`.
pub open spec fn integer_len(s: Seq<char>) -> int {
    let j: int = if s.len() > 0 && s[0] == '-' { 1 } else { 0 };
    j + take_while_len(s.skip(j), digit_pred())
}

/// The numeric value of a digit character.
pub open spec fn digit_val(c: char) -> int {
    c as u32 - '0' as u32
}

/// The value of a sequence of decimal digits, most significant first.
pub open spec fn digits_value(ds: Seq<char>) -> int
    decreases ds.len(),
{
    if ds.len() == 0 {
        0
    } else {
        10 * digits_value(ds.drop_last()) + digit_val(ds.last())
    }
}

/// The value of an integer literal: the digits' value, negated after a
/// leading minus sign.
pub open spec fn literal_value(w: Seq<char>) -> int {
    if w.len() > 0 && w[0] == '-' {
        -digits_value(w.skip(1))
    } else {
        digits_value(w)
    }
}

/// True when an identifier or keyword starts at the front of `s`: a letter,
/// or an underscore followed by at least one more word character.
pub open spec fn ident_match(s: Seq<char>) -> bool {
    s.len() > 0 && (is_letter_char(s[0]) || (s[0] == '_' && s.len() >= 2 && is_word_char(s[1])))
}

/// The length of the identifier or keyword at the front of `s`.
pub open spec fn ident_len(s: Seq<char>) -> int {
    1 + take_while_len(s.skip(1), word_pred()) as int
}

/// Prepends one token to the result of tokenizing the rest of the input,
/// keeping an error as it is.
pub open spec fn prepend_token(t: TokenV, r: Result<Seq<TokenV>, TokenizerError>) -> Result<
    Seq<TokenV>,
    TokenizerError,
> {
    match r {
        Ok(ts) => Ok(seq![t] + ts),
        Err(e) => Err(e),
    }
}

/// The token for each single-character punctuation symbol.
pub open spec fn single_char_token(c: char) -> TokenV {
    if c == '*' {
        TokenV::Star
    } else if c == ';' {
        TokenV::Semi
    } else if c == '(' {
        TokenV::ParenOpen
    } else if c == ')' {
        TokenV::ParenClose
    } else if c == '{' {
        TokenV::CurlyOpen
    } else {
        TokenV::CurlyClose
    }
}

/// The mathematical lexer. At each position the rules are tried in a fixed
/// priority order: whitespace, line comments, integer literals, the
/// two-character operators, single-character punctuation, and identifiers or
/// keywords; the first match is taken, maximally. A position where no rule
/// matches is an `UnexpectedCharacter` error. The integer rule produces only
/// representable 32-bit values: a digit run whose value lies outside that
/// range matches no rule, and its first character is reported as unexpected.
pub open spec fn spec_tokenize(s: Seq<char>) -> Result<Seq<TokenV>, TokenizerError>
    decreases s.len(),
{
    if s.len() == 0 {
        Ok(Seq::empty())
    } else if is_space_char(s[0]) {
        spec_tokenize(s.drop_first())
    } else if comment_match(s) {
        proof {
            lemma_take_while(s.skip(2), not_newline_pred());
        }
        spec_tokenize(s.skip(comment_len(s)))
    } else if integer_match(s) {
        let w = s.take(integer_len(s));
        let v = literal_value(w);
        proof {
            let j: int = if s[0] == '-' { 1 } else { 0 };
            lemma_take_while(s.skip(j), digit_pred());
        }
        if -2147483648 <= v <= 2147483647 {
            prepend_token(TokenV::Integer(v), spec_tokenize(s.skip(integer_len(s))))
        } else {
            Err(TokenizerError::UnexpectedCharacter { character: s[0] })
        }
    } else if s[0] == '+' && s.len() >= 2 && s[1] == '=' {
        prepend_token(TokenV::PlusEq, spec_tokenize(s.skip(2)))
    } else if s[0] == '-' && s.len() >= 2 && s[1] == '=' {
        prepend_token(TokenV::MinusEq, spec_tokenize(s.skip(2)))
    } else if s[0] == '*' || s[0] == ';' || s[0] == '(' || s[0] == ')' || s[0] == '{' || s[0]
        == '}' {
        prepend_token(single_char_token(s[0]), spec_tokenize(s.skip(1)))
    } else if ident_match(s) {
        let w = s.take(ident_len(s));
        proof {
            lemma_take_while(s.skip(1), word_pred());
        }
        if w == while_chars() {
            prepend_token(TokenV::While, spec_tokenize(s.skip(ident_len(s))))
        } else {
            prepend_token(TokenV::Identifier(w), spec_tokenize(s.skip(ident_len(s))))
        }
    } else {
        Err(TokenizerError::UnexpectedCharacter { character: s[0] })
    }
}

/// The lexer's only failure is an unexpected character: no input, however
/// malformed, makes [`spec_tokenize`] — and with it [`tokenize`] — report
/// the internal `InputError`.
pub proof fn lemma_no_input_error(s: Seq<char>)
    ensures
        spec_tokenize(s) != Err::<Seq<TokenV>, TokenizerError>(TokenizerError::InputError),
    decreases s.len(),
{
    if s.len() == 0 {
    } else if is_space_char(s[0]) {
        lemma_no_input_error(s.drop_first());
    } else if comment_match(s) {
        lemma_take_while(s.skip(2), not_newline_pred());
        lemma_no_input_error(s.skip(comment_len(s)));
    } else if integer_match(s) {
        let j: int = if s[0] == '-' {
            1
        } else {
            0
        };
        lemma_take_while(s.skip(j), digit_pred());
        lemma_no_input_error(s.skip(integer_len(s)));
    } else if s[0] == '+' && s.len() >= 2 && s[1] == '=' {
        lemma_no_input_error(s.skip(2));
    } else if s[0] == '-' && s.len() >= 2 && s[1] == '=' {
        lemma_no_input_error(s.skip(2));
    } else if s[0] == '*' || s[0] == ';' || s[0] == '(' || s[0] == ')' || s[0] == '{' || s[0]
        == '}' {
        lemma_no_input_error(s.skip(1));
    } else if ident_match(s) {
        lemma_take_while(s.skip(1), word_pred());
        lemma_no_input_error(s.skip(ident_len(s)));
    }
}

/// Appends already-produced tokens in front of the outcome of tokenizing the
/// remaining input.
pub open spec fn compose_tokens(
    ts: Seq<TokenV>,
    r: Result<Seq<TokenV>, TokenizerError>,
) -> Result<Seq<TokenV>, TokenizerError> {
    match r {
        Ok(more) => Ok(ts + more),
        Err(e) => Err(e),
    }
}

proof fn lemma_tokenize_step(s: Seq<char>, i: int, k: int, toks: Seq<Token>, t: Token)
    requires
        spec_tokenize(s) == compose_tokens(token_views(toks), spec_tokenize(s.skip(i))),
        spec_tokenize(s.skip(i)) == prepend_token(t@, spec_tokenize(s.skip(i + k))),
    ensures
        spec_tokenize(s) == compose_tokens(token_views(toks.push(t)), spec_tokenize(s.skip(i + k))),
{
    match spec_tokenize(s.skip(i + k)) {
        Ok(more) => {
            assert(token_views(toks.push(t)) =~= token_views(toks).push(t@));
            assert(token_views(toks) + (seq![t@] + more) =~= token_views(toks.push(t)) + more);
        },
        Err(_) => {},
    }
}

proof fn lemma_step_space(s: Seq<char>)
    requires
        s.len() > 0,
        is_space_char(s[0]),
    ensures
        spec_tokenize(s) == spec_tokenize(s.skip(1)),
{
    assert(s.drop_first() =~= s.skip(1));
}

proof fn lemma_step_comment(s: Seq<char>)
    requires
        comment_match(s),
    ensures
        spec_tokenize(s) == spec_tokenize(s.skip(comment_len(s))),
{
    assert(!is_space_char(s[0]));
}

proof fn lemma_step_integer(s: Seq<char>)
    requires
        integer_match(s),
    ensures
        ({
            let v = literal_value(s.take(integer_len(s)));
            if -2147483648 <= v <= 2147483647 {
                spec_tokenize(s) == prepend_token(
                    TokenV::Integer(v),
                    spec_tokenize(s.skip(integer_len(s))),
                )
            } else {
                spec_tokenize(s) == Err::<Seq<TokenV>, TokenizerError>(
                    TokenizerError::UnexpectedCharacter { character: s[0] },
                )
            }
        }),
{
    let j: int = if s.len() > 0 && s[0] == '-' {
        1
    } else {
        0
    };
    lemma_take_while(s.skip(j), digit_pred());
    assert(s.len() > 0);
    if j == 0 {
        assert(s.skip(0) =~= s);
        assert(digit_pred()(s[0]));
        assert(is_digit_char(s[0]));
        assert(!is_space_char(s[0]));
        assert(!comment_match(s));
    } else {
        assert(!is_space_char(s[0]));
        assert(!comment_match(s));
    }
}

proof fn lemma_step_plus_eq(s: Seq<char>)
    requires
        s.len() >= 2,
        s[0] == '+',
        s[1] == '=',
    ensures
        spec_tokenize(s) == prepend_token(TokenV::PlusEq, spec_tokenize(s.skip(2))),
{
    assert(!integer_match(s)) by {
        assert(s.skip(0) =~= s);
        assert(!digit_pred()(s[0]));
    };
}

proof fn lemma_step_minus_eq(s: Seq<char>)
    requires
        s.len() >= 2,
        s[0] == '-',
        s[1] == '=',
        !integer_match(s),
    ensures
        spec_tokenize(s) == prepend_token(TokenV::MinusEq, spec_tokenize(s.skip(2))),
{
}

proof fn lemma_step_single(s: Seq<char>)
    requires
        s.len() > 0,
        s[0] == '*' || s[0] == ';' || s[0] == '(' || s[0] == ')' || s[0] == '{' || s[0] == '}',
    ensures
        spec_tokenize(s) == prepend_token(single_char_token(s[0]), spec_tokenize(s.skip(1))),
{
    assert(!integer_match(s)) by {
        assert(s.skip(0) =~= s);
        assert(!digit_pred()(s[0]));
    };
}

proof fn lemma_step_ident(s: Seq<char>)
    requires
        ident_match(s),
    ensures
        ({
            let w = s.take(ident_len(s));
            if w == while_chars() {
                spec_tokenize(s) == prepend_token(
                    TokenV::While,
                    spec_tokenize(s.skip(ident_len(s))),
                )
            } else {
                spec_tokenize(s) == prepend_token(
                    TokenV::Identifier(w),
                    spec_tokenize(s.skip(ident_len(s))),
                )
            }
        }),
{
    lemma_take_while(s.skip(1), word_pred());
    assert(!integer_match(s)) by {
        assert(s.skip(0) =~= s);
        assert(!digit_pred()(s[0]));
    };
    assert(!is_space_char(s[0]));
    assert(!comment_match(s));
}

proof fn lemma_step_error(s: Seq<char>)
    requires
        s.len() > 0,
        !is_space_char(s[0]),
        !comment_match(s),
        !integer_match(s),
        !(s.len() >= 2 && s[0] == '+' && s[1] == '='),
        !(s.len() >= 2 && s[0] == '-' && s[1] == '='),
        s[0] != '*' && s[0] != ';' && s[0] != '(' && s[0] != ')' && s[0] != '{' && s[0] != '}',
        !ident_match(s),
    ensures
        spec_tokenize(s) == Err::<Seq<TokenV>, TokenizerError>(
            TokenizerError::UnexpectedCharacter { character: s[0] },
        ),
{
}

fn is_space(c: char) -> (b: bool)
    ensures
        b == is_space_char(c),
{
    c == ' ' || c == '\t' || c == '\n' || c == '\r' || c == '\x0b' || c == '\x0c'
}

fn is_digit(c: char) -> (b: bool)
    ensures
        b == is_digit_char(c),
{
    let u = c as u32;
    '0' as u32 <= u && u <= '9' as u32
}

fn is_letter(c: char) -> (b: bool)
    ensures
        b == is_letter_char(c),
{
    let u = c as u32;
    ('a' as u32 <= u && u <= 'z' as u32) || ('A' as u32 <= u && u <= 'Z' as u32)
}

fn is_word(c: char) -> (b: bool)
    ensures
        b == is_word_char(c),
{
    is_letter(c) || is_digit(c) || c == '_'
}

/// Reads the value of the digit run `src[start..end]`, negated when `neg`
/// holds; `None` when the value does not fit the 32-bit signed range.
fn digits_to_value(src: &str, start: usize, end: usize, neg: bool) -> (r: Option<i32>)
    requires
        start <= end && end <= src@.len(),
        forall|j: int| start <= j < end ==> is_digit_char(src@[j]),
    ensures
        ({
            let dv = digits_value(src@.subrange(start as int, end as int));
            let v: int = if neg {
                -dv
            } else {
                dv
            };
            match r {
                Some(x) => x as int == v,
                None => v < -2147483648 || v > 2147483647,
            }
        }),
{
    let ghost ds = src@.subrange(start as int, end as int);
    let mut acc: u64 = 0;
    let mut big = false;
    let mut k = start;
    while k < end
        invariant
            start <= k <= end,
            end <= src@.len(),
            ds == src@.subrange(start as int, end as int),
            forall|j: int| start <= j < end ==> is_digit_char(src@[j]),
            !big ==> acc as int == digits_value(ds.take(k - start)) && acc <= 0x8000_0000,
            big ==> digits_value(ds.take(k - start)) > 0x8000_0000,
        decreases end - k,
    {
        let c = src.get_char(k);
        proof {
            assert(ds[k - start] == src@[k as int]);
            assert(is_digit_char(c));
            assert(ds.take(k + 1 - start).drop_last() =~= ds.take(k - start));
            assert(ds.take(k + 1 - start).last() == c);
        }
        let d: u64 = (c as u32 - '0' as u32) as u64;
        if !big {
            acc = acc * 10 + d;
            if acc > 0x8000_0000 {
                big = true;
            }
        }
        k += 1;
    }
    proof {
        assert(ds.take(end - start) =~= ds);
    }
    if big {
        return None;
    }
    if neg {
        if acc == 0x8000_0000 {
            Some(i32::MIN)
        } else {
            Some(-(acc as i32))
        }
    } else {
        if acc > 0x7fff_ffff {
            None
        } else {
            Some(acc as i32)
        }
    }
}

/// Reads the integer literal that was found to start at position `i` and
/// end at position `e`, with an optional minus sign of length `j0`.
fn lex_number(src: &str, i: usize, n: usize, j0: usize, e: usize) -> (res: Result<
    (Option<Token>, usize),
    TokenizerError,
>)
    requires
        n == src@.len(),
        i < n,
        j0 <= 1,
        i + j0 < e <= n,
        j0 == 1 <==> src@[i as int] == '-',
        forall|j: int| i + j0 <= j < e ==> is_digit_char(src@[j]),
        integer_match(src@.skip(i as int)),
        integer_len(src@.skip(i as int)) == e - i,
    ensures
        match res {
            Ok(step) => i < step.1 <= n && step.1 == e && match step.0 {
                Some(t) => spec_tokenize(src@.skip(i as int)) == prepend_token(
                    t@,
                    spec_tokenize(src@.skip(step.1 as int)),
                ),
                None => false,
            },
            Err(e) => spec_tokenize(src@.skip(i as int)) == Err::<Seq<TokenV>, TokenizerError>(e),
        },
{
    let ghost rem = src@.skip(i as int);
    let ghost w = rem.take(e - i);
    proof {
        assert(rem[0] == src@[i as int]);
        assert(w =~= src@.subrange(i as int, e as int));
        if j0 == 1 {
            assert(w[0] == '-');
            assert(w.skip(1) =~= src@.subrange(i as int + 1, e as int));
        } else {
            assert(w =~= src@.subrange(i as int + j0, e as int));
            assert(is_digit_char(w[0]));
            assert(w[0] != '-');
        }
        assert(literal_value(w) == ({
            let dv = digits_value(src@.subrange((i + j0) as int, e as int));
            if j0 == 1 {
                -dv
            } else {
                dv
            }
        }));
        lemma_step_integer(rem);
    }
    match digits_to_value(src, i + j0, e, j0 == 1) {
        Some(val) => {
            proof {
                assert(val as int == literal_value(w));
                assert(rem.skip(e - i) =~= src@.skip(e as int));
            }
            Ok((Some(Token::Integer(val)), e))
        },
        None => {
            // the literal's value fits no token: its first character is the
            // position where the rules fail
            let c = src.get_char(i);
            Err(TokenizerError::UnexpectedCharacter { character: c })
        },
    }
}

/// Applies the first lexical rule that matches at position `i`, returning
/// the produced token (if the rule produces one) and the next position.
#[verifier::rlimit(100)]
fn lex_step(src: &str, i: usize, n: usize) -> (res: Result<(Option<Token>, usize), TokenizerError>)
    requires
        n == src@.len(),
        i < n,
    ensures
        match res {
            Ok(step) => i < step.1 <= n && match step.0 {
                Some(t) => spec_tokenize(src@.skip(i as int)) == prepend_token(
                    t@,
                    spec_tokenize(src@.skip(step.1 as int)),
                ),
                None => spec_tokenize(src@.skip(i as int)) == spec_tokenize(
                    src@.skip(step.1 as int),
                ),
            },
            Err(e) => spec_tokenize(src@.skip(i as int)) == Err::<Seq<TokenV>, TokenizerError>(e),
        },
{
    let ghost rem = src@.skip(i as int);
    proof {
        assert(rem.len() == n - i);
        assert(rem[0] == src@[i as int]);
    }
    let c0 = src.get_char(i);
    if is_space(c0) {
        proof {
            lemma_step_space(rem);
            assert(rem.skip(1) =~= src@.skip(i as int + 1));
        }
        return Ok((None, i + 1));
    }
    if c0 == '/' && i + 1 < n && src.get_char(i + 1) == '/' && i + 2 < n && src.get_char(i + 2)
        != '\n' {
        // A line comment: discard up to the end of the line.
        proof {
            assert(rem[1] == src@[i as int + 1]);
            assert(rem[2] == src@[i as int + 2]);
        }
        let mut e = i + 2;
        while e < n && src.get_char(e) != '\n'
            invariant
                n == src@.len(),
                i + 2 <= e <= n,
                forall|j: int| i + 2 <= j < e ==> src@[j] != '\n',
            decreases n - e,
        {
            e += 1;
        }
        proof {
            assert(rem.skip(2) =~= src@.subrange(i as int + 2, n as int));
            lemma_take_while_is(rem.skip(2), not_newline_pred(), e - (i + 2));
            assert(comment_len(rem) == e - i);
            lemma_step_comment(rem);
            assert(rem.skip(e - i) =~= src@.skip(e as int));
        }
        return Ok((None, e));
    }
    // Try an integer literal before anything else that could start with a
    // minus sign.
    let j0: usize = if c0 == '-' {
        1
    } else {
        0
    };
    let mut e = i + j0;
    while e < n && is_digit(src.get_char(e))
        invariant
            n == src@.len(),
            i + j0 <= e <= n,
            forall|j: int| i + j0 <= j < e ==> is_digit_char(src@[j]),
        decreases n - e,
    {
        e += 1;
    }
    let has_digits = e > i + j0;
    let boundary_ok = e == n || !is_word(src.get_char(e));
    proof {
        assert(rem.skip(j0 as int) =~= src@.subrange(i as int + j0, n as int));
        lemma_take_while_is(rem.skip(j0 as int), digit_pred(), e - (i + j0));
        assert(integer_match(rem) == (has_digits && boundary_ok));
    }
    if has_digits && boundary_ok {
        proof {
            assert(integer_len(rem) == e - i);
        }
        return lex_number(src, i, n, j0, e);
    }
    if c0 == '+' && i + 1 < n && src.get_char(i + 1) == '=' {
        proof {
            assert(rem[1] == src@[i as int + 1]);
            lemma_step_plus_eq(rem);
            assert(rem.skip(2) =~= src@.skip(i as int + 2));
        }
        return Ok((Some(Token::PlusEq), i + 2));
    }
    if c0 == '-' && i + 1 < n && src.get_char(i + 1) == '=' {
        proof {
            assert(rem[1] == src@[i as int + 1]);
            lemma_step_minus_eq(rem);
            assert(rem.skip(2) =~= src@.skip(i as int + 2));
        }
        return Ok((Some(Token::MinusEq), i + 2));
    }
    if c0 == '*' || c0 == ';' || c0 == '(' || c0 == ')' || c0 == '{' || c0 == '}' {
        let t = if c0 == '*' {
            Token::Star
        } else if c0 == ';' {
            Token::Semi
        } else if c0 == '(' {
            Token::ParenOpen
        } else if c0 == ')' {
            Token::ParenClose
        } else if c0 == '{' {
            Token::CurlyOpen
        } else {
            Token::CurlyClose
        };
        proof {
            lemma_step_single(rem);
            assert(rem.skip(1) =~= src@.skip(i as int + 1));
        }
        return Ok((Some(t), i + 1));
    }
    if is_letter(c0) || (c0 == '_' && i + 1 < n && is_word(src.get_char(i + 1))) {
        proof {
            if i + 1 < n {
                assert(rem[1] == src@[i as int + 1]);
            }
            assert(ident_match(rem));
        }
        let mut e2 = i + 1;
        while e2 < n && is_word(src.get_char(e2))
            invariant
                n == src@.len(),
                i + 1 <= e2 <= n,
                forall|j: int| i + 1 <= j < e2 ==> is_word_char(src@[j]),
            decreases n - e2,
        {
            e2 += 1;
        }
        proof {
            assert(rem.skip(1) =~= src@.subrange(i as int + 1, n as int));
            lemma_take_while_is(rem.skip(1), word_pred(), e2 - (i + 1));
            assert(ident_len(rem) == e2 - i);
            assert(rem.take(e2 - i) =~= src@.subrange(i as int, e2 as int));
            lemma_step_ident(rem);
        }
        let word = src.substring_char(i, e2);
        let is_kw = str_eq(word, "while");
        proof {
            reveal_strlit("while");
            assert("while"@ =~= while_chars());
            assert(rem.skip(e2 - i) =~= src@.skip(e2 as int));
        }
        if is_kw {
            return Ok((Some(Token::While), e2));
        } else {
            return Ok((Some(Token::Identififier(String::from_str(word))), e2));
        }
    }
    proof {
        assert(!comment_match(rem)) by {
            if rem.len() >= 3 {
                assert(rem[1] == src@[i as int + 1]);
                assert(rem[2] == src@[i as int + 2]);
            }
        }
        assert(!ident_match(rem)) by {
            if rem.len() >= 2 {
                assert(rem[1] == src@[i as int + 1]);
            }
        }
        assert(rem.len() >= 2 ==> rem[1] == src@[i as int + 1]);
        lemma_step_error(rem);
    }
    Err(TokenizerError::UnexpectedCharacter { character: c0 })
}

/// Splits source text into tokens, left to right, as [`spec_tokenize`]
/// describes: at each position the first matching rule is taken, and a
/// position where no rule matches aborts the whole pass with an error.
pub fn tokenize(src: &str) -> (r: Result<Vec<Token>, TokenizerError>)
    ensures
        match r {
            Ok(v) => spec_tokenize(src@) == Ok::<Seq<TokenV>, TokenizerError>(token_views(v@)),
            Err(e) => spec_tokenize(src@) == Err::<Seq<TokenV>, TokenizerError>(e),
        },
{
    let n = src.unicode_len();
    let mut tokens: Vec<Token> = Vec::new();
    let mut i: usize = 0;
    proof {
        assert(src@.skip(0) =~= src@);
        assert(token_views(tokens@) =~= Seq::<TokenV>::empty());
        if let Ok(ts) = spec_tokenize(src@) {
            assert(Seq::<TokenV>::empty() + ts =~= ts);
        }
    }
    while i < n
        invariant
            n == src@.len(),
            i <= n,
            spec_tokenize(src@) == compose_tokens(
                token_views(tokens@),
                spec_tokenize(src@.skip(i as int)),
            ),
        decreases n - i,
    {
        match lex_step(src, i, n) {
            Ok(step) => {
                let (ot, i2) = step;
                match ot {
                    Some(t) => {
                        let ghost tg = t;
                        let ghost toks0 = tokens@;
                        tokens.push(t);
                        proof {
                            lemma_tokenize_step(src@, i as int, i2 - i, toks0, tg);
                        }
                    },
                    None => {},
                }
                i = i2;
            },
            Err(e) => {
                return Err(e);
            },
        }
    }
    proof {
        assert(src@.skip(n as int) =~= Seq::<char>::empty());
        if let Ok(ts) = spec_tokenize(src@.skip(n as int)) {
            assert(token_views(tokens@) + ts =~= token_views(tokens@));
        }
    }
    Ok(tokens)
}

/// Compares two string slices character by character.
pub(crate) fn str_eq(a: &str, b: &str) -> (r: bool)
    ensures
        r == (a@ == b@),
{
    let na = a.unicode_len();
    let nb = b.unicode_len();
    if na != nb {
        return false;
    }
    let mut i: usize = 0;
    while i < na
        invariant
            na == a@.len(),
            na == b@.len(),
            i <= na,
            forall|j: int| 0 <= j < i ==> a@[j] == b@[j],
        decreases na - i,
    {
        if a.get_char(i) != b.get_char(i) {
            return false;
        }
        i += 1;
    }
    proof {
        assert(a@ =~= b@);
    }
    true
}

} // verus!
