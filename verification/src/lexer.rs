//! Tokenizer: turns source text into a sequence of lexical tokens, skipping
//! whitespace and comments (line comments introduced by `%`, nestable block
//! comments delimited by `/*` and `*/`).
//!
//! The meaning of tokenization is given by the specification function
//! [`spec_tokenize`], a left-to-right scan over the character sequence; the
//! executable [`tokenize`] is proved to return exactly its result.

use vstd::prelude::*;

verus! {

// ---------------------------------------------------------------------------
// Tokens and lexing errors
// ---------------------------------------------------------------------------

/// A lexical token. Names are classified at scan time: a name whose first
/// character is an uppercase letter or an underscore is a `Variable`, any
/// other name is an `Atom`, except the reserved word `is`.
#[derive(Debug)]
pub enum Token {
    Atom(String),
    Variable(String),
    Number(i64),
    LParen,
    RParen,
    LBracket,
    RBracket,
    Comma,
    Dot,
    /// The clause-implication marker `:-`.
    If,
    /// The conjunction separator `;`.
    And,
    /// The reserved arithmetic-evaluation word `is`.
    Is,
    Plus,
    Minus,
    Multiply,
    Divide,
}

/// An error produced while scanning source text.
#[derive(Debug)]
pub enum LexerError {
    /// A character that no scanning rule accepts.
    UnexpectedChar(char),
    /// A numeric literal that does not fit in a 64-bit signed integer;
    /// carries the offending text.
    InvalidInteger(String),
    /// The input ended inside a block comment.
    UnterminatedComment,
}

/// The mathematical value of a [`Token`]: string payloads are taken to their
/// character sequences, numbers to unbounded integers.
pub enum Tok {
    Atom(Seq<char>),
    Variable(Seq<char>),
    Number(int),
    LParen,
    RParen,
    LBracket,
    RBracket,
    Comma,
    Dot,
    If,
    And,
    Is,
    Plus,
    Minus,
    Multiply,
    Divide,
}

/// The mathematical value of a [`LexerError`].
pub enum LexErr {
    UnexpectedChar(char),
    InvalidInteger(Seq<char>),
    UnterminatedComment,
}

impl View for Token {
    type V = Tok;

    open spec fn view(&self) -> Tok {
        match self {
            Token::Atom(s) => Tok::Atom(s@),
            Token::Variable(s) => Tok::Variable(s@),
            Token::Number(n) => Tok::Number(*n as int),
            Token::LParen => Tok::LParen,
            Token::RParen => Tok::RParen,
            Token::LBracket => Tok::LBracket,
            Token::RBracket => Tok::RBracket,
            Token::Comma => Tok::Comma,
            Token::Dot => Tok::Dot,
            Token::If => Tok::If,
            Token::And => Tok::And,
            Token::Is => Tok::Is,
            Token::Plus => Tok::Plus,
            Token::Minus => Tok::Minus,
            Token::Multiply => Tok::Multiply,
            Token::Divide => Tok::Divide,
        }
    }
}

impl View for LexerError {
    type V = LexErr;

    open spec fn view(&self) -> LexErr {
        match self {
            LexerError::UnexpectedChar(c) => LexErr::UnexpectedChar(*c),
            LexerError::InvalidInteger(s) => LexErr::InvalidInteger(s@),
            LexerError::UnterminatedComment => LexErr::UnterminatedComment,
        }
    }
}

impl Clone for Token {
    fn clone(&self) -> (r: Self)
        ensures
            r == *self,
    {
        match self {
            Token::Atom(s) => Token::Atom(s.clone()),
            Token::Variable(s) => Token::Variable(s.clone()),
            Token::Number(n) => Token::Number(*n),
            Token::LParen => Token::LParen,
            Token::RParen => Token::RParen,
            Token::LBracket => Token::LBracket,
            Token::RBracket => Token::RBracket,
            Token::Comma => Token::Comma,
            Token::Dot => Token::Dot,
            Token::If => Token::If,
            Token::And => Token::And,
            Token::Is => Token::Is,
            Token::Plus => Token::Plus,
            Token::Minus => Token::Minus,
            Token::Multiply => Token::Multiply,
            Token::Divide => Token::Divide,
        }
    }
}

impl PartialEq for Token {
    fn eq(&self, other: &Token) -> (r: bool) {
        match (self, other) {
            (Token::Atom(a), Token::Atom(b)) => *a == *b,
            (Token::Variable(a), Token::Variable(b)) => *a == *b,
            (Token::Number(a), Token::Number(b)) => *a == *b,
            (Token::LParen, Token::LParen) => true,
            (Token::RParen, Token::RParen) => true,
            (Token::LBracket, Token::LBracket) => true,
            (Token::RBracket, Token::RBracket) => true,
            (Token::Comma, Token::Comma) => true,
            (Token::Dot, Token::Dot) => true,
            (Token::If, Token::If) => true,
            (Token::And, Token::And) => true,
            (Token::Is, Token::Is) => true,
            (Token::Plus, Token::Plus) => true,
            (Token::Minus, Token::Minus) => true,
            (Token::Multiply, Token::Multiply) => true,
            (Token::Divide, Token::Divide) => true,
            _ => false,
        }
    }
}

impl vstd::std_specs::cmp::PartialEqSpecImpl for Token {
    open spec fn obeys_eq_spec() -> bool {
        true
    }

    open spec fn eq_spec(&self, other: &Token) -> bool {
        self@ == other@
    }
}

// ---------------------------------------------------------------------------
// Character classification
// ---------------------------------------------------------------------------

/// The whitespace characters the scanner consumes by its primary rule.
pub open spec fn is_ws_char(c: char) -> bool {
    c == ' ' || c == '\t' || c == '\n' || c == '\r'
}

/// The remaining Unicode `White_Space` characters, accepted by the scanner's
/// defensive fallback rule and by [`skip_whitespace`].
pub open spec fn is_misc_space(c: char) -> bool {
    ||| c == '\u{000B}'
    ||| c == '\u{000C}'
    ||| c == '\u{0085}'
    ||| c == '\u{00A0}'
    ||| c == '\u{1680}'
    ||| ('\u{2000}' <= c && c <= '\u{200A}')
    ||| c == '\u{2028}'
    ||| c == '\u{2029}'
    ||| c == '\u{202F}'
    ||| c == '\u{205F}'
    ||| c == '\u{3000}'
}

/// Any whitespace character: the primary set or the fallback set.
pub open spec fn is_space(c: char) -> bool {
    is_ws_char(c) || is_misc_space(c)
}

pub open spec fn is_upper(c: char) -> bool {
    'A' <= c && c <= 'Z'
}

pub open spec fn is_lower(c: char) -> bool {
    'a' <= c && c <= 'z'
}

pub open spec fn is_digit_char(c: char) -> bool {
    '0' <= c && c <= '9'
}

/// A character that may start a name token.
pub open spec fn is_name_start(c: char) -> bool {
    is_upper(c) || is_lower(c) || c == '_'
}

/// A character that may continue a name token.
pub open spec fn is_name_char(c: char) -> bool {
    is_name_start(c) || is_digit_char(c)
}

fn ws_char(c: char) -> (r: bool)
    ensures
        r == is_ws_char(c),
{
    c == ' ' || c == '\t' || c == '\n' || c == '\r'
}

fn misc_space_char(c: char) -> (r: bool)
    ensures
        r == is_misc_space(c),
{
    c == '\u{000B}' || c == '\u{000C}' || c == '\u{0085}' || c == '\u{00A0}' || c == '\u{1680}'
        || ('\u{2000}' <= c && c <= '\u{200A}') || c == '\u{2028}' || c == '\u{2029}'
        || c == '\u{202F}' || c == '\u{205F}' || c == '\u{3000}'
}

fn space_char(c: char) -> (r: bool)
    ensures
        r == is_space(c),
{
    ws_char(c) || misc_space_char(c)
}

fn upper_char(c: char) -> (r: bool)
    ensures
        r == is_upper(c),
{
    'A' <= c && c <= 'Z'
}

fn lower_char(c: char) -> (r: bool)
    ensures
        r == is_lower(c),
{
    'a' <= c && c <= 'z'
}

fn digit_char(c: char) -> (r: bool)
    ensures
        r == is_digit_char(c),
{
    '0' <= c && c <= '9'
}

fn name_start_char(c: char) -> (r: bool)
    ensures
        r == is_name_start(c),
{
    upper_char(c) || lower_char(c) || c == '_'
}

fn name_char(c: char) -> (r: bool)
    ensures
        r == is_name_char(c),
{
    name_start_char(c) || digit_char(c)
}

// ---------------------------------------------------------------------------
// Scanning, in specification form
// ---------------------------------------------------------------------------

/// The length of the maximal prefix of `s` made of name characters.
pub open spec fn name_prefix_len(s: Seq<char>) -> nat
    decreases s.len(),
{
    if s.len() > 0 && is_name_char(s[0]) {
        1 + name_prefix_len(s.skip(1))
    } else {
        0
    }
}

/// The length of the maximal prefix of `s` made of decimal digits.
pub open spec fn digits_prefix_len(s: Seq<char>) -> nat
    decreases s.len(),
{
    if s.len() > 0 && is_digit_char(s[0]) {
        1 + digits_prefix_len(s.skip(1))
    } else {
        0
    }
}

/// The length of the maximal prefix of `s` without a newline: the span of a
/// line comment's text.
pub open spec fn line_comment_len(s: Seq<char>) -> nat
    decreases s.len(),
{
    if s.len() > 0 && s[0] != '\n' {
        1 + line_comment_len(s.skip(1))
    } else {
        0
    }
}

/// The name prefix is no longer than the sequence.
pub proof fn lemma_name_prefix_le(s: Seq<char>)
    ensures
        name_prefix_len(s) <= s.len(),
    decreases s.len(),
{
    if s.len() > 0 && is_name_char(s[0]) {
        lemma_name_prefix_le(s.skip(1));
    }
}

/// The digit prefix is no longer than the sequence.
pub proof fn lemma_digits_prefix_le(s: Seq<char>)
    ensures
        digits_prefix_len(s) <= s.len(),
    decreases s.len(),
{
    if s.len() > 0 && is_digit_char(s[0]) {
        lemma_digits_prefix_le(s.skip(1));
    }
}

/// A line comment's text is no longer than the sequence.
pub proof fn lemma_line_comment_le(s: Seq<char>)
    ensures
        line_comment_len(s) <= s.len(),
    decreases s.len(),
{
    if s.len() > 0 && s[0] != '\n' {
        lemma_line_comment_le(s.skip(1));
    }
}

/// The numeric value of a digit character.
pub open spec fn digit_val(c: char) -> int {
    c as int - '0' as int
}

/// The value of a sequence of decimal digits, most significant first.
pub open spec fn digits_val(s: Seq<char>) -> int
    decreases s.len(),
{
    if s.len() == 0 {
        0
    } else {
        digits_val(s.drop_last()) * 10 + digit_val(s.last())
    }
}

/// The remainder of `s` after the closing delimiter that brings `level`
/// nested block comments back to zero, or `None` if the input ends first.
/// One step consumes a delimiter pair or a single character, as the scanner
/// does.
pub open spec fn spec_skip_block(s: Seq<char>, level: nat) -> Option<Seq<char>>
    decreases s.len(),
{
    if level == 0 {
        Some(s)
    } else if s.len() == 0 {
        None
    } else if s[0] == '*' && s.len() >= 2 && s[1] == '/' {
        spec_skip_block(s.skip(2), (level - 1) as nat)
    } else if s[0] == '/' && s.len() >= 2 && s[1] == '*' {
        spec_skip_block(s.skip(2), level + 1)
    } else {
        spec_skip_block(s.skip(1), level)
    }
}

/// What remains after a block comment is no longer than the input.
pub proof fn lemma_skip_block_len(s: Seq<char>, level: nat)
    ensures
        spec_skip_block(s, level) matches Some(r) ==> r.len() <= s.len(),
    decreases s.len(),
{
    if level == 0 || s.len() == 0 {
    } else if s[0] == '*' && s.len() >= 2 && s[1] == '/' {
        lemma_skip_block_len(s.skip(2), (level - 1) as nat);
    } else if s[0] == '/' && s.len() >= 2 && s[1] == '*' {
        lemma_skip_block_len(s.skip(2), level + 1);
    } else {
        lemma_skip_block_len(s.skip(1), level);
    }
}

/// The classification of a scanned name: the reserved word `is`, a variable
/// if it starts with an uppercase letter or an underscore, an atom otherwise.
pub open spec fn classify_name(name: Seq<char>) -> Tok {
    if name.len() == 2 && name[0] == 'i' && name[1] == 's' {
        Tok::Is
    } else if is_upper(name[0]) || name[0] == '_' {
        Tok::Variable(name)
    } else {
        Tok::Atom(name)
    }
}

/// Prepends a token to a tokenization outcome.
pub open spec fn tok_cons(t: Tok, r: Result<Seq<Tok>, LexErr>) -> Result<Seq<Tok>, LexErr> {
    match r {
        Ok(ts) => Ok(seq![t] + ts),
        Err(e) => Err(e),
    }
}

/// The largest magnitude accepted for a number token: `i64::MAX` for a plain
/// digit run, `2^63` for one preceded by a minus sign.
pub open spec fn i64_max_magnitude(negative: bool) -> int {
    if negative {
        0x8000_0000_0000_0000
    } else {
        0x7fff_ffff_ffff_ffff
    }
}

/// One left-to-right scan of `s`, producing its token sequence or the first
/// lexing error. Each step consumes the longest prefix its rule accepts.
pub open spec fn spec_tokenize(s: Seq<char>) -> Result<Seq<Tok>, LexErr>
    decreases s.len(),
{
    if s.len() == 0 {
        Ok(Seq::empty())
    } else {
        let c = s[0];
        if is_ws_char(c) {
            spec_tokenize(s.skip(1))
        } else if c == ',' {
            tok_cons(Tok::Comma, spec_tokenize(s.skip(1)))
        } else if is_name_start(c) {
            proof {
                lemma_name_prefix_le(s);
            }
            let n = name_prefix_len(s) as int;
            tok_cons(classify_name(s.take(n)), spec_tokenize(s.skip(n)))
        } else if is_digit_char(c) {
            proof {
                lemma_digits_prefix_le(s);
            }
            let n = digits_prefix_len(s) as int;
            if digits_val(s.take(n)) <= i64_max_magnitude(false) {
                tok_cons(Tok::Number(digits_val(s.take(n))), spec_tokenize(s.skip(n)))
            } else {
                Err(LexErr::InvalidInteger(s.take(n)))
            }
        } else if c == '(' {
            tok_cons(Tok::LParen, spec_tokenize(s.skip(1)))
        } else if c == ')' {
            tok_cons(Tok::RParen, spec_tokenize(s.skip(1)))
        } else if c == '.' {
            tok_cons(Tok::Dot, spec_tokenize(s.skip(1)))
        } else if c == ':' {
            if s.len() >= 2 && s[1] == '-' {
                tok_cons(Tok::If, spec_tokenize(s.skip(2)))
            } else {
                Err(LexErr::UnexpectedChar(':'))
            }
        } else if c == ';' {
            tok_cons(Tok::And, spec_tokenize(s.skip(1)))
        } else if c == '[' {
            tok_cons(Tok::LBracket, spec_tokenize(s.skip(1)))
        } else if c == ']' {
            tok_cons(Tok::RBracket, spec_tokenize(s.skip(1)))
        } else if c == '%' {
            proof {
                lemma_line_comment_le(s.skip(1));
            }
            spec_tokenize(s.skip(1 + line_comment_len(s.skip(1)) as int))
        } else if c == '/' {
            if s.len() >= 2 && s[1] == '*' {
                proof {
                    lemma_skip_block_len(s.skip(2), 1);
                }
                match spec_skip_block(s.skip(2), 1) {
                    Some(r) => spec_tokenize(r),
                    None => Err(LexErr::UnterminatedComment),
                }
            } else {
                Err(LexErr::UnexpectedChar('/'))
            }
        } else if c == '+' {
            tok_cons(Tok::Plus, spec_tokenize(s.skip(1)))
        } else if c == '-' {
            if s.len() >= 2 && is_digit_char(s[1]) {
                proof {
                    lemma_digits_prefix_le(s.skip(1));
                }
                let n = 1 + digits_prefix_len(s.skip(1)) as int;
                if digits_val(s.subrange(1, n)) <= i64_max_magnitude(true) {
                    tok_cons(
                        Tok::Number(-digits_val(s.subrange(1, n))),
                        spec_tokenize(s.skip(n)),
                    )
                } else {
                    Err(LexErr::InvalidInteger(s.take(n)))
                }
            } else {
                tok_cons(Tok::Minus, spec_tokenize(s.skip(1)))
            }
        } else if c == '*' {
            tok_cons(Tok::Multiply, spec_tokenize(s.skip(1)))
        } else if is_misc_space(c) {
            spec_tokenize(s.skip(1))
        } else {
            Err(LexErr::UnexpectedChar(c))
        }
    }
}

// ---------------------------------------------------------------------------
// Scan-completion lemmas: a span whose characters all satisfy a rule and
// whose follower does not is exactly the prefix the rule's scanner takes.
// ---------------------------------------------------------------------------

proof fn lemma_name_prefix_is(s: Seq<char>, m: int)
    requires
        0 <= m <= s.len(),
        forall|k: int| 0 <= k < m ==> is_name_char(s[k]),
        m == s.len() || !is_name_char(s[m]),
    ensures
        name_prefix_len(s) == m,
    decreases m,
{
    if m == 0 {
    } else {
        lemma_name_prefix_is(s.skip(1), m - 1);
    }
}

proof fn lemma_digits_prefix_is(s: Seq<char>, m: int)
    requires
        0 <= m <= s.len(),
        forall|k: int| 0 <= k < m ==> is_digit_char(s[k]),
        m == s.len() || !is_digit_char(s[m]),
    ensures
        digits_prefix_len(s) == m,
    decreases m,
{
    if m == 0 {
    } else {
        lemma_digits_prefix_is(s.skip(1), m - 1);
    }
}

proof fn lemma_line_comment_is(s: Seq<char>, m: int)
    requires
        0 <= m <= s.len(),
        forall|k: int| 0 <= k < m ==> s[k] != '\n',
        m == s.len() || s[m] == '\n',
    ensures
        line_comment_len(s) == m,
    decreases m,
{
    if m == 0 {
    } else {
        lemma_line_comment_is(s.skip(1), m - 1);
    }
}

// ---------------------------------------------------------------------------
// Digit accumulation
// ---------------------------------------------------------------------------

proof fn lemma_digits_val_nonneg(s: Seq<char>)
    requires
        forall|k: int| 0 <= k < s.len() ==> is_digit_char(s[k]),
    ensures
        digits_val(s) >= 0,
    decreases s.len(),
{
    if s.len() > 0 {
        lemma_digits_val_nonneg(s.drop_last());
        assert(forall|k: int|
            0 <= k < s.drop_last().len() ==> is_digit_char(s.drop_last()[k]));
    }
}

proof fn lemma_digits_val_step(s: Seq<char>, m: int)
    requires
        0 <= m < s.len(),
    ensures
        digits_val(s.take(m + 1)) == digits_val(s.take(m)) * 10 + digit_val(s[m]),
{
    assert(s.take(m + 1).drop_last() =~= s.take(m));
    assert(s.take(m + 1).last() == s[m]);
}

/// Reads the decimal digits of `input` in positions `start..end` as an
/// integer, `None` when its magnitude exceeds what a number token of the
/// requested sign can carry in an `i64`.
fn digits_to_i64(input: &str, start: usize, end: usize, negative: bool) -> (r: Option<i64>)
    requires
        start < end <= input@.len(),
        forall|k: int| start <= k < end ==> is_digit_char(input@[k]),
    ensures
        match r {
            Some(v) => digits_val(input@.subrange(start as int, end as int)) <= i64_max_magnitude(
                negative,
            ) && v as int == if negative {
                -digits_val(input@.subrange(start as int, end as int))
            } else {
                digits_val(input@.subrange(start as int, end as int))
            },
            None => digits_val(input@.subrange(start as int, end as int)) > i64_max_magnitude(
                negative,
            ),
        },
{
    let ghost sub = input@.subrange(start as int, end as int);
    let limit: u64 = if negative {
        0x8000_0000_0000_0000
    } else {
        0x7fff_ffff_ffff_ffff
    };
    let mut mag: u64 = 0;
    let mut overflow: bool = false;
    let mut k: usize = start;
    proof {
        assert(sub.take(0) =~= Seq::<char>::empty());
    }
    while k < end
        invariant
            start <= k <= end <= input@.len(),
            sub == input@.subrange(start as int, end as int),
            forall|j: int| start <= j < end ==> is_digit_char(input@[j]),
            limit == i64_max_magnitude(negative),
            !overflow ==> mag as int == digits_val(sub.take(k - start)) && mag <= limit,
            overflow ==> digits_val(sub.take(k - start)) > limit,
        decreases end - k,
    {
        let c = input.get_char(k);
        assert(c == sub[k - start]);
        let d: u64 = (c as u32 - '0' as u32) as u64;
        proof {
            lemma_digits_val_step(sub, k - start);
            lemma_digits_val_nonneg(sub.take(k - start));
        }
        if overflow {
            proof {
                assert(digits_val(sub.take(k - start + 1)) > limit);
            }
        } else if mag <= (limit - d) / 10 {
            mag = mag * 10 + d;
        } else {
            overflow = true;
            proof {
                assert(mag as int * 10 + d > limit) by {
                    assert(mag as int >= (limit - d) as int / 10 + 1);
                };
            }
        }
        k = k + 1;
    }
    proof {
        assert(sub.take(end - start) =~= sub);
    }
    if overflow {
        None
    } else {
        if negative {
            if mag == 0x8000_0000_0000_0000 {
                Some(i64::MIN)
            } else {
                Some(-(mag as i64))
            }
        } else {
            Some(mag as i64)
        }
    }
}

// ---------------------------------------------------------------------------
// The executable tokenizer
// ---------------------------------------------------------------------------

/// The views of a sequence of tokens.
pub open spec fn toks_view(s: Seq<Token>) -> Seq<Tok> {
    s.map_values(|t: Token| t@)
}

/// The view of a tokenization result.
pub open spec fn lex_result_view(r: Result<Vec<Token>, LexerError>) -> Result<Seq<Tok>, LexErr> {
    match r {
        Ok(ts) => Ok(toks_view(ts@)),
        Err(e) => Err(e@),
    }
}

/// The invariant tying a scan in progress to [`spec_tokenize`]: the tokens
/// already produced, followed by whatever the rest of the input yields.
spec fn scan_state_ok(full: Seq<char>, acc: Seq<Token>, suffix: Seq<char>) -> bool {
    match spec_tokenize(suffix) {
        Ok(ts) => spec_tokenize(full) == Ok::<_, LexErr>(toks_view(acc) + ts),
        Err(e) => spec_tokenize(full) == Err::<Seq<Tok>, _>(e),
    }
}

proof fn lemma_scan_push(full: Seq<char>, acc: Seq<Token>, tokp: Token, pre: Seq<char>, post: Seq<char>)
    requires
        spec_tokenize(pre) == tok_cons(tokp@, spec_tokenize(post)),
        scan_state_ok(full, acc, pre),
    ensures
        scan_state_ok(full, acc.push(tokp), post),
{
    match spec_tokenize(post) {
        Ok(ts) => {
            assert(toks_view(acc) + (seq![tokp@] + ts) =~= toks_view(acc.push(tokp)) + ts);
        },
        Err(e) => {},
    }
}

/// Scans `input` into its token sequence, or reports the first lexing error;
/// the result is exactly that of [`spec_tokenize`] on the characters of
/// `input`.
#[verifier::rlimit(100)]
pub fn tokenize(input: &str) -> (r: Result<Vec<Token>, LexerError>)
    ensures
        lex_result_view(r) == spec_tokenize(input@),
{
    let n = input.unicode_len();
    let mut tokens: Vec<Token> = Vec::new();
    let mut i: usize = 0;
    proof {
        assert(input@.skip(0) =~= input@);
    }
    while i < n
        invariant
            i <= n,
            n == input@.len(),
            scan_state_ok(input@, tokens@, input@.skip(i as int)),
        decreases n - i,
    {
        let ghost pre = input@.skip(i as int);
        let ghost acc0 = tokens@;
        let c = input.get_char(i);
        assert(c == pre[0]);
        if ws_char(c) {
            i = i + 1;
            proof {
                assert(input@.skip(i as int) =~= pre.skip(1));
            }
        } else if c == ',' {
            tokens.push(Token::Comma);
            i = i + 1;
            proof {
                assert(input@.skip(i as int) =~= pre.skip(1));
                lemma_scan_push(input@, acc0, Token::Comma, pre, input@.skip(i as int));
            }
        } else if name_start_char(c) {
            let start = i;
            let mut j = i + 1;
            while j < n && name_char(input.get_char(j))
                invariant
                    start < j <= n,
                    n == input@.len(),
                    forall|k: int| start <= k < j ==> is_name_char(input@[k]),
                decreases n - j,
            {
                j = j + 1;
            }
            proof {
                assert(forall|k: int| 0 <= k < j - start ==> pre[k] == input@[start + k]);
                lemma_name_prefix_is(pre, j - start);
                assert(pre.take(j - start) =~= input@.subrange(start as int, j as int));
            }
            let tok: Token = if j - start == 2 && c == 'i' && input.get_char(start + 1) == 's' {
                Token::Is
            } else {
                let name = String::from_str(input.substring_char(start, j));
                if upper_char(c) || c == '_' {
                    Token::Variable(name)
                } else {
                    Token::Atom(name)
                }
            };
            proof {
                assert(tok@ == classify_name(pre.take(j - start)));
            }
            tokens.push(tok);
            i = j;
            proof {
                assert(input@.skip(i as int) =~= pre.skip(j - start));
                lemma_scan_push(input@, acc0, tokens@.last(), pre, input@.skip(i as int));
            }
        } else if digit_char(c) {
            let start = i;
            let mut j = i + 1;
            while j < n && digit_char(input.get_char(j))
                invariant
                    start < j <= n,
                    n == input@.len(),
                    forall|k: int| start <= k < j ==> is_digit_char(input@[k]),
                decreases n - j,
            {
                j = j + 1;
            }
            proof {
                assert(forall|k: int| 0 <= k < j - start ==> pre[k] == input@[start + k]);
                lemma_digits_prefix_is(pre, j - start);
                assert(pre.take(j - start) =~= input@.subrange(start as int, j as int));
            }
            match digits_to_i64(input, start, j, false) {
                Some(v) => {
                    tokens.push(Token::Number(v));
                    i = j;
                    proof {
                        assert(input@.skip(i as int) =~= pre.skip(j - start));
                        lemma_scan_push(input@, acc0, tokens@.last(), pre, input@.skip(i as int));
                    }
                },
                None => {
                    let text = String::from_str(input.substring_char(start, j));
                    return Err(LexerError::InvalidInteger(text));
                },
            }
        } else if c == '(' {
            tokens.push(Token::LParen);
            i = i + 1;
            proof {
                assert(input@.skip(i as int) =~= pre.skip(1));
                lemma_scan_push(input@, acc0, Token::LParen, pre, input@.skip(i as int));
            }
        } else if c == ')' {
            tokens.push(Token::RParen);
            i = i + 1;
            proof {
                assert(input@.skip(i as int) =~= pre.skip(1));
                lemma_scan_push(input@, acc0, Token::RParen, pre, input@.skip(i as int));
            }
        } else if c == '.' {
            tokens.push(Token::Dot);
            i = i + 1;
            proof {
                assert(input@.skip(i as int) =~= pre.skip(1));
                lemma_scan_push(input@, acc0, Token::Dot, pre, input@.skip(i as int));
            }
        } else if c == ':' {
            if i + 1 < n && input.get_char(i + 1) == '-' {
                tokens.push(Token::If);
                i = i + 2;
                proof {
                    assert(input@.skip(i as int) =~= pre.skip(2));
                    lemma_scan_push(input@, acc0, Token::If, pre, input@.skip(i as int));
                }
            } else {
                return Err(LexerError::UnexpectedChar(':'));
            }
        } else if c == ';' {
            tokens.push(Token::And);
            i = i + 1;
            proof {
                assert(input@.skip(i as int) =~= pre.skip(1));
                lemma_scan_push(input@, acc0, Token::And, pre, input@.skip(i as int));
            }
        } else if c == '[' {
            tokens.push(Token::LBracket);
            i = i + 1;
            proof {
                assert(input@.skip(i as int) =~= pre.skip(1));
                lemma_scan_push(input@, acc0, Token::LBracket, pre, input@.skip(i as int));
            }
        } else if c == ']' {
            tokens.push(Token::RBracket);
            i = i + 1;
            proof {
                assert(input@.skip(i as int) =~= pre.skip(1));
                lemma_scan_push(input@, acc0, Token::RBracket, pre, input@.skip(i as int));
            }
        } else if c == '%' {
            let mut j = i + 1;
            while j < n && input.get_char(j) != '\n'
                invariant
                    i + 1 <= j <= n,
                    n == input@.len(),
                    forall|k: int| i + 1 <= k < j ==> input@[k] != '\n',
                decreases n - j,
            {
                j = j + 1;
            }
            proof {
                let tail = pre.skip(1);
                assert(forall|k: int| 0 <= k < j - i - 1 ==> tail[k] == input@[i + 1 + k]);
                lemma_line_comment_is(tail, j - i - 1);
                assert(input@.skip(j as int) =~= pre.skip(1 + (j - i - 1)));
            }
            i = j;
        } else if c == '/' {
            if i + 1 < n && input.get_char(i + 1) == '*' {
                let mut j = i + 2;
                let mut level: usize = 1;
                proof {
                    assert(input@.skip(j as int) =~= pre.skip(2));
                }
                while level > 0
                    invariant
                        i + 2 <= j <= n,
                        n == input@.len(),
                        2 * level <= j - i,
                        spec_skip_block(pre.skip(2), 1) == spec_skip_block(
                            input@.skip(j as int),
                            level as nat,
                        ),
                        scan_state_ok(input@, tokens@, pre),
                        pre == input@.skip(i as int),
                        pre.len() >= 2 && pre[0] == '/' && pre[1] == '*',
                    decreases n - j,
                {
                    if j == n {
                        return Err(LexerError::UnterminatedComment);
                    }
                    let ghost bpre = input@.skip(j as int);
                    let cc = input.get_char(j);
                    assert(cc == bpre[0]);
                    if cc == '*' && j + 1 < n && input.get_char(j + 1) == '/' {
                        j = j + 2;
                        level = level - 1;
                        proof {
                            assert(input@.skip(j as int) =~= bpre.skip(2));
                        }
                    } else if cc == '/' && j + 1 < n && input.get_char(j + 1) == '*' {
                        j = j + 2;
                        level = level + 1;
                        proof {
                            assert(input@.skip(j as int) =~= bpre.skip(2));
                        }
                    } else {
                        j = j + 1;
                        proof {
                            assert(input@.skip(j as int) =~= bpre.skip(1));
                        }
                    }
                }
                i = j;
            } else {
                return Err(LexerError::UnexpectedChar('/'));
            }
        } else if c == '+' {
            tokens.push(Token::Plus);
            i = i + 1;
            proof {
                assert(input@.skip(i as int) =~= pre.skip(1));
                lemma_scan_push(input@, acc0, Token::Plus, pre, input@.skip(i as int));
            }
        } else if c == '-' {
            if i + 1 < n && digit_char(input.get_char(i + 1)) {
                let start = i + 1;
                let mut j = i + 2;
                while j < n && digit_char(input.get_char(j))
                    invariant
                        start < j <= n,
                        n == input@.len(),
                        forall|k: int| start <= k < j ==> is_digit_char(input@[k]),
                    decreases n - j,
                {
                    j = j + 1;
                }
                proof {
                    let tail = pre.skip(1);
                    assert(forall|k: int| 0 <= k < j - start ==> tail[k] == input@[start + k]);
                    lemma_digits_prefix_is(tail, j - start);
                    assert(pre.subrange(1, 1 + (j - start)) =~= input@.subrange(
                        start as int,
                        j as int,
                    ));
                }
                match digits_to_i64(input, start, j, true) {
                    Some(v) => {
                        tokens.push(Token::Number(v));
                        i = j;
                        proof {
                            assert(input@.skip(i as int) =~= pre.skip(1 + (j - start)));
                            lemma_scan_push(
                                input@,
                                acc0,
                                tokens@.last(),
                                pre,
                                input@.skip(i as int),
                            );
                        }
                    },
                    None => {
                        let text = String::from_str(input.substring_char(i, j));
                        proof {
                            assert(pre.take(1 + (j - start)) =~= input@.subrange(
                                i as int,
                                j as int,
                            ));
                        }
                        return Err(LexerError::InvalidInteger(text));
                    },
                }
            } else {
                tokens.push(Token::Minus);
                i = i + 1;
                proof {
                    assert(input@.skip(i as int) =~= pre.skip(1));
                    lemma_scan_push(input@, acc0, Token::Minus, pre, input@.skip(i as int));
                }
            }
        } else if c == '*' {
            tokens.push(Token::Multiply);
            i = i + 1;
            proof {
                assert(input@.skip(i as int) =~= pre.skip(1));
                lemma_scan_push(input@, acc0, Token::Multiply, pre, input@.skip(i as int));
            }
        } else if misc_space_char(c) {
            i = i + 1;
            proof {
                assert(input@.skip(i as int) =~= pre.skip(1));
            }
        } else {
            return Err(LexerError::UnexpectedChar(c));
        }
    }
    proof {
        assert(input@.skip(n as int) =~= Seq::<char>::empty());
        assert(toks_view(tokens@) + Seq::<Tok>::empty() =~= toks_view(tokens@));
    }
    Ok(tokens)
}

// ---------------------------------------------------------------------------
// Insertion of whitespace and comments
// ---------------------------------------------------------------------------

proof fn lemma_line_comment_char_at(s: Seq<char>, k: int)
    requires
        0 <= k < line_comment_len(s),
    ensures
        s[k] != '\n',
    decreases k,
{
    lemma_line_comment_le(s);
    if k > 0 {
        lemma_line_comment_char_at(s.skip(1), k - 1);
        assert(s.skip(1)[k - 1] == s[k]);
    }
}

proof fn lemma_line_comment_stop(s: Seq<char>)
    requires
        line_comment_len(s) < s.len(),
    ensures
        s[line_comment_len(s) as int] == '\n',
    decreases s.len(),
{
    if s.len() > 0 && s[0] != '\n' {
        lemma_line_comment_stop(s.skip(1));
        assert(s.skip(1)[line_comment_len(s.skip(1)) as int] == s[line_comment_len(s) as int]);
    }
}

/// A run of characters that the scanner consumes without producing a token:
/// whitespace, newline-terminated line comments, and complete, balanced
/// block comments, in any number and order.
pub open spec fn skippable_run(w: Seq<char>) -> bool
    decreases w.len(),
{
    if w.len() == 0 {
        true
    } else if is_space(w[0]) {
        skippable_run(w.skip(1))
    } else if w[0] == '%' {
        proof {
            lemma_line_comment_le(w.skip(1));
        }
        let m = line_comment_len(w.skip(1)) as int;
        m < w.len() - 1 && skippable_run(w.skip(2 + m))
    } else if w.len() >= 2 && w[0] == '/' && w[1] == '*' {
        proof {
            lemma_skip_block_len(w.skip(2), 1);
        }
        match spec_skip_block(w.skip(2), 1) {
            Some(r) => skippable_run(r),
            None => false,
        }
    } else {
        false
    }
}

proof fn lemma_skip_block_concat(u: Seq<char>, s: Seq<char>, level: nat, r: Seq<char>)
    requires
        spec_skip_block(u, level) == Some(r),
    ensures
        spec_skip_block(u + s, level) == Some(r + s),
    decreases u.len(),
{
    if level == 0 {
        assert(r == u);
    } else {
        assert(u.len() > 0);
        if u[0] == '*' && u.len() >= 2 && u[1] == '/' {
            assert(u.skip(2) + s =~= (u + s).skip(2));
            lemma_skip_block_concat(u.skip(2), s, (level - 1) as nat, r);
        } else if u[0] == '/' && u.len() >= 2 && u[1] == '*' {
            assert(u.skip(2) + s =~= (u + s).skip(2));
            lemma_skip_block_concat(u.skip(2), s, level + 1, r);
        } else {
            if u.len() == 1 && (u[0] == '*' || u[0] == '/') {
                assert(u.skip(1).len() == 0);
                assert(spec_skip_block(u.skip(1), level) is None);
                assert(false);
            }
            assert(u.skip(1) + s =~= (u + s).skip(1));
            lemma_skip_block_concat(u.skip(1), s, level, r);
        }
    }
}

/// Inserting a run of whitespace or comments ahead of any point where the
/// scanner is about to read its next token leaves the token sequence (or the
/// reported error) unchanged. In particular, since every gap between two
/// tokens of a program is such a point, inserting such runs between the
/// tokens of a program does not change its tokenization.
pub proof fn lemma_tokenize_skip_insertion(w: Seq<char>, s: Seq<char>)
    requires
        skippable_run(w),
    ensures
        spec_tokenize(w + s) == spec_tokenize(s),
    decreases w.len(),
{
    if w.len() == 0 {
        assert(w + s =~= s);
    } else if is_space(w[0]) {
        assert((w + s)[0] == w[0]);
        assert((w + s).skip(1) =~= w.skip(1) + s);
        lemma_tokenize_skip_insertion(w.skip(1), s);
    } else if w[0] == '%' {
        let m = line_comment_len(w.skip(1)) as int;
        lemma_line_comment_le(w.skip(1));
        assert(m < w.len() - 1);
        lemma_line_comment_stop(w.skip(1));
        assert(w.skip(1)[m] == '\n');
        assert forall|k: int| 0 <= k < m implies (w + s).skip(1)[k] != '\n' by {
            lemma_line_comment_char_at(w.skip(1), k);
            assert((w + s).skip(1)[k] == w.skip(1)[k]);
        }
        assert((w + s).skip(1)[m] == w.skip(1)[m]);
        lemma_line_comment_is((w + s).skip(1), m);
        assert((w + s)[0] == '%');
        assert(spec_tokenize(w + s) == spec_tokenize((w + s).skip(1 + m)));
        assert((w + s).skip(1 + m) =~= w.skip(1 + m) + s);
        assert((w.skip(1 + m) + s)[0] == w[1 + m]);
        assert(w[1 + m] == '\n');
        assert((w + s).skip(1 + m).skip(1) =~= w.skip(2 + m) + s);
        assert(spec_tokenize((w + s).skip(1 + m)) == spec_tokenize(w.skip(2 + m) + s));
        lemma_tokenize_skip_insertion(w.skip(2 + m), s);
    } else {
        assert(w.len() >= 2 && w[0] == '/' && w[1] == '*');
        let r = spec_skip_block(w.skip(2), 1)->Some_0;
        lemma_skip_block_len(w.skip(2), 1);
        assert(w.skip(2) + s =~= (w + s).skip(2));
        lemma_skip_block_concat(w.skip(2), s, 1, r);
        lemma_tokenize_skip_insertion(r, s);
    }
}

// ---------------------------------------------------------------------------
// Free-standing utilities
// ---------------------------------------------------------------------------

/// The number of leading whitespace characters of `s`.
pub open spec fn ws_prefix_len(s: Seq<char>) -> nat
    decreases s.len(),
{
    if s.len() > 0 && is_space(s[0]) {
        1 + ws_prefix_len(s.skip(1))
    } else {
        0
    }
}

proof fn lemma_ws_prefix_len(s: Seq<char>, m: int)
    requires
        0 <= m <= s.len(),
        forall|k: int| 0 <= k < m ==> is_space(s[k]),
        m == s.len() || !is_space(s[m]),
    ensures
        ws_prefix_len(s) == m,
    decreases m,
{
    if m == 0 {
    } else {
        assert(is_space(s[0]));
        lemma_ws_prefix_len(s.skip(1), m - 1);
    }
}

/// Returns `input` without its leading whitespace characters.
pub fn skip_whitespace(input: &str) -> (r: &str)
    ensures
        r@ == input@.skip(ws_prefix_len(input@) as int),
{
    let n = input.unicode_len();
    let mut k: usize = 0;
    while k < n && space_char(input.get_char(k))
        invariant
            k <= n,
            n == input@.len(),
            forall|j: int| 0 <= j < k ==> is_space(input@[j]),
        decreases n - k,
    {
        k = k + 1;
    }
    proof {
        lemma_ws_prefix_len(input@, k as int);
    }
    input.substring_char(k, n)
}

/// The valid-atom predicate: a nonempty name whose first character is an
/// ASCII lowercase letter and whose characters are ASCII letters, digits or
/// underscores.
pub open spec fn spec_valid_atom(s: Seq<char>) -> bool {
    s.len() > 0 && is_lower(s[0]) && forall|k: int| 0 <= k < s.len() ==> is_name_char(s[k])
}

/// Decides whether `input` is a syntactically valid atom name.
pub fn is_valid_atom(input: &str) -> (r: bool)
    ensures
        r == spec_valid_atom(input@),
{
    let n = input.unicode_len();
    if n == 0 {
        return false;
    }
    if !lower_char(input.get_char(0)) {
        return false;
    }
    let mut k: usize = 0;
    while k < n
        invariant
            k <= n,
            n == input@.len(),
            forall|j: int| 0 <= j < k ==> is_name_char(input@[j]),
        decreases n - k,
    {
        if !name_char(input.get_char(k)) {
            return false;
        }
        k = k + 1;
    }
    true
}

} // verus!
