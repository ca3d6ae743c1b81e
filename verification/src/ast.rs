//! Clause and term parser: a recursive-descent parser over the token
//! sequence, producing clauses of the form `head [:- body] .`.
//!
//! The grammar is given by the mutually recursive specification functions
//! [`spec_parse_term`], [`spec_parse_args`], [`spec_parse_list_elems`],
//! [`spec_parse_body`] and [`spec_parse_clauses`]; each executable parsing
//! function is proved to return exactly the corresponding result.

use vstd::prelude::*;

use crate::lexer::{LexErr, LexerError, Tok, Token, spec_tokenize, tokenize, toks_view};

verus! {

// ---------------------------------------------------------------------------
// Terms, clauses, and parse errors
// ---------------------------------------------------------------------------

/// A term of the language: a symbolic constant, a named logic variable, a
/// compound term with a functor and arguments, or a bracketed list.
#[derive(Debug, PartialEq)]
pub enum Term {
    Atom(String),
    Variable(String),
    Structure { functor: String, arity: usize, args: Vec<Term> },
    List(Vec<Term>),
}

/// One clause: a head term and the terms of its body. A fact is a clause
/// whose body is empty.
#[derive(Debug, PartialEq)]
pub struct Clause {
    pub head: Term,
    pub body: Vec<Term>,
}

/// An error produced while parsing a token sequence.
#[derive(Debug)]
pub enum ParseError {
    /// A tokenization failure, wrapped unchanged.
    LexerError(LexerError),
    /// A construct required one specific token and found this one instead.
    UnexpectedToken(Token),
    /// The tokens ran out in the middle of a construct.
    UnexpectedEndOfInput,
    /// A leading token that cannot begin any construct.
    InvalidToken,
}

pub type ParseResult<T> = Result<T, ParseError>;

/// The mathematical value of a [`Term`].
pub enum TermModel {
    Atom(Seq<char>),
    Variable(Seq<char>),
    Structure(Seq<char>, nat, Seq<TermModel>),
    List(Seq<TermModel>),
}

/// The mathematical value of a [`Clause`].
pub struct ClauseModel {
    pub head: TermModel,
    pub body: Seq<TermModel>,
}

/// The mathematical value of a [`ParseError`].
pub enum ParseErrModel {
    LexerError(LexErr),
    UnexpectedToken(Tok),
    UnexpectedEndOfInput,
    InvalidToken,
}

pub open spec fn term_view(t: Term) -> TermModel
    decreases t,
{
    match t {
        Term::Atom(s) => TermModel::Atom(s@),
        Term::Variable(s) => TermModel::Variable(s@),
        Term::Structure { functor, arity, args } => TermModel::Structure(
            functor@,
            arity as nat,
            Seq::new(
                args@.len(),
                |i: int|
                    if 0 <= i < args@.len() {
                        term_view(args@[i])
                    } else {
                        TermModel::Atom(Seq::empty())
                    },
            ),
        ),
        Term::List(elems) => TermModel::List(
            Seq::new(
                elems@.len(),
                |i: int|
                    if 0 <= i < elems@.len() {
                        term_view(elems@[i])
                    } else {
                        TermModel::Atom(Seq::empty())
                    },
            ),
        ),
    }
}

impl View for Term {
    type V = TermModel;

    open spec fn view(&self) -> TermModel {
        term_view(*self)
    }
}

/// The views of a sequence of terms.
pub open spec fn terms_view(s: Seq<Term>) -> Seq<TermModel> {
    Seq::new(s.len(), |i: int| term_view(s[i]))
}

/// The view of a compound term is the compound of the views.
pub broadcast proof fn lemma_term_view_structure(functor: String, arity: usize, args: Vec<Term>)
    ensures
        #[trigger] term_view(Term::Structure { functor, arity, args }) == TermModel::Structure(
            functor@,
            arity as nat,
            terms_view(args@),
        ),
{
    let t = Term::Structure { functor, arity, args };
    assert(term_view(t)->Structure_2 =~= terms_view(args@));
}

/// The view of a list term is the list of the views.
pub broadcast proof fn lemma_term_view_list(elems: Vec<Term>)
    ensures
        #[trigger] term_view(Term::List(elems)) == TermModel::List(terms_view(elems@)),
{
    let t = Term::List(elems);
    assert(term_view(t)->List_0 =~= terms_view(elems@));
}

impl View for Clause {
    type V = ClauseModel;

    open spec fn view(&self) -> ClauseModel {
        ClauseModel { head: self.head@, body: terms_view(self.body@) }
    }
}

/// The views of a sequence of clauses.
pub open spec fn clauses_view(s: Seq<Clause>) -> Seq<ClauseModel> {
    Seq::new(s.len(), |i: int| s[i]@)
}

impl View for ParseError {
    type V = ParseErrModel;

    open spec fn view(&self) -> ParseErrModel {
        match self {
            ParseError::LexerError(e) => ParseErrModel::LexerError(e@),
            ParseError::UnexpectedToken(t) => ParseErrModel::UnexpectedToken(t@),
            ParseError::UnexpectedEndOfInput => ParseErrModel::UnexpectedEndOfInput,
            ParseError::InvalidToken => ParseErrModel::InvalidToken,
        }
    }
}

// ---------------------------------------------------------------------------
// Decimal rendering of integers (number tokens become atoms)
// ---------------------------------------------------------------------------

/// The decimal digit character for `d`.
pub open spec fn dec_digit_char(d: nat) -> char {
    if d == 0 {
        '0'
    } else if d == 1 {
        '1'
    } else if d == 2 {
        '2'
    } else if d == 3 {
        '3'
    } else if d == 4 {
        '4'
    } else if d == 5 {
        '5'
    } else if d == 6 {
        '6'
    } else if d == 7 {
        '7'
    } else if d == 8 {
        '8'
    } else {
        '9'
    }
}

/// The decimal digit characters of `n`, most significant first.
pub open spec fn dec_digits(n: nat) -> Seq<char>
    decreases n,
{
    if n < 10 {
        seq![dec_digit_char(n)]
    } else {
        dec_digits(n / 10).push(dec_digit_char(n % 10))
    }
}

/// The canonical decimal rendering of an integer, with a leading minus sign
/// when it is negative.
pub open spec fn int_to_dec_str(n: int) -> Seq<char> {
    if n < 0 {
        seq!['-'] + dec_digits((-n) as nat)
    } else {
        dec_digits(n as nat)
    }
}

fn dec_digit_literal(d: u64) -> (r: &'static str)
    requires
        d < 10,
    ensures
        r@ == seq![dec_digit_char(d as nat)],
{
    proof {
        reveal_strlit("0");
        reveal_strlit("1");
        reveal_strlit("2");
        reveal_strlit("3");
        reveal_strlit("4");
        reveal_strlit("5");
        reveal_strlit("6");
        reveal_strlit("7");
        reveal_strlit("8");
        reveal_strlit("9");
    }
    if d == 0 {
        "0"
    } else if d == 1 {
        "1"
    } else if d == 2 {
        "2"
    } else if d == 3 {
        "3"
    } else if d == 4 {
        "4"
    } else if d == 5 {
        "5"
    } else if d == 6 {
        "6"
    } else if d == 7 {
        "7"
    } else if d == 8 {
        "8"
    } else {
        "9"
    }
}

fn u64_to_string(n: u64) -> (s: String)
    ensures
        s@ == dec_digits(n as nat),
    decreases n,
{
    if n < 10 {
        String::from_str(dec_digit_literal(n))
    } else {
        let mut s = u64_to_string(n / 10);
        s.append(dec_digit_literal(n % 10));
        s
    }
}

/// Renders `n` in decimal, the textual form a number token takes when it is
/// folded into an atom.
pub fn i64_to_string(n: i64) -> (s: String)
    ensures
        s@ == int_to_dec_str(n as int),
{
    if n >= 0 {
        u64_to_string(n as u64)
    } else {
        let mag: u64 = (-(n as i128)) as u64;
        let mut s = String::from_str("-");
        proof {
            reveal_strlit("-");
        }
        s.append(u64_to_string(mag).as_str());
        s
    }
}

// ---------------------------------------------------------------------------
// The grammar, in specification form
// ---------------------------------------------------------------------------
//
// Each function consumes a prefix of its token sequence and returns the
// parsed value together with the unconsumed remainder. A successful parse
// always consumes at least one token; the `rest.len() < ts.len()` tests
// below only serve the termination measure and are proved to always hold
// (see `lemma_spec_parse_term_consumes`).

/// Parses one term: an atom, a variable, a compound term
/// `atom ( term , ... )`, a parenthesised term, a bracketed list, or a
/// number (folded into an atom by its decimal text).
pub open spec fn spec_parse_term(ts: Seq<Tok>) -> Result<(TermModel, Seq<Tok>), ParseErrModel>
    decreases ts.len(), 0int,
{
    if ts.len() == 0 {
        Err(ParseErrModel::UnexpectedEndOfInput)
    } else {
        match ts[0] {
            Tok::Atom(name) => {
                if ts.len() >= 2 && ts[1] == Tok::LParen {
                    match spec_parse_args(ts.skip(2)) {
                        Ok((args, rest)) => Ok(
                            (TermModel::Structure(name, args.len(), args), rest),
                        ),
                        Err(e) => Err(e),
                    }
                } else {
                    Ok((TermModel::Atom(name), ts.skip(1)))
                }
            },
            Tok::Variable(name) => Ok((TermModel::Variable(name), ts.skip(1))),
            Tok::LParen => {
                match spec_parse_term(ts.skip(1)) {
                    Ok((t, rest)) => {
                        if rest.len() == 0 {
                            Err(ParseErrModel::UnexpectedEndOfInput)
                        } else if rest[0] == Tok::RParen {
                            Ok((t, rest.skip(1)))
                        } else {
                            Err(ParseErrModel::UnexpectedToken(rest[0]))
                        }
                    },
                    Err(e) => Err(e),
                }
            },
            Tok::LBracket => {
                let (elems, rest) = spec_parse_list_elems(ts.skip(1));
                if rest.len() == 0 {
                    Err(ParseErrModel::UnexpectedEndOfInput)
                } else if rest[0] == Tok::RBracket {
                    Ok((TermModel::List(elems), rest.skip(1)))
                } else {
                    Err(ParseErrModel::UnexpectedToken(rest[0]))
                }
            },
            Tok::Number(n) => Ok((TermModel::Atom(int_to_dec_str(n)), ts.skip(1))),
            _ => Err(ParseErrModel::UnexpectedToken(ts[0])),
        }
    }
}

/// Parses the nonempty, comma-separated argument terms of a compound term,
/// consuming the closing parenthesis.
pub open spec fn spec_parse_args(ts: Seq<Tok>) -> Result<
    (Seq<TermModel>, Seq<Tok>),
    ParseErrModel,
>
    decreases ts.len(), 1int,
{
    match spec_parse_term(ts) {
        Err(e) => Err(e),
        Ok((t, rest)) => {
            if rest.len() < ts.len() {
                if rest.len() == 0 {
                    Err(ParseErrModel::UnexpectedEndOfInput)
                } else if rest[0] == Tok::RParen {
                    Ok((seq![t], rest.skip(1)))
                } else if rest[0] == Tok::Comma {
                    match spec_parse_args(rest.skip(1)) {
                        Ok((more, rest2)) => Ok((seq![t] + more, rest2)),
                        Err(e) => Err(e),
                    }
                } else {
                    Err(ParseErrModel::UnexpectedToken(rest[0]))
                }
            } else {
                Err(ParseErrModel::InvalidToken)
            }
        },
    }
}

/// Parses the comma-separated elements of a bracketed list, leaving the
/// closing bracket unconsumed: elements are accumulated while a term parses,
/// and a failing attempt ends the list without an error.
pub open spec fn spec_parse_list_elems(ts: Seq<Tok>) -> (Seq<TermModel>, Seq<Tok>)
    decreases ts.len(), 1int,
{
    match spec_parse_term(ts) {
        Err(_) => (Seq::empty(), ts),
        Ok((t, rest)) => {
            if rest.len() < ts.len() {
                if rest.len() >= 1 && rest[0] == Tok::Comma {
                    let (more, rest2) = spec_parse_list_elems(rest.skip(1));
                    (seq![t] + more, rest2)
                } else {
                    (seq![t], rest)
                }
            } else {
                (seq![t], rest)
            }
        },
    }
}

/// Parses the body terms of a rule: terms separated by the conjunction
/// separator or a comma, both accepted interchangeably; the accumulation
/// stops at the first position where no separator follows or no further
/// term parses.
pub open spec fn spec_parse_body(ts: Seq<Tok>) -> (Seq<TermModel>, Seq<Tok>)
    decreases ts.len(), 1int,
{
    match spec_parse_term(ts) {
        Err(_) => (Seq::empty(), ts),
        Ok((t, rest)) => {
            if rest.len() < ts.len() {
                if rest.len() >= 1 && (rest[0] == Tok::And || rest[0] == Tok::Comma) {
                    let (more, rest2) = spec_parse_body(rest.skip(1));
                    (seq![t] + more, rest2)
                } else {
                    (seq![t], rest)
                }
            } else {
                (seq![t], rest)
            }
        },
    }
}

/// Parses a whole program: clauses `head [:- body] .` until the tokens are
/// exhausted.
pub open spec fn spec_parse_clauses(ts: Seq<Tok>) -> Result<Seq<ClauseModel>, ParseErrModel>
    decreases ts.len(), 2int,
{
    if ts.len() == 0 {
        Ok(Seq::empty())
    } else {
        match spec_parse_term(ts) {
            Err(e) => Err(e),
            Ok((head, rest)) => {
                if rest.len() < ts.len() {
                    let (body, rest2) = if rest.len() >= 1 && rest[0] == Tok::If {
                        spec_parse_body(rest.skip(1))
                    } else {
                        (Seq::empty(), rest)
                    };
                    if rest2.len() <= ts.len() {
                        if rest2.len() == 0 {
                            Err(ParseErrModel::UnexpectedEndOfInput)
                        } else if rest2[0] == Tok::Dot {
                            match spec_parse_clauses(rest2.skip(1)) {
                                Ok(more) => Ok(
                                    seq![ClauseModel { head, body }] + more,
                                ),
                                Err(e) => Err(e),
                            }
                        } else {
                            Err(ParseErrModel::UnexpectedToken(rest2[0]))
                        }
                    } else {
                        Err(ParseErrModel::InvalidToken)
                    }
                } else {
                    Err(ParseErrModel::InvalidToken)
                }
            },
        }
    }
}

/// The whole front end in specification form: tokenize, then parse clauses.
pub open spec fn spec_parse(s: Seq<char>) -> Result<Seq<ClauseModel>, ParseErrModel> {
    match spec_tokenize(s) {
        Ok(ts) => spec_parse_clauses(ts),
        Err(e) => Err(ParseErrModel::LexerError(e)),
    }
}

// ---------------------------------------------------------------------------
// A successful parse consumes tokens
// ---------------------------------------------------------------------------

/// A term parse that succeeds consumes at least one token, so the guards in
/// the definitions above always hold.
pub proof fn lemma_spec_parse_term_consumes(ts: Seq<Tok>)
    ensures
        spec_parse_term(ts) matches Ok((t, rest)) ==> rest.len() < ts.len(),
    decreases ts.len(), 0int,
{
    if ts.len() == 0 {
    } else {
        match ts[0] {
            Tok::Atom(name) => {
                if ts.len() >= 2 && ts[1] == Tok::LParen {
                    lemma_spec_parse_args_consumes(ts.skip(2));
                }
            },
            Tok::LParen => {
                lemma_spec_parse_term_consumes(ts.skip(1));
            },
            Tok::LBracket => {
                lemma_spec_parse_list_elems_consumes(ts.skip(1));
            },
            _ => {},
        }
    }
}

/// A successful argument-list parse consumes at least one token.
pub proof fn lemma_spec_parse_args_consumes(ts: Seq<Tok>)
    ensures
        spec_parse_args(ts) matches Ok((args, rest)) ==> rest.len() < ts.len(),
    decreases ts.len(), 1int,
{
    lemma_spec_parse_term_consumes(ts);
    match spec_parse_term(ts) {
        Err(_) => {},
        Ok((t, rest)) => {
            if rest.len() >= 1 && rest[0] == Tok::Comma {
                lemma_spec_parse_args_consumes(rest.skip(1));
            }
        },
    }
}

/// Parsing list elements never lengthens the remainder.
pub proof fn lemma_spec_parse_list_elems_consumes(ts: Seq<Tok>)
    ensures
        spec_parse_list_elems(ts).1.len() <= ts.len(),
    decreases ts.len(), 1int,
{
    lemma_spec_parse_term_consumes(ts);
    match spec_parse_term(ts) {
        Err(_) => {},
        Ok((t, rest)) => {
            if rest.len() >= 1 && rest[0] == Tok::Comma {
                lemma_spec_parse_list_elems_consumes(rest.skip(1));
            }
        },
    }
}

/// Parsing body terms never lengthens the remainder.
pub proof fn lemma_spec_parse_body_consumes(ts: Seq<Tok>)
    ensures
        spec_parse_body(ts).1.len() <= ts.len(),
    decreases ts.len(), 1int,
{
    lemma_spec_parse_term_consumes(ts);
    match spec_parse_term(ts) {
        Err(_) => {},
        Ok((t, rest)) => {
            if rest.len() >= 1 && (rest[0] == Tok::And || rest[0] == Tok::Comma) {
                lemma_spec_parse_body_consumes(rest.skip(1));
            }
        },
    }
}

// ---------------------------------------------------------------------------
// The executable parser
// ---------------------------------------------------------------------------

proof fn lemma_toks_view_skip(s: Seq<Token>, k: int)
    requires
        0 <= k <= s.len(),
    ensures
        toks_view(s.skip(k)) == toks_view(s).skip(k),
{
    assert(toks_view(s.skip(k)) =~= toks_view(s).skip(k));
}

/// Consumes one token that must equal `expected`; returns the remainder.
pub fn expect_token<'a>(expected: Token, tokens: &'a [Token]) -> (r: ParseResult<&'a [Token]>)
    ensures
        match r {
            Ok(rest) => tokens@.len() >= 1 && tokens@[0]@ == expected@ && rest@ == tokens@.skip(
                1,
            ),
            Err(e) => match e@ {
                ParseErrModel::UnexpectedEndOfInput => tokens@.len() == 0,
                ParseErrModel::UnexpectedToken(t) => tokens@.len() >= 1 && t == tokens@[0]@
                    && t != expected@,
                _ => false,
            },
        },
{
    if let Some(token) = tokens.first() {
        if *token == expected {
            Ok(&tokens[1..tokens.len()])
        } else {
            Err(ParseError::UnexpectedToken(token.clone()))
        }
    } else {
        Err(ParseError::UnexpectedEndOfInput)
    }
}

/// Consumes one token, whatever it is; returns it with the remainder.
pub fn expect_any_token<'a>(tokens: &'a [Token]) -> (r: ParseResult<(Token, &'a [Token])>)
    ensures
        match r {
            Ok((t, rest)) => tokens@.len() >= 1 && t == tokens@[0] && rest@ == tokens@.skip(1),
            Err(e) => tokens@.len() == 0 && e@ == ParseErrModel::UnexpectedEndOfInput,
        },
{
    if tokens.is_empty() {
        Err(ParseError::UnexpectedEndOfInput)
    } else {
        Ok((tokens[0].clone(), &tokens[1..tokens.len()]))
    }
}

/// Parses one term from the front of `tokens`, returning it with the
/// unconsumed remainder; the result is exactly that of [`spec_parse_term`]
/// on the token views. Whether an atom opens an argument list is decided
/// with one token of lookahead, and the lookahead token is kept in the
/// remainder when it does not.
pub fn parse_term<'a>(tokens: &'a [Token]) -> (r: ParseResult<(Term, &'a [Token])>)
    ensures
        match r {
            Ok((t, rest)) => spec_parse_term(toks_view(tokens@)) == Ok::<
                (TermModel, Seq<Tok>),
                ParseErrModel,
            >((t@, toks_view(rest@))) && rest@.len() < tokens@.len(),
            Err(e) => spec_parse_term(toks_view(tokens@)) == Err::<
                (TermModel, Seq<Tok>),
                ParseErrModel,
            >(e@),
        },
    decreases tokens@.len(), 0int,
{
    let ghost tsv = toks_view(tokens@);
    let (token, rest) = match expect_any_token(tokens) {
        Ok(p) => p,
        Err(e) => {
            return Err(e);
        },
    };
    proof {
        lemma_toks_view_skip(tokens@, 1);
    }
    match token {
        Token::Atom(atom) => {
            let opens = match rest.first() {
                Some(Token::LParen) => true,
                _ => false,
            };
            if opens {
                let mut args: Vec<Term> = Vec::new();
                let mut remaining: &[Token] = &rest[1..rest.len()];
                proof {
                    lemma_toks_view_skip(rest@, 1);
                    assert(toks_view(rest@).skip(1) =~= tsv.skip(2));
                }
                let ghost entry = toks_view(remaining@);
                loop
                    invariant
                        remaining@.len() + 2 <= tokens@.len(),
                        tsv == toks_view(tokens@),
                        entry == tsv.skip(2),
                        tsv.len() >= 2 && tsv[0] == Tok::Atom(atom@) && tsv[1] == Tok::LParen,
                        ({
                            match spec_parse_args(toks_view(remaining@)) {
                                Ok((more, r2)) => spec_parse_args(entry) == Ok::<
                                    (Seq<TermModel>, Seq<Tok>),
                                    ParseErrModel,
                                >((terms_view(args@) + more, r2)),
                                Err(e) => spec_parse_args(entry) == Err::<
                                    (Seq<TermModel>, Seq<Tok>),
                                    ParseErrModel,
                                >(e),
                            }
                        }),
                    decreases remaining@.len(),
                {
                    let ghost cur = toks_view(remaining@);
                    let (arg, rem2) = match parse_term(remaining) {
                        Ok(p) => p,
                        Err(e) => {
                            return Err(e);
                        },
                    };
                    match rem2.first() {
                        Some(Token::RParen) => {
                            proof {
                                lemma_toks_view_skip(rem2@, 1);
                            }
                            let after: &[Token] = &rem2[1..rem2.len()];
                            let ghost argsold = terms_view(args@);
                            let ghost argsv = argsold.push(arg@);
                            args.push(arg);
                            proof {
                                assert(terms_view(args@) =~= argsv);
                                assert(argsold + seq![arg@] =~= argsv);
                                assert(spec_parse_args(entry) == Ok::<
                                    (Seq<TermModel>, Seq<Tok>),
                                    ParseErrModel,
                                >((argsv, toks_view(after@))));
                            }
                            let arity = args.len();
                            let t = Term::Structure { functor: atom, arity, args };
                            proof {
                                lemma_term_view_structure(
                                    t->Structure_functor,
                                    arity,
                                    t->Structure_args,
                                );
                            }
                            return Ok((t, after));
                        },
                        Some(Token::Comma) => {
                            proof {
                                lemma_toks_view_skip(rem2@, 1);
                            }
                            let ghost argsold = terms_view(args@);
                            let ghost argsv = argsold.push(arg@);
                            args.push(arg);
                            remaining = &rem2[1..rem2.len()];
                            proof {
                                assert(terms_view(args@) =~= argsv);
                                match spec_parse_args(toks_view(remaining@)) {
                                    Ok((more, r2)) => {
                                        assert(argsold + (seq![arg@] + more) =~= argsv + more);
                                    },
                                    Err(e) => {},
                                }
                            }
                        },
                        Some(other) => {
                            return Err(ParseError::UnexpectedToken(other.clone()));
                        },
                        None => {
                            return Err(ParseError::UnexpectedEndOfInput);
                        },
                    }
                }
            } else {
                Ok((Term::Atom(atom), rest))
            }
        },
        Token::Variable(name) => Ok((Term::Variable(name), rest)),
        Token::LParen => {
            let (inner, rest2) = match parse_term(rest) {
                Ok(p) => p,
                Err(e) => {
                    return Err(e);
                },
            };
            match expect_token(Token::RParen, rest2) {
                Ok(rest3) => {
                    proof {
                        lemma_toks_view_skip(rest2@, 1);
                    }
                    Ok((inner, rest3))
                },
                Err(e) => {
                    return Err(e);
                },
            }
        },
        Token::LBracket => {
            let (elems, rest2) = match parse_list_elements(rest) {
                Ok(p) => p,
                Err(e) => {
                    return Err(e);
                },
            };
            match expect_token(Token::RBracket, rest2) {
                Ok(rest3) => {
                    proof {
                        lemma_toks_view_skip(rest2@, 1);
                    }
                    let t = Term::List(elems);
                    proof {
                        lemma_term_view_list(t->List_0);
                    }
                    Ok((t, rest3))
                },
                Err(e) => {
                    return Err(e);
                },
            }
        },
        Token::Number(number) => Ok((Term::Atom(i64_to_string(number)), rest)),
        _ => Err(ParseError::UnexpectedToken(token)),
    }
}

/// Parses the comma-separated terms of a list body, as many as will parse;
/// a failing attempt at a further term ends the elements without an error,
/// so the result is always `Ok`.
pub fn parse_list_elements<'a>(tokens: &'a [Token]) -> (r: ParseResult<(Vec<Term>, &'a [Token])>)
    ensures
        match r {
            Ok((elems, rest)) => terms_view(elems@) == spec_parse_list_elems(
                toks_view(tokens@),
            ).0 && toks_view(rest@) == spec_parse_list_elems(toks_view(tokens@)).1
                && rest@.len() <= tokens@.len(),
            Err(e) => false,
        },
    decreases tokens@.len(), 1int,
{
    let ghost entry = toks_view(tokens@);
    let mut elems: Vec<Term> = Vec::new();
    let mut remaining: &[Token] = tokens;
    loop
        invariant
            remaining@.len() <= tokens@.len(),
            entry == toks_view(tokens@),
            spec_parse_list_elems(entry).0 == terms_view(elems@) + spec_parse_list_elems(
                toks_view(remaining@),
            ).0,
            spec_parse_list_elems(entry).1 == spec_parse_list_elems(toks_view(remaining@)).1,
        decreases remaining@.len(),
    {
        let ghost cur = toks_view(remaining@);
        match parse_term(remaining) {
            Err(_) => {
                proof {
                    assert(terms_view(elems@) + Seq::<TermModel>::empty() =~= terms_view(
                        elems@,
                    ));
                }
                return Ok((elems, remaining));
            },
            Ok((t, rem2)) => {
                let ghost elemsold = terms_view(elems@);
                let ghost elemsv = elemsold.push(t@);
                elems.push(t);
                proof {
                    assert(terms_view(elems@) =~= elemsv);
                }
                match rem2.first() {
                    Some(Token::Comma) => {
                        proof {
                            lemma_toks_view_skip(rem2@, 1);
                        }
                        remaining = &rem2[1..rem2.len()];
                        proof {
                            let (more, r2) = spec_parse_list_elems(toks_view(remaining@));
                            assert(elemsold + (seq![t@] + more) =~= elemsv + more);
                        }
                    },
                    _ => {
                        proof {
                            assert(elemsold + seq![t@] =~= elemsv);
                        }
                        return Ok((elems, rem2));
                    },
                }
            },
        }
    }
}

/// Parses a whole program: clauses `head [:- body] .` until the input is
/// exhausted; the result is exactly that of [`spec_parse`] on the
/// characters of `input`.
pub fn parse(input: &str) -> (r: ParseResult<Vec<Clause>>)
    ensures
        match r {
            Ok(cs) => spec_parse(input@) == Ok::<Seq<ClauseModel>, ParseErrModel>(
                clauses_view(cs@),
            ),
            Err(e) => spec_parse(input@) == Err::<Seq<ClauseModel>, ParseErrModel>(e@),
        },
        r matches Ok(cs) ==> forall|i: int|
            0 <= i < cs@.len() ==> clause_wf(#[trigger] clauses_view(cs@)[i]),
{
    let tokens = match tokenize(input) {
        Ok(t) => t,
        Err(e) => {
            return Err(ParseError::LexerError(e));
        },
    };
    let ghost full = toks_view(tokens@);
    let mut clauses: Vec<Clause> = Vec::new();
    let mut remaining: &[Token] = tokens.as_slice();
    while !remaining.is_empty()
        invariant
            full == toks_view(tokens@),
            spec_tokenize(input@) == Ok::<Seq<Tok>, LexErr>(full),
            remaining@.len() <= tokens@.len(),
            ({
                match spec_parse_clauses(toks_view(remaining@)) {
                    Ok(cs) => spec_parse_clauses(full) == Ok::<Seq<ClauseModel>, ParseErrModel>(
                        clauses_view(clauses@) + cs,
                    ),
                    Err(e) => spec_parse_clauses(full) == Err::<Seq<ClauseModel>, ParseErrModel>(
                        e,
                    ),
                }
            }),
        decreases remaining@.len(),
    {
        let ghost cur = toks_view(remaining@);
        let (head, rest) = match parse_term(remaining) {
            Ok(p) => p,
            Err(e) => {
                return Err(e);
            },
        };
        let mut body: Vec<Term> = Vec::new();
        let mut rem: &[Token] = rest;
        let ghost spec_body_outcome = if cur.len() > 0 && toks_view(rest@).len() >= 1
            && toks_view(rest@)[0] == Tok::If {
            spec_parse_body(toks_view(rest@).skip(1))
        } else {
            (Seq::<TermModel>::empty(), toks_view(rest@))
        };
        let has_if = match rest.first() {
            Some(Token::If) => true,
            _ => false,
        };
        if has_if {
            rem = &rest[1..rest.len()];
            proof {
                lemma_toks_view_skip(rest@, 1);
            }
            let ghost bentry = toks_view(rem@);
            loop
                invariant_except_break
                    spec_parse_body(bentry).0 == terms_view(body@) + spec_parse_body(
                        toks_view(rem@),
                    ).0,
                    spec_parse_body(bentry).1 == spec_parse_body(toks_view(rem@)).1,
                invariant
                    rem@.len() <= rest@.len(),
                    rest@.len() >= 1,
                    bentry == toks_view(rest@).skip(1),
                ensures
                    spec_parse_body(bentry).0 == terms_view(body@),
                    spec_parse_body(bentry).1 == toks_view(rem@),
                decreases rem@.len(),
            {
                let ghost bcur = toks_view(rem@);
                match parse_term(rem) {
                    Err(_) => {
                        proof {
                            assert(spec_parse_body(bcur).0 == Seq::<TermModel>::empty());
                            assert(terms_view(body@) + Seq::<TermModel>::empty() =~= terms_view(
                                body@,
                            ));
                        }
                        break;
                    },
                    Ok((t, r2)) => {
                        let ghost bodyold = terms_view(body@);
                        let ghost bodyv = bodyold.push(t@);
                        body.push(t);
                        proof {
                            assert(terms_view(body@) =~= bodyv);
                        }
                        let sep = match r2.first() {
                            Some(Token::And) => true,
                            Some(Token::Comma) => true,
                            _ => false,
                        };
                        if sep {
                            proof {
                                lemma_toks_view_skip(r2@, 1);
                            }
                            rem = &r2[1..r2.len()];
                            proof {
                                let (more, rr) = spec_parse_body(toks_view(rem@));
                                assert(bodyold + (seq![t@] + more) =~= bodyv + more);
                            }
                        } else {
                            rem = r2;
                            proof {
                                assert(spec_parse_body(bcur).0 == seq![t@]);
                                assert(bodyold + seq![t@] =~= bodyv);
                            }
                            break;
                        }
                    },
                }
            }
            proof {
                assert(spec_body_outcome.0 == terms_view(body@));
                assert(spec_body_outcome.1 == toks_view(rem@));
            }
        } else {
            proof {
                assert(terms_view(body@) =~= Seq::<TermModel>::empty());
            }
        }
        proof {
            lemma_spec_parse_body_consumes(toks_view(rest@).skip(1));
            assert(spec_body_outcome.0 == terms_view(body@));
            assert(spec_body_outcome.1 == toks_view(rem@));
        }
        match expect_token(Token::Dot, rem) {
            Ok(after) => {
                proof {
                    lemma_toks_view_skip(rem@, 1);
                }
                let ghost clausesold = clauses_view(clauses@);
                let ghost cm = ClauseModel { head: head@, body: terms_view(body@) };
                let ghost clausesv = clausesold.push(cm);
                clauses.push(Clause { head, body });
                remaining = after;
                proof {
                    assert(clauses_view(clauses@) =~= clausesv);
                    match spec_parse_clauses(toks_view(remaining@)) {
                        Ok(more) => {
                            assert(clausesold + (seq![cm] + more) =~= clausesv + more);
                        },
                        Err(e) => {},
                    }
                }
            },
            Err(e) => {
                return Err(e);
            },
        }
    }
    proof {
        assert(toks_view(remaining@) =~= Seq::<Tok>::empty());
        assert(clauses_view(clauses@) + Seq::<ClauseModel>::empty() =~= clauses_view(clauses@));
        lemma_parse_wf(input@);
    }
    Ok(clauses)
}

// ---------------------------------------------------------------------------
// Well-formedness: every produced structure's arity equals its argument count
// ---------------------------------------------------------------------------

/// A fully formed term: in every `Structure` node, recursively, the recorded
/// arity equals the number of arguments.
pub open spec fn term_wf(t: TermModel) -> bool
    decreases t,
{
    match t {
        TermModel::Structure(functor, arity, args) => arity == args.len() && forall|i: int|
            0 <= i < args.len() ==> term_wf(#[trigger] args[i]),
        TermModel::List(elems) => forall|i: int|
            0 <= i < elems.len() ==> term_wf(#[trigger] elems[i]),
        _ => true,
    }
}

/// A fully formed clause: its head and all its body terms are fully formed.
pub open spec fn clause_wf(c: ClauseModel) -> bool {
    term_wf(c.head) && forall|i: int| 0 <= i < c.body.len() ==> term_wf(#[trigger] c.body[i])
}

/// Arity invariant: every term a successful term parse produces is fully
/// formed — in particular, every `Structure` node carries
/// `arity == length(args)`.
pub proof fn lemma_parse_term_wf(ts: Seq<Tok>)
    ensures
        spec_parse_term(ts) matches Ok((t, rest)) ==> term_wf(t),
    decreases ts.len(), 0int,
{
    if ts.len() == 0 {
    } else {
        match ts[0] {
            Tok::Atom(name) => {
                if ts.len() >= 2 && ts[1] == Tok::LParen {
                    lemma_parse_args_wf(ts.skip(2));
                    match spec_parse_args(ts.skip(2)) {
                        Ok((args, rest)) => {
                            assert(term_wf(TermModel::Structure(name, args.len(), args)));
                        },
                        Err(_) => {},
                    }
                }
            },
            Tok::LParen => {
                lemma_parse_term_wf(ts.skip(1));
            },
            Tok::LBracket => {
                lemma_parse_list_elems_wf(ts.skip(1));
                let (elems, rest) = spec_parse_list_elems(ts.skip(1));
                assert(term_wf(TermModel::List(elems)));
            },
            _ => {},
        }
    }
}

/// Every argument term a successful argument-list parse produces is fully
/// formed.
pub proof fn lemma_parse_args_wf(ts: Seq<Tok>)
    ensures
        spec_parse_args(ts) matches Ok((args, rest)) ==> forall|i: int|
            0 <= i < args.len() ==> term_wf(#[trigger] args[i]),
    decreases ts.len(), 1int,
{
    lemma_parse_term_wf(ts);
    match spec_parse_term(ts) {
        Err(_) => {},
        Ok((t, rest)) => {
            if rest.len() < ts.len() && rest.len() >= 1 && rest[0] == Tok::Comma {
                lemma_parse_args_wf(rest.skip(1));
            }
        },
    }
}

/// Every element term a list-element parse produces is fully formed.
pub proof fn lemma_parse_list_elems_wf(ts: Seq<Tok>)
    ensures
        forall|i: int|
            0 <= i < spec_parse_list_elems(ts).0.len() ==> term_wf(
                #[trigger] spec_parse_list_elems(ts).0[i],
            ),
    decreases ts.len(), 1int,
{
    lemma_parse_term_wf(ts);
    match spec_parse_term(ts) {
        Err(_) => {},
        Ok((t, rest)) => {
            if rest.len() < ts.len() && rest.len() >= 1 && rest[0] == Tok::Comma {
                lemma_parse_list_elems_wf(rest.skip(1));
                let (more, rest2) = spec_parse_list_elems(rest.skip(1));
                let all = seq![t] + more;
                assert forall|i: int| 0 <= i < all.len() implies term_wf(#[trigger] all[i]) by {
                    if i > 0 {
                        assert(all[i] == more[i - 1]);
                    }
                }
            } else {
                assert((seq![t])[0] == t);
            }
        },
    }
}

/// Every body term a body parse produces is fully formed.
pub proof fn lemma_parse_body_wf(ts: Seq<Tok>)
    ensures
        forall|i: int|
            0 <= i < spec_parse_body(ts).0.len() ==> term_wf(
                #[trigger] spec_parse_body(ts).0[i],
            ),
    decreases ts.len(), 1int,
{
    lemma_parse_term_wf(ts);
    match spec_parse_term(ts) {
        Err(_) => {},
        Ok((t, rest)) => {
            if rest.len() < ts.len() && rest.len() >= 1 && (rest[0] == Tok::And || rest[0]
                == Tok::Comma) {
                lemma_parse_body_wf(rest.skip(1));
                let (more, rest2) = spec_parse_body(rest.skip(1));
                let all = seq![t] + more;
                assert forall|i: int| 0 <= i < all.len() implies term_wf(#[trigger] all[i]) by {
                    if i > 0 {
                        assert(all[i] == more[i - 1]);
                    }
                }
            } else {
                assert((seq![t])[0] == t);
            }
        },
    }
}

/// Every clause a successful clause parse produces is fully formed.
pub proof fn lemma_parse_clauses_wf(ts: Seq<Tok>)
    ensures
        spec_parse_clauses(ts) matches Ok(cs) ==> forall|i: int|
            0 <= i < cs.len() ==> clause_wf(#[trigger] cs[i]),
    decreases ts.len(), 2int,
{
    if ts.len() == 0 {
    } else {
        lemma_parse_term_wf(ts);
        match spec_parse_term(ts) {
            Err(_) => {},
            Ok((head, rest)) => {
                if rest.len() < ts.len() {
                    let (body, rest2) = if rest.len() >= 1 && rest[0] == Tok::If {
                        spec_parse_body(rest.skip(1))
                    } else {
                        (Seq::<TermModel>::empty(), rest)
                    };
                    lemma_parse_body_wf(rest.skip(1));
                    if rest2.len() <= ts.len() && rest2.len() >= 1 && rest2[0] == Tok::Dot {
                        lemma_parse_clauses_wf(rest2.skip(1));
                    }
                }
            },
        }
    }
}

/// Arity invariant at the front end: every clause a successful parse
/// produces is fully formed, whatever the input.
pub proof fn lemma_parse_wf(s: Seq<char>)
    ensures
        spec_parse(s) matches Ok(cs) ==> forall|i: int|
            0 <= i < cs.len() ==> clause_wf(#[trigger] cs[i]),
{
    match spec_tokenize(s) {
        Ok(ts) => {
            lemma_parse_clauses_wf(ts);
        },
        Err(_) => {},
    }
}

// ---------------------------------------------------------------------------
// Round trip: rendering a term to tokens and parsing it back
// ---------------------------------------------------------------------------

/// The token rendering of a term: the sequence of tokens whose parse is the
/// term.
pub open spec fn term_tokens(t: TermModel) -> Seq<Tok>
    decreases t, 0int,
{
    match t {
        TermModel::Atom(name) => seq![Tok::Atom(name)],
        TermModel::Variable(name) => seq![Tok::Variable(name)],
        TermModel::Structure(functor, arity, args) => seq![Tok::Atom(functor), Tok::LParen]
            + terms_tokens(args, 0) + seq![Tok::RParen],
        TermModel::List(elems) => seq![Tok::LBracket] + terms_tokens(elems, 0)
            + seq![Tok::RBracket],
    }
}

/// The comma-separated token renderings of the terms of `ts` from position
/// `i` on.
pub open spec fn terms_tokens(ts: Seq<TermModel>, i: int) -> Seq<Tok>
    decreases ts, ts.len() - i,
{
    if 0 <= i < ts.len() {
        if i == ts.len() - 1 {
            term_tokens(ts[i])
        } else {
            term_tokens(ts[i]) + seq![Tok::Comma] + terms_tokens(ts, i + 1)
        }
    } else {
        Seq::empty()
    }
}

/// A term that has a token rendering the parser accepts: it is fully formed
/// and every `Structure` node has at least one argument, as the grammar
/// requires.
pub open spec fn renderable(t: TermModel) -> bool
    decreases t,
{
    match t {
        TermModel::Structure(functor, arity, args) => arity == args.len() && args.len() >= 1
            && forall|i: int| 0 <= i < args.len() ==> renderable(#[trigger] args[i]),
        TermModel::List(elems) => forall|i: int|
            0 <= i < elems.len() ==> renderable(#[trigger] elems[i]),
        _ => true,
    }
}

proof fn lemma_term_tokens_nonempty(t: TermModel)
    ensures
        term_tokens(t).len() >= 1,
{
}

/// Round trip, generalized over what follows the term: parsing the token
/// rendering of a renderable term, followed by any continuation that does
/// not begin with an opening parenthesis, yields the term back with exactly
/// the continuation as remainder.
pub proof fn lemma_parse_term_round_trip_after(t: TermModel, rest: Seq<Tok>)
    requires
        renderable(t),
        rest.len() == 0 || rest[0] != Tok::LParen,
    ensures
        spec_parse_term(term_tokens(t) + rest) == Ok::<(TermModel, Seq<Tok>), ParseErrModel>(
            (t, rest),
        ),
    decreases t, 0int,
{
    let input = term_tokens(t) + rest;
    match t {
        TermModel::Atom(name) => {
            assert(input[0] == Tok::Atom(name));
            if input.len() >= 2 {
                assert(input[1] == rest[0]);
            }
            assert(input.skip(1) =~= rest);
        },
        TermModel::Variable(name) => {
            assert(input[0] == Tok::Variable(name));
            assert(input.skip(1) =~= rest);
        },
        TermModel::Structure(functor, arity, args) => {
            assert(input[0] == Tok::Atom(functor));
            assert(input[1] == Tok::LParen);
            assert(input.skip(2) =~= terms_tokens(args, 0) + (seq![Tok::RParen] + rest));
            lemma_parse_args_round_trip(args, 0, rest);
            assert(args.skip(0) =~= args);
        },
        TermModel::List(elems) => {
            assert(input[0] == Tok::LBracket);
            assert(input.skip(1) =~= terms_tokens(elems, 0) + (seq![Tok::RBracket] + rest));
            lemma_parse_list_round_trip(elems, 0, rest);
            assert(elems.skip(0) =~= elems);
            let rest1 = seq![Tok::RBracket] + rest;
            assert(rest1[0] == Tok::RBracket);
            assert(rest1.skip(1) =~= rest);
        },
    }
}

proof fn lemma_parse_args_round_trip(args: Seq<TermModel>, i: int, rest: Seq<Tok>)
    requires
        0 <= i < args.len(),
        forall|j: int| i <= j < args.len() ==> renderable(#[trigger] args[j]),
    ensures
        spec_parse_args(terms_tokens(args, i) + (seq![Tok::RParen] + rest)) == Ok::<
            (Seq<TermModel>, Seq<Tok>),
            ParseErrModel,
        >((args.skip(i), rest)),
    decreases args, args.len() - i,
{
    let input = terms_tokens(args, i) + (seq![Tok::RParen] + rest);
    if i == args.len() - 1 {
        let rest1 = seq![Tok::RParen] + rest;
        assert(rest1[0] == Tok::RParen);
        lemma_parse_term_round_trip_after(args[i], rest1);
        lemma_term_tokens_nonempty(args[i]);
        assert(rest1.len() < input.len());
        assert(rest1.skip(1) =~= rest);
        assert(seq![args[i]] =~= args.skip(i));
    } else {
        let rest1 = seq![Tok::Comma] + (terms_tokens(args, i + 1) + (seq![Tok::RParen] + rest));
        assert(input =~= term_tokens(args[i]) + rest1);
        assert(rest1[0] == Tok::Comma);
        lemma_parse_term_round_trip_after(args[i], rest1);
        lemma_term_tokens_nonempty(args[i]);
        assert(rest1.len() < input.len());
        assert(rest1.skip(1) =~= terms_tokens(args, i + 1) + (seq![Tok::RParen] + rest));
        lemma_parse_args_round_trip(args, i + 1, rest);
        assert(seq![args[i]] + args.skip(i + 1) =~= args.skip(i));
    }
}

proof fn lemma_parse_list_round_trip(elems: Seq<TermModel>, i: int, rest: Seq<Tok>)
    requires
        0 <= i <= elems.len(),
        forall|j: int| i <= j < elems.len() ==> renderable(#[trigger] elems[j]),
    ensures
        spec_parse_list_elems(terms_tokens(elems, i) + (seq![Tok::RBracket] + rest)) == (
            elems.skip(i),
            seq![Tok::RBracket] + rest,
        ),
    decreases elems, elems.len() - i,
{
    let input = terms_tokens(elems, i) + (seq![Tok::RBracket] + rest);
    if i == elems.len() {
        assert(input =~= seq![Tok::RBracket] + rest);
        assert(input[0] == Tok::RBracket);
        assert(elems.skip(i) =~= Seq::<TermModel>::empty());
        assert(spec_parse_term(input) is Err);
    } else if i == elems.len() - 1 {
        let rest1 = seq![Tok::RBracket] + rest;
        assert(rest1[0] == Tok::RBracket);
        lemma_parse_term_round_trip_after(elems[i], rest1);
        lemma_term_tokens_nonempty(elems[i]);
        assert(rest1.len() < input.len());
        assert(seq![elems[i]] =~= elems.skip(i));
    } else {
        let rest1 = seq![Tok::Comma] + (terms_tokens(elems, i + 1) + (seq![Tok::RBracket]
            + rest));
        assert(input =~= term_tokens(elems[i]) + rest1);
        assert(rest1[0] == Tok::Comma);
        lemma_parse_term_round_trip_after(elems[i], rest1);
        lemma_term_tokens_nonempty(elems[i]);
        assert(rest1.len() < input.len());
        assert(rest1.skip(1) =~= terms_tokens(elems, i + 1) + (seq![Tok::RBracket] + rest));
        lemma_parse_list_round_trip(elems, i + 1, rest);
        assert(seq![elems[i]] + elems.skip(i + 1) =~= elems.skip(i));
    }
}

/// Round trip: parsing the token rendering of a renderable term yields
/// exactly the term back, with an empty remainder, at every nesting depth.
pub proof fn lemma_parse_term_round_trip(t: TermModel)
    requires
        renderable(t),
    ensures
        spec_parse_term(term_tokens(t)) == Ok::<(TermModel, Seq<Tok>), ParseErrModel>(
            (t, Seq::empty()),
        ),
{
    lemma_parse_term_round_trip_after(t, Seq::empty());
    assert(term_tokens(t) + Seq::<Tok>::empty() =~= term_tokens(t));
}

} // verus!

