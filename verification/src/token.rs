//! Lexical analysis: turning a source text into a token sequence.
//!
//! Exactly seven characters carry meaning; every other character of the
//! source is inert and is dropped without error.

use vstd::prelude::*;
use vstd::seq_lib::*;

verus! {

/// One instruction of the language.
#[derive(Clone, Copy, Debug, PartialEq, Eq, Structural)]
pub enum Token {
    /// `|`: loop entry and the implicit loop-continuation test.
    LoopMarker,
    /// `#`: replace the tape with fresh zeros and return to position 0.
    Reset,
    /// `-`: add one to the current cell, modulo 30,000.
    Increment,
    /// `!`: subtract one from the current cell, wrapping below zero.
    Decrement,
    /// `/`: read one line of input into the current cell.
    Input,
    /// `\`: emit the current cell as a character.
    Output,
    /// A newline in the source: emit a line break.
    Newline,
}

/// Whether `c` is one of the seven characters that carry meaning.
pub open spec fn is_recognized(c: char) -> bool {
    c == '|' || c == '#' || c == '-' || c == '!' || c == '/' || c == '\\' || c == '\n'
}

/// The token a recognized character stands for.
pub open spec fn token_for(c: char) -> Token
    recommends
        is_recognized(c),
{
    if c == '|' {
        Token::LoopMarker
    } else if c == '#' {
        Token::Reset
    } else if c == '-' {
        Token::Increment
    } else if c == '!' {
        Token::Decrement
    } else if c == '/' {
        Token::Input
    } else if c == '\\' {
        Token::Output
    } else {
        Token::Newline
    }
}

/// The token sequence of a source text: each recognized character mapped to
/// its token, in source order, every other character dropped.
pub open spec fn spec_tokenize(s: Seq<char>) -> Seq<Token>
    decreases s.len(),
{
    if s.len() == 0 {
        Seq::empty()
    } else {
        let rest = spec_tokenize(s.drop_last());
        if is_recognized(s.last()) {
            rest.push(token_for(s.last()))
        } else {
            rest
        }
    }
}

/// Produce the token sequence of `input`, visiting characters in input
/// order and skipping every unrecognized character.  Never fails: any
/// source, recognized characters or not, yields a (possibly empty) sequence.
pub fn tokenize(input: &str) -> (tokens: Vec<Token>)
    ensures
        tokens@ == spec_tokenize(input@),
{
    let n: usize = input.unicode_len();
    let mut tokens: Vec<Token> = Vec::new();
    let mut i: usize = 0;
    while i < n
        invariant
            i <= n,
            n == input@.len(),
            tokens@ == spec_tokenize(input@.subrange(0, i as int)),
        decreases n - i,
    {
        let c = input.get_char(i);
        match c {
            '|' => tokens.push(Token::LoopMarker),
            '#' => tokens.push(Token::Reset),
            '-' => tokens.push(Token::Increment),
            '!' => tokens.push(Token::Decrement),
            '/' => tokens.push(Token::Input),
            '\\' => tokens.push(Token::Output),
            '\n' => tokens.push(Token::Newline),
            _ => (),
        }
        i = i + 1;
        proof {
            let pre = input@.subrange(0, i - 1);
            let cur = input@.subrange(0, i as int);
            assert(cur.drop_last() =~= pre);
            assert(cur.last() == c);
        }
    }
    proof {
        assert(input@.subrange(0, n as int) =~= input@);
    }
    tokens
}

/// The lexer keeps exactly the recognized characters, in order: the token
/// sequence is the recognized characters of the source, each mapped to its
/// token, so in particular the token count equals the count of recognized
/// characters.
pub proof fn lemma_tokenize_is_filter(s: Seq<char>)
    ensures
        spec_tokenize(s) == s.filter(|c: char| is_recognized(c)).map_values(
            |c: char| token_for(c),
        ),
        spec_tokenize(s).len() == s.filter(|c: char| is_recognized(c)).len(),
    decreases s.len(),
{
    reveal(Seq::filter);
    let p = |c: char| is_recognized(c);
    let f = |c: char| token_for(c);
    if s.len() == 0 {
        assert(s.filter(p) =~= Seq::<char>::empty());
        assert(spec_tokenize(s) =~= s.filter(p).map_values(f));
    } else {
        let dl = s.drop_last();
        lemma_tokenize_is_filter(dl);
        if p(s.last()) {
            assert(s.filter(p) == dl.filter(p).push(s.last()));
            assert(dl.filter(p).push(s.last()).map_values(f) =~= dl.filter(p).map_values(
                f,
            ).push(f(s.last())));
        } else {
            assert(s.filter(p) == dl.filter(p));
        }
        assert(spec_tokenize(s) =~= s.filter(p).map_values(f));
    }
}

/// A source made only of unrecognized characters tokenizes to the empty
/// sequence.
pub proof fn lemma_unrecognized_tokenize_empty(s: Seq<char>)
    requires
        forall|i: int| 0 <= i < s.len() ==> !is_recognized(s[i]),
    ensures
        spec_tokenize(s) == Seq::<Token>::empty(),
    decreases s.len(),
{
    if s.len() > 0 {
        lemma_unrecognized_tokenize_empty(s.drop_last());
        assert(!is_recognized(s.last()));
    }
}

} // verus!
