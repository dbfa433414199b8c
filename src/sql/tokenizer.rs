use vstd::prelude::*;
use vstd::std_specs::iter::IteratorSpec;
use vstd::string::StringExecFns;

use crate::error::Error;

verus! {

/// A token of the SQL subset.
#[derive(Debug, Clone, PartialEq, Eq)]
pub enum Token {
    Create,
    Table,
    Select,
    As,
    From,
    LPar,
    RPar,
    Star,
    Comma,
    SemiColon,
    Identifier(String),
}

fn chars_of(input: &str) -> (r: Vec<char>)
    ensures
        r@ == input@,
{
    broadcast use vstd::string::axiom_spec_iter, vstd::string::next_postcondition;
    let mut chars = input.chars();
    let mut v: Vec<char> = Vec::new();
    loop
        invariant
            v@ + chars.remaining() == input@,
            chars.decrease() is Some,
            chars.obeys_prophetic_iter_laws(),
        ensures
            v@ == input@,
        decreases chars.decrease()->0,
    {
        let ghost rem = chars.remaining();
        let ghost before = v@;
        match chars.next() {
            Some(c) => {
                v.push(c);
                proof {
                    assert(before + rem =~= v@ + chars.remaining());
                }
            },
            None => {
                proof {
                    assert(before + rem =~= v@);
                }
                break;
            },
        }
    }
    v
}

/// What a token is, with an identifier's text as characters.
pub enum TokenView {
    Create,
    Table,
    Select,
    As,
    From,
    LPar,
    RPar,
    Star,
    Comma,
    SemiColon,
    Identifier(Seq<char>),
}

impl View for Token {
    type V = TokenView;

    open spec fn view(&self) -> TokenView {
        match self {
            Token::Create => TokenView::Create,
            Token::Table => TokenView::Table,
            Token::Select => TokenView::Select,
            Token::As => TokenView::As,
            Token::From => TokenView::From,
            Token::LPar => TokenView::LPar,
            Token::RPar => TokenView::RPar,
            Token::Star => TokenView::Star,
            Token::Comma => TokenView::Comma,
            Token::SemiColon => TokenView::SemiColon,
            Token::Identifier(s) => TokenView::Identifier(s@),
        }
    }
}

impl Token {
    /// The text of an identifier token.
    pub fn as_identifier(&self) -> (r: Option<&str>)
        ensures
            match self {
                Token::Identifier(s) => r matches Some(t) && t@ == s@,
                _ => r is None,
            },
    {
        match self {
            Token::Identifier(ident) => Some(ident.as_str()),
            _ => None,
        }
    }
}

/// Whether `c` has the Unicode White_Space property.
pub open spec fn whitespace(c: char) -> bool {
    let n = c as u32;
    (0x09 <= n <= 0x0d) || n == 0x20 || n == 0x85 || n == 0xa0 || n == 0x1680 || (0x2000 <= n
        <= 0x200a) || n == 0x2028 || n == 0x2029 || n == 0x202f || n == 0x205f || n == 0x3000
}

/// Whether `c` has the Unicode Alphabetic property.
pub uninterp spec fn alphabetic(c: char) -> bool;

/// Whether `c` is alphabetic or numeric in Unicode's sense.
pub uninterp spec fn alphanumeric(c: char) -> bool;

/// The characters of the Unicode lower-case mapping of `c`.
pub uninterp spec fn lowercase_of(c: char) -> Seq<char>;

fn is_whitespace(c: char) -> (r: bool)
    ensures
        r == whitespace(c),
{
    let n = c as u32;
    (0x09 <= n && n <= 0x0d) || n == 0x20 || n == 0x85 || n == 0xa0 || n == 0x1680 || (0x2000 <= n
        && n <= 0x200a) || n == 0x2028 || n == 0x2029 || n == 0x202f || n == 0x205f || n == 0x3000
}

/// Relies on char::is_alphabetic, which depends on the character alone.
#[verifier::external_body]
fn is_alphabetic(c: char) -> (r: bool)
    ensures
        r == alphabetic(c),
{
    c.is_alphabetic()
}

/// Relies on char::is_alphanumeric, which depends on the character alone.
#[verifier::external_body]
fn is_alphanumeric(c: char) -> (r: bool)
    ensures
        r == alphanumeric(c),
{
    c.is_alphanumeric()
}

/// Relies on char::to_lowercase, whose characters depend on `c` alone.
#[verifier::external_body]
fn lowercase(c: char) -> (r: String)
    ensures
        r@ == lowercase_of(c),
{
    c.to_lowercase().collect()
}

/// The characters that may continue an identifier.
pub open spec fn ident_char(c: char) -> bool {
    alphanumeric(c) || c == '_'
}

/// Where the identifier that continues at `i` ends.
pub open spec fn ident_end(s: Seq<char>, i: int) -> int
    decreases s.len() - i,
{
    if 0 <= i < s.len() && ident_char(s[i]) {
        ident_end(s, i + 1)
    } else {
        i
    }
}

proof fn lemma_ident_end(s: Seq<char>, i: int)
    ensures
        ident_end(s, i) >= i,
        0 <= i ==> ident_end(s, i) <= s.len() || ident_end(s, i) == i,
    decreases s.len() - i,
{
    if 0 <= i < s.len() && ident_char(s[i]) {
        lemma_ident_end(s, i + 1);
    }
}

/// The lower-case mapping of each character of `s`, concatenated.
pub open spec fn lower_chars(s: Seq<char>) -> Seq<char>
    decreases s.len(),
{
    if s.len() == 0 {
        Seq::empty()
    } else {
        lower_chars(s.drop_last()) + lowercase_of(s.last())
    }
}

/// The keyword that a lower-case word spells, or an identifier.
pub open spec fn word_token(w: Seq<char>) -> TokenView {
    if w == "create"@ {
        TokenView::Create
    } else if w == "table"@ {
        TokenView::Table
    } else if w == "select"@ {
        TokenView::Select
    } else if w == "as"@ {
        TokenView::As
    } else if w == "from"@ {
        TokenView::From
    } else {
        TokenView::Identifier(w)
    }
}

/// The token a single punctuation character stands for.
pub open spec fn punctuation(c: char) -> Option<TokenView> {
    if c == '(' {
        Some(TokenView::LPar)
    } else if c == ')' {
        Some(TokenView::RPar)
    } else if c == '*' {
        Some(TokenView::Star)
    } else if c == ',' {
        Some(TokenView::Comma)
    } else if c == ';' {
        Some(TokenView::SemiColon)
    } else {
        None
    }
}

pub open spec fn prepend(prefix: Seq<TokenView>, r: Result<Seq<TokenView>, Error>) -> Result<Seq<TokenView>, Error> {
    match r {
        Ok(ts) => Ok(prefix + ts),
        Err(e) => Err(e),
    }
}

/// The tokens of `s` from position `i` on: punctuation stands alone, whitespace separates,
/// a word starts with an alphabetic character, goes on with alphanumerics and underscores and
/// is lower-cased; any other character is an error.
pub open spec fn spec_tokenize_from(s: Seq<char>, i: int) -> Result<Seq<TokenView>, Error>
    decreases s.len() - i,
    via spec_tokenize_from_decreases
{
    if i < 0 || i >= s.len() {
        Ok(Seq::empty())
    } else if punctuation(s[i]) is Some {
        prepend(seq![punctuation(s[i])->Some_0], spec_tokenize_from(s, i + 1))
    } else if whitespace(s[i]) {
        spec_tokenize_from(s, i + 1)
    } else if alphabetic(s[i]) {
        let end = ident_end(s, i + 1);
        prepend(seq![word_token(lower_chars(s.subrange(i, end)))], spec_tokenize_from(s, end))
    } else {
        Err(Error::UnexpectedCharacter(s[i]))
    }
}

#[via_fn]
proof fn spec_tokenize_from_decreases(s: Seq<char>, i: int) {
    lemma_ident_end(s, i + 1);
}

fn word_to_token(word: String) -> (r: Token)
    ensures
        r@ == word_token(word@),
{
    if word == String::from_str("create") {
        Token::Create
    } else if word == String::from_str("table") {
        Token::Table
    } else if word == String::from_str("select") {
        Token::Select
    } else if word == String::from_str("as") {
        Token::As
    } else if word == String::from_str("from") {
        Token::From
    } else {
        Token::Identifier(word)
    }
}

/// Splits a statement into tokens.
pub fn tokenize(input: &str) -> (r: Result<Vec<Token>, Error>)
    ensures
        match r {
            Ok(tokens) => spec_tokenize_from(input@, 0) == Ok::<Seq<TokenView>, Error>(tokens@.map_values(|t: Token| t@)),
            Err(e) => spec_tokenize_from(input@, 0) == Err::<Seq<TokenView>, Error>(e),
        },
{
    let chars = chars_of(input);
    let ghost s = chars@;
    let mut tokens: Vec<Token> = Vec::new();
    let mut pos: usize = 0;
    proof {
        assert(tokens@.map_values(|t: Token| t@) + Seq::<TokenView>::empty() =~= Seq::<TokenView>::empty());
        match spec_tokenize_from(s, 0) {
            Ok(ts) => {
                assert(tokens@.map_values(|t: Token| t@) + ts =~= ts);
            },
            Err(_) => {},
        }
    }
    while pos < chars.len()
        invariant
            s == chars@,
            s == input@,
            pos <= s.len(),
            spec_tokenize_from(s, 0) == prepend(tokens@.map_values(|t: Token| t@), spec_tokenize_from(s, pos as int)),
        decreases s.len() - pos,
    {
        let c = chars[pos];
        let ghost before = tokens@.map_values(|t: Token| t@);
        let punct = if c == '(' {
            Some(Token::LPar)
        } else if c == ')' {
            Some(Token::RPar)
        } else if c == '*' {
            Some(Token::Star)
        } else if c == ',' {
            Some(Token::Comma)
        } else if c == ';' {
            Some(Token::SemiColon)
        } else {
            None
        };
        if let Some(t) = punct {
            let ghost tv = t@;
            tokens.push(t);
            proof {
                assert(tokens@.map_values(|t: Token| t@) =~= before + seq![tv]);
                match spec_tokenize_from(s, pos + 1) {
                    Ok(ts) => {
                        assert(before + (seq![tv] + ts) =~= (before + seq![tv]) + ts);
                    },
                    Err(_) => {},
                }
            }
            pos = pos + 1;
        } else if is_whitespace(c) {
            pos = pos + 1;
        } else if is_alphabetic(c) {
            let mut ident = lowercase(c);
            let mut end: usize = pos + 1;
            proof {
                assert(s.subrange(pos as int, pos + 1).drop_last() =~= Seq::<char>::empty());
                assert(lower_chars(Seq::<char>::empty()) =~= Seq::<char>::empty());
                assert(ident@ =~= lower_chars(s.subrange(pos as int, pos + 1)));
            }
            while end < chars.len() && (is_alphanumeric(chars[end]) || chars[end] == '_')
                invariant
                    s == chars@,
                    pos < end <= s.len(),
                    ident_end(s, end as int) == ident_end(s, pos + 1),
                    ident@ == lower_chars(s.subrange(pos as int, end as int)),
                decreases s.len() - end,
            {
                let next = lowercase(chars[end]);
                proof {
                    assert(s.subrange(pos as int, end + 1).drop_last() =~= s.subrange(pos as int, end as int));
                }
                ident.append(next.as_str());
                end = end + 1;
            }
            let t = word_to_token(ident);
            let ghost tv = t@;
            tokens.push(t);
            proof {
                assert(tokens@.map_values(|t: Token| t@) =~= before + seq![tv]);
                match spec_tokenize_from(s, end as int) {
                    Ok(ts) => {
                        assert(before + (seq![tv] + ts) =~= (before + seq![tv]) + ts);
                    },
                    Err(_) => {},
                }
            }
            pos = end;
        } else {
            return Err(Error::UnexpectedCharacter(c));
        }
    }
    proof {
        assert(tokens@.map_values(|t: Token| t@) + Seq::<TokenView>::empty() =~= tokens@.map_values(|t: Token| t@));
    }
    Ok(tokens)
}

} // verus!
