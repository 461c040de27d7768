//! How tokens are spelled.
//!
//! Every word and every sign has one spelling, and the kind of a token is that of its spelling.

use crate::lexeme::identifier_text;
use crate::lexer::{lexed, word_kind, TokenKind, TokenView};
use crate::token_stream::{lexed_tokens_are_well_formed, token_ok};
use vstd::prelude::*;
use vstd::utf8::{encode_utf8, is_ascii_chars, is_ascii_chars_encode_utf8, valid_utf8};

verus! {

/// The word that a keyword is.
pub open spec fn keyword(kind: TokenKind) -> Option<Seq<char>> {
    match kind {
        TokenKind::KwDiv => Some("div"@),
        TokenKind::KwMod => Some("mod"@),
        TokenKind::KwIs => Some("is"@),
        TokenKind::KwTrue => Some("true"@),
        TokenKind::KwFalse => Some("false"@),
        TokenKind::KwAnd => Some("and"@),
        TokenKind::KwOr => Some("or"@),
        TokenKind::KwXor => Some("xor"@),
        TokenKind::KwNot => Some("not"@),
        TokenKind::KwIf => Some("if"@),
        TokenKind::KwElif => Some("elif"@),
        TokenKind::KwElse => Some("else"@),
        TokenKind::KwWhile => Some("while"@),
        TokenKind::KwUntil => Some("until"@),
        TokenKind::KwLoop => Some("loop"@),
        TokenKind::KwFor => Some("for"@),
        TokenKind::KwIn => Some("in"@),
        _ => None,
    }
}

/// The characters of a sign.
pub open spec fn sign(kind: TokenKind) -> Option<Seq<char>> {
    match kind {
        TokenKind::Underscore => Some(seq!['_']),
        TokenKind::Plus => Some(seq!['+']),
        TokenKind::Minus => Some(seq!['-']),
        TokenKind::Star => Some(seq!['*']),
        TokenKind::Slash => Some(seq!['/']),
        TokenKind::Caret => Some(seq!['^']),
        TokenKind::Equal => Some(seq!['=']),
        TokenKind::EqEq => Some(seq!['=', '=']),
        TokenKind::Ne => Some(seq!['!', '=']),
        TokenKind::Lt => Some(seq!['<']),
        TokenKind::Gt => Some(seq!['>']),
        TokenKind::Le => Some(seq!['<', '=']),
        TokenKind::Ge => Some(seq!['>', '=']),
        TokenKind::PlusEq => Some(seq!['+', '=']),
        TokenKind::MinusEq => Some(seq!['-', '=']),
        TokenKind::StarEq => Some(seq!['*', '=']),
        TokenKind::SlashEq => Some(seq!['/', '=']),
        TokenKind::CaretEq => Some(seq!['^', '=']),
        TokenKind::DivEq => Some(seq!['d', 'i', 'v', '=']),
        TokenKind::ModEq => Some(seq!['m', 'o', 'd', '=']),
        TokenKind::LParen => Some(seq!['(']),
        TokenKind::RParen => Some(seq![')']),
        TokenKind::LBracket => Some(seq!['[']),
        TokenKind::RBracket => Some(seq![']']),
        TokenKind::Colon => Some(seq![':']),
        TokenKind::ColonColon => Some(seq![':', ':']),
        TokenKind::Comma => Some(seq![',']),
        TokenKind::Semicolon => Some(seq![';']),
        TokenKind::Dot => Some(seq!['.']),
        TokenKind::DotDot => Some(seq!['.', '.']),
        TokenKind::DotDotLt => Some(seq!['.', '.', '<']),
        TokenKind::DotDotGt => Some(seq!['.', '.', '>']),
        _ => None,
    }
}

/// The words of keywords are told apart by their letters.
proof fn lemma_keywords()
    ensures
        forall|kind: TokenKind| (#[trigger] keyword(kind)) matches Some(word) ==> word_kind(word)
            == kind,
{
    reveal_strlit("div");
    reveal_strlit("mod");
    reveal_strlit("is");
    reveal_strlit("true");
    reveal_strlit("false");
    reveal_strlit("and");
    reveal_strlit("or");
    reveal_strlit("xor");
    reveal_strlit("not");
    reveal_strlit("if");
    reveal_strlit("elif");
    reveal_strlit("else");
    reveal_strlit("while");
    reveal_strlit("until");
    reveal_strlit("loop");
    reveal_strlit("for");
    reveal_strlit("in");
    assert forall|kind: TokenKind| (#[trigger] keyword(kind)) matches Some(word) implies word_kind(
        keyword(kind)->0,
    ) == kind by {
        assert("div"@ =~= seq!['d', 'i', 'v']);
        assert("mod"@ =~= seq!['m', 'o', 'd']);
        assert("is"@ =~= seq!['i', 's']);
        assert("true"@ =~= seq!['t', 'r', 'u', 'e']);
        assert("false"@ =~= seq!['f', 'a', 'l', 's', 'e']);
        assert("and"@ =~= seq!['a', 'n', 'd']);
        assert("or"@ =~= seq!['o', 'r']);
        assert("xor"@ =~= seq!['x', 'o', 'r']);
        assert("not"@ =~= seq!['n', 'o', 't']);
        assert("if"@ =~= seq!['i', 'f']);
        assert("elif"@ =~= seq!['e', 'l', 'i', 'f']);
        assert("else"@ =~= seq!['e', 'l', 's', 'e']);
        assert("while"@ =~= seq!['w', 'h', 'i', 'l', 'e']);
        assert("until"@ =~= seq!['u', 'n', 't', 'i', 'l']);
        assert("loop"@ =~= seq!['l', 'o', 'o', 'p']);
        assert("for"@ =~= seq!['f', 'o', 'r']);
        assert("in"@ =~= seq!['i', 'n']);
    }
}

/// The bytes of a sign are its characters.
proof fn lemma_sign_bytes(kind: TokenKind)
    ensures
        sign(kind) matches Some(text) ==> {
            &&& encode_utf8(text).len() == text.len()
            &&& forall|i: int|
                0 <= i < text.len() ==> #[trigger] encode_utf8(text)[i] == text[i] as u8
        },
{
    if let Some(text) = sign(kind) {
        assert(is_ascii_chars(text));
        is_ascii_chars_encode_utf8(text);
    }
}

/// A token that is a keyword or a sign is spelled as one, and a word that is no keyword is a name.
pub proof fn tokens_are_spelled_so(b: Seq<u8>)
    requires
        valid_utf8(b),
    ensures
        lexed(b) matches Ok(tokens) ==> forall|i: int|
            0 <= i < tokens.len() ==> {
                let token = #[trigger] tokens[i];
                &&& keyword(token.kind) matches Some(word) ==> token.text == word
                &&& sign(token.kind) matches Some(text) ==> encode_utf8(token.text) == encode_utf8(
                    text,
                )
                &&& token.kind == TokenKind::Identifier ==> identifier_text(
                    encode_utf8(token.text),
                ) && forall|kind: TokenKind|
                    (#[trigger] keyword(kind)) != Some(token.text)
            },
{
    lexed_tokens_are_well_formed(b);
    lemma_keywords();
    if let Ok(tokens) = lexed(b) {
        assert forall|i: int| 0 <= i < tokens.len() implies ({
            let token = #[trigger] tokens[i];
            &&& keyword(token.kind) matches Some(word) ==> token.text == word
            &&& sign(token.kind) matches Some(text) ==> encode_utf8(token.text) == encode_utf8(text)
            &&& token.kind == TokenKind::Identifier ==> identifier_text(encode_utf8(token.text))
                && forall|kind: TokenKind| (#[trigger] keyword(kind)) != Some(token.text)
        }) by {
            lemma_token_spelled(b, tokens[i]);
        }
    }
}

proof fn lemma_token_spelled(b: Seq<u8>, token: TokenView)
    requires
        token_ok(b, token),
    ensures
        keyword(token.kind) matches Some(word) ==> token.text == word,
        sign(token.kind) matches Some(text) ==> encode_utf8(token.text) == encode_utf8(text),
        token.kind == TokenKind::Identifier ==> identifier_text(encode_utf8(token.text)) && forall|
            kind: TokenKind,
        |
            (#[trigger] keyword(kind)) != Some(token.text),
{
    lemma_keywords();
    lemma_sign_bytes(token.kind);
    if let Some(text) = sign(token.kind) {
        assert(encode_utf8(token.text) =~= encode_utf8(text));
    }
}

} // verus!
