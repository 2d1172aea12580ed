use vstd::prelude::*;

verus! {

/// A token of the character-level vocabulary: a letter, or the
/// beginning/end-of-sequence marker.
#[derive(Clone, Copy, Debug)]
pub enum Token {
    /// A character (meant to be one of `a` to `z`).
    C(char),
    /// The BOS marker, which both starts and ends a sequence.
    Bos,
}

/// The index of a token in the vocabulary.
pub type TokenId = usize;

/// The byte value of `a`, the first letter of the vocabulary.
pub const LOWER_A_ASCII_VALUE: u8 = 97;

/// The id of the BOS token: the 26 letters come first.
pub const BOS_ID: usize = 26;

/// What `char::is_alphabetic` answers for `c` (the Unicode `Alphabetic` property).
pub uninterp spec fn char_is_alphabetic(c: char) -> bool;

/// Calls `char::is_alphabetic`. Its answer is named `char_is_alphabetic`; beyond the name
/// the contract claims only what the property gives on ASCII: the letters `a`..`z` and
/// `A`..`Z` are alphabetic, every other ASCII character is not.
#[verifier::external_body]
fn is_alphabetic(c: char) -> (r: bool)
    ensures
        r == char_is_alphabetic(c),
        ('a' <= c <= 'z' || 'A' <= c <= 'Z') ==> r,
        (c as u32) < 128 && !('a' <= c <= 'z' || 'A' <= c <= 'Z') ==> !r,
{
    c.is_alphabetic()
}

/// The low byte of a character's code point, what `c as u8` keeps.
pub open spec fn low_byte(c: char) -> int {
    (c as u32 as int) % 256
}

/// What `char::is_alphabetic` answers, written out where it is short: on ASCII the
/// letters `a` to `z` and `A` to `Z`, beyond ASCII the Unicode property.
pub open spec fn alphabetic(c: char) -> bool {
    if (c as u32) < 128 {
        ('a' <= c <= 'z') || ('A' <= c <= 'Z')
    } else {
        char_is_alphabetic(c)
    }
}

/// `vocabulary` works on `token` without an arithmetic overflow: an alphabetic
/// character whose low byte lies below `a` cannot be shifted down to an id. On ASCII
/// these are the capitals `A` to `Z`.
pub open spec fn encodable(token: Token) -> bool {
    match token {
        Token::C(c) => alphabetic(c) ==> low_byte(c) >= LOWER_A_ASCII_VALUE,
        Token::Bos => true,
    }
}

/// The id of a token: an alphabetic character counts from `a` by its low byte (so
/// `a` to `z` are 0 to 25), any other character has none, BOS is 26.
pub open spec fn spec_vocabulary(token: Token) -> Option<TokenId> {
    match token {
        Token::C(c) => if alphabetic(c) {
            Some((low_byte(c) - LOWER_A_ASCII_VALUE) as usize)
        } else {
            None
        },
        Token::Bos => Some(BOS_ID),
    }
}

/// The character that `to_char` gives an id: its low byte shifted up from `a`.
pub open spec fn spec_to_char(token_id: TokenId) -> int {
    (token_id as int) % 256 + LOWER_A_ASCII_VALUE
}

/// `to_char` gives back the letter that `vocabulary` took: the letters `a` to `z`
/// have the ids 0 to 25, and those ids map back to them.
pub proof fn lemma_to_char_inverts_vocabulary(c: char)
    requires
        'a' <= c <= 'z',
    ensures
        encodable(Token::C(c)),
        spec_vocabulary(Token::C(c)) == Some((c as u32 - 97) as usize),
        (c as u32 - 97) < 26,
        spec_to_char((c as u32 - 97) as usize) == c as u32,
{
}

/// `vocabulary` gives back the id that `to_char` took: the ids 0 to 25 map to the
/// letters `a` to `z`, and those letters map back to them.
pub proof fn lemma_vocabulary_inverts_to_char(token_id: TokenId, c: char)
    requires
        token_id < 26,
        c as u32 == spec_to_char(token_id),
    ensures
        'a' <= c <= 'z',
        encodable(Token::C(c)),
        spec_vocabulary(Token::C(c)) == Some(token_id),
{
}

/// The BOS token has the id right after the letters, and every letter's id lies below it.
pub proof fn lemma_vocabulary_layout(c: char)
    requires
        'a' <= c <= 'z',
    ensures
        spec_vocabulary(Token::Bos) == Some(BOS_ID),
        BOS_ID == 26,
        spec_vocabulary(Token::C(c)).unwrap() < BOS_ID,
{
}

/// Maps tokens to ids and ids back to characters.
pub struct Tokenizer {}

impl Tokenizer {
    /// The id of `token` in the vocabulary; `None` for a character that is not alphabetic.
    pub fn vocabulary(token: Token) -> (r: Option<TokenId>)
        requires
            encodable(token),
        ensures
            r == spec_vocabulary(token),
            token matches Token::C(c) ==> ('a' <= c <= 'z' ==> r == Some((c as u32 - 97) as usize)),
            token matches Token::C(c) && (c as u32) < 128 && !('a' <= c <= 'z') ==> r is None,
    {
        match token {
            Token::C(ch) => {
                if !is_alphabetic(ch) {
                    return None;
                }
                let byte: u8 = ((ch as u32) % 256) as u8;
                Some((byte - LOWER_A_ASCII_VALUE) as usize)
            },
            Token::Bos => { Some(BOS_ID) },
        }
    }

    /// `vocabulary` on any token: `None` where `vocabulary` cannot shift the
    /// character down to an id, else `Some` of what `vocabulary` gives.
    pub fn checked_vocabulary(token: Token) -> (r: Option<Option<TokenId>>)
        ensures
            r == (if encodable(token) {
                Some(spec_vocabulary(token))
            } else {
                None::<Option<TokenId>>
            }),
            token matches Token::C(c) ==> ('a' <= c <= 'z' ==> r == Some(Some((c as u32 - 97) as usize))),
            token matches Token::C(c) && 'A' <= c <= 'Z' ==> r is None,
            token matches Token::C(c) && (c as u32) < 128 && !('a' <= c <= 'z') && !('A' <= c <= 'Z') ==> r
                == Some(None::<TokenId>),
    {
        if let Token::C(ch) = token {
            if is_alphabetic(ch) && ((ch as u32) % 256) < LOWER_A_ASCII_VALUE as u32 {
                return None;
            }
        }
        Some(Self::vocabulary(token))
    }

    /// The character of a letter id: the id's low byte counted up from `a`.
    pub fn to_char(token_id: TokenId) -> (r: char)
        requires
            spec_to_char(token_id) < 256,
        ensures
            r as u32 == spec_to_char(token_id),
    {
        let byte: u8 = (token_id % 256) as u8 + LOWER_A_ASCII_VALUE;
        byte as char
    }
}

} // verus!
