//! Letters, pieces and numbers as text.

use vstd::prelude::*;

use crate::pieces::letters_valid;

verus! {

/// `String::push` appends one character.
pub assume_specification[ String::push ](string: &mut String, letter: char)
    ensures
        final(string)@ == old(string)@.push(letter),
;

// ---------------------------------------------------------------------------
// Letters
// ---------------------------------------------------------------------------

/// The capital letter that a tile number stands for, 1 for A.
pub open spec fn letter_char(letter: u8) -> char {
    ((0x40 + letter) % 0x100) as u8 as char
}

pub open spec fn spelled(letters: Seq<u8>) -> Seq<char> {
    Seq::new(letters.len(), |i: int| letter_char(letters[i]))
}

pub fn letter_to_char(letter: u8) -> (text: char)
    ensures
        text == letter_char(letter),
{
    0x40u8.wrapping_add(letter) as char
}

/// The letters as one string.
pub fn spell(letters: &[u8]) -> (string: String)
    ensures
        string@ == spelled(letters@),
{
    let mut string: String = String::new();
    let mut index: usize = 0;
    while index < letters.len()
        invariant
            index <= letters.len(),
            string@ == spelled(letters@.take(index as int)),
        decreases letters.len() - index,
    {
        string.push(letter_to_char(letters[index]));
        assert(string@ =~= spelled(letters@.take(index + 1)));
        index += 1;
    }
    assert(letters@.take(letters.len() as int) =~= letters@);
    string
}

/// The letters, each as a string of its own.
pub fn letters_vec(letters: &[u8; 4]) -> (strings: Vec<String>)
    ensures
        strings.len() == 4,
        forall|i: int| 0 <= i < 4 ==> (#[trigger] strings@[i])@ == seq![letter_char(letters@[i])],
{
    let mut strings: Vec<String> = Vec::new();
    let mut index: usize = 0;
    while index < 4
        invariant
            index <= 4,
            strings.len() == index,
            forall|i: int|
                0 <= i < index ==> (#[trigger] strings@[i])@ == seq![letter_char(letters@[i])],
        decreases 4 - index,
    {
        let mut string: String = String::new();
        string.push(letter_to_char(letters[index]));
        assert(string@ =~= seq![letter_char(letters@[index as int])]);
        strings.push(string);
        index += 1;
    }
    strings
}

/// Whether a byte is a capital letter of ASCII.
pub open spec fn is_capital(byte: u8) -> bool {
    0x41 <= byte <= 0x5a
}

/// The tile number of a capital letter; nothing for another byte.
pub fn letter_id(byte: u8) -> (letter: Option<u8>)
    ensures
        letter == (if is_capital(byte) {
            Some((byte - 0x40) as u8)
        } else {
            None
        }),
{
    if byte >= 0x41 && byte <= 0x5a {
        Some(byte - 0x40)
    } else {
        None
    }
}

/// Whether bytes are four capital letters.
pub open spec fn is_four_letters(text: Seq<u8>) -> bool {
    text.len() == 4 && forall|i: int| 0 <= i < 4 ==> is_capital(#[trigger] text[i])
}

/// Four capital letters as tile numbers; nothing for other text.
pub fn parse_letters(text: &[u8]) -> (letters: Option<[u8; 4]>)
    ensures
        letters.is_some() == is_four_letters(text@),
        letters matches Some(found) ==> {
            &&& letters_valid(found@)
            &&& forall|i: int| 0 <= i < 4 ==> #[trigger] found@[i] == text@[i] - 0x40
        },
{
    if text.len() != 4 {
        return None;
    }
    let mut letters: [u8; 4] = [0u8; 4];
    let mut index: usize = 0;
    while index < 4
        invariant
            index <= 4,
            text.len() == 4,
            forall|i: int| 0 <= i < index ==> is_capital(#[trigger] text@[i]),
            forall|i: int| 0 <= i < index ==> #[trigger] letters@[i] == text@[i] - 0x40,
        decreases 4 - index,
    {
        match letter_id(text[index]) {
            Some(letter) => {
                letters[index] = letter;
            },
            None => {
                assert(!is_capital(text@[index as int]));
                return None;
            },
        }
        index += 1;
    }
    assert forall|i: int| 0 <= i < 4 implies 1 <= #[trigger] letters@[i] <= 26 by {
        assert(is_capital(text@[i]));
    }
    Some(letters)
}

/// Spelling a parsed piece gives its text back.
pub proof fn parsed_letters_spell_their_text(text: Seq<u8>, letters: Seq<u8>)
    requires
        is_four_letters(text),
        letters.len() == 4,
        forall|i: int| 0 <= i < 4 ==> #[trigger] letters[i] == text[i] - 0x40,
    ensures
        spelled(letters) == Seq::new(4, |i: int| text[i] as char),
{
    assert forall|i: int| 0 <= i < 4 implies #[trigger] letter_char(letters[i]) == text[i]
        as char by {
        assert(is_capital(text[i]));
        assert(letters[i] == text[i] - 0x40);
    }
    assert(spelled(letters) =~= Seq::new(4, |i: int| text[i] as char));
}

// ---------------------------------------------------------------------------
// Pieces
// ---------------------------------------------------------------------------

/// The names of the tetrominos as bytes: I, J, L, O, S, T, Z.
pub const PIECE_NAMES: [u8; 7] = [0x49, 0x4a, 0x4c, 0x4f, 0x53, 0x54, 0x5a];

pub open spec fn piece_char(kind: int) -> char {
    PIECE_NAMES@[kind] as char
}

pub fn piece_name(kind: u8) -> (name: char)
    requires
        kind < 7,
    ensures
        name == piece_char(kind as int),
{
    PIECE_NAMES[kind as usize] as char
}

/// Whether a byte names tetromino `kind`.
pub open spec fn names_piece(byte: u8, kind: int) -> bool {
    0 <= kind < 7 && PIECE_NAMES@[kind] == byte
}

/// The tetromino that a byte names; nothing for another byte.
pub fn piece_id(byte: u8) -> (kind: Option<u8>)
    ensures
        kind.is_some() == (exists|k: int| names_piece(byte, k)),
        kind matches Some(found) ==> found < 7 && names_piece(byte, found as int),
{
    let mut kind: u8 = 0;
    while kind < 7
        invariant
            kind <= 7,
            forall|k: int| 0 <= k < kind ==> !names_piece(byte, k),
        decreases 7 - kind,
    {
        if PIECE_NAMES[kind as usize] == byte {
            assert(names_piece(byte, kind as int));
            return Some(kind);
        }
        kind += 1;
    }
    None
}

/// No byte names two tetrominos.
pub proof fn piece_names_differ(byte: u8, left: int, right: int)
    requires
        names_piece(byte, left),
        names_piece(byte, right),
    ensures
        left == right,
{
}

// ---------------------------------------------------------------------------
// Numbers
// ---------------------------------------------------------------------------

pub open spec fn digit_char(digit: int) -> char {
    ((0x30 + digit) as u8) as char
}

/// A number in decimal.
pub open spec fn decimal(number: nat) -> Seq<char>
    decreases number,
{
    if number < 10 {
        seq![digit_char(number as int)]
    } else {
        decimal(number / 10).push(digit_char((number % 10) as int))
    }
}

/// A number in decimal, with a sign where it is negative.
pub open spec fn signed_decimal(number: int) -> Seq<char> {
    if number < 0 {
        seq!['-'] + decimal((-number) as nat)
    } else {
        decimal(number as nat)
    }
}

/// Appends a number in decimal.
pub fn push_decimal(string: &mut String, number: u64)
    ensures
        final(string)@ == old(string)@ + decimal(number as nat),
    decreases number,
{
    if number >= 10 {
        push_decimal(string, number / 10);
    }
    string.push((0x30 + (number % 10) as u8) as char);
    assert(string@ =~= old(string)@ + decimal(number as nat));
}

/// Appends a number in decimal, with a sign where it is negative.
pub fn push_signed(string: &mut String, number: i64)
    requires
        number > i64::MIN,
    ensures
        final(string)@ == old(string)@ + signed_decimal(number as int),
{
    if number < 0 {
        string.push('-');
        push_decimal(string, (-number) as u64);
        assert(string@ =~= old(string)@ + signed_decimal(number as int));
    } else {
        push_decimal(string, number as u64);
    }
}

/// Whether a character is an ASCII digit.
pub open spec fn is_digit(text: char) -> bool {
    '0' <= text <= '9'
}

/// The number that digits stand for.
pub open spec fn digits_value(text: Seq<char>) -> nat
    decreases text.len(),
{
    if text.len() == 0 {
        0
    } else {
        10 * digits_value(text.drop_last()) + (text.last() as nat - '0' as nat) as nat
    }
}

pub open spec fn all_digits(text: Seq<char>) -> bool {
    forall|i: int| 0 <= i < text.len() ==> is_digit(#[trigger] text[i])
}

proof fn lemma_decimal_value(number: nat)
    ensures
        decimal(number).len() >= 1,
        all_digits(decimal(number)),
        digits_value(decimal(number)) == number,
    decreases number,
{
    if number < 10 {
        reveal_with_fuel(digits_value, 2);
        assert(decimal(number).drop_last() =~= Seq::<char>::empty());
    } else {
        lemma_decimal_value(number / 10);
        let text = decimal(number);
        assert(text.drop_last() =~= decimal(number / 10));
        assert forall|i: int| 0 <= i < text.len() implies is_digit(#[trigger] text[i]) by {
            if i < text.len() - 1 {
                assert(text[i] == decimal(number / 10)[i]);
            }
        }
    }
}

/// A number written in decimal reads back.
pub proof fn decimal_reads_back(number: nat)
    ensures
        all_digits(decimal(number)),
        digits_value(decimal(number)) == number,
{
    lemma_decimal_value(number);
}

} // verus!
