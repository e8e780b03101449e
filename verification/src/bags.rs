//! Letter bags: lines of text, each with the letters of 28 pieces.

use vstd::prelude::*;

use crate::pieces::letters_valid;
use crate::ranking::first_items;

verus! {

/// How many pieces a bag holds.
pub const BAG_PIECES: usize = 28;

/// The parts of a text between the characters that separate them.
pub open spec fn split_at(text: Seq<char>, separates: spec_fn(char) -> bool) -> Seq<Seq<char>>
    decreases text.len(),
{
    if text.len() == 0 {
        seq![Seq::empty()]
    } else {
        let parts = split_at(text.drop_last(), separates);
        if separates(text.last()) {
            parts.push(Seq::empty())
        } else {
            parts.update(parts.len() - 1, parts.last().push(text.last()))
        }
    }
}

pub open spec fn ends_line() -> spec_fn(char) -> bool {
    |c: char| c == '\n'
}

/// The characters that count as white space.
pub open spec fn is_space(c: char) -> bool {
    let code = c as int;
    ||| 0x9 <= code <= 0xd
    ||| code == 0x20
    ||| code == 0x85
    ||| code == 0xa0
    ||| code == 0x1680
    ||| 0x2000 <= code <= 0x200a
    ||| code == 0x2028
    ||| code == 0x2029
    ||| code == 0x202f
    ||| code == 0x205f
    ||| code == 0x3000
}

pub open spec fn ends_token() -> spec_fn(char) -> bool {
    |c: char| is_space(c)
}

pub open spec fn is_capital_char(c: char) -> bool {
    0x41 <= c as int <= 0x5a
}

/// Whether a token names the letters of a piece.
pub open spec fn is_piece_token(token: Seq<char>) -> bool {
    token.len() == 4 && forall|i: int| 0 <= i < 4 ==> is_capital_char(#[trigger] token[i])
}

/// The letters that a token names.
pub open spec fn token_letters(token: Seq<char>) -> Seq<u8> {
    Seq::new(4, |i: int| (token[i] as int - 0x40) as u8)
}

/// The letters of those tokens that name any, in order.
pub open spec fn tokens_letters(tokens: Seq<Seq<char>>) -> Seq<Seq<u8>>
    decreases tokens.len(),
{
    if tokens.len() == 0 {
        Seq::empty()
    } else if is_piece_token(tokens.last()) {
        tokens_letters(tokens.drop_last()).push(token_letters(tokens.last()))
    } else {
        tokens_letters(tokens.drop_last())
    }
}

/// The first 28 pieces of a line.
pub open spec fn line_bag(line: Seq<char>) -> Seq<Seq<u8>> {
    first_items(tokens_letters(split_at(line, ends_token())), 28)
}

/// The bags of those lines that have enough pieces.
pub open spec fn lines_bags(lines: Seq<Seq<char>>) -> Seq<Seq<Seq<u8>>>
    decreases lines.len(),
{
    if lines.len() == 0 {
        Seq::empty()
    } else if line_bag(lines.last()).len() >= 28 {
        lines_bags(lines.drop_last()).push(line_bag(lines.last()))
    } else {
        lines_bags(lines.drop_last())
    }
}

/// The bags of a text.
pub open spec fn text_bags(text: Seq<char>) -> Seq<Seq<Seq<u8>>> {
    lines_bags(split_at(text, ends_line()))
}

pub open spec fn bag_view(bag: Seq<[u8; 4]>) -> Seq<Seq<u8>> {
    Seq::new(bag.len(), |i: int| bag[i]@)
}

pub open spec fn bag_views(bags: Seq<Vec<[u8; 4]>>) -> Seq<Seq<Seq<u8>>> {
    Seq::new(bags.len(), |i: int| bag_view(bags[i]@))
}

/// Bags that a game can be played with.
pub open spec fn bags_wf(bags: Seq<Vec<[u8; 4]>>) -> bool {
    forall|i: int|
        0 <= i < bags.len() ==> (#[trigger] bags[i]).len() == 28 && bag_valid(bags[i]@)
}

pub open spec fn bag_valid(bag: Seq<[u8; 4]>) -> bool {
    forall|i: int| 0 <= i < bag.len() ==> letters_valid((#[trigger] bag[i])@)
}

fn code_of(c: char) -> (code: u32)
    ensures
        code == c as int,
{
    c as u32
}

fn is_white(c: char) -> (white: bool)
    ensures
        white == is_space(c),
{
    let code: u32 = code_of(c);
    (code >= 0x9 && code <= 0xd) || code == 0x20 || code == 0x85 || code == 0xa0 || code == 0x1680
        || (code >= 0x2000 && code <= 0x200a) || code == 0x2028 || code == 0x2029 || code == 0x202f
        || code == 0x205f || code == 0x3000
}

/// Ends a token: adds its letters to the line's bag where it names any and the
/// bag has room.
fn close_token(bag: &mut Vec<[u8; 4]>, token: &Vec<char>, Ghost(tokens): Ghost<Seq<Seq<char>>>)
    requires
        bag_view(old(bag)@) == first_items(tokens_letters(tokens), 28),
        bag_valid(old(bag)@),
    ensures
        bag_view(final(bag)@) == first_items(tokens_letters(tokens.push(token@)), 28),
        bag_valid(final(bag)@),
{
    assert(tokens.push(token@).drop_last() =~= tokens);
    assert(bag_view(bag@).len() == bag.len());
    if token.len() != 4 {
        return ;
    }
    let mut letters: [u8; 4] = [0u8; 4];
    let mut index: usize = 0;
    while index < 4
        invariant
            index <= 4,
            token.len() == 4,
            tokens.push(token@).drop_last() == tokens,
            bag_view(bag@) == first_items(tokens_letters(tokens), 28),
            bag_valid(bag@),
            forall|i: int| 0 <= i < index ==> is_capital_char(#[trigger] token@[i]),
            forall|i: int|
                0 <= i < index ==> #[trigger] letters@[i] == (token@[i] as int - 0x40) as u8,
        decreases 4 - index,
    {
        let code: u32 = code_of(token[index]);
        if code < 0x41 || code > 0x5a {
            assert(!is_capital_char(token@[index as int]));
            return ;
        }
        letters[index] = (code - 0x40) as u8;
        index += 1;
    }
    assert(letters@ =~= token_letters(token@));
    assert(is_piece_token(token@));
    assert forall|i: int| 0 <= i < 4 implies 1 <= #[trigger] letters@[i] <= 26 by {
        assert(is_capital_char(token@[i]));
    }
    let ghost before = bag@;
    if bag.len() < BAG_PIECES {
        bag.push(letters);
        assert(bag_view(bag@) =~= bag_view(before).push(letters@));
    } else {
        assert(tokens_letters(tokens).push(token_letters(token@)).take(28) =~= tokens_letters(
            tokens,
        ).take(28));
        assert(tokens_letters(tokens).take(28) =~= first_items(tokens_letters(tokens), 28));
    }
}

/// Ends a line: keeps its bag where it has enough pieces.
fn close_line(
    bags: &mut Vec<Vec<[u8; 4]>>,
    bag: Vec<[u8; 4]>,
    Ghost(lines): Ghost<Seq<Seq<char>>>,
    Ghost(line): Ghost<Seq<char>>,
)
    requires
        bag_views(old(bags)@) == lines_bags(lines),
        bags_wf(old(bags)@),
        bag_view(bag@) == line_bag(line),
        bag_valid(bag@),
    ensures
        bag_views(final(bags)@) == lines_bags(lines.push(line)),
        bags_wf(final(bags)@),
{
    assert(lines.push(line).drop_last() =~= lines);
    assert(bag_view(bag@).len() == bag.len());
    let ghost before = bags@;
    if bag.len() >= BAG_PIECES {
        let ghost kept = bag@;
        bags.push(bag);
        assert(bag_views(bags@) =~= bag_views(before).push(bag_view(kept)));
    }
}

/// Reads the bags of a text.
pub fn parse_bags(text: &str) -> (bags: Vec<Vec<[u8; 4]>>)
    ensures
        bag_views(bags@) == text_bags(text@),
        bags_wf(bags@),
{
    let mut bags: Vec<Vec<[u8; 4]>> = Vec::new();
    let mut bag: Vec<[u8; 4]> = Vec::new();
    let mut token: Vec<char> = Vec::new();
    let ghost mut lines: Seq<Seq<char>> = Seq::empty();
    let ghost mut line: Seq<char> = Seq::empty();
    let ghost mut tokens: Seq<Seq<char>> = Seq::empty();
    let ghost mut seen: Seq<char> = Seq::empty();
    proof {
        assert(bag_views(bags@) =~= lines_bags(lines));
        assert(bag_view(bag@) =~= first_items(tokens_letters(tokens), 28));
        assert(split_at(seen, ends_line()) =~= lines.push(line));
        assert(split_at(line, ends_token()) =~= tokens.push(token@));
    }
    for c in characters: text.chars()
        invariant
            characters.seq() == text@,
            seen == text@.take(characters.index() as int),
            split_at(seen, ends_line()) == lines.push(line),
            split_at(line, ends_token()) == tokens.push(token@),
            bag_views(bags@) == lines_bags(lines),
            bags_wf(bags@),
            bag_view(bag@) == first_items(tokens_letters(tokens), 28),
            bag_valid(bag@),
    {
        let ghost longer = seen.push(c);
        assert(longer.drop_last() =~= seen);
        assert(longer =~= text@.take(characters.index() + 1));
        if c == '\n' {
            close_token(&mut bag, &token, Ghost(tokens));
            close_line(&mut bags, bag, Ghost(lines), Ghost(line));
            bag = Vec::new();
            token = Vec::new();
            proof {
                lines = lines.push(line);
                line = Seq::empty();
                tokens = Seq::empty();
                assert(bag_view(bag@) =~= first_items(tokens_letters(tokens), 28));
                assert(split_at(longer, ends_line()) =~= lines.push(line));
                assert(split_at(line, ends_token()) =~= tokens.push(token@));
            }
        } else {
            proof {
                let parts = lines.push(line);
                assert(parts.update(parts.len() - 1, parts.last().push(c)) =~= lines.push(
                    line.push(c),
                ));
                assert(line.push(c).drop_last() =~= line);
            }
            if is_white(c) {
                close_token(&mut bag, &token, Ghost(tokens));
                proof {
                    tokens = tokens.push(token@);
                    line = line.push(c);
                }
                token = Vec::new();
                assert(split_at(line, ends_token()) =~= tokens.push(token@));
            } else {
                proof {
                    let parts = tokens.push(token@);
                    assert(parts.update(parts.len() - 1, parts.last().push(c)) =~= tokens.push(
                        token@.push(c),
                    ));
                    line = line.push(c);
                }
                token.push(c);
            }
        }
        proof {
            seen = longer;
        }
    }
    assert(seen =~= text@);
    close_token(&mut bag, &token, Ghost(tokens));
    close_line(&mut bags, bag, Ghost(lines), Ghost(line));
    bags
}

} // verus!
