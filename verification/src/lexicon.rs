//! Membership queries on a word graph of packed 32-bit nodes.
//!
//! Bits 0-21 of a node hold the index of its first child, bit 22 marks the last
//! sibling of a list, bit 23 a word end, and bits 24-31 the tile.

use vstd::prelude::*;

verus! {

pub const ARC_MASK: u32 = 0x3fffff;

pub const IS_END: u32 = 0x400000;

pub const ACCEPTS: u32 = 0x800000;

pub open spec fn node_child(node: u32) -> int {
    (node & ARC_MASK) as int
}

pub open spec fn node_ends_list(node: u32) -> bool {
    node & IS_END != 0
}

pub open spec fn node_accepts(node: u32) -> bool {
    node & ACCEPTS != 0
}

pub open spec fn node_tile(node: u32) -> int {
    (node >> 24) as int
}

/// The node for `tile` in the sibling list that begins at `index`, if the list
/// has one. A list ends at its marked last sibling, or with the graph.
pub open spec fn find_sibling(nodes: Seq<u32>, index: int, tile: u8) -> Option<int>
    decreases nodes.len() - index,
{
    if index < 0 || index >= nodes.len() {
        None
    } else if node_tile(nodes[index]) == tile {
        Some(index)
    } else if node_ends_list(nodes[index]) {
        None
    } else {
        find_sibling(nodes, index + 1, tile)
    }
}

/// Whether spelling `text` from the sibling list at `index` ends on an accepting node.
pub open spec fn spells(nodes: Seq<u32>, index: int, text: Seq<u8>) -> bool
    decreases text.len(),
{
    if text.len() == 0 {
        false
    } else {
        match find_sibling(nodes, index, text[0]) {
            None => false,
            Some(found) => if text.len() == 1 {
                node_accepts(nodes[found])
            } else {
                node_child(nodes[found]) != 0 && spells(
                    nodes,
                    node_child(nodes[found]),
                    text.drop_first(),
                )
            },
        }
    }
}

/// A word has at least two tiles and is spelled from the graph's first list.
pub open spec fn in_lexicon(nodes: Seq<u32>, text: Seq<u8>) -> bool {
    text.len() >= 2 && nodes.len() > 0 && spells(nodes, node_child(nodes[0]), text)
}

proof fn lemma_node_fields(node: u32)
    ensures
        (node >> 24) <= 255,
        node & ARC_MASK <= 0x3fffff,
{
    assert((node >> 24) <= 255) by (bit_vector);
    assert(node & 0x3fffff <= 0x3fffff) by (bit_vector);
}

/// Walks one sibling list.
fn sibling(lexicon: &[u32], start: usize, tile: u8) -> (found: Option<usize>)
    ensures
        match found {
            Some(index) => find_sibling(lexicon@, start as int, tile) == Some(index as int)
                && index < lexicon.len(),
            None => find_sibling(lexicon@, start as int, tile) is None,
        },
{
    let mut index: usize = start;
    while index < lexicon.len()
        invariant
            find_sibling(lexicon@, start as int, tile) == find_sibling(
                lexicon@,
                index as int,
                tile,
            ),
        decreases lexicon.len() - index,
    {
        let node: u32 = lexicon[index];
        proof {
            lemma_node_fields(node);
        }
        if (node >> 24) as u8 == tile {
            return Some(index);
        }
        if node & IS_END != 0 {
            return None;
        }
        index += 1;
    }
    None
}

/// Whether `text` (tiles A-Z as 1-26) is a word of the lexicon.
pub fn is_word(lexicon: &[u32], text: &[u8]) -> (word: bool)
    ensures
        word == in_lexicon(lexicon@, text@),
{
    if text.len() < 2 || lexicon.len() == 0 {
        return false;
    }
    proof {
        lemma_node_fields(lexicon@[0]);
    }
    let mut node_index: usize = (lexicon[0] & ARC_MASK) as usize;
    let mut letter_index: usize = 0;
    assert(text@.skip(0) =~= text@);
    while letter_index < text.len()
        invariant
            letter_index < text.len(),
            spells(lexicon@, node_child(lexicon@[0]), text@) == spells(
                lexicon@,
                node_index as int,
                text@.skip(letter_index as int),
            ),
            text.len() >= 2,
            lexicon.len() > 0,
        decreases text.len() - letter_index,
    {
        let ghost rest = text@.skip(letter_index as int);
        assert(rest[0] == text@[letter_index as int]);
        assert(rest.drop_first() =~= text@.skip(letter_index + 1));
        match sibling(lexicon, node_index, text[letter_index]) {
            None => {
                return false;
            },
            Some(found) => {
                let node: u32 = lexicon[found];
                proof {
                    lemma_node_fields(node);
                }
                if letter_index + 1 == text.len() {
                    return node & ACCEPTS != 0;
                }
                node_index = (node & ARC_MASK) as usize;
                if node_index == 0 {
                    return false;
                }
                letter_index += 1;
            },
        }
    }
    false
}

} // verus!
