//! The byte protocol between the strategy and the page that embeds it.

use vstd::prelude::*;

use crate::board::{cells_valid, valid_cells, Board};
use crate::bytes::{bits32, bits_of, le16_bytes, le32_bytes};
use crate::lexicon::{in_lexicon, is_word};
use crate::pieces::{valid_letters, Piece};
use crate::rerank::{
    a_reranked_search_agrees_with_the_plain_one, adds_nothing, is_reranked, leaves_are_ranked,
    rerank_limit,
};
use crate::search::{
    clamp, has_move, leaves_of, pieces_valid, result_at, search, search_leaves, ResultModel,
    SearchResult,
};
use crate::words::{analyze_row, row_words, Text, Word, WordList, WordModel};

verus! {

// ---------------------------------------------------------------------------
// Writing into a fixed buffer
// ---------------------------------------------------------------------------

/// A buffer that is being filled: what it holds, how far it is filled, and
/// whether something did not fit.
pub ghost struct WriterModel {
    pub output: Seq<u8>,
    pub position: int,
    pub failed: bool,
}

/// Writes a chunk, or marks the failure where it does not fit.
pub open spec fn put(writer: WriterModel, chunk: Seq<u8>) -> WriterModel {
    if writer.position + chunk.len() > writer.output.len() {
        WriterModel { failed: true, ..writer }
    } else {
        WriterModel {
            output: writer.output.take(writer.position) + chunk + writer.output.skip(
                writer.position + chunk.len(),
            ),
            position: writer.position + chunk.len(),
            failed: writer.failed,
        }
    }
}

/// Writes chunks one after the other.
pub open spec fn put_all(writer: WriterModel, chunks: Seq<Seq<u8>>) -> WriterModel
    decreases chunks.len(),
{
    if chunks.len() == 0 {
        writer
    } else {
        put(put_all(writer, chunks.drop_last()), chunks.last())
    }
}

pub open spec fn fresh(output: Seq<u8>) -> WriterModel {
    WriterModel { output, position: 0, failed: false }
}

/// What a caller is told: how many bytes were written, or zero.
pub open spec fn written(writer: WriterModel) -> int {
    if writer.failed {
        0
    } else {
        writer.position
    }
}

/// The chunks in a row.
pub open spec fn joined(chunks: Seq<Seq<u8>>) -> Seq<u8>
    decreases chunks.len(),
{
    if chunks.len() == 0 {
        Seq::empty()
    } else {
        joined(chunks.drop_last()) + chunks.last()
    }
}

proof fn lemma_put_all(output: Seq<u8>, chunks: Seq<Seq<u8>>)
    ensures
        ({
            let writer = put_all(fresh(output), chunks);
            &&& writer.output.len() == output.len()
            &&& 0 <= writer.position <= output.len()
            &&& writer.position <= joined(chunks).len()
            &&& writer.failed == (joined(chunks).len() > output.len())
            &&& !writer.failed ==> writer.position == joined(chunks).len() && writer.output
                == joined(chunks) + output.skip(joined(chunks).len() as int)
        }),
    decreases chunks.len(),
{
    if chunks.len() == 0 {
        assert(output =~= Seq::<u8>::empty() + output.skip(0));
    } else {
        lemma_put_all(output, chunks.drop_last());
        let before = put_all(fresh(output), chunks.drop_last());
        let after = put_all(fresh(output), chunks);
        if !after.failed {
            assert(after.output =~= joined(chunks) + output.skip(joined(chunks).len() as int));
        }
    }
}

/// A message is written whole exactly where the buffer has room for it; the rest
/// of the buffer stays as it was.
pub proof fn a_message_is_written_whole_or_refused(output: Seq<u8>, chunks: Seq<Seq<u8>>)
    ensures
        put_all(fresh(output), chunks).failed == (joined(chunks).len() > output.len()),
        joined(chunks).len() <= output.len() ==> put_all(fresh(output), chunks).output == joined(
            chunks,
        ) + output.skip(joined(chunks).len() as int) && written(put_all(fresh(output), chunks))
            == joined(chunks).len(),
        joined(chunks).len() > output.len() ==> written(put_all(fresh(output), chunks)) == 0,
{
    lemma_put_all(output, chunks);
}

/// How far a buffer is filled, and whether something did not fit.
pub struct Writer {
    pub position: usize,
    pub failed: bool,
}

impl Writer {
    /// The writer together with its buffer.
    pub open spec fn on(&self, output: Seq<u8>) -> WriterModel {
        WriterModel { output, position: self.position as int, failed: self.failed }
    }

    pub fn new() -> (writer: Self)
        ensures
            writer.position == 0,
            !writer.failed,
    {
        Writer { position: 0, failed: false }
    }

    pub fn bytes(&mut self, output: &mut [u8], bytes: &[u8])
        requires
            old(self).position <= old(output).len(),
        ensures
            final(self).on(final(output)@) == put(old(self).on(old(output)@), bytes@),
            final(self).position <= final(output).len(),
            final(output).len() == old(output).len(),
    {
        if bytes.len() > output.len() - self.position {
            self.failed = true;
            return ;
        }
        let start: usize = self.position;
        let ghost before = output@;
        let mut index: usize = 0;
        while index < bytes.len()
            invariant
                index <= bytes.len(),
                output.len() == before.len(),
                start + bytes.len() <= before.len(),
                forall|i: int| 0 <= i < start ==> #[trigger] output@[i] == before[i],
                forall|i: int|
                    start <= i < start + index ==> #[trigger] output@[i] == bytes@[i - start],
                forall|i: int|
                    start + index <= i < before.len() ==> #[trigger] output@[i] == before[i],
            decreases bytes.len() - index,
        {
            output[start + index] = bytes[index];
            index += 1;
        }
        self.position = start + bytes.len();
        assert(output@ =~= before.take(start as int) + bytes@ + before.skip(start + bytes.len()));
    }
}

/// The byte of a small signed number.
pub open spec fn byte_of(value: int) -> u8 {
    if value < 0 {
        (value + 0x100) as u8
    } else {
        value as u8
    }
}

fn signed_byte(value: i8) -> (byte: u8)
    ensures
        byte == byte_of(value as int),
{
    if value < 0 {
        (value as i16 + 0x100) as u8
    } else {
        value as u8
    }
}

impl Writer {
    /// Whether the writer has written these chunks into the buffer.
    pub open spec fn has_put(
        &self,
        output: Seq<u8>,
        before: Seq<u8>,
        chunks: Seq<Seq<u8>>,
    ) -> bool {
        &&& self.on(output) == put_all(fresh(before), chunks)
        &&& self.position <= output.len()
        &&& output.len() == before.len()
    }

    fn chunk(
        &mut self,
        output: &mut [u8],
        bytes: &[u8],
        Ghost(before): Ghost<Seq<u8>>,
        Ghost(chunks): Ghost<Seq<Seq<u8>>>,
    )
        requires
            old(self).has_put(old(output)@, before, chunks),
        ensures
            final(self).has_put(final(output)@, before, chunks.push(bytes@)),
    {
        assert(chunks.push(bytes@).drop_last() =~= chunks);
        self.bytes(output, bytes);
    }

    fn u8(
        &mut self,
        output: &mut [u8],
        value: u8,
        Ghost(before): Ghost<Seq<u8>>,
        Ghost(chunks): Ghost<Seq<Seq<u8>>>,
    )
        requires
            old(self).has_put(old(output)@, before, chunks),
        ensures
            final(self).has_put(final(output)@, before, chunks.push(seq![value])),
    {
        let bytes: [u8; 1] = [value];
        assert(bytes@ =~= seq![value]);
        self.chunk(output, bytes.as_slice(), Ghost(before), Ghost(chunks));
    }

    fn u16(
        &mut self,
        output: &mut [u8],
        value: u16,
        Ghost(before): Ghost<Seq<u8>>,
        Ghost(chunks): Ghost<Seq<Seq<u8>>>,
    )
        requires
            old(self).has_put(old(output)@, before, chunks),
        ensures
            final(self).has_put(final(output)@, before, chunks.push(le16_bytes(value as int))),
    {
        let bytes: [u8; 2] = [(value % 0x100) as u8, (value / 0x100 % 0x100) as u8];
        assert(bytes@ =~= le16_bytes(value as int));
        self.chunk(output, bytes.as_slice(), Ghost(before), Ghost(chunks));
    }

    fn u32(
        &mut self,
        output: &mut [u8],
        value: u32,
        Ghost(before): Ghost<Seq<u8>>,
        Ghost(chunks): Ghost<Seq<Seq<u8>>>,
    )
        requires
            old(self).has_put(old(output)@, before, chunks),
        ensures
            final(self).has_put(final(output)@, before, chunks.push(le32_bytes(value as int))),
    {
        let bytes: [u8; 4] = [
            (value % 0x100) as u8,
            (value / 0x100 % 0x100) as u8,
            (value / 0x1_0000 % 0x100) as u8,
            (value / 0x100_0000 % 0x100) as u8,
        ];
        assert(bytes@ =~= le32_bytes(value as int));
        self.chunk(output, bytes.as_slice(), Ghost(before), Ghost(chunks));
    }

    fn i32(
        &mut self,
        output: &mut [u8],
        value: i32,
        Ghost(before): Ghost<Seq<u8>>,
        Ghost(chunks): Ghost<Seq<Seq<u8>>>,
    )
        requires
            old(self).has_put(old(output)@, before, chunks),
        ensures
            final(self).has_put(
                final(output)@,
                before,
                chunks.push(le32_bytes(bits32(value as int))),
            ),
    {
        self.u32(output, bits_of(value), Ghost(before), Ghost(chunks));
    }

    fn text(
        &mut self,
        output: &mut [u8],
        text: &Text,
        Ghost(before): Ghost<Seq<u8>>,
        Ghost(chunks): Ghost<Seq<Seq<u8>>>,
    )
        requires
            text.wf(),
            old(self).has_put(old(output)@, before, chunks),
        ensures
            final(self).has_put(final(output)@, before, chunks + text_chunks(text@)),
    {
        self.u8(output, text.len, Ghost(before), Ghost(chunks));
        let letters: &[u8] = vstd::slice::slice_subrange(
            text.letters.as_slice(),
            0,
            text.len as usize,
        );
        assert(letters@ =~= text@);
        self.chunk(
            output,
            letters,
            Ghost(before),
            Ghost(chunks.push(seq![text.len])),
        );
        assert(chunks.push(seq![text.len]).push(text@) =~= chunks + text_chunks(text@));
    }

    fn finish(&self, Ghost(output): Ghost<Seq<u8>>) -> (count: u32)
        requires
            self.position <= u32::MAX,
        ensures
            count == written(self.on(output)),
    {
        if self.failed {
            0
        } else {
            self.position as u32
        }
    }
}

// ---------------------------------------------------------------------------
// Messages
// ---------------------------------------------------------------------------

/// A text as the protocol sends it: its length, then its letters.
pub open spec fn text_chunks(text: Seq<u8>) -> Seq<Seq<u8>> {
    seq![seq![text.len() as u8], text]
}

pub open spec fn texts_chunks(texts: Seq<Seq<u8>>) -> Seq<Seq<u8>>
    decreases texts.len(),
{
    if texts.len() == 0 {
        Seq::empty()
    } else {
        texts_chunks(texts.drop_last()) + text_chunks(texts.last())
    }
}

pub open spec fn word_texts(words: Seq<WordModel>) -> Seq<Seq<u8>> {
    Seq::new(words.len(), |i: int| words[i].text)
}

/// A recommendation as the protocol sends it.
pub open spec fn result_chunks(result: ResultModel) -> Seq<Seq<u8>> {
    seq![
        seq![1u8],
        seq![result.root.letter_shift as u8],
        seq![result.root.rotation as u8],
        seq![byte_of(result.root.row)],
        seq![byte_of(result.root.col)],
        seq![result.root.lines as u8],
        seq![result.depth as u8],
        seq![result.root.words.len() as u8],
        seq![result.setup_words.len() as u8],
        seq![0u8],
        le32_bytes(bits32(result.root.score)),
        le32_bytes(bits32(result.projected_score)),
        le16_bytes(result.projected_lines),
        le32_bytes(result.nodes),
        le32_bytes(bits32(result.evaluation)),
    ] + texts_chunks(word_texts(result.root.words)) + texts_chunks(result.setup_words)
}

/// A row's word as the protocol sends it.
pub open spec fn word_chunks(word: WordModel) -> Seq<Seq<u8>> {
    seq![
        seq![word.start as u8],
        seq![word.end as u8],
        le32_bytes(bits32(word.score)),
    ] + text_chunks(word.text)
}

pub open spec fn words_chunks(words: Seq<WordModel>) -> Seq<Seq<u8>>
    decreases words.len(),
{
    if words.len() == 0 {
        Seq::empty()
    } else {
        words_chunks(words.drop_last()) + word_chunks(words.last())
    }
}

/// A row's words as the protocol sends them.
pub open spec fn row_chunks(words: Seq<WordModel>) -> Seq<Seq<u8>> {
    seq![seq![words.len() as u8]] + words_chunks(words)
}

/// Writes a recommendation; tells how many bytes it took, or zero where the
/// buffer is too small.
pub fn write_search_result(result: &SearchResult, output: &mut [u8]) -> (count: u32)
    requires
        result.wf(),
        old(output).len() <= u32::MAX,
    ensures
        ({
            let writer = put_all(fresh(old(output)@), result_chunks(result@));
            &&& final(output)@ == writer.output
            &&& count == written(writer)
        }),
{
    let ghost before = output@;
    let mut writer: Writer = Writer::new();
    let ghost mut chunks: Seq<Seq<u8>> = Seq::empty();
    let row: u8 = signed_byte(result.root.row);
    let col: u8 = signed_byte(result.root.col);
    let header: [u8; 10] = [
        1,
        result.root.letter_shift,
        result.root.rotation,
        row,
        col,
        result.root.lines,
        result.depth,
        result.root.words.len,
        result.setup_words.len,
        0,
    ];
    let ghost header_chunks = Seq::new(10, |i: int| seq![header@[i]]);
    let mut index: usize = 0;
    while index < 10
        invariant
            index <= 10,
            header_chunks == Seq::new(10, |i: int| seq![header@[i]]),
            chunks == header_chunks.take(index as int),
            writer.has_put(output@, before, chunks),
        decreases 10 - index,
    {
        writer.u8(output, header[index], Ghost(before), Ghost(chunks));
        proof {
            chunks = chunks.push(seq![header@[index as int]]);
            assert(chunks =~= header_chunks.take(index + 1));
        }
        index += 1;
    }
    writer.i32(output, result.root.score, Ghost(before), Ghost(chunks));
    proof {
        chunks = chunks.push(le32_bytes(bits32(result.root.score as int)));
    }
    writer.i32(output, result.projected_score, Ghost(before), Ghost(chunks));
    proof {
        chunks = chunks.push(le32_bytes(bits32(result.projected_score as int)));
    }
    writer.u16(output, result.projected_lines, Ghost(before), Ghost(chunks));
    proof {
        chunks = chunks.push(le16_bytes(result.projected_lines as int));
    }
    writer.u32(output, result.nodes, Ghost(before), Ghost(chunks));
    proof {
        chunks = chunks.push(le32_bytes(result.nodes as int));
    }
    writer.i32(output, result.evaluation, Ghost(before), Ghost(chunks));
    proof {
        chunks = chunks.push(le32_bytes(bits32(result.evaluation as int)));
    }
    let ghost head = chunks;
    let ghost words = word_texts(result.root.words@);
    let mut index: usize = 0;
    assert(words.take(0) =~= Seq::<Seq<u8>>::empty());
    assert(head + texts_chunks(words.take(0)) =~= head);
    while index < result.root.words.len as usize
        invariant
            result.wf(),
            index <= result.root.words.len,
            words == word_texts(result.root.words@),
            chunks == head + texts_chunks(words.take(index as int)),
            writer.has_put(output@, before, chunks),
        decreases result.root.words.len - index,
    {
        let text: Text = result.root.words.items[index].text;
        assert(result.root.words.items@[index as int].text.wf());
        assert(result.root.words@[index as int] == result.root.words.items@[index as int]@);
        assert(words[index as int] == text@);
        assert(words.take(index + 1).drop_last() =~= words.take(index as int));
        writer.text(output, &text, Ghost(before), Ghost(chunks));
        proof {
            chunks = chunks + text_chunks(text@);
            assert(chunks =~= head + texts_chunks(words.take(index + 1)));
        }
        index += 1;
    }
    assert(words.take(result.root.words.len as int) =~= words);
    let ghost middle = chunks;
    let ghost texts = result.setup_words@;
    let mut index: usize = 0;
    assert(texts.take(0) =~= Seq::<Seq<u8>>::empty());
    assert(middle + texts_chunks(texts.take(0)) =~= middle);
    while index < result.setup_words.len as usize
        invariant
            result.wf(),
            index <= result.setup_words.len,
            texts == result.setup_words@,
            chunks == middle + texts_chunks(texts.take(index as int)),
            writer.has_put(output@, before, chunks),
        decreases result.setup_words.len - index,
    {
        let text: Text = result.setup_words.items[index];
        assert(result.setup_words.items@[index as int].wf());
        assert(texts[index as int] == text@);
        assert(texts.take(index + 1).drop_last() =~= texts.take(index as int));
        writer.text(output, &text, Ghost(before), Ghost(chunks));
        proof {
            chunks = chunks + text_chunks(text@);
            assert(chunks =~= middle + texts_chunks(texts.take(index + 1)));
        }
        index += 1;
    }
    proof {
        assert(texts.take(result.setup_words.len as int) =~= texts);
        assert(result.root.words@.len() as u8 == result.root.words.len);
        assert(texts.len() as u8 == result.setup_words.len);
        assert(chunks =~= result_chunks(result@));
        assert(output@ == writer.on(output@).output);
    }
    writer.finish(Ghost(output@))
}

// ---------------------------------------------------------------------------
// Requests
// ---------------------------------------------------------------------------

/// The board in a request.
pub open spec fn request_board(input: Seq<u8>) -> Seq<u8> {
    input.subrange(6, 226)
}

/// Whether a piece is the one at place `index` of a request.
pub open spec fn is_requested_piece(input: Seq<u8>, index: int, piece: Piece) -> bool {
    &&& piece.kind == input[226 + 5 * index]
    &&& piece.letters@ == input.subrange(226 + 5 * index + 1, 226 + 5 * index + 5)
}

/// The piece at place `index` of a request.
pub open spec fn requested_piece(input: Seq<u8>, index: int) -> Piece {
    choose|piece: Piece| is_requested_piece(input, index, piece)
}

/// The pieces of a request, from place `from` on.
pub open spec fn requested_pieces(input: Seq<u8>, from: int, count: nat) -> Seq<Piece> {
    Seq::new(count, |i: int| requested_piece(input, from + i))
}

/// Whether place `index` of a request holds a valid piece.
pub open spec fn is_valid_place(input: Seq<u8>, index: int) -> bool {
    &&& input[226 + 5 * index] < 7
    &&& forall|k: int| 1 <= k < 5 ==> 1 <= #[trigger] input[226 + 5 * index + k] <= 26
}

/// A search request: version one, one to five pieces, all of it valid.
pub open spec fn is_search_request(input: Seq<u8>) -> bool {
    &&& input.len() >= 226
    &&& input[0] == 1
    &&& input[4] == clamp(input[1] as int, 1, 5)
    &&& input.len() >= 226 + 5 * input[4]
    &&& cells_valid(request_board(input))
    &&& forall|i: int| 0 <= i < input[4] ==> #[trigger] is_valid_place(input, i)
}

/// A search request with leaves to value anew: version two, three pieces to place,
/// then five that come after them.
pub open spec fn is_fragment_request(input: Seq<u8>) -> bool {
    &&& input.len() >= 266
    &&& input[0] == 2
    &&& input[1] == 3
    &&& input[4] == 3
    &&& input[5] <= 1
    &&& cells_valid(request_board(input))
    &&& forall|i: int| 0 <= i < 8 ==> #[trigger] is_valid_place(input, i)
}

pub struct SearchRequest {
    pub board: Board,
    pub current_lines: u8,
    pub width: usize,
    pub sequence: Vec<Piece>,
}

pub struct FragmentRequest {
    pub board: Board,
    pub current_lines: u8,
    pub width: usize,
    pub lexicon: u8,
    pub sequence: Vec<Piece>,
    pub leaf_visible: Vec<Piece>,
}

fn read_board(input: &[u8]) -> (board: Board)
    requires
        input.len() >= 226,
    ensures
        board@ == request_board(input@),
{
    let mut board: Board = [0u8; 220];
    let mut index: usize = 0;
    while index < 220
        invariant
            index <= 220,
            input.len() >= 226,
            forall|i: int| 0 <= i < index ==> #[trigger] board@[i] == input@[6 + i],
        decreases 220 - index,
    {
        board[index] = input[6 + index];
        index += 1;
    }
    assert(board@ =~= request_board(input@));
    board
}

fn read_piece(input: &[u8], index: usize) -> (piece: Option<Piece>)
    requires
        index <= 8,
        input.len() >= 231 + 5 * index,
    ensures
        piece.is_some() == is_valid_place(input@, index as int),
        piece matches Some(found) ==> {
            &&& found == requested_piece(input@, index as int)
            &&& found.valid()
        },
{
    let offset: usize = 226 + index * 5;
    let kind: u8 = input[offset];
    if kind >= 7 {
        return None;
    }
    let letters: [u8; 4] = [
        input[offset + 1],
        input[offset + 2],
        input[offset + 3],
        input[offset + 4],
    ];
    let ghost range = input@.subrange(226 + 5 * index + 1, 226 + 5 * index + 5);
    assert(letters@ =~= range);
    if !valid_letters(&letters) {
        proof {
            let k = choose|k: int|
                0 <= k < letters@.len() && !(1 <= #[trigger] letters@[k] <= 26);
            assert(input@[226 + 5 * index + (k + 1)] == letters@[k]);
        }
        return None;
    }
    let piece = Piece { kind, letters };
    proof {
        assert(is_requested_piece(input@, index as int, piece));
        let chosen = requested_piece(input@, index as int);
        assert(chosen.letters@ =~= piece.letters@);
        assert(chosen.letters =~= piece.letters);
        assert forall|k: int| 1 <= k < 5 implies 1 <= #[trigger] input@[226 + 5 * index + k]
            <= 26 by {
            assert(letters@[k - 1] == input@[226 + 5 * index + k]);
        }
    }
    Some(piece)
}

fn read_pieces(input: &[u8], from: usize, count: usize) -> (pieces: Option<Vec<Piece>>)
    requires
        from + count <= 8,
        input.len() >= 226 + 5 * (from + count),
    ensures
        pieces.is_some() == (forall|i: int|
            from <= i < from + count ==> #[trigger] is_valid_place(input@, i)),
        pieces matches Some(found) ==> {
            &&& found@ == requested_pieces(input@, from as int, count as nat)
            &&& pieces_valid(found@)
        },
{
    let mut pieces: Vec<Piece> = Vec::new();
    let mut index: usize = 0;
    while index < count
        invariant
            index <= count,
            from + count <= 8,
            input.len() >= 226 + 5 * (from + count),
            pieces.len() == index,
            forall|i: int| from <= i < from + index ==> #[trigger] is_valid_place(input@, i),
            forall|i: int|
                0 <= i < index ==> #[trigger] pieces@[i] == requested_piece(input@, from + i),
            pieces_valid(pieces@),
        decreases count - index,
    {
        match read_piece(input, from + index) {
            Some(piece) => {
                pieces.push(piece);
            },
            None => {
                assert(!is_valid_place(input@, from + index));
                return None;
            },
        }
        index += 1;
    }
    assert(pieces@ =~= requested_pieces(input@, from as int, count as nat));
    Some(pieces)
}

fn clamp_byte(value: u8, least: u8, most: u8) -> (clamped: u8)
    requires
        least <= most,
    ensures
        clamped == clamp(value as int, least as int, most as int),
{
    if value < least {
        least
    } else if value > most {
        most
    } else {
        value
    }
}

/// Reads a search request.
pub fn read_search_request(input: &[u8]) -> (request: Option<SearchRequest>)
    ensures
        request.is_some() == is_search_request(input@),
        request matches Some(found) ==> {
            &&& found.board@ == request_board(input@)
            &&& found.current_lines == input@[3]
            &&& found.width == clamp(input@[2] as int, 12, 160)
            &&& found.sequence@ == requested_pieces(input@, 0, input@[4] as nat)
            &&& pieces_valid(found.sequence@)
        },
{
    if input.len() < 226 || input[0] != 1 {
        return None;
    }
    let count: usize = input[4] as usize;
    if input[4] != clamp_byte(input[1], 1, 5) || input.len() < 226 + count * 5 {
        return None;
    }
    let board: Board = read_board(input);
    if !valid_cells(board.as_slice()) {
        return None;
    }
    match read_pieces(input, 0, count) {
        Some(sequence) => Some(
            SearchRequest {
                board,
                current_lines: input[3],
                width: clamp_byte(input[2], 12, 160) as usize,
                sequence,
            },
        ),
        None => None,
    }
}

/// Reads a search request with leaves to value anew.
pub fn read_fragment_request(input: &[u8]) -> (request: Option<FragmentRequest>)
    ensures
        request.is_some() == is_fragment_request(input@),
        request matches Some(found) ==> {
            &&& found.board@ == request_board(input@)
            &&& found.current_lines == input@[3]
            &&& found.width == clamp(input@[2] as int, 12, 160)
            &&& found.lexicon == input@[5]
            &&& found.sequence@ == requested_pieces(input@, 0, 3)
            &&& found.leaf_visible@ == requested_pieces(input@, 3, 5)
            &&& pieces_valid(found.sequence@)
            &&& pieces_valid(found.leaf_visible@)
        },
{
    if input.len() < 266 || input[0] != 2 || input[1] != 3 || input[4] != 3 || input[5] > 1 {
        return None;
    }
    let board: Board = read_board(input);
    if !valid_cells(board.as_slice()) {
        return None;
    }
    let sequence: Option<Vec<Piece>> = read_pieces(input, 0, 3);
    let leaf_visible: Option<Vec<Piece>> = read_pieces(input, 3, 5);
    match (sequence, leaf_visible) {
        (Some(sequence), Some(leaf_visible)) => Some(
            FragmentRequest {
                board,
                current_lines: input[3],
                width: clamp_byte(input[2], 12, 160) as usize,
                lexicon: input[5],
                sequence,
                leaf_visible,
            },
        ),
        _ => None,
    }
}

// ---------------------------------------------------------------------------
// Calls
// ---------------------------------------------------------------------------

/// Whether a word is in the lexicon, as one or zero.
pub fn kv_is_word(lexicon: &[u32], word: &[u8]) -> (answer: u32)
    ensures
        answer == (if lexicon.len() >= 2 && in_lexicon(lexicon@, word@) {
            1u32
        } else {
            0u32
        }),
{
    if lexicon.len() >= 2 && is_word(lexicon, word) {
        1
    } else {
        0
    }
}

/// Writes the words of a row; tells how many bytes that took, or zero where the
/// row, the lexicon or the buffer will not do.
pub fn kv_analyze_row(lexicon: &[u32], row: &[u8], output: &mut [u8]) -> (count: u32)
    requires
        old(output).len() <= u32::MAX,
    ensures
        ({
            let writer = put_all(fresh(old(output)@), row_chunks(row_words(lexicon@, row@)));
            if lexicon.len() >= 2 && row.len() == 10 && cells_valid(row@) && old(output).len()
                >= 1 {
                final(output)@ == writer.output && count == written(writer)
            } else {
                final(output)@ == old(output)@ && count == 0
            }
        }),
{
    if lexicon.len() < 2 || row.len() != 10 || !valid_cells(row) || output.len() == 0 {
        return 0;
    }
    let mut cells: [u8; 10] = [0u8; 10];
    let mut col: usize = 0;
    while col < 10
        invariant
            col <= 10,
            row.len() == 10,
            forall|i: int| 0 <= i < col ==> #[trigger] cells@[i] == row@[i],
        decreases 10 - col,
    {
        cells[col] = row[col];
        col += 1;
    }
    assert(cells@ =~= row@);
    let words: WordList = analyze_row(lexicon, &cells);
    let ghost before = output@;
    let ghost models = words@;
    let mut writer: Writer = Writer::new();
    let ghost mut chunks: Seq<Seq<u8>> = Seq::empty();
    writer.u8(output, words.len, Ghost(before), Ghost(chunks));
    proof {
        chunks = chunks.push(seq![words.len]);
        assert(models.take(0) =~= Seq::<WordModel>::empty());
        assert(chunks =~= seq![seq![words.len]] + words_chunks(models.take(0)));
    }
    let mut index: usize = 0;
    while index < words.len as usize
        invariant
            words.wf(),
            index <= words.len,
            models == words@,
            chunks == seq![seq![words.len]] + words_chunks(models.take(index as int)),
            writer.has_put(output@, before, chunks),
        decreases words.len - index,
    {
        let word: Word = words.items[index];
        assert(words.items@[index as int].text.wf());
        assert(models[index as int] == word@);
        assert(models.take(index + 1).drop_last() =~= models.take(index as int));
        let ghost done = chunks;
        writer.u8(output, word.start, Ghost(before), Ghost(chunks));
        proof {
            chunks = chunks.push(seq![word.start]);
        }
        writer.u8(output, word.end, Ghost(before), Ghost(chunks));
        proof {
            chunks = chunks.push(seq![word.end]);
        }
        writer.i32(output, word.score, Ghost(before), Ghost(chunks));
        proof {
            chunks = chunks.push(le32_bytes(bits32(word.score as int)));
        }
        writer.text(output, &word.text, Ghost(before), Ghost(chunks));
        proof {
            chunks = chunks + text_chunks(word.text@);
            assert(chunks =~= done + word_chunks(word@));
            assert(chunks =~= seq![seq![words.len]] + words_chunks(models.take(index + 1)));
        }
        index += 1;
    }
    proof {
        assert(models.take(words.len as int) =~= models);
        assert(models.len() as u8 == words.len);
        assert(output@ == writer.on(output@).output);
    }
    writer.finish(Ghost(output@))
}

/// Answers a search request; tells how many bytes the answer took, or zero where
/// the request, the lexicon or the buffer will not do, or no piece fits.
pub fn kv_find_best_move(lexicon: &[u32], input: &[u8], output: &mut [u8]) -> (count: u32)
    requires
        old(output).len() <= u32::MAX,
    ensures
        ({
            let board = request_board(input@);
            let sequence = requested_pieces(input@, 0, input@[4] as nat);
            let leaves = leaves_of(
                lexicon@,
                board,
                input@[3] as int,
                sequence,
                clamp(input@[2] as int, 12, 160),
            );
            let writer = put_all(
                fresh(old(output)@),
                result_chunks(result_at(lexicon@, leaves, 0)),
            );
            if lexicon.len() >= 2 && is_search_request(input@) && has_move(
                lexicon@,
                board,
                sequence,
            ) && old(output).len() >= 1 {
                final(output)@ == writer.output && count == written(writer)
            } else {
                final(output)@ == old(output)@ && count == 0
            }
        }),
{
    if lexicon.len() < 2 {
        return 0;
    }
    match read_search_request(input) {
        None => 0,
        Some(request) => {
            match search(
                lexicon,
                &request.board,
                request.current_lines,
                request.sequence.as_slice(),
                request.width,
            ) {
                None => 0,
                Some(result) => {
                    if output.len() == 0 {
                        0
                    } else {
                        write_search_result(&result, output)
                    }
                },
            }
        },
    }
}

/// How many leaves of a search are valued anew at a caller's request.
pub const FRAGMENT_CANDIDATES: usize = 6;

/// What residuals weigh at a caller's request: a quarter, as a bit pattern.
pub const FRAGMENT_WEIGHT: u64 = 0x3fd0_0000_0000_0000;

/// Answers a request with residuals added to the best leaves; tells how many bytes
/// the answer took, or zero where the lexicon or the buffer will not do, or no piece
/// fits.
pub fn answer_fragment_request<F: Fn(&Board, u8) -> u64>(
    lexicon: &[u32],
    request: &FragmentRequest,
    output: &mut [u8],
    residual: F,
) -> (count: u32)
    requires
        old(output).len() <= u32::MAX,
        cells_valid(request.board@),
        request.sequence.len() >= 1,
        pieces_valid(request.sequence@),
        request.width >= 1,
        forall|board: &Board, lines: u8| call_requires(residual, (board, lines)),
    ensures
        ({
            let leaves = leaves_of(
                lexicon@,
                request.board@,
                request.current_lines as int,
                request.sequence@,
                request.width as int,
            );
            let plain = result_at(lexicon@, leaves, 0);
            if lexicon.len() >= 2 && has_move(lexicon@, request.board@, request.sequence@)
                && old(output).len() >= 1 {
                exists|result: ResultModel|
                    {
                        &&& #[trigger] is_reranked(
                            result,
                            lexicon@,
                            leaves,
                            request.current_lines as int,
                            rerank_limit(leaves, 6, request.width as int),
                            FRAGMENT_WEIGHT,
                            residual,
                        )
                        &&& result.depth == plain.depth
                        &&& result.nodes == plain.nodes
                        &&& adds_nothing(residual, FRAGMENT_WEIGHT) ==> result == plain
                        &&& final(output)@ == put_all(
                            fresh(old(output)@),
                            result_chunks(result),
                        ).output
                        &&& count == written(put_all(fresh(old(output)@), result_chunks(result)))
                    }
            } else {
                final(output)@ == old(output)@ && count == 0
            }
        }),
{
    if lexicon.len() < 2 || output.len() == 0 {
        return 0;
    }
    match search_leaves(
        lexicon,
        &request.board,
        request.current_lines,
        request.sequence.as_slice(),
        request.width,
    ) {
        None => 0,
        Some(leaves) => {
            let result: SearchResult = leaves.rerank_with(
                lexicon,
                request.current_lines,
                FRAGMENT_CANDIDATES,
                request.width,
                FRAGMENT_WEIGHT,
                residual,
            );
            proof {
                leaves_are_ranked(
                    lexicon@,
                    request.board@,
                    request.current_lines as int,
                    request.sequence@,
                    request.width as int,
                );
                a_reranked_search_agrees_with_the_plain_one(
                    result@,
                    lexicon@,
                    leaves@,
                    request.current_lines as int,
                    6,
                    request.width as int,
                    FRAGMENT_WEIGHT,
                    residual,
                );
            }
            write_search_result(&result, output)
        },
    }
}

// ---------------------------------------------------------------------------
// Handles
// ---------------------------------------------------------------------------

/// Things that a caller holds by number; a freed number is given out again.
pub struct HandleTable<T> {
    pub slots: Vec<Option<T>>,
}

/// The lowest free slot from `from` on, or the number of slots.
pub open spec fn free_slot<T>(slots: Seq<Option<T>>, from: int) -> int
    decreases slots.len() - from,
{
    if from >= slots.len() || slots[from].is_none() {
        from
    } else {
        free_slot(slots, from + 1)
    }
}

proof fn lemma_free_slot<T>(slots: Seq<Option<T>>, from: int)
    requires
        0 <= from <= slots.len(),
    ensures
        from <= free_slot(slots, from) <= slots.len(),
        free_slot(slots, from) < slots.len() ==> slots[free_slot(slots, from)].is_none(),
    decreases slots.len() - from,
{
    if from < slots.len() && slots[from].is_some() {
        lemma_free_slot(slots, from + 1);
    }
}

/// What a handle stands for; handles count from one.
pub open spec fn held<T>(slots: Seq<Option<T>>, handle: int) -> Option<T> {
    if 1 <= handle <= slots.len() {
        slots[handle - 1]
    } else {
        None
    }
}

impl<T> HandleTable<T> {
    pub fn new() -> (table: Self)
        ensures
            table.slots@ == Seq::<Option<T>>::empty(),
    {
        HandleTable { slots: Vec::new() }
    }

    /// Keeps a thing and gives out its handle.
    pub fn insert(&mut self, thing: T) -> (handle: u32)
        requires
            old(self).slots.len() < u32::MAX,
        ensures
            handle == free_slot(old(self).slots@, 0) + 1,
            held(old(self).slots@, handle as int).is_none(),
            held(final(self).slots@, handle as int) == Some(thing),
            final(self).slots@ == (if handle <= old(self).slots.len() {
                old(self).slots@.update(handle - 1, Some(thing))
            } else {
                old(self).slots@.push(Some(thing))
            }),
    {
        proof {
            lemma_free_slot(self.slots@, 0);
        }
        let mut index: usize = 0;
        while index < self.slots.len() && self.slots[index].is_some()
            invariant
                index <= self.slots.len(),
                self.slots.len() < u32::MAX,
                *self == *old(self),
                free_slot(self.slots@, index as int) == free_slot(self.slots@, 0),
            decreases self.slots.len() - index,
        {
            index += 1;
        }
        if index < self.slots.len() {
            self.slots.set(index, Some(thing));
        } else {
            self.slots.push(Some(thing));
        }
        (index + 1) as u32
    }

    /// Lets go of a thing; an unknown handle is no error.
    pub fn free(&mut self, handle: u32)
        ensures
            final(self).slots@ == (if 1 <= handle <= old(self).slots.len() {
                old(self).slots@.update(handle - 1, None)
            } else {
                old(self).slots@
            }),
    {
        if handle >= 1 && handle as usize <= self.slots.len() {
            self.slots.set(handle as usize - 1, None);
        }
    }

    /// What a handle stands for.
    pub fn get(&self, handle: u32) -> (thing: Option<&T>)
        ensures
            thing.is_some() == held(self.slots@, handle as int).is_some(),
            thing matches Some(found) ==> held(self.slots@, handle as int) == Some(*found),
    {
        if handle >= 1 && handle as usize <= self.slots.len() {
            self.slots[handle as usize - 1].as_ref()
        } else {
            None
        }
    }
}

/// Freeing a handle touches no other handle.
pub proof fn freeing_keeps_other_handles<T>(slots: Seq<Option<T>>, freed: int, other: int)
    requires
        1 <= freed <= slots.len(),
        other != freed,
    ensures
        held(slots.update(freed - 1, None), other) == held(slots, other),
        held(slots.update(freed - 1, None), freed).is_none(),
{
}

} // verus!
