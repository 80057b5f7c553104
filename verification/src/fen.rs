//! Forsyth–Edwards Notation: reading a position from a text, and writing
//! it out.
//!
//! A text in this notation has six fields, separated by single spaces: the
//! piece placement, the side to move, the castling rights, the en-passant
//! target, the half-move clock and the full-move counter.

use vstd::prelude::*;
use crate::board::{
    Army, Board, Color, Piece, Square, lemma_san_text_of_index, san_index, san_square, san_text,
};
use crate::error::FenError;
use crate::text::{
    decimal, digit_char, digit_str, digit_value, has_char, is_char, is_number, join,
    number_value, parse_number, push_decimal, split, split_on,
};

verus! {

/// Whether `c` is a digit that skips empty squares: 1 to 8.
pub open spec fn is_skip(c: char) -> bool {
    '1' <= c <= '8'
}

/// Whether `c` may stand in a rank of the piece placement: a digit from 1
/// to 8 or a piece letter.
pub open spec fn is_cell_char(c: char) -> bool {
    is_skip(c) || Piece::of_letter(c) is Some
}

/// The squares that one character of a rank describes: as many empty
/// squares as a digit says, or one square with the piece of a letter.
pub open spec fn run(c: char) -> Seq<Option<Piece>> {
    if is_skip(c) {
        Seq::new(digit_value(c), |i: int| None)
    } else {
        match Piece::of_letter(c) {
            Some(piece) => seq![Some(piece)],
            None => Seq::empty(),
        }
    }
}

/// The squares that a rank of the piece placement describes, from the
/// a-file on.
pub open spec fn expand(rank: Seq<char>) -> Seq<Option<Piece>>
    decreases rank.len(),
{
    if rank.len() == 0 {
        Seq::empty()
    } else {
        expand(rank.drop_last()) + run(rank.last())
    }
}

/// Whether every character of `rank` may stand in a rank.
pub open spec fn all_cell_chars(rank: Seq<char>) -> bool {
    forall|i: int| 0 <= i < rank.len() ==> is_cell_char(#[trigger] rank[i])
}

/// Whether `rank` is a rank of the piece placement: digits from 1 to 8 and
/// piece letters that describe exactly eight squares.
pub open spec fn is_rank(rank: Seq<char>) -> bool {
    all_cell_chars(rank) && expand(rank).len() == 8
}

/// Whether the first fault of `rank`, read from the left, is a character
/// that may not stand in a rank: it comes before the rank runs past the
/// h-file.
pub open spec fn unknown_char_first(rank: Seq<char>) -> bool {
    exists|k: int|
        0 <= k < rank.len() && !is_cell_char(#[trigger] rank[k]) && all_cell_chars(rank.take(k))
            && expand(rank.take(k)).len() <= 8
}

/// The fault of a text that is no rank.
pub open spec fn rank_error(rank: Seq<char>) -> FenError {
    if unknown_char_first(rank) {
        FenError::UnknownPieceChar
    } else {
        FenError::MalformedRank
    }
}

/// Whether the first `k` of `ranks` are ranks.
pub open spec fn ranks_ok(ranks: Seq<Seq<char>>, k: int) -> bool {
    forall|j: int| 0 <= j < k ==> is_rank(#[trigger] ranks[j])
}

/// Whether `text` is a piece placement: eight ranks separated by `/`.
pub open spec fn is_placement(text: Seq<char>) -> bool {
    split(text, '/').len() == 8 && ranks_ok(split(text, '/'), 8)
}

/// The fault of a text that is no piece placement: that of the first of
/// its first eight ranks that is no rank, and `MalformedRank` if those are
/// ranks but not eight in number.
pub open spec fn placement_error(text: Seq<char>) -> FenError {
    let ranks = split(text, '/');
    if exists|k: int|
        0 <= k < ranks.len() && k < 8 && ranks_ok(ranks, k) && !is_rank(#[trigger] ranks[k])
            && unknown_char_first(ranks[k]) {
        FenError::UnknownPieceChar
    } else {
        FenError::MalformedRank
    }
}

/// What a piece placement puts on each of the 64 squares, in index order.
/// The placement lists the eighth rank first.
pub open spec fn placement_cells(text: Seq<char>) -> Seq<Option<Piece>> {
    Seq::new(64, |i: int| expand(split(text, '/')[7 - i / 8])[i % 8])
}

/// The side that the second field names.
pub open spec fn side_of(text: Seq<char>) -> Result<Color, FenError> {
    if text == seq!['w'] {
        Ok(Color::White)
    } else if text == seq!['b'] {
        Ok(Color::Black)
    } else {
        Err(FenError::UnknownSide)
    }
}

/// The en-passant target that the fourth field names: none for `-`, else
/// a square in algebraic notation.
pub open spec fn en_passant_of(text: Seq<char>) -> Result<Option<Square>, FenError> {
    if text == seq!['-'] {
        Ok(None)
    } else {
        match san_square(text) {
            Ok(square) => Ok(Some(square)),
            Err(e) => Err(e),
        }
    }
}

/// The count that a counter field states.
pub open spec fn counter_of(text: Seq<char>) -> Result<u64, FenError> {
    if is_number(text) {
        Ok(number_value(text) as u64)
    } else {
        Err(FenError::InvalidNumber)
    }
}

/// The position that a text describes, or the first fault of the text.
///
/// The fields are judged from left to right, after their number.
/// The castling field cannot be at fault: a right is granted when its
/// letter occurs in the field, whatever else does.
pub open spec fn fen_position(text: Seq<char>) -> Result<Board, FenError> {
    let fields = split(text, ' ');
    if fields.len() != 6 {
        Err(FenError::WrongFieldCount)
    } else if !is_placement(fields[0]) {
        Err(placement_error(fields[0]))
    } else if side_of(fields[1]) is Err {
        Err(FenError::UnknownSide)
    } else if en_passant_of(fields[3]) is Err {
        Err(FenError::InvalidNotation)
    } else if counter_of(fields[4]) is Err || counter_of(fields[5]) is Err {
        Err(FenError::InvalidNumber)
    } else {
        Ok(
            Board {
                white: Army::of_cells(placement_cells(fields[0]), Color::White),
                black: Army::of_cells(placement_cells(fields[0]), Color::Black),
                to_play: side_of(fields[1])->Ok_0,
                white_can_oo: fields[2].contains('K'),
                white_can_ooo: fields[2].contains('Q'),
                black_can_oo: fields[2].contains('k'),
                black_can_ooo: fields[2].contains('q'),
                en_passant: en_passant_of(fields[3])->Ok_0,
                fifty_move_clock: counter_of(fields[4])->Ok_0,
                full_move_clock: counter_of(fields[5])->Ok_0,
            },
        )
    }
}

/// A position that was read from a text holds at most one piece on each
/// square: a lookup finds on every square what the piece placement puts
/// there. Its en-passant target, if it has one, lies on the board.
pub proof fn lemma_position_sound(text: Seq<char>)
    requires
        fen_position(text) is Ok,
    ensures
        fen_position(text)->Ok_0.disjoint(),
        fen_position(text)->Ok_0.wf(),
        fen_position(text)->Ok_0.cells() == placement_cells(split(text, ' ')[0]),
{
    let board = fen_position(text)->Ok_0;
    let fields = split(text, ' ');
    let cells = placement_cells(fields[0]);
    board.lemma_with_cells(cells);
    assert(board.with_cells(cells) == board);
    if board.en_passant is Some {
        lemma_san_text_of_index(fields[3]);
        Square::lemma_at(san_index(fields[3]));
    }
}

/// A longer rank describes no fewer squares.
pub proof fn lemma_expand_grows(rank: Seq<char>, k: int)
    requires
        0 <= k <= rank.len(),
    ensures
        expand(rank.take(k)).len() <= expand(rank).len(),
    decreases rank.len(),
{
    if k == rank.len() {
        assert(rank.take(k) =~= rank);
    } else {
        lemma_expand_grows(rank.drop_last(), k);
        assert(rank.drop_last().take(k) =~= rank.take(k));
    }
}

/// A rank that runs past the h-file at a character that may stand in a
/// rank is malformed.
proof fn lemma_rank_overflow(rank: Seq<char>, at: int)
    requires
        0 <= at < rank.len(),
        all_cell_chars(rank.take(at + 1)),
        expand(rank.take(at + 1)).len() > 8,
    ensures
        !is_rank(rank),
        rank_error(rank) == FenError::MalformedRank,
{
    lemma_expand_grows(rank, at + 1);
    assert forall|k: int|
        0 <= k < rank.len() && !is_cell_char(#[trigger] rank[k]) && all_cell_chars(
            rank.take(k),
        ) implies expand(rank.take(k)).len() > 8 by {
        if k <= at {
            assert(rank.take(at + 1)[k] == rank[k]);
        } else {
            lemma_expand_grows(rank.take(k), at + 1);
            assert(rank.take(k).take(at + 1) =~= rank.take(at + 1));
        }
    }
}

/// A rank of characters that may stand in a rank, but that does not
/// describe eight squares, is malformed.
proof fn lemma_rank_short(rank: Seq<char>)
    requires
        all_cell_chars(rank),
        expand(rank).len() != 8,
    ensures
        !is_rank(rank),
        rank_error(rank) == FenError::MalformedRank,
{
}

/// Reads one rank of the piece placement: what stands on its eight
/// squares, from the a-file on.
pub fn parse_rank(rank: &str) -> (r: Result<Vec<Option<Piece>>, FenError>)
    ensures
        match r {
            Ok(cells) => is_rank(rank@) && cells@ == expand(rank@),
            Err(e) => !is_rank(rank@) && e == rank_error(rank@),
        },
{
    let mut cells: Vec<Option<Piece>> = Vec::new();
    proof {
        assert(rank@.take(0) =~= Seq::empty());
    }
    for c in it: rank.chars()
        invariant
            it.seq() == rank@,
            all_cell_chars(rank@.take(it.index() as int)),
            cells@ == expand(rank@.take(it.index() as int)),
            cells@.len() <= 8,
    {
        let ghost at = it.index();
        let ghost read = rank@.take(at as int);
        let ghost next = rank@.take(at + 1);
        proof {
            assert(next.drop_last() =~= read);
            assert(next.last() == c);
            assert(rank@[at as int] == c);
        }
        let skip: usize = match c {
            '1' => 1,
            '2' => 2,
            '3' => 3,
            '4' => 4,
            '5' => 5,
            '6' => 6,
            '7' => 7,
            '8' => 8,
            _ => 0,
        };
        if skip > 0 {
            assert(is_skip(c) && digit_value(c) == skip);
            if cells.len() + skip > 8 {
                proof {
                    lemma_rank_overflow(rank@, at as int);
                }
                return Err(FenError::MalformedRank);
            }
            let mut n: usize = 0;
            while n < skip
                invariant
                    n <= skip,
                    cells@ == expand(read) + Seq::new(n as nat, |i: int| None::<Piece>),
                decreases skip - n,
            {
                cells.push(None);
                n = n + 1;
                assert(cells@ =~= expand(read) + Seq::new(n as nat, |i: int| None::<Piece>));
            }
        } else {
            assert(!is_skip(c));
            match Piece::from_char(c) {
                Some(piece) => {
                    if cells.len() >= 8 {
                        proof {
                            lemma_rank_overflow(rank@, at as int);
                        }
                        return Err(FenError::MalformedRank);
                    }
                    cells.push(Some(piece));
                    assert(cells@ =~= expand(read) + seq![Some(piece)]);
                },
                None => {
                    return Err(FenError::UnknownPieceChar);
                },
            }
        }
    }
    proof {
        assert(rank@.take(rank@.len() as int) =~= rank@);
    }
    if cells.len() != 8 {
        proof {
            lemma_rank_short(rank@);
        }
        return Err(FenError::MalformedRank);
    }
    Ok(cells)
}

/// Where the first `k` ranks are ranks and the next one is not, the text
/// is no piece placement, and its fault is that of this rank.
proof fn lemma_placement_fault(text: Seq<char>, k: int)
    requires
        0 <= k < split(text, '/').len(),
        k < 8,
        ranks_ok(split(text, '/'), k),
        !is_rank(split(text, '/')[k]),
    ensures
        !is_placement(text),
        placement_error(text) == rank_error(split(text, '/')[k]),
{
    let ranks = split(text, '/');
    assert forall|j: int|
        0 <= j < ranks.len() && j < 8 && ranks_ok(ranks, j) && !is_rank(
            #[trigger] ranks[j],
        ) implies j == k by {
        if j > k {
            assert(is_rank(ranks[k]));
        } else if j < k {
            assert(is_rank(ranks[j]));
        }
    }
    if is_placement(text) {
        assert(is_rank(ranks[k]));
    }
}

/// Where the ranks are not eight in number, but the first eight of them,
/// or all of them if they are fewer, are ranks, the text is no piece
/// placement, and its fault is a malformed rank.
proof fn lemma_placement_count(text: Seq<char>, k: int)
    requires
        split(text, '/').len() != 8,
        k == split(text, '/').len() || k == 8,
        k <= split(text, '/').len(),
        ranks_ok(split(text, '/'), k),
    ensures
        !is_placement(text),
        placement_error(text) == FenError::MalformedRank,
{
    let ranks = split(text, '/');
    assert forall|j: int|
        0 <= j < ranks.len() && j < 8 && ranks_ok(ranks, j) implies is_rank(
        #[trigger] ranks[j],
    ) by {
        assert(j < k);
    }
}

/// Reads the piece placement and puts its pieces on the board in place of
/// those that stood there. Nothing else of the board changes, and nothing
/// at all where the text is at fault.
pub fn parse_piece_placement(placement: &str, board: &mut Board) -> (r: Result<(), FenError>)
    ensures
        match r {
            Ok(_) => is_placement(placement@) && *final(board) == old(board).with_cells(
                placement_cells(placement@),
            ),
            Err(e) => !is_placement(placement@) && e == placement_error(placement@)
                && *final(board) == *old(board),
        },
{
    let ghost ranks = split(placement@, '/');
    let texts = split_on(placement, '/');
    let mut rows: Vec<Vec<Option<Piece>>> = Vec::new();
    let mut k: usize = 0;
    while k < texts.len() && k < 8
        invariant
            k <= texts@.len(),
            k <= 8,
            texts@.len() == ranks.len(),
            forall|j: int| 0 <= j < texts@.len() ==> (#[trigger] texts@[j])@ == ranks[j],
            ranks_ok(ranks, k as int),
            rows@.len() == k,
            forall|j: int| 0 <= j < k ==> (#[trigger] rows@[j])@ == expand(ranks[j]),
            ranks == split(placement@, '/'),
        decreases 8 - k,
    {
        match parse_rank(texts[k]) {
            Ok(cells) => {
                rows.push(cells);
            },
            Err(e) => {
                proof {
                    lemma_placement_fault(placement@, k as int);
                }
                return Err(e);
            },
        }
        k = k + 1;
    }
    if texts.len() != 8 {
        proof {
            lemma_placement_count(placement@, k as int);
        }
        return Err(FenError::MalformedRank);
    }
    let mut cells: Vec<Option<Piece>> = Vec::new();
    let mut i: usize = 0;
    while i < 64
        invariant
            i <= 64,
            rows@.len() == 8,
            ranks_ok(ranks, 8),
            forall|j: int| 0 <= j < 8 ==> (#[trigger] rows@[j])@ == expand(ranks[j]),
            cells@.len() == i,
            forall|j: int| 0 <= j < i ==> cells@[j] == expand(ranks[7 - j / 8])[j % 8],
        decreases 64 - i,
    {
        let row = &rows[7 - i / 8];
        assert(row@ == expand(ranks[7 - i / 8]));
        assert(is_rank(ranks[7 - i / 8]));
        cells.push(row[i % 8]);
        i = i + 1;
    }
    assert(cells@ =~= placement_cells(placement@));
    board.white = Army::from_cells(&cells, Color::White);
    board.black = Army::from_cells(&cells, Color::Black);
    Ok(())
}

/// Reads the side to move, `w` or `b`, and sets it on the board.
pub fn parse_side_to_play(side_to_play: &str, board: &mut Board) -> (r: Result<(), FenError>)
    ensures
        match side_of(side_to_play@) {
            Ok(color) => r is Ok && *final(board) == (Board { to_play: color, ..*old(board) }),
            Err(e) => r == Err::<(), FenError>(e) && *final(board) == *old(board),
        },
{
    if is_char(side_to_play, 'w') {
        board.to_play = Color::White;
        Ok(())
    } else if is_char(side_to_play, 'b') {
        board.to_play = Color::Black;
        Ok(())
    } else {
        Err(FenError::UnknownSide)
    }
}

/// Reads the castling rights: each of the four rights is granted exactly
/// when its letter, `K`, `Q`, `k` or `q`, occurs in the field. Order,
/// repetition and other characters, such as the `-` that stands for no
/// rights, make no difference.
pub fn parse_castling(castling: &str, board: &mut Board)
    ensures
        *final(board) == (Board {
            white_can_oo: castling@.contains('K'),
            white_can_ooo: castling@.contains('Q'),
            black_can_oo: castling@.contains('k'),
            black_can_ooo: castling@.contains('q'),
            ..*old(board)
        }),
{
    board.white_can_oo = has_char(castling, 'K');
    board.white_can_ooo = has_char(castling, 'Q');
    board.black_can_oo = has_char(castling, 'k');
    board.black_can_ooo = has_char(castling, 'q');
}

/// Reads the en-passant target: `-` for none, else a square in algebraic
/// notation.
pub fn parse_en_passant(en_passant: &str, board: &mut Board) -> (r: Result<(), FenError>)
    ensures
        match en_passant_of(en_passant@) {
            Ok(target) => r is Ok && *final(board) == (Board { en_passant: target, ..*old(board) }),
            Err(e) => r == Err::<(), FenError>(e) && *final(board) == *old(board),
        },
{
    if is_char(en_passant, '-') {
        board.en_passant = None;
        Ok(())
    } else {
        match Square::from_san(en_passant) {
            Ok(square) => {
                board.en_passant = Some(square);
                Ok(())
            },
            Err(e) => Err(e),
        }
    }
}

/// Reads the half-move clock: the number of plies since the last capture
/// or pawn move.
pub fn parse_fifty_move(fifty_move_clock: &str, board: &mut Board) -> (r: Result<(), FenError>)
    ensures
        match counter_of(fifty_move_clock@) {
            Ok(count) => r is Ok && *final(board) == (Board {
                fifty_move_clock: count,
                ..*old(board)
            }),
            Err(e) => r == Err::<(), FenError>(e) && *final(board) == *old(board),
        },
{
    match parse_number(fifty_move_clock) {
        Some(count) => {
            board.fifty_move_clock = count;
            Ok(())
        },
        None => Err(FenError::InvalidNumber),
    }
}

/// Reads the full-move counter.
pub fn parse_full_move(full_move_clock: &str, board: &mut Board) -> (r: Result<(), FenError>)
    ensures
        match counter_of(full_move_clock@) {
            Ok(count) => r is Ok && *final(board) == (Board {
                full_move_clock: count,
                ..*old(board)
            }),
            Err(e) => r == Err::<(), FenError>(e) && *final(board) == *old(board),
        },
{
    match parse_number(full_move_clock) {
        Some(count) => {
            board.full_move_clock = count;
            Ok(())
        },
        None => Err(FenError::InvalidNumber),
    }
}

/// Reads a position from a text in Forsyth–Edwards Notation.
///
/// The text is accepted when it has exactly six fields and each field is
/// well formed; otherwise the first fault, from the left, is reported and
/// no position is returned.
pub fn parse_fen(fen: &str) -> (r: Result<Board, FenError>)
    ensures
        r == fen_position(fen@),
        r matches Ok(board) ==> board.disjoint(),
{
    proof {
        if fen_position(fen@) is Ok {
            lemma_position_sound(fen@);
        }
    }
    let fields = split_on(fen, ' ');
    if fields.len() != 6 {
        return Err(FenError::WrongFieldCount);
    }
    let mut board = Board::empty();
    match parse_piece_placement(fields[0], &mut board) {
        Ok(_) => {},
        Err(e) => {
            return Err(e);
        },
    }
    match parse_side_to_play(fields[1], &mut board) {
        Ok(_) => {},
        Err(e) => {
            return Err(e);
        },
    }
    parse_castling(fields[2], &mut board);
    match parse_en_passant(fields[3], &mut board) {
        Ok(_) => {},
        Err(e) => {
            return Err(e);
        },
    }
    match parse_fifty_move(fields[4], &mut board) {
        Ok(_) => {},
        Err(e) => {
            return Err(e);
        },
    }
    match parse_full_move(fields[5], &mut board) {
        Ok(_) => {},
        Err(e) => {
            return Err(e);
        },
    }
    Ok(board)
}

/// How many empty squares stand at the end of `cells`.
pub open spec fn trailing_empties(cells: Seq<Option<Piece>>) -> nat
    decreases cells.len(),
{
    if cells.len() == 0 || cells.last() is Some {
        0
    } else {
        1 + trailing_empties(cells.drop_last())
    }
}

/// The empty squares at the end of `cells` are squares of `cells`.
pub proof fn lemma_trailing_empties(cells: Seq<Option<Piece>>)
    ensures
        trailing_empties(cells) <= cells.len(),
        forall|i: int|
            cells.len() - trailing_empties(cells) <= i < cells.len() ==> cells[i] is None,
        trailing_empties(cells) < cells.len() ==> cells[cells.len() - trailing_empties(cells)
            - 1] is Some,
    decreases cells.len(),
{
    if cells.len() > 0 && cells.last() is None {
        let shorter = cells.drop_last();
        lemma_trailing_empties(shorter);
        assert forall|i: int|
            cells.len() - trailing_empties(cells) <= i < cells.len() implies cells[i] is None by {
            if i < shorter.len() {
                assert(shorter[i] is None);
            }
        }
        if trailing_empties(cells) < cells.len() {
            assert(shorter[shorter.len() - trailing_empties(shorter) - 1] is Some);
        }
    }
}

/// The text of a row of squares: a letter for each piece, and for each
/// run of empty squares, taken as long as it goes, the digit of its
/// length. So no two digits ever stand side by side.
pub open spec fn encode(cells: Seq<Option<Piece>>) -> Seq<char>
    decreases cells.len(),
{
    if cells.len() == 0 {
        Seq::empty()
    } else {
        match cells.last() {
            Some(piece) => encode(cells.drop_last()).push(piece.letter()),
            None => {
                let run = trailing_empties(cells);
                proof {
                    lemma_trailing_empties(cells);
                }
                encode(cells.take(cells.len() - run)).push(digit_char(run))
            },
        }
    }
}

/// The squares of one rank, from the a-file on, out of the 64 squares in
/// index order.
pub open spec fn rank_cells(cells: Seq<Option<Piece>>, rank: int) -> Seq<Option<Piece>> {
    cells.subrange(8 * rank, 8 * rank + 8)
}

/// The texts of the eight ranks, the eighth rank first.
pub open spec fn rank_texts(cells: Seq<Option<Piece>>) -> Seq<Seq<char>> {
    Seq::new(8, |k: int| encode(rank_cells(cells, 7 - k)))
}

/// The piece placement that shows `cells`: the eight ranks from the eighth
/// down to the first, with `/` between them.
pub open spec fn placement_text(cells: Seq<Option<Piece>>) -> Seq<char> {
    join(rank_texts(cells), '/')
}

/// The field that names a side.
pub open spec fn side_text(color: Color) -> Seq<char> {
    match color {
        Color::White => seq!['w'],
        Color::Black => seq!['b'],
    }
}

/// The letter of a castling right that is granted, and nothing for one
/// that is not.
pub open spec fn right_text(letter: char, granted: bool) -> Seq<char> {
    if granted {
        seq![letter]
    } else {
        Seq::empty()
    }
}

/// The castling field: the letters of the rights that are granted, in the
/// order `KQkq`, or `-` where none is.
pub open spec fn castling_text(
    white_oo: bool,
    white_ooo: bool,
    black_oo: bool,
    black_ooo: bool,
) -> Seq<char> {
    if !white_oo && !white_ooo && !black_oo && !black_ooo {
        seq!['-']
    } else {
        right_text('K', white_oo) + right_text('Q', white_ooo) + right_text('k', black_oo)
            + right_text('q', black_ooo)
    }
}

/// The en-passant field: `-` for no target, else the square in algebraic
/// notation.
pub open spec fn en_passant_text(target: Option<Square>) -> Seq<char> {
    match target {
        Some(square) => san_text(square@),
        None => seq!['-'],
    }
}

/// The six fields that describe a board.
pub open spec fn fen_fields(board: Board) -> Seq<Seq<char>> {
    seq![
        placement_text(board.cells()),
        side_text(board.to_play),
        castling_text(
            board.white_can_oo,
            board.white_can_ooo,
            board.black_can_oo,
            board.black_can_ooo,
        ),
        en_passant_text(board.en_passant),
        decimal(board.fifty_move_clock as nat),
        decimal(board.full_move_clock as nat),
    ]
}

/// The text that describes a board: its six fields with single spaces
/// between them.
pub open spec fn fen_text(board: Board) -> Seq<char> {
    join(fen_fields(board), ' ')
}

/// Writes one rank of the piece placement behind what `out` holds.
fn push_rank(out: &mut String, board: &Board, rank: u8)
    requires
        rank < 8,
    ensures
        final(out)@ == old(out)@ + encode(rank_cells(board.cells(), rank as int)),
{
    let ghost cells = rank_cells(board.cells(), rank as int);
    let mut run: u8 = 0;
    let mut file: u8 = 0;
    proof {
        assert(cells.take(0) =~= Seq::empty());
        assert(out@ =~= old(out)@ + encode(cells.take(0)));
    }
    while file < 8
        invariant
            file <= 8,
            rank < 8,
            run <= file,
            cells == rank_cells(board.cells(), rank as int),
            run == trailing_empties(cells.take(file as int)),
            out@ == old(out)@ + encode(cells.take(file - run)),
        decreases 8 - file,
    {
        let ghost read = cells.take(file as int);
        let ghost next = cells.take(file + 1);
        let sq = Square::from_coords(file, rank);
        proof {
            assert(next.drop_last() =~= read);
            assert(next.last() == board.occupant(sq@));
        }
        match board.piece_at(&sq) {
            Some(piece) => {
                if run > 0 {
                    out.append(digit_str(run as u64));
                    proof {
                        assert(read.take(read.len() - run) =~= cells.take(file - run));
                        assert(out@ =~= old(out)@ + encode(read));
                    }
                } else {
                    assert(cells.take(file - run) =~= read);
                }
                out.append(piece.as_str());
                run = 0;
                proof {
                    assert(out@ =~= old(out)@ + encode(next));
                    assert(cells.take(file + 1 - run) =~= next);
                }
            },
            None => {
                run = run + 1;
                assert(cells.take(file + 1 - run) =~= cells.take(file - (run - 1)));
            },
        }
        file = file + 1;
    }
    proof {
        assert(cells.take(8) =~= cells);
    }
    if run > 0 {
        out.append(digit_str(run as u64));
        proof {
            assert(cells.take(cells.len() - run) =~= cells.take(8 - run));
            assert(out@ =~= old(out)@ + encode(cells));
        }
    }
}

/// Writes the piece placement behind what `out` holds.
fn push_placement(out: &mut String, board: &Board)
    ensures
        final(out)@ == old(out)@ + placement_text(board.cells()),
{
    let ghost texts = rank_texts(board.cells());
    let mut k: u8 = 0;
    while k < 8
        invariant
            k <= 8,
            texts == rank_texts(board.cells()),
            k == 0 ==> out@ == old(out)@,
            k > 0 ==> out@ == old(out)@ + join(texts.take(k as int), '/'),
        decreases 8 - k,
    {
        let ghost before = out@;
        if k > 0 {
            out.append("/");
        }
        push_rank(out, board, 7 - k);
        proof {
            reveal_strlit("/");
            let grown = texts.take(k + 1);
            assert(grown.last() == encode(rank_cells(board.cells(), 7 - k)));
            if k > 0 {
                assert(grown.drop_last() =~= texts.take(k as int));
                assert(out@ =~= old(out)@ + join(grown, '/'));
            } else {
                assert(out@ =~= old(out)@ + join(grown, '/'));
            }
        }
        k = k + 1;
    }
    proof {
        assert(texts.take(8) =~= texts);
    }
}

/// Writes the castling field behind what `out` holds.
fn push_castling(out: &mut String, board: &Board)
    ensures
        final(out)@ == old(out)@ + castling_text(
            board.white_can_oo,
            board.white_can_ooo,
            board.black_can_oo,
            board.black_can_ooo,
        ),
{
    proof {
        reveal_strlit("-");
        reveal_strlit("K");
        reveal_strlit("Q");
        reveal_strlit("k");
        reveal_strlit("q");
    }
    if !board.white_can_oo && !board.white_can_ooo && !board.black_can_oo
        && !board.black_can_ooo {
        out.append("-");
    } else {
        let ghost start = out@;
        if board.white_can_oo {
            out.append("K");
        }
        assert(out@ =~= start + right_text('K', board.white_can_oo));
        if board.white_can_ooo {
            out.append("Q");
        }
        assert(out@ =~= start + right_text('K', board.white_can_oo) + right_text(
            'Q',
            board.white_can_ooo,
        ));
        if board.black_can_oo {
            out.append("k");
        }
        assert(out@ =~= start + right_text('K', board.white_can_oo) + right_text(
            'Q',
            board.white_can_ooo,
        ) + right_text('k', board.black_can_oo));
        if board.black_can_ooo {
            out.append("q");
        }
        assert(out@ =~= start + castling_text(
            board.white_can_oo,
            board.white_can_ooo,
            board.black_can_oo,
            board.black_can_ooo,
        ));
    }
}

/// Writes a board out in Forsyth–Edwards Notation.
///
/// Any board can be written: each square shows what a lookup finds on it,
/// and runs of empty squares are written as one digit each.
pub fn to_fen(board: &Board) -> (text: String)
    ensures
        text@ == fen_text(*board),
{
    proof {
        reveal_strlit(" ");
        reveal_strlit("w");
        reveal_strlit("b");
        reveal_strlit("-");
    }
    let ghost fields = fen_fields(*board);
    let mut text = String::new();
    push_placement(&mut text, board);
    assert(text@ =~= join(fields.take(1), ' '));
    text.append(" ");
    match board.to_play {
        Color::White => {
            text.append("w");
        },
        Color::Black => {
            text.append("b");
        },
    }
    proof {
        assert(fields.take(2).drop_last() =~= fields.take(1));
        assert(text@ =~= join(fields.take(2), ' '));
    }
    text.append(" ");
    push_castling(&mut text, board);
    proof {
        assert(fields.take(3).drop_last() =~= fields.take(2));
        assert(text@ =~= join(fields.take(3), ' '));
    }
    text.append(" ");
    match &board.en_passant {
        Some(square) => {
            let san = square.to_san();
            text.append(san.as_str());
        },
        None => {
            text.append("-");
        },
    }
    proof {
        assert(fields.take(4).drop_last() =~= fields.take(3));
        assert(text@ =~= join(fields.take(4), ' '));
    }
    text.append(" ");
    push_decimal(&mut text, board.fifty_move_clock);
    proof {
        assert(fields.take(5).drop_last() =~= fields.take(4));
        assert(text@ =~= join(fields.take(5), ' '));
    }
    text.append(" ");
    push_decimal(&mut text, board.full_move_clock);
    proof {
        assert(fields.take(6).drop_last() =~= fields.take(5));
        assert(fields.take(6) =~= fields);
        assert(text@ =~= join(fields, ' '));
    }
    text
}

} // verus!
