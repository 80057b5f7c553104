//! What reading and writing have to do with each other.

use vstd::prelude::*;
use crate::board::{
    Board, Color, Piece, Square, lemma_san_round_trip, lemma_san_text_of_index, san_index,
};
use crate::error::FenError;
use crate::fen::{
    all_cell_chars, castling_text, en_passant_of, en_passant_text, encode, expand, fen_fields,
    fen_position, fen_text, is_cell_char, is_placement, is_rank, is_skip, lemma_expand_grows,
    lemma_position_sound, lemma_trailing_empties, placement_cells, placement_text, rank_cells,
    rank_texts, ranks_ok, right_text, run, side_of, side_text, trailing_empties,
};
use crate::text::{
    digit_char, digit_value, free_of, join, lemma_decimal_of_value, lemma_decimal_round_trip,
    lemma_digits, lemma_join_free, lemma_split_join, split,
};

verus! {

/// The text of a row of at most eight squares is made of digits from 1 to 8
/// and piece letters, and it describes that row.
pub proof fn lemma_expand_encode(cells: Seq<Option<Piece>>)
    requires
        cells.len() <= 8,
    ensures
        all_cell_chars(encode(cells)),
        expand(encode(cells)) == cells,
    decreases cells.len(),
{
    if cells.len() == 0 {
        assert(expand(encode(cells)) =~= cells);
    } else {
        match cells.last() {
            Some(piece) => {
                let shorter = cells.drop_last();
                let text = encode(cells);
                lemma_expand_encode(shorter);
                piece.lemma_letter(piece.letter());
                assert(!is_skip(piece.letter()));
                assert(text.drop_last() =~= encode(shorter));
                assert(text.last() == piece.letter());
                assert(run(piece.letter()) =~= seq![Some(piece)]);
                assert(expand(text) =~= cells);
                assert forall|i: int| 0 <= i < text.len() implies is_cell_char(
                    #[trigger] text[i],
                ) by {
                    if i < text.len() - 1 {
                        assert(text[i] == encode(shorter)[i]);
                    }
                }
            },
            None => {
                let empties = trailing_empties(cells);
                lemma_trailing_empties(cells);
                let kept = cells.take(cells.len() - empties);
                let text = encode(cells);
                lemma_expand_encode(kept);
                lemma_digits('0', empties);
                assert(is_skip(digit_char(empties)));
                assert(text.drop_last() =~= encode(kept));
                assert(text.last() == digit_char(empties));
                assert(expand(text) =~= cells);
                assert forall|i: int| 0 <= i < text.len() implies is_cell_char(
                    #[trigger] text[i],
                ) by {
                    if i < text.len() - 1 {
                        assert(text[i] == encode(kept)[i]);
                    }
                }
            },
        }
    }
}

/// The text of a rank is a rank, and holds neither a `/` nor a space.
pub proof fn lemma_encode_is_rank(cells: Seq<Option<Piece>>)
    requires
        cells.len() == 8,
    ensures
        is_rank(encode(cells)),
        free_of(encode(cells), '/'),
        free_of(encode(cells), ' '),
{
    lemma_expand_encode(cells);
    let text = encode(cells);
    assert forall|i: int| 0 <= i < text.len() implies text[i] != '/' && text[i] != ' ' by {
        assert(is_cell_char(text[i]));
    }
}

/// The piece placement that shows 64 squares is a piece placement, it
/// describes those squares, and it holds no space.
pub proof fn lemma_placement_round_trip(cells: Seq<Option<Piece>>)
    requires
        cells.len() == 64,
    ensures
        is_placement(placement_text(cells)),
        placement_cells(placement_text(cells)) == cells,
        free_of(placement_text(cells), ' '),
{
    let texts = rank_texts(cells);
    assert forall|k: int| 0 <= k < 8 implies is_rank(#[trigger] texts[k]) && free_of(texts[k], '/')
        && free_of(texts[k], ' ') && expand(texts[k]) == rank_cells(cells, 7 - k) by {
        lemma_encode_is_rank(rank_cells(cells, 7 - k));
        lemma_expand_encode(rank_cells(cells, 7 - k));
    }
    lemma_split_join(texts, '/');
    lemma_join_free(texts, '/', ' ');
    assert(ranks_ok(texts, 8));
    let read = placement_cells(placement_text(cells));
    assert forall|i: int| 0 <= i < 64 implies read[i] == cells[i] by {
        let k = 7 - i / 8;
        assert(expand(texts[k]) == rank_cells(cells, 7 - k));
        assert(rank_cells(cells, i / 8)[i % 8] == cells[8 * (i / 8) + i % 8]);
    }
    assert(read =~= cells);
}

/// The castling field shows a letter exactly where the right is granted,
/// and holds no space.
pub proof fn lemma_castling_round_trip(
    white_oo: bool,
    white_ooo: bool,
    black_oo: bool,
    black_ooo: bool,
)
    ensures
        castling_text(white_oo, white_ooo, black_oo, black_ooo).contains('K') == white_oo,
        castling_text(white_oo, white_ooo, black_oo, black_ooo).contains('Q') == white_ooo,
        castling_text(white_oo, white_ooo, black_oo, black_ooo).contains('k') == black_oo,
        castling_text(white_oo, white_ooo, black_oo, black_ooo).contains('q') == black_ooo,
        free_of(castling_text(white_oo, white_ooo, black_oo, black_ooo), ' '),
{
    let text = castling_text(white_oo, white_ooo, black_oo, black_ooo);
    let a = right_text('K', white_oo);
    let b = right_text('Q', white_ooo);
    let c = right_text('k', black_oo);
    let d = right_text('q', black_ooo);
    if !white_oo && !white_ooo && !black_oo && !black_ooo {
        assert(text[0] == '-');
    } else {
        assert(text == a + b + c + d);
        assert(text.len() == a.len() + b.len() + c.len() + d.len());
        if white_oo {
            assert(text[0] == 'K');
        }
        if white_ooo {
            assert(text[a.len() as int] == 'Q');
        }
        if black_oo {
            assert(text[(a.len() + b.len()) as int] == 'k');
        }
        if black_ooo {
            assert(text[(a.len() + b.len() + c.len()) as int] == 'q');
        }
        assert forall|i: int| 0 <= i < text.len() implies (text[i] == 'K' && white_oo) || (text[i]
            == 'Q' && white_ooo) || (text[i] == 'k' && black_oo) || (text[i] == 'q'
            && black_ooo) by {
            if i < a.len() {
                assert(text[i] == a[i]);
            } else if i < a.len() + b.len() {
                assert(text[i] == b[i - a.len()]);
            } else if i < a.len() + b.len() + c.len() {
                assert(text[i] == c[i - a.len() - b.len()]);
            } else {
                assert(text[i] == d[i - a.len() - b.len() - c.len()]);
            }
        }
    }
}

/// The en-passant field names its target again, and holds no space.
pub proof fn lemma_en_passant_round_trip(target: Option<Square>)
    requires
        target matches Some(square) ==> square.wf(),
    ensures
        en_passant_of(en_passant_text(target)) == Ok::<Option<Square>, FenError>(target),
        free_of(en_passant_text(target), ' '),
{
    match target {
        Some(square) => {
            lemma_san_round_trip(square@);
            Square::lemma_at(square@);
            Square::at(square@).lemma_view_injective(square);
            assert(en_passant_text(target)[0] != '-');
        },
        None => {},
    }
}

/// Reading what was written gives the board back, for every board on which
/// no square holds two pieces.
pub proof fn lemma_read_written(board: Board)
    requires
        board.disjoint(),
        board.wf(),
    ensures
        fen_position(fen_text(board)) == Ok::<Board, FenError>(board),
{
    let fields = fen_fields(board);
    lemma_placement_round_trip(board.cells());
    lemma_castling_round_trip(
        board.white_can_oo,
        board.white_can_ooo,
        board.black_can_oo,
        board.black_can_ooo,
    );
    lemma_en_passant_round_trip(board.en_passant);
    lemma_decimal_round_trip(board.fifty_move_clock as nat);
    lemma_decimal_round_trip(board.full_move_clock as nat);
    assert(free_of(side_text(board.to_play), ' '));
    assert(side_of(side_text(board.to_play)) == Ok::<_, FenError>(board.to_play)) by {
        assert(side_text(board.to_play)[0] == if board.to_play == Color::White {
            'w'
        } else {
            'b'
        });
    }
    assert forall|k: int| 0 <= k < fields.len() implies free_of(#[trigger] fields[k], ' ') by {}
    lemma_split_join(fields, ' ');
    board.lemma_cells_determine();
}

/// Reading a text, writing the position out and reading that again gives
/// the same position.
pub proof fn lemma_reread(text: Seq<char>)
    requires
        fen_position(text) is Ok,
    ensures
        fen_position(fen_text(fen_position(text)->Ok_0)) == fen_position(text),
{
    lemma_position_sound(text);
    lemma_read_written(fen_position(text)->Ok_0);
}

/// How many skip digits stand at the end of `rank`.
pub open spec fn trailing_skips(rank: Seq<char>) -> nat
    decreases rank.len(),
{
    if rank.len() == 0 || !is_skip(rank.last()) {
        0
    } else {
        1 + trailing_skips(rank.drop_last())
    }
}

/// How many squares a row of skip digits skips.
pub open spec fn skipped(digits: Seq<char>) -> nat
    decreases digits.len(),
{
    if digits.len() == 0 {
        0
    } else {
        skipped(digits.drop_last()) + digit_value(digits.last())
    }
}

/// The skip digits at the end of `rank` are characters of `rank`.
pub proof fn lemma_trailing_skips(rank: Seq<char>)
    ensures
        trailing_skips(rank) <= rank.len(),
        trailing_skips(rank) < rank.len() ==> !is_skip(
            rank[rank.len() - trailing_skips(rank) - 1],
        ),
    decreases rank.len(),
{
    if rank.len() > 0 && is_skip(rank.last()) {
        let shorter = rank.drop_last();
        lemma_trailing_skips(shorter);
        if trailing_skips(rank) < rank.len() {
            assert(!is_skip(shorter[shorter.len() - trailing_skips(shorter) - 1]));
        }
    }
}

/// A rank in its shortest form: every run of skip digits, taken as long as
/// it goes, is replaced by the one digit of its sum.
pub open spec fn coalesce(rank: Seq<char>) -> Seq<char>
    decreases rank.len(),
{
    if rank.len() == 0 {
        Seq::empty()
    } else if !is_skip(rank.last()) {
        coalesce(rank.drop_last()).push(rank.last())
    } else {
        let digits = trailing_skips(rank);
        proof {
            lemma_trailing_skips(rank);
        }
        coalesce(rank.take(rank.len() - digits)).push(
            digit_char(skipped(rank.skip(rank.len() - digits))),
        )
    }
}

/// A piece placement in its shortest form: each rank in its shortest form.
pub open spec fn normal_placement(text: Seq<char>) -> Seq<char> {
    join(split(text, '/').map_values(|rank: Seq<char>| coalesce(rank)), '/')
}

/// A castling field in its usual form: the letters of `KQkq` that occur in
/// it, in that order, or `-` if none does.
pub open spec fn normal_castling(text: Seq<char>) -> Seq<char> {
    castling_text(text.contains('K'), text.contains('Q'), text.contains('k'), text.contains('q'))
}

/// A text of six fields in its usual form: runs of empty squares written
/// with as few digits as can be, and the castling letters in the order
/// `KQkq`. The other fields stay as they are.
pub open spec fn normalize(text: Seq<char>) -> Seq<char> {
    let fields = split(text, ' ');
    join(
        seq![
            normal_placement(fields[0]),
            fields[1],
            normal_castling(fields[2]),
            fields[3],
            fields[4],
            fields[5],
        ],
        ' ',
    )
}

/// Whether a number is written without a plus sign and without a zero in
/// front of other digits.
pub open spec fn is_plain(number: Seq<char>) -> bool {
    number.len() > 0 && number[0] != '+' && (number.len() > 1 ==> number[0] != '0')
}

/// A rank describes what stands before its last run of skip digits, and
/// then as many empty squares as those digits skip.
proof fn lemma_expand_skips(rank: Seq<char>)
    ensures
        expand(rank) == expand(rank.take(rank.len() - trailing_skips(rank))) + Seq::new(
            skipped(rank.skip(rank.len() - trailing_skips(rank))),
            |i: int| None::<Piece>,
        ),
        rank.len() > 0 && is_skip(rank.last()) ==> skipped(
            rank.skip(rank.len() - trailing_skips(rank)),
        ) >= 1,
    decreases rank.len(),
{
    lemma_trailing_skips(rank);
    let digits = trailing_skips(rank);
    let front = rank.take(rank.len() - digits);
    let tail = rank.skip(rank.len() - digits);
    if rank.len() == 0 || !is_skip(rank.last()) {
        assert(front =~= rank);
        assert(tail =~= Seq::empty());
        assert(expand(rank) =~= expand(front) + Seq::new(0, |i: int| None::<Piece>));
    } else {
        let shorter = rank.drop_last();
        lemma_expand_skips(shorter);
        lemma_trailing_skips(shorter);
        assert(shorter.take(shorter.len() - trailing_skips(shorter)) =~= front);
        assert(tail.drop_last() =~= shorter.skip(shorter.len() - trailing_skips(shorter)));
        assert(tail.last() == rank.last());
        assert(digit_value(rank.last()) >= 1);
        assert(expand(rank) =~= expand(front) + Seq::new(skipped(tail), |i: int| None::<Piece>));
    }
}

/// Behind a row of squares that does not end in an empty square, a run
/// of empty squares is the whole run of empty squares at the end.
proof fn lemma_trailing_empties_append(front: Seq<Option<Piece>>, empties: nat)
    requires
        front.len() == 0 || front.last() is Some,
    ensures
        trailing_empties(front + Seq::new(empties, |i: int| None::<Piece>)) == empties,
    decreases empties,
{
    let whole = front + Seq::new(empties, |i: int| None::<Piece>);
    if empties == 0 {
        assert(whole =~= front);
    } else {
        lemma_trailing_empties_append(front, (empties - 1) as nat);
        assert(whole.drop_last() =~= front + Seq::new(
            (empties - 1) as nat,
            |i: int| None::<Piece>,
        ));
    }
}

/// What a rank describes ends in a piece where the rank ends in a letter.
proof fn lemma_expand_ends_in_piece(rank: Seq<char>)
    requires
        rank.len() > 0,
        is_cell_char(rank.last()),
        !is_skip(rank.last()),
    ensures
        expand(rank).len() > 0,
        expand(rank).last() is Some,
{
}

/// Writing the squares that a rank describes gives the rank in its
/// shortest form.
pub proof fn lemma_encode_expand(rank: Seq<char>)
    requires
        all_cell_chars(rank),
        expand(rank).len() <= 8,
    ensures
        encode(expand(rank)) == coalesce(rank),
    decreases rank.len(),
{
    if rank.len() == 0 {
    } else if !is_skip(rank.last()) {
        let shorter = rank.drop_last();
        let piece = Piece::of_letter(rank.last())->Some_0;
        assert(is_cell_char(rank.last()));
        piece.lemma_letter(rank.last());
        assert(all_cell_chars(shorter)) by {
            assert forall|i: int| 0 <= i < shorter.len() implies is_cell_char(
                #[trigger] shorter[i],
            ) by {
                assert(shorter[i] == rank[i]);
            }
        }
        lemma_encode_expand(shorter);
        assert(expand(rank).drop_last() =~= expand(shorter));
    } else {
        lemma_trailing_skips(rank);
        lemma_expand_skips(rank);
        let digits = trailing_skips(rank);
        let front = rank.take(rank.len() - digits);
        let empties = skipped(rank.skip(rank.len() - digits));
        assert(all_cell_chars(front)) by {
            assert forall|i: int| 0 <= i < front.len() implies is_cell_char(
                #[trigger] front[i],
            ) by {
                assert(front[i] == rank[i]);
            }
        }
        lemma_expand_grows(rank, rank.len() - digits);
        if front.len() > 0 {
            assert(front.last() == rank[rank.len() - digits - 1]);
            lemma_expand_ends_in_piece(front);
        } else {
            assert(expand(front) =~= Seq::empty());
        }
        lemma_trailing_empties_append(expand(front), empties);
        lemma_encode_expand(front);
        let cells = expand(rank);
        assert(cells.last() is None);
        assert(cells.take(cells.len() - empties) =~= expand(front));
    }
}

/// Reading a text and writing the position out gives the text in its usual
/// form, as long as the two counters are written without a plus sign and
/// without superfluous zeros.
pub proof fn lemma_written_is_normal(text: Seq<char>)
    requires
        fen_position(text) is Ok,
        is_plain(split(text, ' ')[4]),
        is_plain(split(text, ' ')[5]),
    ensures
        fen_text(fen_position(text)->Ok_0) == normalize(text),
{
    let fields = split(text, ' ');
    let board = fen_position(text)->Ok_0;
    let written = fen_fields(board);
    let normal = seq![
        normal_placement(fields[0]),
        fields[1],
        normal_castling(fields[2]),
        fields[3],
        fields[4],
        fields[5],
    ];
    lemma_position_sound(text);
    let ranks = split(fields[0], '/');
    let cells = placement_cells(fields[0]);
    assert(written[0] == normal[0]) by {
        let shortest = ranks.map_values(|rank: Seq<char>| coalesce(rank));
        assert forall|k: int| 0 <= k < 8 implies rank_texts(cells)[k] == shortest[k] by {
            assert(is_rank(ranks[k]));
            assert(rank_cells(cells, 7 - k) =~= expand(ranks[k]));
            lemma_encode_expand(ranks[k]);
        }
        assert(rank_texts(cells) =~= shortest);
    }
    assert(written[1] == normal[1]) by {
        assert(side_text(board.to_play) =~= fields[1]);
    }
    assert(written[3] == normal[3]) by {
        if fields[3] != seq!['-'] {
            lemma_san_text_of_index(fields[3]);
            Square::lemma_at(san_index(fields[3]));
        }
    }
    assert(written[4] == normal[4]) by {
        lemma_decimal_of_value(fields[4]);
    }
    assert(written[5] == normal[5]) by {
        lemma_decimal_of_value(fields[5]);
    }
    assert(written =~= normal);
}

/// A rank without pieces is written as the single digit 8.
pub proof fn lemma_empty_rank(cells: Seq<Option<Piece>>)
    requires
        cells.len() == 8,
        forall|i: int| 0 <= i < 8 ==> cells[i] is None,
    ensures
        encode(cells) == seq!['8'],
{
    assert(cells =~= Seq::<Option<Piece>>::empty() + Seq::new(8, |i: int| None::<Piece>));
    lemma_trailing_empties_append(Seq::empty(), 8);
    assert(trailing_empties(cells) == 8);
    assert(cells.last() is None);
    assert(cells.take(0) =~= Seq::empty());
    assert(encode(cells.take(0)) =~= Seq::empty());
    assert(digit_char(8) == '8');
    assert(encode(cells) =~= seq!['8']);
}

/// In the text of a row of squares no two digits stand side by side: a run
/// of empty squares is never written in pieces.
pub proof fn lemma_no_split_runs(cells: Seq<Option<Piece>>, i: int)
    requires
        cells.len() <= 8,
        0 <= i,
        i + 1 < encode(cells).len(),
    ensures
        !(is_skip(encode(cells)[i]) && is_skip(encode(cells)[i + 1])),
    decreases cells.len(),
{
    let text = encode(cells);
    match cells.last() {
        Some(piece) => {
            let shorter = cells.drop_last();
            if i + 1 < text.len() - 1 {
                lemma_no_split_runs(shorter, i);
                assert(text[i] == encode(shorter)[i]);
                assert(text[i + 1] == encode(shorter)[i + 1]);
            } else {
                assert(text[i + 1] == piece.letter());
            }
        },
        None => {
            lemma_trailing_empties(cells);
            let kept = cells.take(cells.len() - trailing_empties(cells));
            if i + 1 < text.len() - 1 {
                lemma_no_split_runs(kept, i);
                assert(text[i] == encode(kept)[i]);
                assert(text[i + 1] == encode(kept)[i + 1]);
            } else {
                assert(text[i] == encode(kept).last());
                assert(kept.last() is Some);
                assert(encode(kept).last() == kept.last()->Some_0.letter());
            }
        },
    }
}

} // verus!
