use chess_fen::board::{Army, Board, Color, Piece, PieceType, Square};
use chess_fen::error::FenError;
use chess_fen::fen::{
    parse_castling, parse_en_passant, parse_fen, parse_fifty_move, parse_full_move,
    parse_piece_placement, parse_rank, parse_side_to_play, to_fen,
};

const START: &str = "rnbqkbnr/pppppppp/8/8/8/8/PPPPPPPP/RNBQKBNR w KQkq - 0 1";

fn piece(color: Color, piece_type: PieceType) -> Option<Piece> {
    Some(Piece { color, piece_type })
}

fn square(name: &str) -> Square {
    Square::from_san(name).unwrap()
}

#[test]
fn test_fen_starting_position() {
    let fen = "rnbqkbnr/pppppppp/8/8/8/8/PPPPPPPP/RNBQKBNR w KQkq - 0 1";
    let board = parse_fen(fen).unwrap();

    println!("");
    println!("{}", board.to_string());
    assert_eq!(board.white.pawns, 0x0000_0000_0000_ff00);
    assert_eq!(board.white.knights, 0x42);
    assert_eq!(board.white.bishops, 0x24);
    assert_eq!(board.white.rooks, 0x81);
    assert_eq!(board.white.queens, 0x08);
    assert_eq!(board.white.king, 0x10);
    assert_eq!(board.black.pawns, 0x00ff_0000_0000_0000);
    assert_eq!(board.black.knights, 0x4200_0000_0000_0000);
    assert_eq!(board.black.bishops, 0x2400_0000_0000_0000);
    assert_eq!(board.black.rooks, 0x8100_0000_0000_0000);
    assert_eq!(board.black.queens, 0x0800_0000_0000_0000);
    assert_eq!(board.black.king, 0x1000_0000_0000_0000);
    assert_eq!(board.to_play, Color::White);
    assert!(board.white_can_oo && board.white_can_ooo);
    assert!(board.black_can_oo && board.black_can_ooo);
    assert_eq!(board.en_passant, None);
    assert_eq!(board.fifty_move_clock, 0);
    assert_eq!(board.full_move_clock, 1);
}

#[test]
fn starting_position_round_trips() {
    let board = parse_fen(START).unwrap();
    assert_eq!(to_fen(&board), START);
    assert_eq!(parse_fen(&to_fen(&board)), Ok(board));
}

#[test]
fn starting_position_lookups() {
    let board = parse_fen(START).unwrap();
    assert_eq!(board.piece_at(&square("a1")), piece(Color::White, PieceType::Rook));
    assert_eq!(board.piece_at(&square("e8")), piece(Color::Black, PieceType::King));
    assert_eq!(board.piece_at(&square("e4")), None);
    assert_eq!(board.piece_at(&square("d1")), piece(Color::White, PieceType::Queen));
    assert_eq!(board.piece_at(&square("g8")), piece(Color::Black, PieceType::Knight));
    assert_eq!(board.piece_at(&square("h7")), piece(Color::Black, PieceType::Pawn));
}

#[test]
fn empty_rank_is_one_digit() {
    let text = to_fen(&Board::empty());
    assert_eq!(text, "8/8/8/8/8/8/8/8 w - - 0 0");
    let board = parse_fen("4k3/8/8/8/8/8/8/4K3 w - - 0 1").unwrap();
    assert_eq!(to_fen(&board), "4k3/8/8/8/8/8/8/4K3 w - - 0 1");
}

#[test]
fn split_runs_are_coalesced() {
    let board = parse_fen("44/11111111/1p1p1p2/p7/7p/3P4/2P11P11/8 b - - 3 7").unwrap();
    assert_eq!(to_fen(&board), "8/8/1p1p1p2/p7/7p/3P4/2P2P2/8 b - - 3 7");
}

#[test]
fn partial_castling_rights() {
    let board = parse_fen("r3k2r/8/8/8/8/8/8/R3K2R w Kq - 0 1").unwrap();
    assert!(board.white_can_oo);
    assert!(!board.white_can_ooo);
    assert!(!board.black_can_oo);
    assert!(board.black_can_ooo);
    assert_eq!(to_fen(&board), "r3k2r/8/8/8/8/8/8/R3K2R w Kq - 0 1");
}

#[test]
fn castling_field_is_read_by_letters_present() {
    let mut board = Board::empty();
    parse_castling("qK", &mut board);
    assert!(board.white_can_oo && board.black_can_ooo);
    assert!(!board.white_can_ooo && !board.black_can_oo);
    parse_castling("-", &mut board);
    assert!(!board.white_can_oo && !board.white_can_ooo);
    assert!(!board.black_can_oo && !board.black_can_ooo);
    parse_castling("kkxQ", &mut board);
    assert!(!board.white_can_oo && board.white_can_ooo);
    assert!(board.black_can_oo && !board.black_can_ooo);
    parse_castling("", &mut board);
    assert_eq!(board, Board::empty());

    let board = parse_fen("r3k2r/8/8/8/8/8/8/R3K2R b qkQK - 0 1").unwrap();
    assert_eq!(to_fen(&board), "r3k2r/8/8/8/8/8/8/R3K2R b KQkq - 0 1");
}

#[test]
fn en_passant_target() {
    let board = parse_fen("rnbqkbnr/pppppppp/8/8/4P3/8/PPPP1PPP/RNBQKBNR b KQkq e3 0 1").unwrap();
    assert_eq!(board.en_passant, Some(Square::from_coords(4, 2)));
    let target = board.en_passant.unwrap();
    assert_eq!((target.file(), target.rank()), (4, 2));
    assert_eq!(
        to_fen(&board),
        "rnbqkbnr/pppppppp/8/8/4P3/8/PPPP1PPP/RNBQKBNR b KQkq e3 0 1"
    );

    let mut board = Board::empty();
    assert_eq!(parse_en_passant("e3", &mut board), Ok(()));
    assert_eq!(board.en_passant, Some(Square::from_coords(4, 2)));
    assert_eq!(parse_en_passant("-", &mut board), Ok(()));
    assert_eq!(board.en_passant, None);
    assert!(to_fen(&board).contains(" - - "));
}

#[test]
fn en_passant_faults() {
    for text in ["", "e", "e9", "i3", "e0", "E3", "e3 ", "e33", "--", "3e"] {
        let mut board = Board::empty();
        assert_eq!(parse_en_passant(text, &mut board), Err(FenError::InvalidNotation));
        assert_eq!(board, Board::empty());
    }
    assert_eq!(
        parse_fen("8/8/8/8/8/8/8/8 w - e9 0 1"),
        Err(FenError::InvalidNotation)
    );
}

#[test]
fn wrong_field_count() {
    assert_eq!(
        parse_fen("rnbqkbnr/pppppppp/8/8/8/8/PPPPPPPP/RNBQKBNR w KQkq - 0"),
        Err(FenError::WrongFieldCount)
    );
    assert_eq!(parse_fen(""), Err(FenError::WrongFieldCount));
    assert_eq!(
        parse_fen("8/8/8/8/8/8/8/8 w - - 0 1 "),
        Err(FenError::WrongFieldCount)
    );
    assert_eq!(
        parse_fen("8/8/8/8/8/8/8/8  w - - 0 1"),
        Err(FenError::WrongFieldCount)
    );
    assert_eq!(
        parse_fen("8/8/8/8/8/8/8/8 w - - 0 1 extra"),
        Err(FenError::WrongFieldCount)
    );
    // The number of fields is judged before any field is.
    assert_eq!(parse_fen("x y"), Err(FenError::WrongFieldCount));
}

#[test]
fn unknown_piece_char() {
    assert_eq!(
        parse_fen("rnbqkbnr/pppppppp/8/8/8/8/PPPPPPPP/RNBQKBNx w KQkq - 0 1"),
        Err(FenError::UnknownPieceChar)
    );
    assert_eq!(
        parse_fen("9/8/8/8/8/8/8/8 w - - 0 1"),
        Err(FenError::UnknownPieceChar)
    );
    assert_eq!(
        parse_fen("8/8/8/8/8/8/8/70 w - - 0 1"),
        Err(FenError::UnknownPieceChar)
    );
    assert_eq!(parse_rank("8x").err(), Some(FenError::UnknownPieceChar));
    assert_eq!(parse_rank("é7").err(), Some(FenError::UnknownPieceChar));
}

#[test]
fn unknown_side() {
    assert_eq!(
        parse_fen("rnbqkbnr/pppppppp/8/8/8/8/PPPPPPPP/RNBQKBNR x KQkq - 0 1"),
        Err(FenError::UnknownSide)
    );
    for text in ["", "W", "B", "wb", "white", "-"] {
        let mut board = Board::empty();
        assert_eq!(parse_side_to_play(text, &mut board), Err(FenError::UnknownSide));
    }
    let mut board = Board::empty();
    assert_eq!(parse_side_to_play("b", &mut board), Ok(()));
    assert_eq!(board.to_play, Color::Black);
    assert_eq!(parse_side_to_play("w", &mut board), Ok(()));
    assert_eq!(board.to_play, Color::White);
}

#[test]
fn malformed_rank() {
    for placement in [
        "8/8/8/8/8/8/8",
        "8/8/8/8/8/8/8/8/8",
        "8/8/8/8/8/8/8/7",
        "8/8/8/8/8/8/8/9p",
        "8/8/8/8/8/8/8/p8",
        "8/8/8/8/8/8/8/8p",
        "8/8/8/8/8/8/8/ppppppppp",
        "8/8/8/8//8/8/8",
        "",
        "8/8/8/8/8/8/8/8/",
        "/8/8/8/8/8/8/8",
    ] {
        let mut board = Board::empty();
        let expected = if placement.contains('9') {
            FenError::UnknownPieceChar
        } else {
            FenError::MalformedRank
        };
        assert_eq!(parse_piece_placement(placement, &mut board), Err(expected), "{}", placement);
        assert_eq!(board, Board::empty());
    }
}

#[test]
fn first_fault_wins() {
    // A rank that is too long before an unknown character.
    assert_eq!(parse_rank("8px").err(), Some(FenError::MalformedRank));
    assert_eq!(parse_rank("54x").err(), Some(FenError::MalformedRank));
    // An unknown character before the rank would be too long or too short.
    assert_eq!(parse_rank("x8p").err(), Some(FenError::UnknownPieceChar));
    assert_eq!(parse_rank("7x").err(), Some(FenError::UnknownPieceChar));
    assert_eq!(parse_rank("x").err(), Some(FenError::UnknownPieceChar));
    // A short rank before a rank with an unknown character.
    let mut board = Board::empty();
    assert_eq!(
        parse_piece_placement("7/x7/8/8/8/8/8/8", &mut board),
        Err(FenError::MalformedRank)
    );
    assert_eq!(
        parse_piece_placement("8/x7/7/8/8/8/8/8", &mut board),
        Err(FenError::UnknownPieceChar)
    );
    // A ninth rank is never read.
    assert_eq!(
        parse_piece_placement("8/8/8/8/8/8/8/8/x", &mut board),
        Err(FenError::MalformedRank)
    );
    // Too few ranks, one of them with an unknown character.
    assert_eq!(
        parse_piece_placement("8/x7", &mut board),
        Err(FenError::UnknownPieceChar)
    );
    // Fields are judged from left to right.
    assert_eq!(parse_fen("8/8/8/8/8/8/8/x7 x - e9 a b"), Err(FenError::UnknownPieceChar));
    assert_eq!(parse_fen("8/8/8/8/8/8/8/8 x - e9 a b"), Err(FenError::UnknownSide));
    assert_eq!(parse_fen("8/8/8/8/8/8/8/8 w - e9 a b"), Err(FenError::InvalidNotation));
    assert_eq!(parse_fen("8/8/8/8/8/8/8/8 w - e3 a 1"), Err(FenError::InvalidNumber));
    assert_eq!(parse_fen("8/8/8/8/8/8/8/8 w - e3 0 b"), Err(FenError::InvalidNumber));
}

#[test]
fn rank_cells() {
    let cells = parse_rank("r3k2R").unwrap();
    assert_eq!(
        cells,
        vec![
            piece(Color::Black, PieceType::Rook),
            None,
            None,
            None,
            piece(Color::Black, PieceType::King),
            None,
            None,
            piece(Color::White, PieceType::Rook),
        ]
    );
    assert_eq!(parse_rank("8").unwrap(), vec![None; 8]);
    assert_eq!(parse_rank("1232").unwrap(), vec![None; 8]);
}

#[test]
fn placement_replaces_the_pieces() {
    let mut board = parse_fen(START).unwrap();
    assert_eq!(parse_piece_placement("8/8/8/8/8/8/8/K7", &mut board), Ok(()));
    assert_eq!(board.white.king, 1);
    assert_eq!(board.white.pawns, 0);
    assert_eq!(board.black, Army { pawns: 0, knights: 0, bishops: 0, rooks: 0, queens: 0, king: 0 });
    assert!(board.white_can_oo);
    assert_eq!(board.full_move_clock, 1);
}

#[test]
fn counters() {
    let board = parse_fen("8/8/8/8/8/8/8/8 w - - 49 123").unwrap();
    assert_eq!(board.fifty_move_clock, 49);
    assert_eq!(board.full_move_clock, 123);
    assert_eq!(to_fen(&board), "8/8/8/8/8/8/8/8 w - - 49 123");

    let board = parse_fen("8/8/8/8/8/8/8/8 w - - 18446744073709551615 0").unwrap();
    assert_eq!(board.fifty_move_clock, u64::MAX);
    assert_eq!(to_fen(&board), "8/8/8/8/8/8/8/8 w - - 18446744073709551615 0");

    let board = parse_fen("8/8/8/8/8/8/8/8 w - - 007 +12").unwrap();
    assert_eq!(board.fifty_move_clock, 7);
    assert_eq!(board.full_move_clock, 12);
    assert_eq!(to_fen(&board), "8/8/8/8/8/8/8/8 w - - 7 12");
}

#[test]
fn counter_faults() {
    for text in ["", "+", "-", "-1", "1.5", "x", "1x", " 1", "18446744073709551616", "99999999999999999999999", "++1", "1+", "٣"] {
        let mut board = Board::empty();
        assert_eq!(parse_fifty_move(text, &mut board), Err(FenError::InvalidNumber), "{}", text);
        assert_eq!(parse_full_move(text, &mut board), Err(FenError::InvalidNumber), "{}", text);
        assert_eq!(board, Board::empty());
    }
    let mut board = Board::empty();
    assert_eq!(parse_fifty_move("10", &mut board), Ok(()));
    assert_eq!(parse_full_move("20", &mut board), Ok(()));
    assert_eq!((board.fifty_move_clock, board.full_move_clock), (10, 20));
}

#[test]
fn counters_agree_with_the_standard_parser() {
    for text in ["0", "00", "+0", "42", "+42", "0042", "18446744073709551615", "18446744073709551616", "", "+", "-0", "4 2", "4_2", "0x10"] {
        let mut board = Board::empty();
        let expected = text.parse::<u64>().ok();
        let got = parse_full_move(text, &mut board).ok().map(|_| board.full_move_clock);
        assert_eq!(got, expected, "{}", text);
    }
}

#[test]
fn parsed_boards_hold_one_piece_per_square() {
    for fen in [
        START,
        "r1bqkb1r/pppp1ppp/2n2n2/4p3/2B1P3/5N2/PPPP1PPP/RNBQK2R w KQkq - 4 4",
        "8/5k2/3p4/1p1Pp2p/pP2Pp1P/P4P1K/8/8 b - - 99 50",
        "QQQQQQQQ/qqqqqqqq/NNNNNNNN/nnnnnnnn/BBBBBBBB/bbbbbbbb/KKKKKKKK/kkkkkkkk w - - 0 1",
    ] {
        let board = parse_fen(fen).unwrap();
        let masks = [
            board.white.pawns,
            board.white.knights,
            board.white.bishops,
            board.white.rooks,
            board.white.queens,
            board.white.king,
            board.black.pawns,
            board.black.knights,
            board.black.bishops,
            board.black.rooks,
            board.black.queens,
            board.black.king,
        ];
        for index in 0..64u8 {
            let sq = Square::from_coords(index % 8, index / 8);
            let holders = masks.iter().filter(|m| *m & sq.to_bitboard() != 0).count();
            assert!(holders <= 1);
            assert_eq!(holders == 1, board.piece_at(&sq).is_some());
        }
        assert_eq!(to_fen(&board), fen);
        assert_eq!(parse_fen(&to_fen(&board)), Ok(board));
    }
}

#[test]
fn overlapping_bitboards_are_written_by_lookup_order() {
    let mut board = Board::empty();
    board.white.pawns = 1;
    board.black.king = 1;
    board.white.king = 3;
    assert_eq!(to_fen(&board), "8/8/8/8/8/8/8/PK6 w - - 0 0");
    let again = parse_fen(&to_fen(&board)).unwrap();
    assert_eq!(again.white.pawns, 1);
    assert_eq!(again.white.king, 2);
    assert_eq!(again.black.king, 0);
}
