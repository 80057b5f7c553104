use chess_fen::board::{Army, Board, Color, Piece, PieceType, Square};
use chess_fen::error::FenError;
use chess_fen::text::{digit_str, has_char, is_char, parse_number, push_decimal, split_on};

#[test]
fn empty_board() {
    let board = Board::empty();
    let none = Army { pawns: 0, knights: 0, bishops: 0, rooks: 0, queens: 0, king: 0 };
    assert_eq!(board.white, none);
    assert_eq!(board.black, none);
    assert_eq!(Army::empty(), none);
    assert_eq!(board.to_play, Color::White);
    assert!(!board.white_can_oo && !board.white_can_ooo);
    assert!(!board.black_can_oo && !board.black_can_ooo);
    assert_eq!(board.en_passant, None);
    assert_eq!(board.fifty_move_clock, 0);
    assert_eq!(board.full_move_clock, 0);
    for index in 0..64u8 {
        assert_eq!(board.piece_at(&Square::from_coords(index % 8, index / 8)), None);
    }
}

#[test]
fn squares_from_coordinates() {
    assert_eq!(Square::from_coords(0, 0).to_bitboard(), 1);
    assert_eq!(Square::from_coords(0, 7).to_bitboard(), 1 << 56);
    assert_eq!(Square::from_coords(7, 7).to_bitboard(), 1 << 63);
    assert_eq!(Square::from_coords(4, 2).to_bitboard(), 1 << 20);
    let sq = Square::from_coords(3, 5);
    assert_eq!((sq.file(), sq.rank()), (3, 5));
}

#[test]
fn squares_from_notation() {
    assert_eq!(Square::from_san("a8"), Ok(Square::from_coords(0, 7)));
    assert_eq!(Square::from_san("a1"), Ok(Square::from_coords(0, 0)));
    assert_eq!(Square::from_san("h8"), Ok(Square::from_coords(7, 7)));
    assert_eq!(Square::from_san("e3"), Ok(Square::from_coords(4, 2)));
    for text in ["", "a", "a9", "a0", "i1", "A1", "1a", "a1b", "a 1", "ä1", "-"] {
        assert_eq!(Square::from_san(text), Err(FenError::InvalidNotation), "{}", text);
    }
}

#[test]
fn notation_of_every_square() {
    let files = ["a", "b", "c", "d", "e", "f", "g", "h"];
    for rank in 0..8u8 {
        for file in 0..8u8 {
            let sq = Square::from_coords(file, rank);
            let text = sq.to_san();
            assert_eq!(text, format!("{}{}", files[file as usize], rank + 1));
            assert_eq!(Square::from_san(&text), Ok(sq));
        }
    }
}

#[test]
fn square_steps() {
    let e4 = Square::from_san("e4").unwrap();
    assert_eq!(e4.left(4), Square::from_san("a4").unwrap());
    assert_eq!(e4.left(0), e4);
    assert_eq!(e4.right(3), Square::from_san("h4").unwrap());
    assert_eq!(e4.right(4), Square::from_san("a5").unwrap());
    assert_eq!(e4.down(3), Square::from_san("e1").unwrap());
    assert_eq!(e4.down(1), Square::from_san("e3").unwrap());
    assert_eq!(Square::from_coords(7, 7).left(63), Square::from_coords(0, 0));
    assert_eq!(Square::from_coords(0, 0).right(63), Square::from_coords(7, 7));
    assert_eq!(Square::from_coords(7, 7).down(7), Square::from_coords(7, 0));
}

#[test]
fn piece_letters() {
    let letters = "PNBRQKpnbrqk";
    let kinds = [
        PieceType::Pawn,
        PieceType::Knight,
        PieceType::Bishop,
        PieceType::Rook,
        PieceType::Queen,
        PieceType::King,
    ];
    for (i, c) in letters.chars().enumerate() {
        let color = if i < 6 { Color::White } else { Color::Black };
        let piece = Piece { color, piece_type: kinds[i % 6] };
        assert_eq!(Piece::from_char(c), Some(piece));
        assert_eq!(piece.as_str(), c.to_string());
        assert_eq!(piece.to_string(), c.to_string());
    }
    for c in ['x', '1', ' ', '/', 'é', 'a'] {
        assert_eq!(Piece::from_char(c), None);
    }
}

#[test]
fn lookup_order_on_overlapping_bitboards() {
    let mut board = Board::empty();
    let a1 = Square::from_coords(0, 0);
    board.black.king = 1;
    assert_eq!(board.piece_at(&a1), Some(Piece { color: Color::Black, piece_type: PieceType::King }));
    board.black.pawns = 1;
    assert_eq!(board.piece_at(&a1), Some(Piece { color: Color::Black, piece_type: PieceType::Pawn }));
    board.white.king = 1;
    assert_eq!(board.piece_at(&a1), Some(Piece { color: Color::White, piece_type: PieceType::King }));
    board.white.queens = 1;
    assert_eq!(board.piece_at(&a1), Some(Piece { color: Color::White, piece_type: PieceType::Queen }));
    board.white.rooks = 1;
    assert_eq!(board.piece_at(&a1), Some(Piece { color: Color::White, piece_type: PieceType::Rook }));
    board.white.bishops = 1;
    assert_eq!(board.piece_at(&a1), Some(Piece { color: Color::White, piece_type: PieceType::Bishop }));
    board.white.knights = 1;
    assert_eq!(board.piece_at(&a1), Some(Piece { color: Color::White, piece_type: PieceType::Knight }));
    board.white.pawns = 1;
    assert_eq!(board.piece_at(&a1), Some(Piece { color: Color::White, piece_type: PieceType::Pawn }));
    assert_eq!(board.piece_at(&Square::from_coords(1, 0)), None);
}

#[test]
fn army_add_and_from_cells() {
    let mut army = Army::empty();
    army.add(PieceType::Rook, &Square::from_coords(0, 0));
    army.add(PieceType::Rook, &Square::from_coords(7, 0));
    army.add(PieceType::King, &Square::from_coords(4, 0));
    assert_eq!(army.rooks, 0x81);
    assert_eq!(army.king, 0x10);
    assert_eq!(army.pawns, 0);

    let mut cells: Vec<Option<Piece>> = vec![None; 64];
    cells[0] = Some(Piece { color: Color::White, piece_type: PieceType::Rook });
    cells[7] = Some(Piece { color: Color::White, piece_type: PieceType::Rook });
    cells[4] = Some(Piece { color: Color::White, piece_type: PieceType::King });
    cells[60] = Some(Piece { color: Color::Black, piece_type: PieceType::King });
    assert_eq!(Army::from_cells(&cells, Color::White), army);
    let black = Army::from_cells(&cells, Color::Black);
    assert_eq!(black.king, 1 << 60);
    assert_eq!(black.rooks, 0);
}

#[test]
fn diagram_of_the_starting_position() {
    let board =
        chess_fen::fen::parse_fen("rnbqkbnr/pppppppp/8/8/8/8/PPPPPPPP/RNBQKBNR w KQkq - 0 1")
            .unwrap();
    let expected = "\
+---+---+---+---+---+---+---+---+
| r | n | b | q | k | b | n | r |
+---+---+---+---+---+---+---+---+
| p | p | p | p | p | p | p | p |
+---+---+---+---+---+---+---+---+
|   |   |   |   |   |   |   |   |
+---+---+---+---+---+---+---+---+
|   |   |   |   |   |   |   |   |
+---+---+---+---+---+---+---+---+
|   |   |   |   |   |   |   |   |
+---+---+---+---+---+---+---+---+
|   |   |   |   |   |   |   |   |
+---+---+---+---+---+---+---+---+
| P | P | P | P | P | P | P | P |
+---+---+---+---+---+---+---+---+
| R | N | B | Q | K | B | N | R |
+---+---+---+---+---+---+---+---+
";
    assert_eq!(board.to_string(), expected);
}

#[test]
fn bitboard_of_every_square() {
    let mut all = 0u64;
    for index in 0..64u8 {
        let b = Square::from_coords(index % 8, index / 8).to_bitboard();
        assert_eq!(b, 1u64 << index);
        assert_eq!(b.count_ones(), 1);
        all |= b;
    }
    assert_eq!(all, u64::MAX);
}

#[test]
fn splitting() {
    assert_eq!(split_on("a b c", ' '), vec!["a", "b", "c"]);
    assert_eq!(split_on("", ' '), vec![""]);
    assert_eq!(split_on(" ", ' '), vec!["", ""]);
    assert_eq!(split_on("a  b ", ' '), vec!["a", "", "b", ""]);
    assert_eq!(split_on("é/ü", '/'), vec!["é", "ü"]);
    assert_eq!(split_on("abc", '/'), vec!["abc"]);
    for text in ["a b c", "", " ", "a  b ", "//x/"] {
        for sep in [' ', '/'] {
            let expected: Vec<&str> = text.split(sep).collect();
            assert_eq!(split_on(text, sep), expected);
        }
    }
}

#[test]
fn characters() {
    assert!(has_char("KQkq", 'k'));
    assert!(!has_char("KQ", 'k'));
    assert!(!has_char("", 'k'));
    assert!(is_char("w", 'w'));
    assert!(!is_char("w", 'b'));
    assert!(!is_char("ww", 'w'));
    assert!(!is_char("", 'w'));
}

#[test]
fn numbers() {
    assert_eq!(parse_number("0"), Some(0));
    assert_eq!(parse_number("305"), Some(305));
    assert_eq!(parse_number("+305"), Some(305));
    assert_eq!(parse_number("0305"), Some(305));
    assert_eq!(parse_number("18446744073709551615"), Some(u64::MAX));
    assert_eq!(parse_number("18446744073709551616"), None);
    assert_eq!(parse_number("18446744073709551620"), None);
    assert_eq!(parse_number(""), None);
    assert_eq!(parse_number("+"), None);
    assert_eq!(parse_number("3+"), None);
    assert_eq!(parse_number("-3"), None);
    assert_eq!(parse_number("3a"), None);

    for n in [0u64, 7, 10, 99, 100, 305, 1234567890, u64::MAX] {
        let mut out = String::from("n=");
        push_decimal(&mut out, n);
        assert_eq!(out, format!("n={}", n));
        assert_eq!(parse_number(&out[2..]), Some(n));
    }
    for n in 0..10u64 {
        assert_eq!(digit_str(n), n.to_string());
    }
}
