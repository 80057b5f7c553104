//! The position model: squares, pieces, and a board of twelve bitboards.

use vstd::prelude::*;
use crate::bits::{
    bit, has_bit, lemma_bit_has, lemma_or_bit, lemma_same_bits_equal, lemma_zero_has_no_bit,
};
use crate::error::FenError;

verus! {

/// A set of squares: bit `i` is set when square `i` belongs to the set.
pub type Bitboard = u64;

#[derive(Clone, Copy, Debug, PartialEq, Eq, Structural)]
pub enum Color {
    White,
    Black,
}

#[derive(Clone, Copy, Debug, PartialEq, Eq, Structural)]
pub enum PieceType {
    Pawn,
    Knight,
    Bishop,
    Rook,
    Queen,
    King,
}

/// What stands on a square. A piece is never stored: it is what a lookup on
/// the board answers.
#[derive(Clone, Copy, Debug, PartialEq, Eq, Structural)]
pub struct Piece {
    pub color: Color,
    pub piece_type: PieceType,
}

impl Piece {
    /// The letter that stands for the piece: upper case for White, lower
    /// case for Black.
    pub open spec fn letter(self) -> char {
        match (self.color, self.piece_type) {
            (Color::White, PieceType::Pawn) => 'P',
            (Color::White, PieceType::Knight) => 'N',
            (Color::White, PieceType::Bishop) => 'B',
            (Color::White, PieceType::Rook) => 'R',
            (Color::White, PieceType::Queen) => 'Q',
            (Color::White, PieceType::King) => 'K',
            (Color::Black, PieceType::Pawn) => 'p',
            (Color::Black, PieceType::Knight) => 'n',
            (Color::Black, PieceType::Bishop) => 'b',
            (Color::Black, PieceType::Rook) => 'r',
            (Color::Black, PieceType::Queen) => 'q',
            (Color::Black, PieceType::King) => 'k',
        }
    }

    /// The piece that a letter stands for, if it stands for one.
    pub open spec fn of_letter(c: char) -> Option<Piece> {
        if c == 'P' {
            Some(Piece { color: Color::White, piece_type: PieceType::Pawn })
        } else if c == 'N' {
            Some(Piece { color: Color::White, piece_type: PieceType::Knight })
        } else if c == 'B' {
            Some(Piece { color: Color::White, piece_type: PieceType::Bishop })
        } else if c == 'R' {
            Some(Piece { color: Color::White, piece_type: PieceType::Rook })
        } else if c == 'Q' {
            Some(Piece { color: Color::White, piece_type: PieceType::Queen })
        } else if c == 'K' {
            Some(Piece { color: Color::White, piece_type: PieceType::King })
        } else if c == 'p' {
            Some(Piece { color: Color::Black, piece_type: PieceType::Pawn })
        } else if c == 'n' {
            Some(Piece { color: Color::Black, piece_type: PieceType::Knight })
        } else if c == 'b' {
            Some(Piece { color: Color::Black, piece_type: PieceType::Bishop })
        } else if c == 'r' {
            Some(Piece { color: Color::Black, piece_type: PieceType::Rook })
        } else if c == 'q' {
            Some(Piece { color: Color::Black, piece_type: PieceType::Queen })
        } else if c == 'k' {
            Some(Piece { color: Color::Black, piece_type: PieceType::King })
        } else {
            None
        }
    }

    /// Every piece is the one its letter stands for, and a letter stands
    /// for no other piece.
    pub proof fn lemma_letter(self, c: char)
        ensures
            Piece::of_letter(self.letter()) == Some(self),
            Piece::of_letter(c) == Some(self) <==> c == self.letter(),
    {
    }

    /// The piece that the letter `c` stands for.
    pub fn from_char(c: char) -> (r: Option<Piece>)
        ensures
            r == Piece::of_letter(c),
    {
        match c {
            'P' => Some(Piece { color: Color::White, piece_type: PieceType::Pawn }),
            'N' => Some(Piece { color: Color::White, piece_type: PieceType::Knight }),
            'B' => Some(Piece { color: Color::White, piece_type: PieceType::Bishop }),
            'R' => Some(Piece { color: Color::White, piece_type: PieceType::Rook }),
            'Q' => Some(Piece { color: Color::White, piece_type: PieceType::Queen }),
            'K' => Some(Piece { color: Color::White, piece_type: PieceType::King }),
            'p' => Some(Piece { color: Color::Black, piece_type: PieceType::Pawn }),
            'n' => Some(Piece { color: Color::Black, piece_type: PieceType::Knight }),
            'b' => Some(Piece { color: Color::Black, piece_type: PieceType::Bishop }),
            'r' => Some(Piece { color: Color::Black, piece_type: PieceType::Rook }),
            'q' => Some(Piece { color: Color::Black, piece_type: PieceType::Queen }),
            'k' => Some(Piece { color: Color::Black, piece_type: PieceType::King }),
            _ => None,
        }
    }

    /// The letter of the piece as a text of one character.
    pub fn as_str(&self) -> (text: &'static str)
        ensures
            text@ == seq![self.letter()],
    {
        proof {
            reveal_strlit("P");
            reveal_strlit("N");
            reveal_strlit("B");
            reveal_strlit("R");
            reveal_strlit("Q");
            reveal_strlit("K");
            reveal_strlit("p");
            reveal_strlit("n");
            reveal_strlit("b");
            reveal_strlit("r");
            reveal_strlit("q");
            reveal_strlit("k");
        }
        let text = match (self.color, self.piece_type) {
            (Color::White, PieceType::Pawn) => "P",
            (Color::White, PieceType::Knight) => "N",
            (Color::White, PieceType::Bishop) => "B",
            (Color::White, PieceType::Rook) => "R",
            (Color::White, PieceType::Queen) => "Q",
            (Color::White, PieceType::King) => "K",
            (Color::Black, PieceType::Pawn) => "p",
            (Color::Black, PieceType::Knight) => "n",
            (Color::Black, PieceType::Bishop) => "b",
            (Color::Black, PieceType::Rook) => "r",
            (Color::Black, PieceType::Queen) => "q",
            (Color::Black, PieceType::King) => "k",
        };
        assert(text@ =~= seq![self.letter()]);
        text
    }

    /// The letter of the piece, as it is shown in a diagram.
    pub fn to_string(&self) -> (text: String)
        ensures
            text@ == seq![self.letter()],
    {
        String::from_str(self.as_str())
    }
}

/// One of the 64 squares. Its view is its index, `file + 8 * rank`, where
/// file 0 is the a-file and rank 0 is the first rank.
#[derive(Clone, Copy, Debug, PartialEq, Eq, Structural)]
pub struct Square(u8);

impl View for Square {
    type V = int;

    closed spec fn view(&self) -> int {
        self.0 as int
    }
}

impl Square {
    /// Every square that executable code can hold lies on the board.
    #[verifier::type_invariant]
    pub open spec fn wf(self) -> bool {
        0 <= self@ < 64
    }

    /// The square with index `i`.
    pub closed spec fn at(i: int) -> Square {
        Square(i as u8)
    }

    /// `at` and the view are inverse to each other on the board.
    pub proof fn lemma_at(i: int)
        requires
            0 <= i < 64,
        ensures
            Square::at(i)@ == i,
            Square::at(i).wf(),
    {
    }

    /// A square is determined by its index.
    pub proof fn lemma_view_injective(self, other: Square)
        requires
            self@ == other@,
        ensures
            self == other,
    {
    }

    /// Makes a square from a (file, rank) pair, each from 0 to 7. To
    /// represent "a8", pass (0, 7).
    pub fn from_coords(file: u8, rank: u8) -> (sq: Square)
        requires
            file < 8,
            rank < 8,
        ensures
            sq@ == file + 8 * rank,
            sq == Square::at(file + 8 * rank),
    {
        Square(file + rank * 8)
    }

    /// The file of the square, 0 for the a-file to 7 for the h-file.
    pub fn file(&self) -> (f: u8)
        ensures
            f == self@ % 8,
    {
        proof {
            use_type_invariant(self);
        }
        self.0 % 8
    }

    /// The rank of the square, 0 for the first rank to 7 for the eighth.
    pub fn rank(&self) -> (r: u8)
        ensures
            r == self@ / 8,
    {
        proof {
            use_type_invariant(self);
        }
        self.0 / 8
    }

    /// The bitboard that holds this square and no other.
    pub fn to_bitboard(&self) -> (b: Bitboard)
        ensures
            b == bit(self@),
            forall|i: int| has_bit(b, i) <==> i == self@,
    {
        proof {
            use_type_invariant(self);
            assert forall|i: int| has_bit(bit(self@), i) <==> i == self@ by {
                lemma_bit_has(self@, i);
            }
        }
        1u64 << self.0
    }

    /// The square `amount` places before this one in index order. Within a
    /// rank that is `amount` files towards the a-file; past the a-file the
    /// count goes on at the h-file of the rank below. The caller sees to it
    /// that the count stays on the board.
    pub fn left(&self, amount: u8) -> (sq: Square)
        requires
            amount <= self@,
        ensures
            sq@ == self@ - amount,
    {
        proof {
            use_type_invariant(self);
        }
        Square(self.0 - amount)
    }

    /// The square `amount` places behind this one in index order. Within a
    /// rank that is `amount` files towards the h-file; past the h-file the
    /// count goes on at the a-file of the rank above. The caller sees to it
    /// that the count stays on the board.
    pub fn right(&self, amount: u8) -> (sq: Square)
        requires
            self@ + amount < 64,
        ensures
            sq@ == self@ + amount,
    {
        Square(self.0 + amount)
    }

    /// The square `amount` ranks towards the first rank, on the same file.
    /// The caller sees to it that there are that many ranks below.
    pub fn down(&self, amount: u8) -> (sq: Square)
        requires
            8 * amount <= self@,
        ensures
            sq@ == self@ - 8 * amount,
    {
        proof {
            use_type_invariant(self);
        }
        Square(self.0 - amount * 8)
    }
}

/// Whether `c` names a file: a letter from a to h.
pub open spec fn is_file_letter(c: char) -> bool {
    'a' <= c <= 'h'
}

/// Whether `c` names a rank: a digit from 1 to 8.
pub open spec fn is_rank_digit(c: char) -> bool {
    '1' <= c <= '8'
}

/// Whether `text` is a square in algebraic notation, such as "e4".
pub open spec fn is_san(text: Seq<char>) -> bool {
    &&& text.len() == 2
    &&& is_file_letter(text[0])
    &&& is_rank_digit(text[1])
}

/// The index of the square that `text` names, where `is_san(text)`.
pub open spec fn san_index(text: Seq<char>) -> int {
    (text[0] as int - 'a' as int) + 8 * (text[1] as int - '1' as int)
}

/// The algebraic notation of the square with index `i`.
pub open spec fn san_text(i: int) -> Seq<char> {
    seq![('a' as int + i % 8) as char, ('1' as int + i / 8) as char]
}

/// What `Square::from_san` makes of a text.
pub open spec fn san_square(text: Seq<char>) -> Result<Square, FenError> {
    if is_san(text) {
        Ok(Square::at(san_index(text)))
    } else {
        Err(FenError::InvalidNotation)
    }
}

/// Reading back the notation of a square gives that square.
pub proof fn lemma_san_round_trip(i: int)
    requires
        0 <= i < 64,
    ensures
        is_san(san_text(i)),
        san_index(san_text(i)) == i,
{
}

/// Writing out the square that a text names gives that text.
pub proof fn lemma_san_text_of_index(text: Seq<char>)
    requires
        is_san(text),
    ensures
        0 <= san_index(text) < 64,
        san_text(san_index(text)) == text,
{
    assert(san_text(san_index(text)) =~= text);
}

impl Square {
    /// Makes a square from algebraic notation (e.g. "a8"): a file letter
    /// from a to h followed by a rank digit from 1 to 8, and nothing else.
    pub fn from_san(san: &str) -> (r: Result<Square, FenError>)
        ensures
            r == san_square(san@),
    {
        if san.unicode_len() != 2 {
            return Err(FenError::InvalidNotation);
        }
        let file: u8 = match san.get_char(0) {
            'a' => 0,
            'b' => 1,
            'c' => 2,
            'd' => 3,
            'e' => 4,
            'f' => 5,
            'g' => 6,
            'h' => 7,
            _ => {
                return Err(FenError::InvalidNotation);
            },
        };
        let rank: u8 = match san.get_char(1) {
            '1' => 0,
            '2' => 1,
            '3' => 2,
            '4' => 3,
            '5' => 4,
            '6' => 5,
            '7' => 6,
            '8' => 7,
            _ => {
                return Err(FenError::InvalidNotation);
            },
        };
        Ok(Square::from_coords(file, rank))
    }

    /// The algebraic notation of the square.
    pub fn to_san(&self) -> (text: String)
        ensures
            text@ == san_text(self@),
    {
        proof {
            use_type_invariant(self);
            reveal_strlit("a");
            reveal_strlit("b");
            reveal_strlit("c");
            reveal_strlit("d");
            reveal_strlit("e");
            reveal_strlit("f");
            reveal_strlit("g");
            reveal_strlit("h");
            reveal_strlit("1");
            reveal_strlit("2");
            reveal_strlit("3");
            reveal_strlit("4");
            reveal_strlit("5");
            reveal_strlit("6");
            reveal_strlit("7");
            reveal_strlit("8");
        }
        let file: &str = match self.file() {
            0 => "a",
            1 => "b",
            2 => "c",
            3 => "d",
            4 => "e",
            5 => "f",
            6 => "g",
            _ => "h",
        };
        let rank: &str = match self.rank() {
            0 => "1",
            1 => "2",
            2 => "3",
            3 => "4",
            4 => "5",
            5 => "6",
            6 => "7",
            _ => "8",
        };
        let mut text = String::new();
        text.append(file);
        text.append(rank);
        assert(text@ =~= san_text(self@));
        text
    }
}

/// The pieces of one side: for each kind, the squares on which a piece of
/// that kind stands.
#[derive(Clone, Copy, Debug, PartialEq, Eq, Structural)]
pub struct Army {
    pub pawns: Bitboard,
    pub knights: Bitboard,
    pub bishops: Bitboard,
    pub rooks: Bitboard,
    pub queens: Bitboard,
    pub king: Bitboard,
}

impl Army {
    /// The army without pieces.
    pub open spec fn vacant() -> Army {
        Army { pawns: 0, knights: 0, bishops: 0, rooks: 0, queens: 0, king: 0 }
    }

    /// The squares of the pieces of one kind.
    pub open spec fn mask(self, kind: PieceType) -> Bitboard {
        match kind {
            PieceType::Pawn => self.pawns,
            PieceType::Knight => self.knights,
            PieceType::Bishop => self.bishops,
            PieceType::Rook => self.rooks,
            PieceType::Queen => self.queens,
            PieceType::King => self.king,
        }
    }

    /// The first kind, in the order pawn, knight, bishop, rook, queen, king,
    /// of which the army has a piece on square `i`.
    pub open spec fn kind_at(self, i: int) -> Option<PieceType> {
        if has_bit(self.pawns, i) {
            Some(PieceType::Pawn)
        } else if has_bit(self.knights, i) {
            Some(PieceType::Knight)
        } else if has_bit(self.bishops, i) {
            Some(PieceType::Bishop)
        } else if has_bit(self.rooks, i) {
            Some(PieceType::Rook)
        } else if has_bit(self.queens, i) {
            Some(PieceType::Queen)
        } else if has_bit(self.king, i) {
            Some(PieceType::King)
        } else {
            None
        }
    }

    /// An army is determined by its six bitboards.
    pub proof fn lemma_masks_determine(self, other: Army)
        requires
            forall|t: PieceType| #[trigger] self.mask(t) == other.mask(t),
        ensures
            self == other,
    {
        assert(self.mask(PieceType::Pawn) == other.mask(PieceType::Pawn));
        assert(self.mask(PieceType::Knight) == other.mask(PieceType::Knight));
        assert(self.mask(PieceType::Bishop) == other.mask(PieceType::Bishop));
        assert(self.mask(PieceType::Rook) == other.mask(PieceType::Rook));
        assert(self.mask(PieceType::Queen) == other.mask(PieceType::Queen));
        assert(self.mask(PieceType::King) == other.mask(PieceType::King));
    }

    /// The army without pieces.
    pub fn empty() -> (army: Army)
        ensures
            army == Army::vacant(),
    {
        Army { pawns: 0, knights: 0, bishops: 0, rooks: 0, queens: 0, king: 0 }
    }

    /// Puts a piece of the given kind on a square. What stood there stays.
    pub fn add(&mut self, kind: PieceType, square: &Square)
        ensures
            forall|t: PieceType| #[trigger]
                final(self).mask(t) == if t == kind {
                    old(self).mask(t) | bit(square@)
                } else {
                    old(self).mask(t)
                },
    {
        let b = square.to_bitboard();
        match kind {
            PieceType::Pawn => {
                self.pawns = self.pawns | b;
            },
            PieceType::Knight => {
                self.knights = self.knights | b;
            },
            PieceType::Bishop => {
                self.bishops = self.bishops | b;
            },
            PieceType::Rook => {
                self.rooks = self.rooks | b;
            },
            PieceType::Queen => {
                self.queens = self.queens | b;
            },
            PieceType::King => {
                self.king = self.king | b;
            },
        }
    }

    /// The army of `color` that stands as `cells` shows, where `cells`
    /// lists what is on each of the 64 squares in index order.
    pub open spec fn of_cells(cells: Seq<Option<Piece>>, color: Color) -> Army {
        Army {
            pawns: cells_mask(cells, Piece { color, piece_type: PieceType::Pawn }),
            knights: cells_mask(cells, Piece { color, piece_type: PieceType::Knight }),
            bishops: cells_mask(cells, Piece { color, piece_type: PieceType::Bishop }),
            rooks: cells_mask(cells, Piece { color, piece_type: PieceType::Rook }),
            queens: cells_mask(cells, Piece { color, piece_type: PieceType::Queen }),
            king: cells_mask(cells, Piece { color, piece_type: PieceType::King }),
        }
    }

    /// Gathers the pieces of one side from a list of what is on each of the
    /// 64 squares, in index order.
    pub fn from_cells(cells: &Vec<Option<Piece>>, color: Color) -> (army: Army)
        requires
            cells@.len() == 64,
        ensures
            army == Army::of_cells(cells@, color),
    {
        let mut army = Army::empty();
        let mut i: u8 = 0;
        while i < 64
            invariant
                i <= 64,
                cells@.len() == 64,
                forall|t: PieceType| #[trigger]
                    army.mask(t) == cells_mask_upto(
                        cells@,
                        Piece { color, piece_type: t },
                        i as int,
                    ),
            decreases 64 - i,
        {
            let ghost before = army;
            match cells[i as usize] {
                Some(piece) => {
                    if piece.color == color {
                        let sq = Square::from_coords(i % 8, i / 8);
                        army.add(piece.piece_type, &sq);
                    }
                },
                None => {},
            }
            i = i + 1;
            assert forall|t: PieceType| #[trigger]
                army.mask(t) == cells_mask_upto(
                    cells@,
                    Piece { color, piece_type: t },
                    i as int,
                ) by {
                assert(before.mask(t) == cells_mask_upto(
                    cells@,
                    Piece { color, piece_type: t },
                    i - 1,
                ));
            }
        }
        proof {
            let made = Army::of_cells(cells@, color);
            assert forall|t: PieceType| #[trigger] army.mask(t) == made.mask(t) by {
                assert(made.mask(t) == cells_mask(cells@, Piece { color, piece_type: t }));
            }
            army.lemma_masks_determine(made);
        }
        army
    }
}

/// The squares below `n` on which `cells` shows `piece`, as a bitboard.
pub open spec fn cells_mask_upto(cells: Seq<Option<Piece>>, piece: Piece, n: int) -> Bitboard
    decreases n,
{
    if n <= 0 {
        0
    } else {
        let below = cells_mask_upto(cells, piece, n - 1);
        if cells[n - 1] == Some(piece) {
            below | bit(n - 1)
        } else {
            below
        }
    }
}

/// The squares on which `cells` shows `piece`, as a bitboard.
pub open spec fn cells_mask(cells: Seq<Option<Piece>>, piece: Piece) -> Bitboard {
    cells_mask_upto(cells, piece, 64)
}

/// The bitboard of a piece has exactly the squares on which the cells show
/// that piece.
pub proof fn lemma_cells_mask_bits(cells: Seq<Option<Piece>>, piece: Piece, n: int, i: int)
    requires
        n <= 64,
    ensures
        has_bit(cells_mask_upto(cells, piece, n), i) <==> 0 <= i < n && cells[i] == Some(piece),
    decreases n,
{
    if n <= 0 {
        lemma_zero_has_no_bit(i);
    } else {
        lemma_cells_mask_bits(cells, piece, n - 1, i);
        if cells[n - 1] == Some(piece) {
            lemma_or_bit(cells_mask_upto(cells, piece, n - 1), n - 1, i);
        }
    }
}

/// A position: the two armies, the side to move, the castling rights, the
/// en-passant target and the two move counters.
///
/// The fields are open, so a board can be put together by hand; whether no
/// square holds two pieces is then up to whoever does so ([`Board::disjoint`]).
#[derive(Clone, Copy, Debug, PartialEq, Eq)]
pub struct Board {
    pub white: Army,
    pub black: Army,
    pub to_play: Color,
    pub white_can_oo: bool,
    pub white_can_ooo: bool,
    pub black_can_oo: bool,
    pub black_can_ooo: bool,
    pub en_passant: Option<Square>,
    pub fifty_move_clock: u64,
    pub full_move_clock: u64,
}

impl Board {
    /// The board without pieces: White to move, no castling rights, no
    /// en-passant target, both counters at 0.
    pub open spec fn vacant() -> Board {
        Board {
            white: Army::vacant(),
            black: Army::vacant(),
            to_play: Color::White,
            white_can_oo: false,
            white_can_ooo: false,
            black_can_oo: false,
            black_can_ooo: false,
            en_passant: None,
            fifty_move_clock: 0,
            full_move_clock: 0,
        }
    }

    /// The army of one side.
    pub open spec fn army(self, color: Color) -> Army {
        match color {
            Color::White => self.white,
            Color::Black => self.black,
        }
    }

    /// Whether the bitboard of `piece` has square `i`.
    pub open spec fn holds(self, piece: Piece, i: int) -> bool {
        has_bit(self.army(piece.color).mask(piece.piece_type), i)
    }

    /// What a lookup finds on square `i`: the first piece, White's before
    /// Black's and within a side in the order pawn, knight, bishop, rook,
    /// queen, king, whose bitboard has the square.
    pub open spec fn occupant(self, i: int) -> Option<Piece> {
        match self.white.kind_at(i) {
            Some(kind) => Some(Piece { color: Color::White, piece_type: kind }),
            None => match self.black.kind_at(i) {
                Some(kind) => Some(Piece { color: Color::Black, piece_type: kind }),
                None => None,
            },
        }
    }

    /// No square holds two pieces: of the twelve bitboards at most one has
    /// any given square.
    pub open spec fn disjoint(self) -> bool {
        forall|i: int, p: Piece, q: Piece|
            #![trigger self.holds(p, i), self.holds(q, i)]
            self.holds(p, i) && self.holds(q, i) ==> p == q
    }

    /// The en-passant target, if there is one, lies on the board. This holds
    /// of every board that executable code can hold.
    pub open spec fn wf(self) -> bool {
        self.en_passant matches Some(sq) ==> sq.wf()
    }

    /// What a lookup finds on each of the 64 squares, in index order.
    pub open spec fn cells(self) -> Seq<Option<Piece>> {
        Seq::new(64, |i: int| self.occupant(i))
    }

    /// The board with its pieces replaced by those that `cells` shows.
    pub open spec fn with_cells(self, cells: Seq<Option<Piece>>) -> Board {
        Board {
            white: Army::of_cells(cells, Color::White),
            black: Army::of_cells(cells, Color::Black),
            ..self
        }
    }

    /// On a board made from a list of cells a piece's bitboard has a square
    /// exactly where the list shows that piece.
    pub proof fn lemma_with_cells_holds(self, cells: Seq<Option<Piece>>, piece: Piece, i: int)
        ensures
            self.with_cells(cells).holds(piece, i) <==> 0 <= i < 64 && cells[i] == Some(piece),
    {
        lemma_cells_mask_bits(cells, piece, 64, i);
    }

    /// A board made from a list of cells holds at most one piece on each
    /// square, and a lookup finds what the list shows.
    pub proof fn lemma_with_cells(self, cells: Seq<Option<Piece>>)
        requires
            cells.len() == 64,
        ensures
            self.with_cells(cells).disjoint(),
            self.with_cells(cells).cells() == cells,
    {
        let made = self.with_cells(cells);
        assert forall|i: int, p: Piece, q: Piece| made.holds(p, i) && made.holds(q, i) implies p
            == q by {
            self.lemma_with_cells_holds(cells, p, i);
            self.lemma_with_cells_holds(cells, q, i);
        }
        assert forall|i: int| 0 <= i < 64 implies made.occupant(i) == cells[i] by {
            made.lemma_occupant_holds(i);
            match cells[i] {
                Some(p) => {
                    self.lemma_with_cells_holds(cells, p, i);
                    made.lemma_occupant_unique(p, i);
                },
                None => {
                    if made.occupant(i) is Some {
                        self.lemma_with_cells_holds(cells, made.occupant(i)->Some_0, i);
                    }
                },
            }
        }
        assert(made.cells() =~= cells);
    }

    /// A board on which no square holds two pieces is determined by what a
    /// lookup finds on each square.
    pub proof fn lemma_cells_determine(self)
        requires
            self.disjoint(),
        ensures
            self.with_cells(self.cells()) == self,
    {
        let cells = self.cells();
        let made = self.with_cells(cells);
        assert forall|p: Piece| #[trigger]
            made.army(p.color).mask(p.piece_type) == self.army(p.color).mask(p.piece_type) by {
            let a = made.army(p.color).mask(p.piece_type);
            let b = self.army(p.color).mask(p.piece_type);
            assert forall|i: int| 0 <= i < 64 implies has_bit(a, i) == has_bit(b, i) by {
                self.lemma_with_cells_holds(cells, p, i);
                self.lemma_occupant_unique(p, i);
                assert(made.holds(p, i) == has_bit(a, i));
                assert(self.holds(p, i) == has_bit(b, i));
            }
            lemma_same_bits_equal(a, b);
        }
        assert forall|t: PieceType| #[trigger] made.white.mask(t) == self.white.mask(t) by {
            let p = Piece { color: Color::White, piece_type: t };
            assert(made.army(p.color).mask(p.piece_type) == self.army(p.color).mask(p.piece_type));
        }
        assert forall|t: PieceType| #[trigger] made.black.mask(t) == self.black.mask(t) by {
            let p = Piece { color: Color::Black, piece_type: t };
            assert(made.army(p.color).mask(p.piece_type) == self.army(p.color).mask(p.piece_type));
        }
        made.white.lemma_masks_determine(self.white);
        made.black.lemma_masks_determine(self.black);
    }

    /// What a lookup finds is a piece whose bitboard has the square, and it
    /// finds nothing only where no bitboard has it.
    pub proof fn lemma_occupant_holds(self, i: int)
        ensures
            self.occupant(i) matches Some(p) ==> self.holds(p, i),
            self.occupant(i) is None ==> forall|p: Piece| !self.holds(p, i),
    {
    }

    /// Where no square holds two pieces the order of the lookup plays no
    /// part: it finds a piece exactly where that piece's bitboard has the
    /// square.
    pub proof fn lemma_occupant_unique(self, p: Piece, i: int)
        requires
            self.disjoint(),
        ensures
            self.occupant(i) == Some(p) <==> self.holds(p, i),
    {
        self.lemma_occupant_holds(i);
        if self.holds(p, i) {
            let q = self.occupant(i)->Some_0;
            assert(self.holds(q, i));
        }
    }

    /// The board without pieces: White to move, no castling rights, no
    /// en-passant target, both counters at 0.
    pub fn empty() -> (board: Board)
        ensures
            board == Board::vacant(),
    {
        let empty_army = Army::empty();
        Board {
            white: empty_army,
            black: empty_army,
            to_play: Color::White,
            white_can_oo: false,
            white_can_ooo: false,
            black_can_oo: false,
            black_can_ooo: false,
            en_passant: None,
            fifty_move_clock: 0,
            full_move_clock: 0,
        }
    }

    /// The piece on a square, if there is one.
    ///
    /// The bitboards are tried in a fixed order: White's before Black's, and
    /// within a side pawn, knight, bishop, rook, queen, king. On a board on
    /// which no square holds two pieces the order makes no difference
    /// ([`Board::lemma_occupant_unique`]); on any other board it only makes the
    /// answer definite.
    pub fn piece_at(&self, square: &Square) -> (r: Option<Piece>)
        ensures
            r == self.occupant(square@),
    {
        proof {
            use_type_invariant(square);
        }
        let b = square.to_bitboard();
        let (color, piece_type) = if self.white.pawns & b != 0 {
            (Color::White, PieceType::Pawn)
        } else if self.white.knights & b != 0 {
            (Color::White, PieceType::Knight)
        } else if self.white.bishops & b != 0 {
            (Color::White, PieceType::Bishop)
        } else if self.white.rooks & b != 0 {
            (Color::White, PieceType::Rook)
        } else if self.white.queens & b != 0 {
            (Color::White, PieceType::Queen)
        } else if self.white.king & b != 0 {
            (Color::White, PieceType::King)
        } else if self.black.pawns & b != 0 {
            (Color::Black, PieceType::Pawn)
        } else if self.black.knights & b != 0 {
            (Color::Black, PieceType::Knight)
        } else if self.black.bishops & b != 0 {
            (Color::Black, PieceType::Bishop)
        } else if self.black.rooks & b != 0 {
            (Color::Black, PieceType::Rook)
        } else if self.black.queens & b != 0 {
            (Color::Black, PieceType::Queen)
        } else if self.black.king & b != 0 {
            (Color::Black, PieceType::King)
        } else {
            return None;
        };
        Some(Piece { color: color, piece_type: piece_type })
    }
}

/// The line that frames each row of the diagram.
pub open spec fn grid_border() -> Seq<char> {
    "+---+---+---+---+---+---+---+---+\n"@
}

/// One cell of the diagram with its right-hand bar: the piece's letter, or a
/// blank, between two blanks.
pub open spec fn grid_cell(occupant: Option<Piece>) -> Seq<char> {
    match occupant {
        Some(piece) => seq![' ', piece.letter(), ' ', '|'],
        None => seq![' ', ' ', ' ', '|'],
    }
}

impl Board {
    /// The cells of the files below `files` on a rank of the diagram.
    pub open spec fn grid_cells(self, rank: int, files: int) -> Seq<char>
        decreases files,
    {
        if files <= 0 {
            Seq::empty()
        } else {
            self.grid_cells(rank, files - 1) + grid_cell(self.occupant(8 * rank + files - 1))
        }
    }

    /// One row of the diagram: a bar, the eight cells of the rank, a line
    /// break, and the border below the row.
    pub open spec fn grid_row(self, rank: int) -> Seq<char> {
        seq!['|'] + self.grid_cells(rank, 8) + seq!['\n'] + grid_border()
    }

    /// The topmost `rows` rows of the diagram, the eighth rank first.
    pub open spec fn grid_rows(self, rows: int) -> Seq<char>
        decreases rows,
    {
        if rows <= 0 {
            Seq::empty()
        } else {
            self.grid_rows(rows - 1) + self.grid_row(8 - rows)
        }
    }

    /// The diagram of the board: a border, then the eight ranks from the
    /// eighth down to the first.
    pub open spec fn grid(self) -> Seq<char> {
        grid_border() + self.grid_rows(8)
    }

    /// A diagram of the board for a person to read: eight rows of cells
    /// three characters wide between `+---+` borders, the eighth rank on
    /// top, with White's pieces in upper case and Black's in lower case.
    pub fn to_string(&self) -> (text: String)
        ensures
            text@ == self.grid(),
    {
        let border = "+---+---+---+---+---+---+---+---+\n";
        let mut text = String::from_str(border);
        let mut done: u8 = 0;
        while done < 8
            invariant
                done <= 8,
                border@ == grid_border(),
                text@ == grid_border() + self.grid_rows(done as int),
            decreases 8 - done,
        {
            let rank: u8 = 7 - done;
            let ghost start = text@;
            text.append("|");
            let mut file: u8 = 0;
            proof {
                reveal_strlit("|");
                assert(text@ =~= start + seq!['|'] + self.grid_cells(rank as int, 0));
            }
            while file < 8
                invariant
                    file <= 8,
                    rank < 8,
                    text@ == start + seq!['|'] + self.grid_cells(rank as int, file as int),
                decreases 8 - file,
            {
                proof {
                    reveal_strlit(" ");
                    reveal_strlit(" |");
                    reveal_strlit("   |");
                }
                let ghost before = text@;
                let sq = Square::from_coords(file, rank);
                match self.piece_at(&sq) {
                    Some(piece) => {
                        text.append(" ");
                        text.append(piece.as_str());
                        text.append(" |");
                        assert(text@ =~= before + grid_cell(Some(piece)));
                    },
                    None => {
                        text.append("   |");
                        assert(text@ =~= before + grid_cell(None));
                    },
                }
                file = file + 1;
                assert(text@ =~= start + seq!['|'] + self.grid_cells(rank as int, file as int));
            }
            text.append("\n");
            text.append(border);
            done = done + 1;
            proof {
                reveal_strlit("\n");
                assert(text@ =~= start + self.grid_row(rank as int));
                assert(text@ =~= grid_border() + self.grid_rows(done as int));
            }
        }
        text
    }
}

} // verus!
