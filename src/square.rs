use vstd::prelude::*;

verus! {

/// One of the 64 squares of the board, numbered `file + 8 * rank`: `A1` is 0 and `H8` is 63.
#[derive(Clone, Copy, Debug, PartialEq, Eq, Hash, Structural)]
pub enum Square {
    A1,
    B1,
    C1,
    D1,
    E1,
    F1,
    G1,
    H1,
    A2,
    B2,
    C2,
    D2,
    E2,
    F2,
    G2,
    H2,
    A3,
    B3,
    C3,
    D3,
    E3,
    F3,
    G3,
    H3,
    A4,
    B4,
    C4,
    D4,
    E4,
    F4,
    G4,
    H4,
    A5,
    B5,
    C5,
    D5,
    E5,
    F5,
    G5,
    H5,
    A6,
    B6,
    C6,
    D6,
    E6,
    F6,
    G6,
    H6,
    A7,
    B7,
    C7,
    D7,
    E7,
    F7,
    G7,
    H7,
    A8,
    B8,
    C8,
    D8,
    E8,
    F8,
    G8,
    H8,
}

/// A column of the board, `A` to `H`.
#[derive(Clone, Copy, Debug, PartialEq, Eq, Hash, Structural)]
pub enum BoardFile {
    A,
    B,
    C,
    D,
    E,
    F,
    G,
    H,
}

/// A row of the board, `R1` to `R8`.
#[derive(Clone, Copy, Debug, PartialEq, Eq, Hash, Structural)]
pub enum BoardRank {
    R1,
    R2,
    R3,
    R4,
    R5,
    R6,
    R7,
    R8,
}

/// The number of a square.
#[verifier::opaque]
pub open spec fn sq_index(s: Square) -> nat {
    (s as u8) as nat
}

/// The file number (0 for `a`) of a square.
#[verifier::opaque]
pub open spec fn sq_file(s: Square) -> nat {
    sq_index(s) % 8
}

/// The rank number (0 for rank 1) of a square.
#[verifier::opaque]
pub open spec fn sq_rank(s: Square) -> nat {
    sq_index(s) / 8
}

/// The letter of a file number.
pub open spec fn file_char(f: nat) -> char {
    ((f + 97) as u8) as char
}

/// The digit of a rank number.
pub open spec fn rank_char(r: nat) -> char {
    ((r + 49) as u8) as char
}

/// The algebraic name of a square, such as "e4".
pub open spec fn square_name(s: Square) -> Seq<char> {
    seq![file_char(sq_file(s)), rank_char(sq_rank(s))]
}

/// The file number named by a letter `a`..`h`.
pub open spec fn file_of_char(c: char) -> Option<nat> {
    if 'a' <= c && c <= 'h' {
        Some((c as int - 97) as nat)
    } else {
        None
    }
}

/// The rank number named by a digit `1`..`8`.
pub open spec fn rank_of_char(c: char) -> Option<nat> {
    if '1' <= c && c <= '8' {
        Some((c as int - 49) as nat)
    } else {
        None
    }
}

/// The square that the first two characters of `s` name, if they name one.
pub open spec fn square_of_name(s: Seq<char>) -> Option<nat> {
    if s.len() >= 2 && file_of_char(s[0]) is Some && rank_of_char(s[1]) is Some {
        Some(file_of_char(s[0])->0 + 8 * rank_of_char(s[1])->0)
    } else {
        None
    }
}

/// A square's file and rank are those of its number.
pub broadcast proof fn lemma_file_rank(s: Square)
    ensures
        #[trigger] sq_file(s) == sq_index(s) % 8,
        #[trigger] sq_rank(s) == sq_index(s) / 8,
        sq_file(s) < 8,
        sq_rank(s) < 8,
{
    reveal(sq_index);
    reveal(sq_file);
    reveal(sq_rank);
}

/// Every number below 64 is the number of a square.
pub proof fn lemma_square_exists(n: int)
    requires
        0 <= n < 64,
    ensures
        exists|s: Square| sq_index(s) == n,
{
    reveal(sq_index);
    if n == 0 {
        assert(sq_index(Square::A1) == n);
    } else if n == 1 {
        assert(sq_index(Square::B1) == n);
    } else if n == 2 {
        assert(sq_index(Square::C1) == n);
    } else if n == 3 {
        assert(sq_index(Square::D1) == n);
    } else if n == 4 {
        assert(sq_index(Square::E1) == n);
    } else if n == 5 {
        assert(sq_index(Square::F1) == n);
    } else if n == 6 {
        assert(sq_index(Square::G1) == n);
    } else if n == 7 {
        assert(sq_index(Square::H1) == n);
    } else if n == 8 {
        assert(sq_index(Square::A2) == n);
    } else if n == 9 {
        assert(sq_index(Square::B2) == n);
    } else if n == 10 {
        assert(sq_index(Square::C2) == n);
    } else if n == 11 {
        assert(sq_index(Square::D2) == n);
    } else if n == 12 {
        assert(sq_index(Square::E2) == n);
    } else if n == 13 {
        assert(sq_index(Square::F2) == n);
    } else if n == 14 {
        assert(sq_index(Square::G2) == n);
    } else if n == 15 {
        assert(sq_index(Square::H2) == n);
    } else if n == 16 {
        assert(sq_index(Square::A3) == n);
    } else if n == 17 {
        assert(sq_index(Square::B3) == n);
    } else if n == 18 {
        assert(sq_index(Square::C3) == n);
    } else if n == 19 {
        assert(sq_index(Square::D3) == n);
    } else if n == 20 {
        assert(sq_index(Square::E3) == n);
    } else if n == 21 {
        assert(sq_index(Square::F3) == n);
    } else if n == 22 {
        assert(sq_index(Square::G3) == n);
    } else if n == 23 {
        assert(sq_index(Square::H3) == n);
    } else if n == 24 {
        assert(sq_index(Square::A4) == n);
    } else if n == 25 {
        assert(sq_index(Square::B4) == n);
    } else if n == 26 {
        assert(sq_index(Square::C4) == n);
    } else if n == 27 {
        assert(sq_index(Square::D4) == n);
    } else if n == 28 {
        assert(sq_index(Square::E4) == n);
    } else if n == 29 {
        assert(sq_index(Square::F4) == n);
    } else if n == 30 {
        assert(sq_index(Square::G4) == n);
    } else if n == 31 {
        assert(sq_index(Square::H4) == n);
    } else if n == 32 {
        assert(sq_index(Square::A5) == n);
    } else if n == 33 {
        assert(sq_index(Square::B5) == n);
    } else if n == 34 {
        assert(sq_index(Square::C5) == n);
    } else if n == 35 {
        assert(sq_index(Square::D5) == n);
    } else if n == 36 {
        assert(sq_index(Square::E5) == n);
    } else if n == 37 {
        assert(sq_index(Square::F5) == n);
    } else if n == 38 {
        assert(sq_index(Square::G5) == n);
    } else if n == 39 {
        assert(sq_index(Square::H5) == n);
    } else if n == 40 {
        assert(sq_index(Square::A6) == n);
    } else if n == 41 {
        assert(sq_index(Square::B6) == n);
    } else if n == 42 {
        assert(sq_index(Square::C6) == n);
    } else if n == 43 {
        assert(sq_index(Square::D6) == n);
    } else if n == 44 {
        assert(sq_index(Square::E6) == n);
    } else if n == 45 {
        assert(sq_index(Square::F6) == n);
    } else if n == 46 {
        assert(sq_index(Square::G6) == n);
    } else if n == 47 {
        assert(sq_index(Square::H6) == n);
    } else if n == 48 {
        assert(sq_index(Square::A7) == n);
    } else if n == 49 {
        assert(sq_index(Square::B7) == n);
    } else if n == 50 {
        assert(sq_index(Square::C7) == n);
    } else if n == 51 {
        assert(sq_index(Square::D7) == n);
    } else if n == 52 {
        assert(sq_index(Square::E7) == n);
    } else if n == 53 {
        assert(sq_index(Square::F7) == n);
    } else if n == 54 {
        assert(sq_index(Square::G7) == n);
    } else if n == 55 {
        assert(sq_index(Square::H7) == n);
    } else if n == 56 {
        assert(sq_index(Square::A8) == n);
    } else if n == 57 {
        assert(sq_index(Square::B8) == n);
    } else if n == 58 {
        assert(sq_index(Square::C8) == n);
    } else if n == 59 {
        assert(sq_index(Square::D8) == n);
    } else if n == 60 {
        assert(sq_index(Square::E8) == n);
    } else if n == 61 {
        assert(sq_index(Square::F8) == n);
    } else if n == 62 {
        assert(sq_index(Square::G8) == n);
    } else if n == 63 {
        assert(sq_index(Square::H8) == n);
    }
}

/// Two squares with the same number are the same square.
pub broadcast proof fn lemma_square_index_injective(a: Square, b: Square)
    ensures
        #[trigger] sq_index(a) == #[trigger] sq_index(b) ==> a == b,
        sq_index(a) < 64,
{
    reveal(sq_index);
}

impl Square {
    pub fn as_u8(self) -> (r: u8)
        ensures
            r as nat == sq_index(self),
            r < 64,
    {
        reveal(sq_index);
        self as u8
    }

    /// The square's number, for indexing tables.
    pub fn as_index(self) -> (r: usize)
        ensures
            r as nat == sq_index(self),
            r < 64,
    {
        reveal(sq_index);
        self.as_u8() as usize
    }

    /// The square with the given number, if it is below 64.
    pub fn from_u8(index: u8) -> (r: Option<Square>)
        ensures
            r is Some <==> index < 64,
            r is Some ==> sq_index(r->0) == index,
    {
        reveal(sq_index);
        match index {
            0 => Some(Square::A1),
            1 => Some(Square::B1),
            2 => Some(Square::C1),
            3 => Some(Square::D1),
            4 => Some(Square::E1),
            5 => Some(Square::F1),
            6 => Some(Square::G1),
            7 => Some(Square::H1),
            8 => Some(Square::A2),
            9 => Some(Square::B2),
            10 => Some(Square::C2),
            11 => Some(Square::D2),
            12 => Some(Square::E2),
            13 => Some(Square::F2),
            14 => Some(Square::G2),
            15 => Some(Square::H2),
            16 => Some(Square::A3),
            17 => Some(Square::B3),
            18 => Some(Square::C3),
            19 => Some(Square::D3),
            20 => Some(Square::E3),
            21 => Some(Square::F3),
            22 => Some(Square::G3),
            23 => Some(Square::H3),
            24 => Some(Square::A4),
            25 => Some(Square::B4),
            26 => Some(Square::C4),
            27 => Some(Square::D4),
            28 => Some(Square::E4),
            29 => Some(Square::F4),
            30 => Some(Square::G4),
            31 => Some(Square::H4),
            32 => Some(Square::A5),
            33 => Some(Square::B5),
            34 => Some(Square::C5),
            35 => Some(Square::D5),
            36 => Some(Square::E5),
            37 => Some(Square::F5),
            38 => Some(Square::G5),
            39 => Some(Square::H5),
            40 => Some(Square::A6),
            41 => Some(Square::B6),
            42 => Some(Square::C6),
            43 => Some(Square::D6),
            44 => Some(Square::E6),
            45 => Some(Square::F6),
            46 => Some(Square::G6),
            47 => Some(Square::H6),
            48 => Some(Square::A7),
            49 => Some(Square::B7),
            50 => Some(Square::C7),
            51 => Some(Square::D7),
            52 => Some(Square::E7),
            53 => Some(Square::F7),
            54 => Some(Square::G7),
            55 => Some(Square::H7),
            56 => Some(Square::A8),
            57 => Some(Square::B8),
            58 => Some(Square::C8),
            59 => Some(Square::D8),
            60 => Some(Square::E8),
            61 => Some(Square::F8),
            62 => Some(Square::G8),
            63 => Some(Square::H8),
            _ => None,
        }
    }

    /// The square on the given file and rank.
    pub fn at(file: BoardFile, rank: BoardRank) -> (r: Square)
        ensures
            sq_file(r) == file as nat,
            sq_rank(r) == rank as nat,
            sq_index(r) == file as nat + 8 * (rank as nat),
    {
        reveal(sq_index);
        reveal(sq_file);
        reveal(sq_rank);
        let i: u8 = file.as_u8() + 8 * rank.as_u8();
        match Square::from_u8(i) {
            Some(s) => s,
            None => Square::A1,
        }
    }

    pub fn file(self) -> (r: BoardFile)
        ensures
            r as nat == sq_file(self),
    {
        reveal(sq_index);
        reveal(sq_file);
        reveal(sq_rank);
        match BoardFile::from_u8(self.as_u8() % 8) {
            Some(f) => f,
            None => BoardFile::A,
        }
    }

    pub fn rank(self) -> (r: BoardRank)
        ensures
            r as nat == sq_rank(self),
    {
        reveal(sq_index);
        reveal(sq_file);
        reveal(sq_rank);
        match BoardRank::from_u8(self.as_u8() / 8) {
            Some(f) => f,
            None => BoardRank::R1,
        }
    }

    /// The square named by the first two characters of `name` ("e4"); the rest is ignored.
    pub fn from_name(name: &str) -> (r: Option<Square>)
        ensures
            r is Some <==> square_of_name(name@) is Some,
            r is Some ==> sq_index(r->0) == square_of_name(name@)->0,
    {
        reveal(sq_index);
        let len = name.unicode_len();
        if len < 2 {
            return None;
        }
        let f = BoardFile::from_char(name.get_char(0));
        let r = BoardRank::from_char(name.get_char(1));
        match (f, r) {
            (Some(f), Some(r)) => Some(Square::at(f, r)),
            _ => None,
        }
    }

    /// Every square, in ascending order.
    pub fn iter_all() -> (r: Vec<Square>)
        ensures
            r@.len() == 64,
            forall|i: int| 0 <= i < 64 ==> sq_index(#[trigger] r@[i]) == i,
    {
        reveal(sq_index);
        let mut v: Vec<Square> = Vec::new();
        let mut i: u8 = 0;
        while i < 64
            invariant
                i <= 64,
                v@.len() == i,
                forall|j: int| 0 <= j < i ==> sq_index(#[trigger] v@[j]) == j,
            decreases 64 - i,
        {
            match Square::from_u8(i) {
                Some(s) => v.push(s),
                None => {},
            }
            i = i + 1;
        }
        v
    }

    /// The square `(df, dr)` files and ranks away, if it is on the board.
    pub fn translated_by(self, offset: (i32, i32)) -> (r: Option<Square>)
        ensures
            ({
                let f = sq_file(self) + offset.0;
                let rk = sq_rank(self) + offset.1;
                &&& r is Some <==> (0 <= f < 8 && 0 <= rk < 8)
                &&& r is Some ==> sq_index(r->0) == f + 8 * rk
            }),
    {
        reveal(sq_index);
        reveal(sq_file);
        reveal(sq_rank);
        let (df, dr) = offset;
        let f = self.as_u8() % 8;
        let rk = self.as_u8() / 8;
        if df < -8 || df > 8 || dr < -8 || dr > 8 {
            return None;
        }
        let nf: i32 = f as i32 + df;
        let nr: i32 = rk as i32 + dr;
        if nf < 0 || nf >= 8 || nr < 0 || nr >= 8 {
            return None;
        }
        Square::from_u8((nf + 8 * nr) as u8)
    }

    /// How many files `to` lies to the right of `self`.
    pub fn file_diff(self, to: Square) -> (r: i32)
        ensures
            r == sq_file(to) - sq_file(self),
            -8 < r < 8,
    {
        reveal(sq_index);
        reveal(sq_file);
        reveal(sq_rank);
        (to.as_u8() % 8) as i32 - (self.as_u8() % 8) as i32
    }

    /// How many ranks `to` lies above `self`.
    pub fn rank_diff(self, to: Square) -> (r: i32)
        ensures
            r == sq_rank(to) - sq_rank(self),
            -8 < r < 8,
    {
        reveal(sq_index);
        reveal(sq_file);
        reveal(sq_rank);
        (to.as_u8() / 8) as i32 - (self.as_u8() / 8) as i32
    }

    /// The algebraic name of this square, such as "e4".
    pub fn name(self) -> (r: String)
        ensures
            r@ == square_name(self),
    {
        reveal(sq_index);
        reveal(sq_file);
        reveal(sq_rank);
        let mut s = String::new();
        crate::text::push_char(&mut s, self.file().as_char());
        crate::text::push_char(&mut s, self.rank().as_char());
        assert(s@ =~= square_name(self));
        s
    }
}

impl BoardFile {
    /// The number of this file, for indexing tables.
    pub fn as_index(self) -> (r: usize)
        ensures
            r == self as usize,
            r < 8,
    {
        self.as_u8() as usize
    }

    pub fn from_u8(index: u8) -> (r: Option<BoardFile>)
        ensures
            r is Some <==> index < 8,
            r is Some ==> r->0 as u8 == index,
    {
        reveal(sq_index);
        match index {
            0 => Some(BoardFile::A),
            1 => Some(BoardFile::B),
            2 => Some(BoardFile::C),
            3 => Some(BoardFile::D),
            4 => Some(BoardFile::E),
            5 => Some(BoardFile::F),
            6 => Some(BoardFile::G),
            7 => Some(BoardFile::H),
            _ => None,
        }
    }

    pub fn as_u8(self) -> (r: u8)
        ensures
            r == self as u8,
            r < 8,
    {
        reveal(sq_index);
        self as u8
    }

    pub fn from_char(c: char) -> (r: Option<BoardFile>)
        ensures
            r is Some <==> file_of_char(c) is Some,
            r is Some ==> r->0 as nat == file_of_char(c)->0,
    {
        reveal(sq_index);
        if 'a' <= c && c <= 'h' {
            BoardFile::from_u8((c as u32 - 97) as u8)
        } else {
            None
        }
    }

    pub fn as_char(self) -> (r: char)
        ensures
            r == file_char(self as nat),
    {
        reveal(sq_index);
        ((self as u8) + 97) as char
    }

    /// All of them, in ascending order.
    pub fn iter_all() -> (r: Vec<BoardFile>)
        ensures
            r@.len() == 8,
            forall|i: int| 0 <= i < 8 ==> #[trigger] r@[i] as int == i,
    {
        reveal(sq_index);
        let mut v: Vec<BoardFile> = Vec::new();
        let mut i: u8 = 0;
        while i < 8
            invariant
                i <= 8,
                v@.len() == i,
                forall|j: int| 0 <= j < i ==> #[trigger] v@[j] as int == j,
            decreases 8 - i,
        {
            match BoardFile::from_u8(i) {
                Some(s) => v.push(s),
                None => {},
            }
            i = i + 1;
        }
        v
    }
}

impl BoardRank {
    /// The number of this rank, for indexing tables.
    pub fn as_index(self) -> (r: usize)
        ensures
            r == self as usize,
            r < 8,
    {
        self.as_u8() as usize
    }

    pub fn from_u8(index: u8) -> (r: Option<BoardRank>)
        ensures
            r is Some <==> index < 8,
            r is Some ==> r->0 as u8 == index,
    {
        reveal(sq_index);
        match index {
            0 => Some(BoardRank::R1),
            1 => Some(BoardRank::R2),
            2 => Some(BoardRank::R3),
            3 => Some(BoardRank::R4),
            4 => Some(BoardRank::R5),
            5 => Some(BoardRank::R6),
            6 => Some(BoardRank::R7),
            7 => Some(BoardRank::R8),
            _ => None,
        }
    }

    pub fn as_u8(self) -> (r: u8)
        ensures
            r == self as u8,
            r < 8,
    {
        reveal(sq_index);
        self as u8
    }

    pub fn from_char(c: char) -> (r: Option<BoardRank>)
        ensures
            r is Some <==> rank_of_char(c) is Some,
            r is Some ==> r->0 as nat == rank_of_char(c)->0,
    {
        reveal(sq_index);
        if '1' <= c && c <= '8' {
            BoardRank::from_u8((c as u32 - 49) as u8)
        } else {
            None
        }
    }

    pub fn as_char(self) -> (r: char)
        ensures
            r == rank_char(self as nat),
    {
        reveal(sq_index);
        ((self as u8) + 49) as char
    }

    /// All of them, in ascending order.
    pub fn iter_all() -> (r: Vec<BoardRank>)
        ensures
            r@.len() == 8,
            forall|i: int| 0 <= i < 8 ==> #[trigger] r@[i] as int == i,
    {
        reveal(sq_index);
        let mut v: Vec<BoardRank> = Vec::new();
        let mut i: u8 = 0;
        while i < 8
            invariant
                i <= 8,
                v@.len() == i,
                forall|j: int| 0 <= j < i ==> #[trigger] v@[j] as int == j,
            decreases 8 - i,
        {
            match BoardRank::from_u8(i) {
                Some(s) => v.push(s),
                None => {},
            }
            i = i + 1;
        }
        v
    }
}

} // verus!
