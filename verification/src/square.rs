//! Board coordinates.

use vstd::prelude::*;
use crate::bitboard::{bit, lemma_bit_single};

verus! {

/// A step from one square to a neighbour, as an offset of the square index.
#[allow(non_camel_case_types)]
pub enum Direction {
    EAST,
    WEST,
    NORTH,
    SOUTH,
    NORTHWEST,
    NORTHEAST,
    SOUTHWEST,
    SOUTHEAST,
}

impl Direction {
    pub open spec fn spec_offset(self) -> int {
        match self {
            Direction::EAST => 1,
            Direction::WEST => -1,
            Direction::NORTH => 8,
            Direction::SOUTH => -8,
            Direction::NORTHWEST => 7,
            Direction::NORTHEAST => 9,
            Direction::SOUTHWEST => -9,
            Direction::SOUTHEAST => -7,
        }
    }

    /// The offset that one step in this direction adds to a square index.
    pub fn offset(&self) -> (r: i32)
        ensures
            r == self.spec_offset(),
    {
        match self {
            Direction::EAST => 1,
            Direction::WEST => -1,
            Direction::NORTH => 8,
            Direction::SOUTH => -8,
            Direction::NORTHWEST => 7,
            Direction::NORTHEAST => 9,
            Direction::SOUTHWEST => -9,
            Direction::SOUTHEAST => -7,
        }
    }
}

/// A square of the board. Its index is `rank * 8 + file`, with rank 0 White's
/// back rank and file 0 the a-file; it is always below 64.
#[derive(PartialEq, Eq, Structural, Debug, Copy, Clone)]
pub struct Square {
    ind: usize,
}

/// The two characters that name square `i`: file letter, then rank digit.
pub open spec fn square_text(i: int) -> Seq<char> {
    seq![(('a' as int) + i % 8) as char, (('1' as int) + i / 8) as char]
}

/// The square that a text names, if it names one: exactly a file letter
/// `a`..`h` followed by a rank digit `1`..`8`.
pub open spec fn parse_square(s: Seq<char>) -> Option<int> {
    if s.len() == 2 && 'a' <= s[0] <= 'h' && '1' <= s[1] <= '8' {
        Some(((s[1] as int) - ('1' as int)) * 8 + ((s[0] as int) - ('a' as int)))
    } else {
        None
    }
}

/// The text of an optional square: its name, or `-` for none.
pub open spec fn square_text_withnull(s: Option<int>) -> Seq<char> {
    match s {
        Some(i) => square_text(i),
        None => seq!['-'],
    }
}

/// Parsing the name of a square gives that square back.
pub proof fn lemma_square_text_parses(i: int)
    requires
        0 <= i < 64,
    ensures
        parse_square(square_text(i)) == Some(i),
{
}

/// A text that names a square is the name of that square.
pub proof fn lemma_parsed_square_text(s: Seq<char>)
    requires
        parse_square(s) is Some,
    ensures
        0 <= parse_square(s)->0 < 64,
        square_text(parse_square(s)->0) == s,
{
    let i = parse_square(s)->0;
    assert(square_text(i) =~= s);
}

impl Square {
    #[verifier::type_invariant]
    spec fn inv(self) -> bool {
        self.ind < 64
    }

    /// The index of the square.
    pub closed spec fn view(self) -> int {
        self.ind as int
    }

    /// The square with index `i`.
    pub closed spec fn of(i: int) -> Square {
        Square { ind: i as usize }
    }

    /// A square is determined by its index.
    pub broadcast proof fn lemma_of_view(i: int)
        requires
            0 <= i < 64,
        ensures
            (#[trigger] Square::of(i))@ == i,
    {
    }

    /// Squares with the same index are the same square.
    pub proof fn lemma_view_injective(a: Square, b: Square)
        requires
            a@ == b@,
        ensures
            a == b,
    {
    }

    /// The square on rank `rank` and file `file`.
    pub fn at(rank: usize, file: usize) -> (s: Square)
        requires
            rank < 8,
            file < 8,
        ensures
            s@ == rank * 8 + file,
            s == Square::of(rank * 8 + file),
    {
        Square { ind: rank * 8 + file }
    }

    /// The name of the square, such as `e4`.
    pub fn to_str(&self) -> (out: String)
        ensures
            out@ == square_text(self@),
    {
        proof {
            use_type_invariant(self);
        }
        let f: u8 = (self.ind % 8) as u8;
        let r: u8 = (self.ind / 8) as u8;
        let mut out = String::new();
        out.push((97u8 + f) as char);
        out.push((49u8 + r) as char);
        assert(out@ =~= square_text(self@));
        out
    }

    /// Reads the name of a square. Anything but a file letter `a`..`h`
    /// followed by a rank digit `1`..`8` names no square.
    pub fn from_uci(inp: &String) -> (r: Option<Square>)
        ensures
            r is Some <==> parse_square(inp@) is Some,
            r is Some ==> r->0@ == parse_square(inp@)->0 && r->0 == Square::of(r->0@),
    {
        let s = inp.as_str();
        if s.unicode_len() != 2 {
            return None;
        }
        assert(inp@ =~= seq![inp@[0], inp@[1]]);
        square_from_chars(s.get_char(0), s.get_char(1))
    }

    /// The square with index `inp`, if there is one.
    pub fn from_index(inp: usize) -> (r: Option<Square>)
        ensures
            r is Some <==> inp < 64,
            r is Some ==> r->0@ == inp && r->0 == Square::of(inp as int),
    {
        if inp >= 64 {
            return None;
        }
        Some(Square { ind: inp })
    }

    /// The name of an optional square, `-` for none.
    pub fn to_str_withnull(inp: &Option<Square>) -> (out: String)
        ensures
            out@ == square_text_withnull(
                match *inp {
                    Some(s) => Some(s@),
                    None => None,
                },
            ),
    {
        match inp {
            Some(s) => s.to_str(),
            None => {
                let mut out = String::new();
                out.push('-');
                assert(out@ =~= seq!['-']);
                out
            },
        }
    }

    /// The set that holds this square and no other.
    pub fn mask(&self) -> (m: u64)
        ensures
            m == 1u64 << (self@ as u64),
            forall|i: int| #[trigger] bit(m, i) == (i == self@),
    {
        proof {
            use_type_invariant(self);
            lemma_bit_single(self@);
        }
        1u64 << (self.ind as u64)
    }

    pub fn rank(&self) -> (r: usize)
        ensures
            r == self@ / 8,
            r < 8,
    {
        proof {
            use_type_invariant(self);
        }
        self.ind / 8
    }

    pub fn file(&self) -> (f: usize)
        ensures
            f == self@ % 8,
            f < 8,
    {
        proof {
            use_type_invariant(self);
        }
        self.ind % 8
    }

    pub fn index(&self) -> (i: usize)
        ensures
            i == self@,
            i < 64,
    {
        proof {
            use_type_invariant(self);
        }
        self.ind
    }
}

/// The square named by a file letter and a rank digit, if they name one.
pub fn square_from_chars(fc: char, rc: char) -> (r: Option<Square>)
    ensures
        r is Some <==> parse_square(seq![fc, rc]) is Some,
        r is Some ==> r->0@ == parse_square(seq![fc, rc])->0 && r->0 == Square::of(r->0@),
{
    if fc < 'a' || fc > 'h' || rc < '1' || rc > '8' {
        return None;
    }
    let file: usize = (fc as u32 - 'a' as u32) as usize;
    let rank: usize = (rc as u32 - '1' as u32) as usize;
    Square::from_index(rank * 8 + file)
}

/// `String::push` appends the character `c` to the end of the string and
/// leaves the characters before it as they were.
pub assume_specification[ String::push ](s: &mut String, c: char)
    ensures
        final(s)@ == old(s)@.push(c),
;

} // verus!
