use vstd::prelude::*;

verus! {

/// Number of distinct cell colors.
pub const COLOR_COUNT: usize = 9;

/// The color of a cell; it fixes the rule that the cell imposes.
#[derive(Debug, Clone, Copy, PartialEq, Eq, Structural)]
pub enum Color {
    Red,
    Blue,
    Black,
    Green,
    Yellow,
    Purple,
    White,
    Orange,
    Cyan,
}

/// The numeric code of each color.
pub open spec fn color_code(c: Color) -> u8 {
    match c {
        Color::Red => 0,
        Color::Blue => 1,
        Color::Black => 2,
        Color::Green => 3,
        Color::Yellow => 4,
        Color::Purple => 5,
        Color::White => 6,
        Color::Orange => 7,
        Color::Cyan => 8,
    }
}

/// The color with code `v` (codes 0 to 8).
pub open spec fn color_of(v: u8) -> Color {
    if v == 0 {
        Color::Red
    } else if v == 1 {
        Color::Blue
    } else if v == 2 {
        Color::Black
    } else if v == 3 {
        Color::Green
    } else if v == 4 {
        Color::Yellow
    } else if v == 5 {
        Color::Purple
    } else if v == 6 {
        Color::White
    } else if v == 7 {
        Color::Orange
    } else {
        Color::Cyan
    }
}

/// The colors of a grid of codes.
pub open spec fn colors_of(codes: Seq<u8>) -> Seq<Color> {
    Seq::new(codes.len(), |i: int| color_of(codes[i]))
}

/// Every code of the grid names a color.
pub open spec fn all_codes_valid(codes: Seq<u8>) -> bool {
    forall|i: int| 0 <= i < codes.len() ==> #[trigger] codes[i] < 9
}

/// The first position of a code that names no color.
pub open spec fn first_bad_code(codes: Seq<u8>, i: int) -> bool {
    &&& 0 <= i < codes.len()
    &&& codes[i] >= 9
    &&& forall|j: int| 0 <= j < i ==> #[trigger] codes[j] < 9
}

/// Decodes a grid of color codes; on a bad code, its position and value.
pub fn parse_colors(codes: &[u8]) -> (r: Result<Vec<Color>, (usize, u8)>)
    ensures
        r is Ok <==> all_codes_valid(codes@),
        r is Ok ==> r.unwrap()@ == colors_of(codes@),
        r is Err ==> first_bad_code(codes@, r.unwrap_err().0 as int) && r.unwrap_err().1
            == codes@[r.unwrap_err().0 as int],
{
    let mut out: Vec<Color> = Vec::new();
    let mut i: usize = 0;
    while i < codes.len()
        invariant
            i <= codes@.len(),
            out@ == colors_of(codes@).subrange(0, i as int),
            forall|j: int| 0 <= j < i ==> #[trigger] codes@[j] < 9,
        decreases codes@.len() - i,
    {
        let v = codes[i];
        match Color::from_u8(v) {
            Some(c) => {
                out.push(c);
            },
            None => {
                return Err((i, v));
            },
        }
        i = i + 1;
    }
    assert(out@ == colors_of(codes@));
    Ok(out)
}

impl Color {
    /// Decodes a color code; codes above 8 are not colors.
    pub fn from_u8(v: u8) -> (r: Option<Self>)
        ensures
            v < 9 <==> r.is_some(),
            r.is_some() ==> color_code(r.unwrap()) == v && r.unwrap() == color_of(v),
    {
        match v {
            0 => Some(Color::Red),
            1 => Some(Color::Blue),
            2 => Some(Color::Black),
            3 => Some(Color::Green),
            4 => Some(Color::Yellow),
            5 => Some(Color::Purple),
            6 => Some(Color::White),
            7 => Some(Color::Orange),
            8 => Some(Color::Cyan),
            _ => None,
        }
    }

    /// The numeric code of this color.
    pub fn to_u8(self) -> (r: u8)
        ensures
            r == color_code(self),
            r < 9,
    {
        match self {
            Color::Red => 0,
            Color::Blue => 1,
            Color::Black => 2,
            Color::Green => 3,
            Color::Yellow => 4,
            Color::Purple => 5,
            Color::White => 6,
            Color::Orange => 7,
            Color::Cyan => 8,
        }
    }
}

/// Every color but White, in code order.
pub fn non_white_colors() -> (r: Vec<Color>)
    ensures
        r@.len() == 8,
        forall|i: int| 0 <= i < 8 ==> r@[i] != Color::White,
{
    vec![
        Color::Red,
        Color::Blue,
        Color::Black,
        Color::Green,
        Color::Yellow,
        Color::Purple,
        Color::Orange,
        Color::Cyan,
    ]
}

} // verus!
