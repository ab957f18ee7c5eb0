use vstd::prelude::*;

verus! {

/// The kind of one cell of a tile map.
#[derive(Clone, Copy, Debug, PartialEq, Eq, Structural)]
pub enum Tile {
    Empty,
    /// A city; its tier is the number of markers in its code.
    City(usize),
    Mountain,
    Swamp,
    River,
    Road,
}

/// Habitability of a tile kind, in tenths.
pub open spec fn habitability_of(t: Tile) -> nat {
    match t {
        Tile::Empty => 10,
        Tile::Mountain => 0,
        Tile::Swamp => 3,
        Tile::River => 0,
        Tile::Road => 13,
        Tile::City(n) => (20 * n) as nat,
    }
}

impl Tile {
    /// Habitability of this tile, in tenths: 1.0 for an empty tile, 0.3 for a
    /// swamp, 1.3 for a road, 2.0 per tier for a city, 0.0 otherwise.
    pub fn habitability_tenths(&self) -> (r: u128)
        ensures
            r == habitability_of(*self),
    {
        match self {
            Tile::Empty => 10,
            Tile::Mountain => 0,
            Tile::Swamp => 3,
            Tile::River => 0,
            Tile::Road => 13,
            Tile::City(n) => 20 * (*n as u128),
        }
    }
}

/// A tile code that names no tile kind.
#[derive(Debug)]
pub struct UnrecognizedCode {
    pub code: String,
}

/// The number of occurrences of `c` in `s`.
pub open spec fn count_char(s: Seq<char>, c: char) -> nat
    decreases s.len(),
{
    if s.len() == 0 {
        0
    } else {
        count_char(s.drop_last(), c) + if s.last() == c {
            1nat
        } else {
            0nat
        }
    }
}

/// The tile kind that a code names, if any. The rules are tried in order:
/// the empty code, the four one-letter codes, then any code holding at least
/// one city marker `X`, whose count is the city's tier.
pub open spec fn classify(s: Seq<char>) -> Option<Tile> {
    if s.len() == 0 {
        Some(Tile::Empty)
    } else if s == seq!['U'] {
        Some(Tile::Mountain)
    } else if s == seq!['N'] {
        Some(Tile::Swamp)
    } else if s == seq!['J'] {
        Some(Tile::River)
    } else if s == seq!['T'] {
        Some(Tile::Road)
    } else if count_char(s, 'X') > 0 {
        Some(Tile::City(count_char(s, 'X') as usize))
    } else {
        None
    }
}

proof fn lemma_count_char_le_len(s: Seq<char>, c: char)
    ensures
        count_char(s, c) <= s.len(),
    decreases s.len(),
{
    if s.len() > 0 {
        lemma_count_char_le_len(s.drop_last(), c);
    }
}

/// The number of occurrences of `c` in `s`.
fn count_occurrences(s: &str, c: char) -> (r: usize)
    ensures
        r == count_char(s@, c),
{
    let n = s.unicode_len();
    let mut i: usize = 0;
    let mut r: usize = 0;
    while i < n
        invariant
            n == s@.len(),
            i <= n,
            r == count_char(s@.subrange(0, i as int), c),
        decreases n - i,
    {
        let d = s.get_char(i);
        proof {
            let next = s@.subrange(0, i + 1);
            assert(next.drop_last() =~= s@.subrange(0, i as int));
            lemma_count_char_le_len(next.drop_last(), c);
        }
        if d == c {
            r = r + 1;
        }
        i = i + 1;
    }
    assert(s@.subrange(0, n as int) =~= s@);
    r
}

impl Tile {
    /// Classifies a tile code: `""` is empty, `"U"` a mountain, `"N"` a swamp,
    /// `"J"` a river, `"T"` a road; otherwise a code with at least one `X` is a
    /// city whose tier is its number of `X`s, and any other code is refused.
    pub fn from_string(s: &str) -> (r: Result<Tile, UnrecognizedCode>)
        ensures
            classify(s@) matches Some(t) ==> r == Ok::<Tile, UnrecognizedCode>(t),
            classify(s@) is None ==> (r matches Err(e) && e.code@ == s@),
    {
        let n = s.unicode_len();
        if n == 0 {
            return Ok(Tile::Empty);
        }
        if n == 1 {
            let c = s.get_char(0);
            proof {
                assert(s@ =~= seq![c]);
            }
            if c == 'U' {
                return Ok(Tile::Mountain);
            } else if c == 'N' {
                return Ok(Tile::Swamp);
            } else if c == 'J' {
                return Ok(Tile::River);
            } else if c == 'T' {
                return Ok(Tile::Road);
            }
        }
        let markers = count_occurrences(s, 'X');
        if markers > 0 {
            Ok(Tile::City(markers))
        } else {
            Err(UnrecognizedCode { code: s.to_owned() })
        }
    }
}

} // verus!
