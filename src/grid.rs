use vstd::prelude::*;
use crate::tile::{Tile, UnrecognizedCode, classify};
use crate::influence::{is_rectangular, cols};

verus! {

/// The pieces of `s` between occurrences of `sep`; there is always one more
/// piece than there are separators.
pub open spec fn split(s: Seq<char>, sep: char) -> Seq<Seq<char>>
    decreases s.len(),
{
    if s.len() == 0 {
        seq![Seq::<char>::empty()]
    } else {
        let pieces = split(s.drop_last(), sep);
        if s.last() == sep {
            pieces.push(Seq::<char>::empty())
        } else {
            pieces.update(pieces.len() - 1, pieces.last().push(s.last()))
        }
    }
}

proof fn lemma_split_nonempty(s: Seq<char>, sep: char)
    ensures
        split(s, sep).len() >= 1,
    decreases s.len(),
{
    if s.len() > 0 {
        lemma_split_nonempty(s.drop_last(), sep);
    }
}

/// Splits `s` at every occurrence of `sep`.
pub fn split_fields(s: &str, sep: char) -> (r: Vec<&str>)
    ensures
        r@.len() == split(s@, sep).len(),
        forall|k: int| 0 <= k < r@.len() ==> #[trigger] r@[k]@ == split(s@, sep)[k],
{
    let n = s.unicode_len();
    let mut out: Vec<&str> = Vec::new();
    let mut start: usize = 0;
    let mut i: usize = 0;
    while i < n
        invariant
            n == s@.len(),
            start <= i <= n,
            split(s@.subrange(0, i as int), sep).len() == out@.len() + 1,
            split(s@.subrange(0, i as int), sep).last() == s@.subrange(start as int, i as int),
            forall|k: int| 0 <= k < out@.len() ==> #[trigger] out@[k]@ == split(s@.subrange(0, i as int), sep)[k],
        decreases n - i,
    {
        let c = s.get_char(i);
        proof {
            let next = s@.subrange(0, i + 1);
            assert(next.drop_last() =~= s@.subrange(0, i as int));
            lemma_split_nonempty(s@.subrange(0, i as int), sep);
        }
        if c == sep {
            out.push(s.substring_char(start, i));
            start = i + 1;
            proof {
                assert(s@.subrange(start as int, i + 1) =~= Seq::<char>::empty());
            }
        } else {
            proof {
                assert(s@.subrange(start as int, i + 1) =~= s@.subrange(start as int, i as int).push(c));
            }
        }
        i = i + 1;
    }
    out.push(s.substring_char(start, n));
    proof {
        assert(s@.subrange(0, n as int) =~= s@);
    }
    out
}

/// Why a map text could not be read as a grid.
#[derive(Debug)]
pub enum MapError {
    /// A cell holds a code that names no tile kind.
    Code(UnrecognizedCode),
    /// The rows do not all have the same number of cells.
    NotRectangular,
}

/// The cell codes of a map text: one row per line, cells separated by tabs.
pub open spec fn cells(text: Seq<char>) -> Seq<Seq<Seq<char>>> {
    split(text, '\n').map_values(|line: Seq<char>| split(line, '\t'))
}

/// Every cell of the map text names a tile kind.
pub open spec fn all_codes_valid(text: Seq<char>) -> bool {
    forall|r: int, c: int|
        0 <= r < cells(text).len() && 0 <= c < cells(text)[r].len() ==> #[trigger] classify(
            cells(text)[r][c],
        ) is Some
}

/// `m` holds, cell for cell, the tiles that the map text names.
pub open spec fn grid_matches(m: Seq<Vec<Tile>>, text: Seq<char>) -> bool {
    &&& m.len() == cells(text).len()
    &&& forall|r: int| 0 <= r < m.len() ==> #[trigger] m[r]@.len() == cells(text)[r].len()
    &&& forall|r: int, c: int|
        0 <= r < m.len() && 0 <= c < m[r]@.len() ==> Some(#[trigger] m[r]@[c]) == classify(
            cells(text)[r][c],
        )
}

/// Whether every row of the grid has as many tiles as the first.
pub fn is_rectangular_grid(map: &Vec<Vec<Tile>>) -> (r: bool)
    ensures
        r == is_rectangular(map@),
{
    if map.len() == 0 {
        return true;
    }
    let ncols = map[0].len();
    let mut i: usize = 0;
    while i < map.len()
        invariant
            i <= map@.len(),
            map@.len() > 0,
            ncols == cols(map@),
            forall|k: int| 0 <= k < i ==> #[trigger] map@[k]@.len() == ncols,
        decreases map@.len() - i,
    {
        if map[i].len() != ncols {
            return false;
        }
        i = i + 1;
    }
    true
}

/// Reads one line of a map: its tab-separated cell codes, classified.
fn parse_row(line: &str) -> (r: Result<Vec<Tile>, UnrecognizedCode>)
    ensures
        r matches Ok(row) ==> {
            &&& row@.len() == split(line@, '\t').len()
            &&& forall|c: int| 0 <= c < row@.len() ==> Some(#[trigger] row@[c]) == classify(split(line@, '\t')[c])
        },
        r is Ok <==> forall|c: int| 0 <= c < split(line@, '\t').len() ==> #[trigger] classify(split(line@, '\t')[c]) is Some,
        r matches Err(e) ==> exists|c: int| 0 <= c < split(line@, '\t').len() && #[trigger] split(line@, '\t')[c] == e.code@ && classify(e.code@) is None,
{
    let fields = split_fields(line, '\t');
    let mut row: Vec<Tile> = Vec::new();
    let mut c: usize = 0;
    while c < fields.len()
        invariant
            fields@.len() == split(line@, '\t').len(),
            forall|k: int| 0 <= k < fields@.len() ==> #[trigger] fields@[k]@ == split(line@, '\t')[k],
            c <= fields@.len(),
            row@.len() == c,
            forall|k: int| 0 <= k < c ==> Some(#[trigger] row@[k]) == classify(split(line@, '\t')[k]),
        decreases fields@.len() - c,
    {
        match Tile::from_string(fields[c]) {
            Ok(t) => row.push(t),
            Err(e) => {
                assert(split(line@, '\t')[c as int] == e.code@);
                assert(classify(split(line@, '\t')[c as int]) is None);
                return Err(e);
            },
        }
        c = c + 1;
    }
    assert forall|k: int| 0 <= k < split(line@, '\t').len() implies #[trigger] classify(split(line@, '\t')[k]) is Some by {
        assert(Some(row@[k]) == classify(split(line@, '\t')[k]));
    }
    Ok(row)
}

/// Reads a map text: one row per line, cells separated by tabs, each cell a
/// tile code. Fails on the first cell, in row-major order, whose code names no
/// tile kind; otherwise fails when the rows differ in length.
pub fn parse_map(text: &str) -> (r: Result<Vec<Vec<Tile>>, MapError>)
    ensures
        r matches Ok(m) ==> grid_matches(m@, text@) && is_rectangular(m@),
        r is Ok <==> all_codes_valid(text@) && (forall|m: Seq<Vec<Tile>>|
            grid_matches(m, text@) ==> is_rectangular(m)),
        r matches Err(MapError::Code(e)) ==> !all_codes_valid(text@) && exists|r: int, c: int|
            0 <= r < cells(text@).len() && 0 <= c < cells(text@)[r].len()
                && #[trigger] cells(text@)[r][c] == e.code@ && classify(e.code@) is None,
        r matches Err(MapError::NotRectangular) ==> all_codes_valid(text@),
{
    let lines = split_fields(text, '\n');
    let mut map: Vec<Vec<Tile>> = Vec::new();
    let mut i: usize = 0;
    while i < lines.len()
        invariant
            lines@.len() == cells(text@).len(),
            forall|k: int| 0 <= k < lines@.len() ==> #[trigger] split(lines@[k]@, '\t') == cells(text@)[k],
            i <= lines@.len(),
            map@.len() == i,
            forall|k: int| 0 <= k < i ==> #[trigger] map@[k]@.len() == cells(text@)[k].len(),
            forall|k: int, c: int|
                0 <= k < i && 0 <= c < map@[k]@.len() ==> Some(#[trigger] map@[k]@[c]) == classify(
                    cells(text@)[k][c],
                ),
            forall|k: int, c: int|
                0 <= k < i && 0 <= c < cells(text@)[k].len() ==> #[trigger] classify(
                    cells(text@)[k][c],
                ) is Some,
        decreases lines@.len() - i,
    {
        assert(split(lines@[i as int]@, '\t') == cells(text@)[i as int]);
        match parse_row(lines[i]) {
            Ok(row) => map.push(row),
            Err(e) => {
                proof {
                    let c = choose|c: int| 0 <= c < split(lines@[i as int]@, '\t').len() && #[trigger] split(lines@[i as int]@, '\t')[c] == e.code@ && classify(e.code@) is None;
                    assert(cells(text@)[i as int][c] == e.code@);
                    assert(classify(cells(text@)[i as int][c]) is None);
                }
                return Err(MapError::Code(e));
            },
        }
        i = i + 1;
    }
    assert(grid_matches(map@, text@));
    if is_rectangular_grid(&map) {
        proof {
            assert forall|m: Seq<Vec<Tile>>| grid_matches(m, text@) implies is_rectangular(m) by {
                assert forall|k: int| 0 <= k < m.len() implies #[trigger] m[k]@.len() == cols(m) by {
                    assert(m[k]@.len() == map@[k]@.len());
                    assert(m[0]@.len() == map@[0]@.len());
                }
            }
        }
        Ok(map)
    } else {
        Err(MapError::NotRectangular)
    }
}

} // verus!
