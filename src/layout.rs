use vstd::prelude::*;

use crate::permutation::IndexPermutation;

verus! {

/// The character drawn at column `x`, row `y` of the small grid picturing one
/// swap: `A` at its first cell, `B` at its second, `~` elsewhere.
pub open spec fn cell_char(p: IndexPermutation, x: int, y: int) -> char {
    if x == p.0 / 4 && y == p.0 % 4 {
        'A'
    } else if x == p.1 / 4 && y == p.1 % 4 {
        'B'
    } else {
        '~'
    }
}

/// Row `y` of the picture of one swap.
pub open spec fn grid_row(p: IndexPermutation, y: int) -> Seq<char> {
    seq![cell_char(p, 0, y), cell_char(p, 1, y), cell_char(p, 2, y), cell_char(p, 3, y)]
}

/// What follows a picture on its row: an arrow towards the next swap, or
/// blanks.
pub open spec fn separator(arrow: bool) -> Seq<char> {
    if arrow {
        seq![' ', '\u{2192}', ' ']
    } else {
        seq![' ', ' ', ' ']
    }
}

/// Row `y` of the picture of swap `k`, with its separator: the arrow stands
/// on the second row of every swap but the last.
pub open spec fn line_part(perms: Seq<IndexPermutation>, k: int, y: int) -> Seq<char> {
    grid_row(perms[k], y) + separator(y == 1 && k != perms.len() - 1)
}

/// Row `y` of the pictures of swaps `start` up to `end`, side by side.
pub open spec fn chunk_line(perms: Seq<IndexPermutation>, start: int, end: int, y: int) -> Seq<
    char,
>
    decreases end - start,
{
    if end <= start {
        seq![]
    } else {
        chunk_line(perms, start, end - 1, y) + line_part(perms, end - 1, y)
    }
}

/// End of the block of at most `per_line` swaps that begins at `start`.
pub open spec fn block_end(len: int, per_line: int, start: int) -> int {
    if len - start > per_line {
        start + per_line
    } else {
        len
    }
}

/// The four rows picturing swaps `start` up to `end`.
pub open spec fn block(perms: Seq<IndexPermutation>, start: int, end: int) -> Seq<Seq<char>> {
    seq![
        chunk_line(perms, start, end, 0),
        chunk_line(perms, start, end, 1),
        chunk_line(perms, start, end, 2),
        chunk_line(perms, start, end, 3),
    ]
}

/// The blocks picturing the swaps from `start` on, `per_line` swaps to a
/// block.
pub open spec fn blocks_from(perms: Seq<IndexPermutation>, per_line: int, start: int) -> Seq<
    Seq<Seq<char>>,
>
    decreases perms.len() - start,
    when per_line > 0
{
    if start >= perms.len() {
        seq![]
    } else {
        let end = block_end(perms.len() as int, per_line, start);
        seq![block(perms, start, end)] + blocks_from(perms, per_line, end)
    }
}

fn cell_at(p: IndexPermutation, x: usize, y: usize) -> (r: char)
    ensures
        r == cell_char(p, x as int, y as int),
{
    if x == p.0 / 4 && y == p.0 % 4 {
        'A'
    } else if x == p.1 / 4 && y == p.1 % 4 {
        'B'
    } else {
        '~'
    }
}

fn push_part(line: &mut Vec<char>, p: IndexPermutation, y: usize, arrow: bool)
    ensures
        final(line)@ == old(line)@ + grid_row(p, y as int) + separator(arrow),
{
    line.push(cell_at(p, 0, y));
    line.push(cell_at(p, 1, y));
    line.push(cell_at(p, 2, y));
    line.push(cell_at(p, 3, y));
    line.push(' ');
    if arrow {
        line.push('\u{2192}');
    } else {
        line.push(' ');
    }
    line.push(' ');
    assert(final(line)@ =~= old(line)@ + grid_row(p, y as int) + separator(arrow));
}

/// The rows of text that picture a list of swaps on the 4x4 grid, in blocks
/// of `grids_per_line` pictures side by side, four rows to a block.
pub fn render_permutations(permutations: &[IndexPermutation], grids_per_line: usize) -> (r: Vec<
    Vec<Vec<char>>,
>)
    requires
        grids_per_line > 0,
    ensures
        r.deep_view() == blocks_from(permutations@, grids_per_line as int, 0),
{
    let n = permutations.len();
    let ghost perms = permutations@;
    let ghost g = grids_per_line as int;
    let mut blocks: Vec<Vec<Vec<char>>> = Vec::new();
    let mut start: usize = 0;
    while start < n
        invariant
            n == perms.len(),
            perms == permutations@,
            g == grids_per_line > 0,
            start <= n,
            blocks.deep_view() + blocks_from(perms, g, start as int) == blocks_from(perms, g, 0),
        decreases n - start,
    {
        let end = if n - start > grids_per_line {
            start + grids_per_line
        } else {
            n
        };
        let mut lines: Vec<Vec<char>> = Vec::new();
        let mut y: usize = 0;
        while y < 4
            invariant
                n == perms.len(),
                perms == permutations@,
                start < end <= n,
                y <= 4,
                lines.deep_view() == block(perms, start as int, end as int).subrange(0, y as int),
            decreases 4 - y,
        {
            let mut line: Vec<char> = Vec::new();
            let mut k: usize = start;
            while k < end
                invariant
                    n == perms.len(),
                    perms == permutations@,
                    start <= k <= end <= n,
                    line@ == chunk_line(perms, start as int, k as int, y as int),
                decreases end - k,
            {
                let arrow = y == 1 && k != n - 1;
                push_part(&mut line, permutations[k], y, arrow);
                k = k + 1;
            }
            let ghost before = lines.deep_view();
            assert(line.deep_view() =~= line@);
            lines.push(line);
            assert(lines.deep_view() =~= before.push(line@));
            assert(lines.deep_view() =~= block(perms, start as int, end as int).subrange(
                0,
                y + 1,
            ));
            y = y + 1;
        }
        let ghost before = blocks.deep_view();
        assert(lines.deep_view() =~= block(perms, start as int, end as int));
        blocks.push(lines);
        assert(blocks.deep_view() =~= before.push(block(perms, start as int, end as int)));
        assert(blocks_from(perms, g, start as int) == seq![block(perms, start as int, end as int)]
            + blocks_from(perms, g, end as int));
        assert(blocks.deep_view() + blocks_from(perms, g, end as int) =~= before + blocks_from(
            perms,
            g,
            start as int,
        ));
        start = end;
    }
    assert(blocks.deep_view() + blocks_from(perms, g, start as int) =~= blocks.deep_view());
    blocks
}

} // verus!
