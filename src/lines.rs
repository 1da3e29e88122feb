//! Line and column arithmetic for cursor movement across lines.

use vstd::prelude::*;

use vstd::string::StrSliceExecFns;

verus! {

/// The pieces of `s` between its newlines: one more than it has newlines.
pub open spec fn newline_pieces(s: Seq<char>) -> Seq<Seq<char>>
    decreases s.len(),
{
    if s.len() == 0 {
        seq![Seq::empty()]
    } else {
        let rest = newline_pieces(s.drop_last());
        if s.last() == '\n' {
            rest.push(Seq::empty())
        } else {
            rest.update(rest.len() - 1, rest.last().push(s.last()))
        }
    }
}

/// A piece that a newline ends, without the carriage return before it.
pub open spec fn strip_cr(p: Seq<char>) -> Seq<char> {
    if p.len() > 0 && p.last() == '\r' {
        p.drop_last()
    } else {
        p
    }
}

/// The lines of a text, as `str::lines` splits it: at each `\n` or
/// `\r\n`, without the line endings, and with no empty line after a final
/// line ending.
pub open spec fn text_lines(s: Seq<char>) -> Seq<Seq<char>> {
    let ps = newline_pieces(s);
    let n = if ps.last().len() == 0 {
        ps.len() - 1
    } else {
        ps.len() as int
    };
    Seq::new(
        n as nat,
        |i: int|
            if i < ps.len() - 1 {
                strip_cr(ps[i])
            } else {
                ps[i]
            },
    )
}

/// Relies on `str::lines`: the text's lines, without their line endings.
#[verifier::external_body]
fn split_lines(s: &str) -> (r: Vec<String>)
    ensures
        r@.len() == text_lines(s@).len(),
        forall|i: int| 0 <= i < r@.len() ==> (#[trigger] r@[i])@ == text_lines(s@)[i],
{
    s.lines().map(str::to_string).collect()
}

/// Character counts of `ls`.
pub open spec fn lengths(ls: Seq<Seq<char>>) -> Seq<usize> {
    Seq::new(ls.len(), |i: int| ls[i].len() as usize)
}

/// Character count of each line of `s`.
pub fn line_lengths(s: &str) -> (r: Vec<usize>)
    ensures
        r@ == lengths(text_lines(s@)),
{
    let lines = split_lines(s);
    let mut r: Vec<usize> = Vec::new();
    let mut i: usize = 0;
    while i < lines.len()
        invariant
            i <= lines@.len(),
            lines@.len() == text_lines(s@).len(),
            forall|k: int| 0 <= k < lines@.len() ==> (#[trigger] lines@[k])@ == text_lines(s@)[k],
            r@ =~= lengths(text_lines(s@)).take(i as int),
        decreases lines@.len() - i,
    {
        let n = lines[i].as_str().unicode_len();
        r.push(n);
        i = i + 1;
    }
    assert(r@ =~= lengths(text_lines(s@)));
    r
}

/// Buffer position where line `k` starts: each earlier line and its
/// line break.
pub open spec fn line_start(lines: Seq<usize>, k: int) -> int
    decreases k,
{
    if k <= 0 {
        0
    } else {
        line_start(lines, k - 1) + lines[k - 1] + 1
    }
}

/// Line and column of buffer position `pos`, from line `k` on: the first
/// line whose end is at or after `pos`; past the last line, the start of
/// the last line.
pub open spec fn locate_from(lines: Seq<usize>, pos: int, k: int) -> (int, int)
    decreases lines.len() - k,
{
    if k >= lines.len() {
        (if lines.len() > 0 {
            lines.len() - 1
        } else {
            0
        }, 0)
    } else if pos <= line_start(lines, k) + lines[k] {
        (k, pos - line_start(lines, k))
    } else {
        locate_from(lines, pos, k + 1)
    }
}

pub open spec fn min(a: int, b: int) -> int {
    if a <= b {
        a
    } else {
        b
    }
}

/// Where the cursor at `pos` goes one line up (`up`) or down, keeping its
/// column where the target line is long enough; none at the first or last
/// line, or when the lines' total span does not fit in `usize`.
pub open spec fn vertical_target(lines: Seq<usize>, pos: int, up: bool) -> Option<int> {
    let (cl, ch) = locate_from(lines, pos, 0);
    if line_start(lines, lines.len() as int) > usize::MAX {
        None
    } else if up {
        if cl > 0 {
            Some(line_start(lines, cl - 1) + min(ch, lines[cl - 1] as int))
        } else {
            None
        }
    } else if cl + 1 < lines.len() {
        Some(line_start(lines, cl + 1) + min(ch, lines[cl + 1] as int))
    } else {
        None
    }
}

proof fn lemma_locate_range(lines: Seq<usize>, pos: int, k: int)
    requires
        0 <= k,
        pos >= line_start(lines, k),
    ensures
        ({
            let (cl, ch) = locate_from(lines, pos, k);
            &&& 0 <= ch
            &&& (cl < lines.len() || (lines.len() == 0 && cl == 0))
            &&& 0 <= cl
        }),
    decreases lines.len() - k,
{
    if k < lines.len() && pos > line_start(lines, k) + lines[k] {
        lemma_locate_range(lines, pos, k + 1);
    }
}

/// Moves `pos` one line up or down in a text whose lines have the given
/// lengths; see [`vertical_target`].
pub fn move_vertically(lines: &Vec<usize>, pos: usize, up: bool) -> (r: Option<usize>)
    ensures
        r matches Some(t) ==> vertical_target(lines@, pos as int, up) == Some(t as int),
        r is None ==> vertical_target(lines@, pos as int, up) is None,
{
    let total = total_line_span(lines);
    if total.is_none() {
        return None;
    }
    let (cl, ch) = get_cursor_line_char(lines, pos);
    proof {
        lemma_locate_range(lines@, pos as int, 0);
    }
    let target = if up {
        if cl == 0 {
            return None;
        }
        cl - 1
    } else {
        if cl >= lines.len() || lines.len() - cl <= 1 {
            return None;
        }
        cl + 1
    };
    let tc = if ch <= lines[target] {
        ch
    } else {
        lines[target]
    };
    proof {
        lemma_line_start_mono(lines@, target + 1, lines@.len() as int);
    }
    Some(line_char_to_rope_pos(lines, target, tc))
}

proof fn lemma_line_start_mono(lines: Seq<usize>, a: int, b: int)
    requires
        0 <= a <= b <= lines.len(),
    ensures
        line_start(lines, a) <= line_start(lines, b),
    decreases b - a,
{
    if a < b {
        lemma_line_start_mono(lines, a, b - 1);
    }
}

/// Line and column of buffer position `rope_pos` in a text whose lines
/// have the given lengths.
pub fn get_cursor_line_char(lines: &Vec<usize>, rope_pos: usize) -> (r: (usize, usize))
    requires
        line_start(lines@, lines@.len() as int) <= usize::MAX,
    ensures
        (r.0 as int, r.1 as int) == locate_from(lines@, rope_pos as int, 0),
{
    let mut char_count: usize = 0;
    let mut k: usize = 0;
    while k < lines.len()
        invariant
            k <= lines@.len(),
            line_start(lines@, lines@.len() as int) <= usize::MAX,
            char_count == line_start(lines@, k as int),
            rope_pos >= char_count,
            locate_from(lines@, rope_pos as int, 0) == locate_from(lines@, rope_pos as int, k as int),
        decreases lines@.len() - k,
    {
        proof {
            lemma_line_start_mono(lines@, k + 1, lines@.len() as int);
        }
        if rope_pos <= char_count + lines[k] {
            return (k, rope_pos - char_count);
        }
        char_count = char_count + lines[k] + 1;
        k = k + 1;
    }
    if lines.len() > 0 {
        (lines.len() - 1, 0)
    } else {
        (0, 0)
    }
}

/// Buffer position of column `target_char` on line `target_line`; a line
/// past the last counts from the end of the text.
pub fn line_char_to_rope_pos(lines: &Vec<usize>, target_line: usize, target_char: usize) -> (r:
    usize)
    requires
        line_start(
            lines@,
            if target_line <= lines@.len() {
                target_line as int
            } else {
                lines@.len() as int
            },
        ) + target_char <= usize::MAX,
    ensures
        r == line_start(
            lines@,
            if target_line <= lines@.len() {
                target_line as int
            } else {
                lines@.len() as int
            },
        ) + target_char,
{
    let last = if target_line <= lines.len() {
        target_line
    } else {
        lines.len()
    };
    let mut pos: usize = 0;
    let mut k: usize = 0;
    while k < last
        invariant
            k <= last <= lines@.len(),
            line_start(lines@, last as int) + target_char <= usize::MAX,
            pos == line_start(lines@, k as int),
        decreases last - k,
    {
        proof {
            lemma_line_start_mono(lines@, k + 1, last as int);
        }
        pos = pos + lines[k] + 1;
        k = k + 1;
    }
    pos + target_char
}

/// Sum of the line lengths and breaks, when it fits in `usize`.
pub fn total_line_span(lines: &Vec<usize>) -> (r: Option<usize>)
    ensures
        r is Some <==> line_start(lines@, lines@.len() as int) <= usize::MAX,
        r matches Some(t) ==> t == line_start(lines@, lines@.len() as int),
{
    let mut total: usize = 0;
    let mut k: usize = 0;
    while k < lines.len()
        invariant
            k <= lines@.len(),
            total == line_start(lines@, k as int),
        decreases lines@.len() - k,
    {
        if total > usize::MAX - 1 || lines[k] > usize::MAX - 1 - total {
            proof {
                lemma_line_start_mono(lines@, k + 1, lines@.len() as int);
            }
            return None;
        }
        total = total + lines[k] + 1;
        k = k + 1;
    }
    Some(total)
}

} // verus!
