//! Readable text reconstructed from token geometry alone.

use vstd::prelude::*;

use crate::geometry::POINT;
use crate::token::{abs, Token};
use vstd::string::StringExecFns;

verus! {

/// Tokens closer than this vertically to a line's first token join it.
pub const LINE_CLUSTER_DISTANCE: i64 = 8 * POINT;

/// Horizontal gaps up to this width are written as one space.
pub const WORD_GAP_THRESHOLD: i64 = 3 * POINT;

/// Width of one space when a wider gap is turned into spaces.
pub const SPACE_WIDTH: i64 = 8 * POINT;

/// Most spaces written for one horizontal gap.
pub const MAX_SPACES: i64 = 10;

/// Vertical gaps between lines wider than this are section breaks.
pub const SECTION_GAP: i64 = 15 * POINT;

/// Height of one blank line when a section break is turned into newlines.
pub const BLANK_LINE_HEIGHT: i64 = 12 * POINT;

/// Most extra newlines written for one section break.
pub const MAX_BLANK_LINES: i64 = 3;

/// Sort key of token `x`: its horizontal position when `by_h`, else its
/// vertical one.
pub open spec fn key(ts: Seq<Token>, x: usize, by_h: bool) -> int {
    if by_h {
        ts[x as int].h_pos as int
    } else {
        ts[x as int].v_pos as int
    }
}

/// Where a stable insertion of `x` into sorted `s` goes: after every
/// element whose key is not greater.
pub open spec fn insert_pos(ts: Seq<Token>, s: Seq<usize>, x: usize, by_h: bool) -> int
    decreases s.len(),
{
    if s.len() == 0 {
        0
    } else if key(ts, s.last(), by_h) <= key(ts, x, by_h) {
        s.len() as int
    } else {
        insert_pos(ts, s.drop_last(), x, by_h)
    }
}

/// `s` stably sorted by key, by insertion of each element in turn.
pub open spec fn sort_by_key(ts: Seq<Token>, s: Seq<usize>, by_h: bool) -> Seq<usize>
    decreases s.len(),
{
    if s.len() == 0 {
        s
    } else {
        let sorted = sort_by_key(ts, s.drop_last(), by_h);
        let p = insert_pos(ts, sorted, s.last(), by_h);
        sorted.take(p).push(s.last()) + sorted.skip(p)
    }
}

/// Whether token `x` joins `line`: it is within the cluster distance of the
/// line's first token.
pub open spec fn joins(ts: Seq<Token>, line: Seq<usize>, x: usize) -> bool {
    line.len() > 0 && abs(ts[x as int].v_pos - ts[line[0] as int].v_pos) < LINE_CLUSTER_DISTANCE
}

/// The first line that token `x` joins.
pub open spec fn first_joined(ts: Seq<Token>, lines: Seq<Seq<usize>>, x: usize) -> Option<int>
    decreases lines.len(),
{
    if lines.len() == 0 {
        None
    } else {
        match first_joined(ts, lines.drop_last(), x) {
            Some(j) => Some(j),
            None => if joins(ts, lines.last(), x) {
                Some(lines.len() - 1)
            } else {
                None
            },
        }
    }
}

/// Lines after assigning `x` to the first line it joins, or to a new line.
pub open spec fn add_to_lines(ts: Seq<Token>, lines: Seq<Seq<usize>>, x: usize) -> Seq<Seq<usize>> {
    match first_joined(ts, lines, x) {
        Some(j) => lines.update(j, lines[j].push(x)),
        None => lines.push(seq![x]),
    }
}

/// Greedy single-pass clustering of `s`, in order, into lines.
pub open spec fn cluster(ts: Seq<Token>, s: Seq<usize>) -> Seq<Seq<usize>>
    decreases s.len(),
{
    if s.len() == 0 {
        Seq::empty()
    } else {
        add_to_lines(ts, cluster(ts, s.drop_last()), s.last())
    }
}

/// The indices `0..n`.
pub open spec fn all_ids(n: nat) -> Seq<usize> {
    Seq::new(n, |i: int| i as usize)
}

/// The lines of `ts`: tokens sorted top to bottom, clustered, and each line
/// sorted left to right.
pub open spec fn reading_lines(ts: Seq<Token>) -> Seq<Seq<usize>> {
    let cl = cluster(ts, sort_by_key(ts, all_ids(ts.len()), false));
    Seq::new(cl.len(), |i: int| sort_by_key(ts, cl[i], true))
}

/// `n` copies of `c`.
pub open spec fn repeat(c: char, n: int) -> Seq<char>
    decreases n,
{
    if n <= 0 {
        Seq::empty()
    } else {
        repeat(c, n - 1).push(c)
    }
}

pub open spec fn clamp(v: int, lo: int, hi: int) -> int {
    if v < lo {
        lo
    } else if v > hi {
        hi
    } else {
        v
    }
}

/// Spaces written for a horizontal gap between two tokens.
pub open spec fn space_count(gap: int) -> int {
    if gap > WORD_GAP_THRESHOLD {
        clamp(gap / SPACE_WIDTH as int, 1, MAX_SPACES as int)
    } else {
        1
    }
}

/// Extra newlines written before a line lying `gap` below the previous one.
pub open spec fn blank_line_count(gap: int) -> int {
    if gap > SECTION_GAP {
        clamp(gap / BLANK_LINE_HEIGHT as int, 1, MAX_BLANK_LINES as int)
    } else {
        0
    }
}

/// Text of the first `k` tokens of a left-to-right `line`.
pub open spec fn line_text_prefix(ts: Seq<Token>, line: Seq<usize>, k: int) -> Seq<char>
    decreases k,
{
    if k <= 0 {
        Seq::empty()
    } else {
        let t = ts[line[k - 1] as int];
        let sep = if k == 1 {
            Seq::empty()
        } else {
            let prev = ts[line[k - 2] as int];
            repeat(' ', space_count(t.h_pos - (prev.h_pos + prev.width)))
        };
        line_text_prefix(ts, line, k - 1) + sep + t.content@
    }
}

/// Text of the first `k` of `lines`, each followed by a newline and
/// preceded by the blank lines its section gap calls for.
pub open spec fn lines_text_prefix(ts: Seq<Token>, lines: Seq<Seq<usize>>, k: int) -> Seq<char>
    decreases k,
{
    if k <= 0 {
        Seq::empty()
    } else {
        let breaks = if k == 1 {
            Seq::empty()
        } else {
            repeat(
                '\n',
                blank_line_count(ts[lines[k - 1][0] as int].v_pos - ts[lines[k - 2][0] as int].v_pos),
            )
        };
        lines_text_prefix(ts, lines, k - 1) + breaks + line_text_prefix(
            ts,
            lines[k - 1],
            lines[k - 1].len() as int,
        ) + seq!['\n']
    }
}

/// The readable text of a page of tokens.
pub open spec fn readable_text(ts: Seq<Token>) -> Seq<char> {
    let lines = reading_lines(ts);
    lines_text_prefix(ts, lines, lines.len() as int)
}

pub open spec fn tokens_wf(ts: Seq<Token>) -> bool {
    forall|i: int| 0 <= i < ts.len() ==> (#[trigger] ts[i]).wf()
}

pub open spec fn ids_below(s: Seq<usize>, n: int) -> bool {
    forall|i: int| 0 <= i < s.len() ==> #[trigger] s[i] < n
}

pub open spec fn lines_view(v: Seq<Vec<usize>>) -> Seq<Seq<usize>> {
    v.map_values(|l: Vec<usize>| l@)
}

fn key_of(tokens: &[Token], x: usize, by_h: bool) -> (r: i64)
    requires
        x < tokens@.len(),
    ensures
        r == key(tokens@, x, by_h),
{
    if by_h {
        tokens[x].h_pos
    } else {
        tokens[x].v_pos
    }
}

/// `ids` stably sorted by the tokens' horizontal (`by_h`) or vertical
/// positions.
pub fn sort_ids(tokens: &[Token], ids: &Vec<usize>, by_h: bool) -> (r: Vec<usize>)
    requires
        ids_below(ids@, tokens@.len() as int),
    ensures
        r@ == sort_by_key(tokens@, ids@, by_h),
        ids_below(r@, tokens@.len() as int),
        r@.len() == ids@.len(),
{
    let ghost ts = tokens@;
    let mut sorted: Vec<usize> = Vec::new();
    let mut k: usize = 0;
    while k < ids.len()
        invariant
            ts == tokens@,
            k <= ids@.len(),
            ids_below(ids@, ts.len() as int),
            sorted@ == sort_by_key(ts, ids@.take(k as int), by_h),
            ids_below(sorted@, ts.len() as int),
            sorted@.len() == k,
        decreases ids@.len() - k,
    {
        let x = ids[k];
        let kx = key_of(tokens, x, by_h);
        let mut j = sorted.len();
        assert(sorted@.take(j as int) =~= sorted@);
        while j > 0 && key_of(tokens, sorted[j - 1], by_h) > kx
            invariant
                ts == tokens@,
                x < ts.len(),
                kx == key(ts, x, by_h),
                j <= sorted@.len(),
                ids_below(sorted@, ts.len() as int),
                insert_pos(ts, sorted@, x, by_h) == insert_pos(ts, sorted@.take(j as int), x, by_h),
            decreases j,
        {
            assert(sorted@.take(j as int).drop_last() =~= sorted@.take(j as int - 1));
            j = j - 1;
        }
        proof {
            if j > 0 {
                assert(sorted@.take(j as int).last() == sorted@[j - 1]);
            }
            assert(insert_pos(ts, sorted@, x, by_h) == j);
            assert(ids@.take(k + 1).drop_last() =~= ids@.take(k as int));
            assert(ids@.take(k + 1).last() == x);
        }
        let ghost before = sorted@;
        sorted.insert(j, x);
        assert(sorted@ =~= before.take(j as int).push(x) + before.skip(j as int));
        k = k + 1;
    }
    assert(ids@.take(ids@.len() as int) =~= ids@);
    sorted
}

/// Groups `sorted` into lines: each token joins the first line whose first
/// token lies within the cluster distance, or opens a new line.
pub fn cluster_lines(tokens: &[Token], sorted: &Vec<usize>) -> (r: Vec<Vec<usize>>)
    requires
        ids_below(sorted@, tokens@.len() as int),
        tokens_wf(tokens@),
    ensures
        lines_view(r@) == cluster(tokens@, sorted@),
        forall|j: int| 0 <= j < r@.len() ==> ids_below(#[trigger] r@[j]@, tokens@.len() as int),
        forall|j: int| 0 <= j < r@.len() ==> (#[trigger] r@[j]@).len() > 0,
{
    let ghost ts = tokens@;
    let mut lines: Vec<Vec<usize>> = Vec::new();
    let mut k: usize = 0;
    while k < sorted.len()
        invariant
            ts == tokens@,
            tokens_wf(ts),
            k <= sorted@.len(),
            ids_below(sorted@, ts.len() as int),
            lines_view(lines@) == cluster(ts, sorted@.take(k as int)),
            forall|j: int| 0 <= j < lines@.len() ==> ids_below(#[trigger] lines@[j]@, ts.len() as int),
            forall|j: int| 0 <= j < lines@.len() ==> (#[trigger] lines@[j]@).len() > 0,
        decreases sorted@.len() - k,
    {
        let x = sorted[k];
        let vx = tokens[x].v_pos;
        let mut j: usize = 0;
        let mut hit: Option<usize> = None;
        while j < lines.len() && hit.is_none()
            invariant
                ts == tokens@,
                tokens_wf(ts),
                x < ts.len(),
                vx == ts[x as int].v_pos,
                j <= lines@.len(),
                forall|i: int| 0 <= i < lines@.len() ==> ids_below(#[trigger] lines@[i]@, ts.len() as int),
                forall|i: int| 0 <= i < lines@.len() ==> (#[trigger] lines@[i]@).len() > 0,
                hit is None ==> first_joined(ts, lines_view(lines@).take(j as int), x) is None,
                hit matches Some(h) ==> h < lines@.len() && first_joined(ts, lines_view(lines@), x)
                    == Some(h as int),
            decreases lines@.len() - j,
        {
            let first = lines[j][0];
            let d = tokens[first].v_pos - vx;
            assert(lines_view(lines@).take(j + 1).drop_last() =~= lines_view(lines@).take(
                j as int,
            ));
            if d < LINE_CLUSTER_DISTANCE && d > -LINE_CLUSTER_DISTANCE {
                assert(joins(ts, lines@[j as int]@, x));
                proof {
                    lemma_first_joined_prefix(ts, lines_view(lines@), x, j + 1);
                }
                hit = Some(j);
            }
            j = j + 1;
        }
        let ghost before = lines_view(lines@);
        match hit {
            Some(h) => {
                lines[h].push(x);
                assert(lines_view(lines@) =~= before.update(h as int, before[h as int].push(x)));
            },
            None => {
                assert(lines_view(lines@).take(lines@.len() as int) =~= lines_view(lines@));
                let mut line: Vec<usize> = Vec::new();
                line.push(x);
                lines.push(line);
                assert(lines_view(lines@) =~= before.push(seq![x]));
            },
        }
        assert(sorted@.take(k + 1).drop_last() =~= sorted@.take(k as int));
        assert(sorted@.take(k + 1).last() == x);
        k = k + 1;
    }
    assert(sorted@.take(sorted@.len() as int) =~= sorted@);
    lines
}

/// Once token `x` joins line `j - 1` and no earlier line, that line is the
/// first it joins.
proof fn lemma_first_joined_prefix(ts: Seq<Token>, lines: Seq<Seq<usize>>, x: usize, j: int)
    requires
        0 < j <= lines.len(),
        first_joined(ts, lines.take(j - 1), x) is None,
        joins(ts, lines[j - 1], x),
    ensures
        first_joined(ts, lines, x) == Some(j - 1),
    decreases lines.len() - j,
{
    assert(lines.take(j).drop_last() =~= lines.take(j - 1));
    if j < lines.len() {
        lemma_first_joined_extend(ts, lines, x, j);
    } else {
        assert(lines.take(j) =~= lines);
    }
}

proof fn lemma_first_joined_extend(ts: Seq<Token>, lines: Seq<Seq<usize>>, x: usize, j: int)
    requires
        0 < j <= lines.len(),
        first_joined(ts, lines.take(j), x) is Some,
    ensures
        first_joined(ts, lines, x) == first_joined(ts, lines.take(j), x),
    decreases lines.len() - j,
{
    if j < lines.len() {
        assert(lines.take(j + 1).drop_last() =~= lines.take(j));
        lemma_first_joined_extend(ts, lines, x, j + 1);
    } else {
        assert(lines.take(j) =~= lines);
    }
}

fn append_spaces(out: &mut String, count: usize)
    ensures
        final(out)@ == old(out)@ + repeat(' ', count as int),
{
    let ghost start = out@;
    let mut i: usize = 0;
    assert(start + repeat(' ', 0) =~= start);
    while i < count
        invariant
            i <= count,
            out@ == start + repeat(' ', i as int),
        decreases count - i,
    {
        out.append(" ");
        proof {
            reveal_strlit(" ");
            assert(" "@ =~= seq![' ']);
            assert(start + repeat(' ', i + 1) =~= start + repeat(' ', i as int) + seq![' ']);
        }
        i = i + 1;
    }
}

fn append_newlines(out: &mut String, count: usize)
    ensures
        final(out)@ == old(out)@ + repeat('\n', count as int),
{
    let ghost start = out@;
    let mut i: usize = 0;
    assert(start + repeat('\n', 0) =~= start);
    while i < count
        invariant
            i <= count,
            out@ == start + repeat('\n', i as int),
        decreases count - i,
    {
        out.append("\n");
        proof {
            reveal_strlit("\n");
            assert("\n"@ =~= seq!['\n']);
            assert(start + repeat('\n', i + 1) =~= start + repeat('\n', i as int) + seq!['\n']);
        }
        i = i + 1;
    }
}

/// The text of one line given left to right: token contents separated by
/// one space, or by one space per space width of a wider gap (at most ten).
pub fn line_text(tokens: &[Token], line: &Vec<usize>) -> (r: String)
    requires
        tokens_wf(tokens@),
        ids_below(line@, tokens@.len() as int),
    ensures
        r@ == line_text_prefix(tokens@, line@, line@.len() as int),
{
    let ghost ts = tokens@;
    let mut out = String::new();
    let mut k: usize = 0;
    while k < line.len()
        invariant
            ts == tokens@,
            tokens_wf(ts),
            ids_below(line@, ts.len() as int),
            k <= line@.len(),
            out@ == line_text_prefix(ts, line@, k as int),
        decreases line@.len() - k,
    {
        let t = &tokens[line[k]];
        let ghost before = out@;
        if k > 0 {
            let p = &tokens[line[k - 1]];
            assert(ts[line@[k - 1] as int].wf());
            assert(ts[line@[k as int] as int].wf());
            let gap = t.h_pos - (p.h_pos + p.width);
            let count: i64 = if gap > WORD_GAP_THRESHOLD {
                let q = gap / SPACE_WIDTH;
                if q < 1 {
                    1
                } else if q > MAX_SPACES {
                    MAX_SPACES
                } else {
                    q
                }
            } else {
                1
            };
            assert(count == space_count(gap as int));
            append_spaces(&mut out, count as usize);
        } else {
            assert(before + Seq::<char>::empty() =~= before);
        }
        out.append(t.content.as_str());
        k = k + 1;
    }
    out
}

/// Readable text of a page: tokens sorted top to bottom, grouped greedily
/// into lines by closeness to each line's first token, each line written
/// left to right and ended by a newline, with extra newlines before a line
/// lying a section gap below the previous one.
pub fn generate_readable_text(tokens: &[Token]) -> (r: String)
    requires
        tokens_wf(tokens@),
    ensures
        r@ == readable_text(tokens@),
{
    let ghost ts = tokens@;
    let n = tokens.len();
    let mut ids: Vec<usize> = Vec::new();
    let mut i: usize = 0;
    while i < n
        invariant
            n == ts.len(),
            i <= n,
            ids@ =~= all_ids(i as nat),
        decreases n - i,
    {
        ids.push(i);
        i = i + 1;
    }
    let sorted = sort_ids(tokens, &ids, false);
    let clustered = cluster_lines(tokens, &sorted);
    let ghost cl = lines_view(clustered@);
    let mut lines: Vec<Vec<usize>> = Vec::new();
    let mut j: usize = 0;
    while j < clustered.len()
        invariant
            ts == tokens@,
            tokens_wf(ts),
            cl == lines_view(clustered@),
            cl == cluster(ts, sort_by_key(ts, all_ids(ts.len()), false)),
            j <= clustered@.len(),
            lines@.len() == j,
            forall|a: int| 0 <= a < clustered@.len() ==> ids_below(#[trigger] clustered@[a]@, ts.len() as int),
            forall|a: int| 0 <= a < clustered@.len() ==> (#[trigger] clustered@[a]@).len() > 0,
            forall|a: int| 0 <= a < j ==> (#[trigger] lines@[a])@ == sort_by_key(ts, cl[a], true),
            forall|a: int| 0 <= a < j ==> ids_below(#[trigger] lines@[a]@, ts.len() as int),
            forall|a: int| 0 <= a < j ==> (#[trigger] lines@[a]@).len() > 0,
        decreases clustered@.len() - j,
    {
        let line = sort_ids(tokens, &clustered[j], true);
        lines.push(line);
        j = j + 1;
    }
    let ghost rl = reading_lines(ts);
    assert(lines_view(lines@) =~= rl);
    let mut out = String::new();
    let mut k: usize = 0;
    while k < lines.len()
        invariant
            ts == tokens@,
            tokens_wf(ts),
            rl == reading_lines(ts),
            lines_view(lines@) == rl,
            k <= lines@.len(),
            forall|a: int| 0 <= a < lines@.len() ==> ids_below(#[trigger] lines@[a]@, ts.len() as int),
            forall|a: int| 0 <= a < lines@.len() ==> (#[trigger] lines@[a]@).len() > 0,
            out@ == lines_text_prefix(ts, rl, k as int),
        decreases lines@.len() - k,
    {
        let ghost before = out@;
        assert(rl[k as int] == lines@[k as int]@);
        if k > 0 {
            assert(rl[k - 1] == lines@[k - 1]@);
            let cur = tokens[lines[k][0]].v_pos;
            let prev = tokens[lines[k - 1][0]].v_pos;
            assert(ts[lines@[k as int]@[0] as int].wf());
            assert(ts[lines@[k - 1]@[0] as int].wf());
            let gap = cur - prev;
            let count: i64 = if gap > SECTION_GAP {
                let q = gap / BLANK_LINE_HEIGHT;
                if q < 1 {
                    1
                } else if q > MAX_BLANK_LINES {
                    MAX_BLANK_LINES
                } else {
                    q
                }
            } else {
                0
            };
            assert(count == blank_line_count(gap as int));
            append_newlines(&mut out, count as usize);
        } else {
            assert(before + Seq::<char>::empty() =~= before);
        }
        let text = line_text(tokens, &lines[k]);
        out.append(text.as_str());
        out.append("\n");
        proof {
            reveal_strlit("\n");
            assert("\n"@ =~= seq!['\n']);
        }
        k = k + 1;
    }
    out
}

/// `a` and `b` hold tokens of the same text and geometry, in the same order.
pub open spec fn same_tokens(a: Seq<Token>, b: Seq<Token>) -> bool {
    &&& a.len() == b.len()
    &&& forall|i: int|
        0 <= i < a.len() ==> {
            &&& (#[trigger] a[i]).content@ == b[i].content@
            &&& a[i].h_pos == b[i].h_pos
            &&& a[i].v_pos == b[i].v_pos
            &&& a[i].width == b[i].width
        }
}

pub open spec fn lines_below(lines: Seq<Seq<usize>>, n: int) -> bool {
    forall|j: int| 0 <= j < lines.len() ==> ids_below(#[trigger] lines[j], n)
}

proof fn lemma_insert_pos_same(a: Seq<Token>, b: Seq<Token>, s: Seq<usize>, x: usize, by_h: bool)
    requires
        same_tokens(a, b),
        ids_below(s, a.len() as int),
        x < a.len(),
    ensures
        insert_pos(a, s, x, by_h) == insert_pos(b, s, x, by_h),
        0 <= insert_pos(a, s, x, by_h) <= s.len(),
    decreases s.len(),
{
    if s.len() > 0 {
        assert(a[s.last() as int].h_pos == b[s.last() as int].h_pos);
        assert(a[x as int].h_pos == b[x as int].h_pos);
        lemma_insert_pos_same(a, b, s.drop_last(), x, by_h);
    }
}

proof fn lemma_sort_same(a: Seq<Token>, b: Seq<Token>, s: Seq<usize>, by_h: bool)
    requires
        same_tokens(a, b),
        ids_below(s, a.len() as int),
    ensures
        sort_by_key(a, s, by_h) == sort_by_key(b, s, by_h),
        ids_below(sort_by_key(a, s, by_h), a.len() as int),
        sort_by_key(a, s, by_h).len() == s.len(),
    decreases s.len(),
{
    if s.len() > 0 {
        lemma_sort_same(a, b, s.drop_last(), by_h);
        let sorted = sort_by_key(a, s.drop_last(), by_h);
        lemma_insert_pos_same(a, b, sorted, s.last(), by_h);
        let p = insert_pos(a, sorted, s.last(), by_h);
        let r = sorted.take(p).push(s.last()) + sorted.skip(p);
        assert forall|i: int| 0 <= i < r.len() implies #[trigger] r[i] < a.len() by {
            if i < p {
                assert(r[i] == sorted[i]);
            } else if i > p {
                assert(r[i] == sorted[i - 1]);
            }
        }
    }
}

proof fn lemma_first_joined_same(a: Seq<Token>, b: Seq<Token>, lines: Seq<Seq<usize>>, x: usize)
    requires
        same_tokens(a, b),
        lines_below(lines, a.len() as int),
        x < a.len(),
    ensures
        first_joined(a, lines, x) == first_joined(b, lines, x),
        first_joined(a, lines, x) matches Some(j) ==> 0 <= j < lines.len(),
    decreases lines.len(),
{
    if lines.len() > 0 {
        assert(lines_below(lines.drop_last(), a.len() as int)) by {
            assert forall|j: int| 0 <= j < lines.len() - 1 implies ids_below(
                #[trigger] lines.drop_last()[j],
                a.len() as int,
            ) by {
                assert(lines.drop_last()[j] == lines[j]);
            }
        }
        lemma_first_joined_same(a, b, lines.drop_last(), x);
        let last = lines.last();
        assert(ids_below(lines[lines.len() - 1], a.len() as int));
        if last.len() > 0 {
            assert(a[last[0] as int].v_pos == b[last[0] as int].v_pos);
        }
        assert(a[x as int].v_pos == b[x as int].v_pos);
    }
}

proof fn lemma_cluster_same(a: Seq<Token>, b: Seq<Token>, s: Seq<usize>)
    requires
        same_tokens(a, b),
        ids_below(s, a.len() as int),
    ensures
        cluster(a, s) == cluster(b, s),
        lines_below(cluster(a, s), a.len() as int),
    decreases s.len(),
{
    if s.len() > 0 {
        lemma_cluster_same(a, b, s.drop_last());
        let lines = cluster(a, s.drop_last());
        let x = s.last();
        lemma_first_joined_same(a, b, lines, x);
        let r = add_to_lines(a, lines, x);
        assert forall|j: int| 0 <= j < r.len() implies ids_below(#[trigger] r[j], a.len() as int) by {
            match first_joined(a, lines, x) {
                Some(k) => {
                    if j == k {
                        assert(ids_below(lines[k], a.len() as int));
                        assert forall|t: int| 0 <= t < r[j].len() implies #[trigger] r[j][t]
                            < a.len() by {
                            if t < lines[k].len() {
                                assert(r[j][t] == lines[k][t]);
                            }
                        }
                    } else {
                        assert(r[j] == lines[j]);
                    }
                },
                None => {
                    if j < lines.len() {
                        assert(r[j] == lines[j]);
                    }
                },
            }
        }
    }
}

proof fn lemma_line_text_same(a: Seq<Token>, b: Seq<Token>, line: Seq<usize>, k: int)
    requires
        same_tokens(a, b),
        ids_below(line, a.len() as int),
        k <= line.len(),
    ensures
        line_text_prefix(a, line, k) == line_text_prefix(b, line, k),
    decreases k,
{
    if k > 0 {
        lemma_line_text_same(a, b, line, k - 1);
        assert(a[line[k - 1] as int].content@ == b[line[k - 1] as int].content@);
        if k > 1 {
            assert(a[line[k - 2] as int].h_pos == b[line[k - 2] as int].h_pos);
        }
    }
}

proof fn lemma_lines_text_same(a: Seq<Token>, b: Seq<Token>, lines: Seq<Seq<usize>>, k: int)
    requires
        same_tokens(a, b),
        lines_below(lines, a.len() as int),
        forall|j: int| 0 <= j < lines.len() ==> (#[trigger] lines[j]).len() > 0,
        k <= lines.len(),
    ensures
        lines_text_prefix(a, lines, k) == lines_text_prefix(b, lines, k),
    decreases k,
{
    if k > 0 {
        lemma_lines_text_same(a, b, lines, k - 1);
        assert(ids_below(lines[k - 1], a.len() as int));
        assert(lines[k - 1].len() > 0);
        lemma_line_text_same(a, b, lines[k - 1], lines[k - 1].len() as int);
        if k > 1 {
            assert(ids_below(lines[k - 2], a.len() as int));
            assert(lines[k - 2].len() > 0);
        }
    }
}

proof fn lemma_first_joined_range(ts: Seq<Token>, lines: Seq<Seq<usize>>, x: usize)
    ensures
        first_joined(ts, lines, x) matches Some(j) ==> 0 <= j < lines.len(),
    decreases lines.len(),
{
    if lines.len() > 0 {
        lemma_first_joined_range(ts, lines.drop_last(), x);
    }
}

proof fn lemma_cluster_lines_nonempty(ts: Seq<Token>, s: Seq<usize>)
    ensures
        forall|j: int| 0 <= j < cluster(ts, s).len() ==> (#[trigger] cluster(ts, s)[j]).len() > 0,
    decreases s.len(),
{
    if s.len() > 0 {
        lemma_cluster_lines_nonempty(ts, s.drop_last());
        let lines = cluster(ts, s.drop_last());
        lemma_first_joined_range(ts, lines, s.last());
        match first_joined(ts, lines, s.last()) {
            Some(k) => {
                assert(cluster(ts, s) == lines.update(k, lines[k].push(s.last())));
                assert forall|j: int| 0 <= j < cluster(ts, s).len() implies (
                #[trigger] cluster(ts, s)[j]).len() > 0 by {
                    if j != k {
                        assert(cluster(ts, s)[j] == lines[j]);
                    }
                }
            },
            None => {
                assert forall|j: int| 0 <= j < cluster(ts, s).len() implies (
                #[trigger] cluster(ts, s)[j]).len() > 0 by {
                    if j < lines.len() {
                        assert(cluster(ts, s)[j] == lines[j]);
                    }
                }
            },
        }
    }
}

/// Reconstruction is deterministic: two token sequences with the same
/// contents and geometry, in the same order, give the same text.
pub proof fn lemma_readable_text_deterministic(a: Seq<Token>, b: Seq<Token>)
    requires
        same_tokens(a, b),
    ensures
        readable_text(a) == readable_text(b),
{
    let ids = all_ids(a.len());
    assert(all_ids(a.len()) == all_ids(b.len()));
    lemma_sort_same(a, b, ids, false);
    let sorted = sort_by_key(a, ids, false);
    lemma_cluster_same(a, b, sorted);
    let cl = cluster(a, sorted);
    lemma_cluster_lines_nonempty(a, sorted);
    let ra = reading_lines(a);
    let rb = reading_lines(b);
    assert forall|j: int| 0 <= j < cl.len() implies #[trigger] ra[j] == rb[j] && ids_below(
        ra[j],
        a.len() as int,
    ) && ra[j].len() > 0 by {
        assert(ids_below(cl[j], a.len() as int));
        lemma_sort_same(a, b, cl[j], true);
    }
    assert(ra =~= rb);
    lemma_lines_text_same(a, b, ra, ra.len() as int);
}

} // verus!
