//! The worktree table: column widths, truncation and padding.
use vstd::prelude::*;
use crate::status::status_text;
use crate::theme::{painted, themed_status, Theme};
use crate::types::{Worktree, WorktreeModel};
use crate::text::{is_plain, plain_text, lemma_columns_concat, 
    chars_of, column_count, columns, columns_of, joined, owned, push_char, prefix_string,
    push_text, str_columns, str_width, texts,
};

verus! {

/// The ellipsis that marks truncated text.
pub open spec fn ellipsis() -> char {
    '\u{2026}'
}

/// The longest prefix of `s` whose character widths add up to at most `budget`
/// (it stops at the first character that would not fit).
pub open spec fn clip(s: Seq<char>, budget: nat) -> Seq<char>
    decreases s.len(),
{
    if s.len() == 0 {
        s
    } else if columns_of(s[0]) > budget {
        Seq::empty()
    } else {
        seq![s[0]] + clip(s.drop_first(), (budget - columns_of(s[0])) as nat)
    }
}

/// `value` cut to at most `max` columns: unchanged when it fits, otherwise the
/// longest fitting prefix of at most `max - 1` columns followed by an ellipsis.
pub open spec fn truncated(value: Seq<char>, max: nat) -> Seq<char> {
    if max == 0 {
        Seq::empty()
    } else if str_columns(value) <= max {
        value
    } else if max == 1 {
        seq![ellipsis()]
    } else {
        clip(value, (max - 1) as nat).push(ellipsis())
    }
}

/// `n` spaces.
pub open spec fn spaces(n: nat) -> Seq<char> {
    Seq::new(n, |i: int| ' ')
}

/// `value` followed by enough spaces to fill `target` columns.
pub open spec fn padded(value: Seq<char>, target: nat) -> Seq<char> {
    if str_columns(value) < target {
        value + spaces((target - str_columns(value)) as nat)
    } else {
        value
    }
}

pub proof fn lemma_clip_fits(s: Seq<char>, budget: nat)
    ensures
        columns(clip(s, budget)) <= budget,
        clip(s, budget).len() <= s.len(),
        clip(s, budget) =~= s.take(clip(s, budget).len() as int),
    decreases s.len(),
{
    if s.len() == 0 {
    } else if columns_of(s[0]) > budget {
        assert(columns(Seq::<char>::empty()) == 0);
    } else {
        let rest = clip(s.drop_first(), (budget - columns_of(s[0])) as nat);
        lemma_clip_fits(s.drop_first(), (budget - columns_of(s[0])) as nat);
        crate::text::lemma_columns_concat(seq![s[0]], rest);
        crate::text::lemma_columns_push(Seq::<char>::empty(), s[0]);
        assert(Seq::<char>::empty().push(s[0]) =~= seq![s[0]]);
    }
}

/// Cuts `value` to at most `max` columns, ending cut text with an ellipsis.
pub fn truncate(value: &str, max: usize) -> (r: String)
    ensures
        r@ == truncated(value@, max as nat),
        plain_text(value@) && value@.len() <= max ==> r@ == value@,
        plain_text(value@) ==> plain_text(r@) && r@.len() <= max,
{
    if max == 0 {
        return String::new();
    }
    if str_width(value) <= max {
        return owned(value);
    }
    if max == 1 {
        let mut r = String::new();
        push_char(&mut r, '\u{2026}');
        return r;
    }
    let cs = chars_of(value);
    let budget: usize = max - 1;
    let mut out = String::new();
    let mut used: usize = 0;
    let mut i: usize = 0;
    assert(cs@.skip(0) =~= cs@);
    assert(out@ + clip(cs@, budget as nat) =~= clip(cs@, budget as nat));
    while i < cs.len()
        invariant_except_break
            0 <= i <= cs.len(),
            cs@ == value@,
            used <= budget,
            plain_text(value@) ==> plain_text(out@) && out@.len() == used,
            out@ + clip(cs@.skip(i as int), (budget - used) as nat) == clip(cs@, budget as nat),
        ensures
            out@ == clip(cs@, budget as nat),
            plain_text(value@) ==> plain_text(out@) && out@.len() <= budget,
        decreases cs.len() - i,
    {
        let c = cs[i];
        let w = column_count(c);
        assert(cs@.skip(i as int)[0] == c);
        proof {
            if plain_text(value@) {
                assert(is_plain(cs@[i as int]));
            }
        }
        if w > budget - used {
            assert(clip(cs@.skip(i as int), (budget - used) as nat) =~= Seq::<char>::empty());
            assert(out@ + Seq::<char>::empty() =~= out@);
            break;
        }
        assert(cs@.skip(i as int).drop_first() =~= cs@.skip(i + 1));
        assert(out@.push(c) + clip(cs@.skip(i + 1), (budget - used - w) as nat) =~= out@ + (seq![c]
            + clip(cs@.skip(i + 1), (budget - used - w) as nat)));
        push_char(&mut out, c);
        used = used + w;
        i += 1;
    }
    if i == cs.len() {
        assert(cs@.skip(i as int) =~= Seq::<char>::empty());
        assert(out@ + Seq::<char>::empty() =~= out@);
    }
    push_char(&mut out, '\u{2026}');
    out
}

/// `value` followed by spaces up to `target` columns.
pub(crate) fn pad(value: &str, target: usize) -> (r: String)
    ensures
        r@ == padded(value@, target as nat),
        plain_text(value@) && value@.len() <= target ==> r@.len() == target,
{
    let w = str_width(value);
    let mut r = owned(value);
    if w < target {
        let ghost start = r@;
        let mut k: usize = 0;
        while k < target - w
            invariant
                w < target,
                0 <= k <= target - w,
                r@ == start + spaces(k as nat),
            decreases target - w - k,
        {
            push_char(&mut r, ' ');
            k += 1;
            assert(spaces(k as nat) =~= spaces((k - 1) as nat).push(' '));
        }
    } else {
        assert(r@ == padded(value@, target as nat));
    }
    r
}


/// Column headers.
pub open spec fn headers() -> Seq<Seq<char>> {
    seq![""@, "BRANCH"@, "PATH"@, "COMMIT"@, "STATUS"@]
}

/// The narrowest each column may become.
pub open spec fn minimums() -> Seq<usize> {
    seq![1usize, 3, 3, 4, 3]
}

/// `M` for Git's main worktree, `*` for the one holding the current directory.
pub open spec fn marker(w: WorktreeModel) -> Seq<char> {
    (if w.main { "M"@ } else { Seq::empty() }) + (if w.current { "*"@ } else { Seq::empty() })
}

/// The branch, or `detached`.
pub open spec fn branch_cell(w: WorktreeModel) -> Seq<char> {
    match w.branch {
        Some(b) => b,
        None => "detached"@,
    }
}

/// The first twelve characters of the commit id, or `-` when there is none.
pub open spec fn commit_cell(w: WorktreeModel) -> Seq<char> {
    if w.head.len() == 0 {
        "-"@
    } else if w.head.len() <= 12 {
        w.head
    } else {
        w.head.take(12)
    }
}

/// The five cells of a worktree's row, before fitting.
pub open spec fn cells(w: WorktreeModel) -> Seq<Seq<char>> {
    seq![marker(w), branch_cell(w), w.path, commit_cell(w), status_text(w)]
}

/// The widest entry of column `i` among the headers and the first rows.
pub open spec fn col_width(rows: Seq<Seq<Seq<char>>>, i: int) -> usize
    decreases rows.len(),
{
    if rows.len() == 0 {
        str_columns(headers()[i])
    } else {
        let before = col_width(rows.drop_last(), i);
        let here = str_columns(rows.last()[i]);
        if here > before {
            here
        } else {
            before
        }
    }
}

/// The natural width of each column.
pub open spec fn natural_widths(rows: Seq<Seq<Seq<char>>>) -> Seq<usize> {
    seq![col_width(rows, 0), col_width(rows, 1), col_width(rows, 2), col_width(rows, 3), col_width(rows, 4)]
}

/// Total width of the columns.
pub open spec fn total(w: Seq<usize>) -> int {
    w[0] + w[1] + w[2] + w[3] + w[4]
}

/// How far column `i` is above its minimum.
pub open spec fn excess(w: Seq<usize>, i: int) -> int {
    if w[i] > minimums()[i] {
        w[i] - minimums()[i]
    } else {
        0
    }
}

/// How many columns in all can still be given up.
pub open spec fn slack(w: Seq<usize>) -> nat {
    (excess(w, 0) + excess(w, 1) + excess(w, 2) + excess(w, 3) + excess(w, 4)) as nat
}

/// Among the first `n` columns, the last one that is furthest above its
/// minimum, or -1 when all are at their minimum.
pub open spec fn widest(w: Seq<usize>, n: int) -> int
    decreases n,
{
    if n <= 0 {
        -1
    } else {
        let p = widest(w, n - 1);
        if w[n - 1] > minimums()[n - 1] && (p < 0 || excess(w, n - 1) >= excess(w, p)) {
            n - 1
        } else {
            p
        }
    }
}

/// Narrow the widest column by one, at most `k` times, until the table with
/// its separators fits in `tw` columns.
pub open spec fn settle(w: Seq<usize>, tw: int, k: nat) -> Seq<usize>
    decreases k,
{
    if k == 0 {
        w
    } else if total(w) + 8 > tw && widest(w, 5) >= 0 {
        let p = widest(w, 5);
        settle(w.update(p, (w[p] - 1) as usize), tw, (k - 1) as nat)
    } else {
        w
    }
}

/// Column widths once fitted to the terminal.
pub open spec fn fitted_widths(rows: Seq<Seq<Seq<char>>>, tw: int) -> Seq<usize> {
    settle(natural_widths(rows), tw, slack(natural_widths(rows)))
}

/// A row's cells cut and padded to the column widths; the last is not padded.
pub open spec fn format_row(r: Seq<Seq<char>>, widths: Seq<usize>) -> Seq<Seq<char>> {
    Seq::new(
        5,
        |i: int|
            if i == 4 {
                truncated(r[i], widths[i] as nat)
            } else {
                padded(truncated(r[i], widths[i] as nat), widths[i] as nat)
            },
    )
}

/// The colouring of one cell of row `index`.
pub open spec fn paint_cell(
    color: bool,
    w: WorktreeModel,
    index: int,
    selected: Option<usize>,
    col: int,
    s: Seq<char>,
) -> Seq<char> {
    if col == 0 {
        if w.current {
            painted(color, "1;32"@, s)
        } else {
            s
        }
    } else if col == 1 {
        if selected == Some(index as usize) {
            painted(color, "1;36"@, s)
        } else if w.branch is Some {
            painted(color, "36"@, s)
        } else {
            painted(color, "33"@, s)
        }
    } else if col == 2 {
        if selected == Some(index as usize) {
            painted(color, "1"@, s)
        } else {
            s
        }
    } else if col == 3 {
        painted(color, "2"@, s)
    } else {
        themed_status(color, w)
    }
}

/// The header line.
pub open spec fn header_line(color: bool, widths: Seq<usize>) -> Seq<char> {
    joined(
        Seq::new(5, |i: int| painted(color, "1;37"@, format_row(headers(), widths)[i])),
        "  "@,
    )
}

/// The line of the worktree in row `index`.
pub open spec fn row_line(
    color: bool,
    w: WorktreeModel,
    index: int,
    selected: Option<usize>,
    widths: Seq<usize>,
) -> Seq<char> {
    joined(
        Seq::new(
            5,
            |col: int| paint_cell(color, w, index, selected, col, format_row(cells(w), widths)[col]),
        ),
        "  "@,
    )
}

/// The mathematical content of a list of worktrees.
pub open spec fn models(ws: Seq<Worktree>) -> Seq<WorktreeModel> {
    ws.map_values(|w: Worktree| w@)
}

/// The whole table: a header line, then one line per worktree.
pub open spec fn rendered(
    ws: Seq<WorktreeModel>,
    tw: int,
    color: bool,
    selected: Option<usize>,
) -> Seq<Seq<char>> {
    let widths = fitted_widths(ws.map_values(|w: WorktreeModel| cells(w)), tw);
    seq![header_line(color, widths)] + Seq::new(
        ws.len(),
        |i: int| row_line(color, ws[i], i, selected, widths),
    )
}

/// The views of rows of cells.
pub open spec fn row_texts(rows: Seq<Vec<String>>) -> Seq<Seq<Seq<char>>> {
    rows.map_values(|r: Vec<String>| texts(r@))
}

fn row_cells(w: &Worktree) -> (r: Vec<String>)
    ensures
        r@.len() == 5,
        texts(r@) == cells(w@),
{
    let mut mark = String::new();
    if w.main {
        push_text(&mut mark, "M");
    }
    if w.current {
        push_text(&mut mark, "*");
    }
    let branch = match &w.branch {
        Some(b) => b.clone(),
        None => owned("detached"),
    };
    let commit = if w.head.as_str().is_empty() {
        owned("-")
    } else {
        let cs = chars_of(w.head.as_str());
        if cs.len() <= 12 {
            w.head.clone()
        } else {
            prefix_string(&cs, 12)
        }
    };
    let status = crate::status::format(w);
    let r = vec![mark, branch, w.path.clone(), commit, status];
    assert(texts(r@) =~= cells(w@));
    r
}

fn minimum(i: usize) -> (m: usize)
    requires
        i < 5,
    ensures
        m == minimums()[i as int],
{
    if i == 0 {
        1
    } else if i == 3 {
        4
    } else {
        3
    }
}

fn header(i: usize) -> (h: &'static str)
    requires
        i < 5,
    ensures
        h@ == headers()[i as int],
{
    if i == 0 {
        ""
    } else if i == 1 {
        "BRANCH"
    } else if i == 2 {
        "PATH"
    } else if i == 3 {
        "COMMIT"
    } else {
        "STATUS"
    }
}

fn column_width(rows: &Vec<Vec<String>>, i: usize) -> (w: usize)
    requires
        i < 5,
        forall|r: int| 0 <= r < rows@.len() ==> #[trigger] rows@[r]@.len() == 5,
    ensures
        w == col_width(row_texts(rows@), i as int),
{
    let mut w = str_width(header(i));
    let mut r: usize = 0;
    while r < rows.len()
        invariant
            i < 5,
            0 <= r <= rows.len(),
            forall|k: int| 0 <= k < rows@.len() ==> #[trigger] rows@[k]@.len() == 5,
            w == col_width(row_texts(rows@).take(r as int), i as int),
        decreases rows.len() - r,
    {
        let here = str_width(rows[r][i].as_str());
        assert(row_texts(rows@).take(r + 1).drop_last() =~= row_texts(rows@).take(r as int));
        assert(row_texts(rows@).take(r + 1).last() == texts(rows@[r as int]@));
        if here > w {
            w = here;
        }
        r += 1;
    }
    assert(row_texts(rows@).take(rows@.len() as int) =~= row_texts(rows@));
    w
}

proof fn lemma_widest(w: Seq<usize>, n: int)
    requires
        w.len() == 5,
        0 <= n <= 5,
    ensures
        widest(w, n) == -1 || (0 <= widest(w, n) < n && w[widest(w, n)] > minimums()[widest(w, n)]),
    decreases n,
{
    if n > 0 {
        lemma_widest(w, n - 1);
    }
}

fn widest_column(w: &Vec<usize>) -> (p: usize)
    requires
        w@.len() == 5,
    ensures
        p <= 5,
        p == 5 <==> widest(w@, 5) == -1,
        p < 5 ==> p == widest(w@, 5),
{
    let mut best: usize = 5;
    let mut i: usize = 0;
    while i < 5
        invariant
            w@.len() == 5,
            0 <= i <= 5,
            best <= 5,
            best == 5 ==> widest(w@, i as int) == -1,
            best < 5 ==> best == widest(w@, i as int) && best < i && w@[best as int] > minimums()[best as int],
        decreases 5 - i,
    {
        let m = minimum(i);
        if w[i] > m && (best == 5 || w[i] - m >= w[best] - minimum(best)) {
            best = i;
        }
        i += 1;
    }
    best
}

fn fit_widths(widths: Vec<usize>, tw: usize) -> (r: Vec<usize>)
    requires
        widths@.len() == 5,
    ensures
        r@.len() == 5,
        r@ == settle(widths@, tw as int, slack(widths@)),
{
    let mut w = widths;
    loop
        invariant
            w@.len() == 5,
            settle(w@, tw as int, slack(w@)) == settle(widths@, tw as int, slack(widths@)),
        decreases slack(w@),
    {
        let sum: u128 = w[0] as u128 + w[1] as u128 + w[2] as u128 + w[3] as u128 + w[4] as u128;
        if sum + 8 <= tw as u128 {
            return w;
        }
        let p = widest_column(&w);
        if p == 5 {
            return w;
        }
        proof {
            lemma_widest(w@, 5);
        }
        let ghost before = w@;
        let v = w[p] - 1;
        w.set(p, v);
        assert(w@ == before.update(p as int, v));
        assert(slack(w@) + 1 == slack(before));
    }
}

fn format_cells(r: &Vec<String>, widths: &Vec<usize>) -> (f: Vec<String>)
    requires
        r@.len() == 5,
        widths@.len() == 5,
    ensures
        f@.len() == 5,
        texts(f@) == format_row(texts(r@), widths@),
        forall|j: int|
            0 <= j < 4 && plain_text(#[trigger] texts(r@)[j]) ==> texts(f@)[j].len() == widths@[j],
        plain_text(texts(r@)[4]) ==> texts(f@)[4].len() <= widths@[4],
{
    let mut f: Vec<String> = Vec::new();
    let mut i: usize = 0;
    while i < 5
        invariant
            r@.len() == 5,
            widths@.len() == 5,
            0 <= i <= 5,
            f@.len() == i,
            forall|j: int| 0 <= j < i ==> #[trigger] texts(f@)[j] == format_row(texts(r@), widths@)[j],
            forall|j: int|
                0 <= j < i && j < 4 && plain_text(#[trigger] texts(r@)[j]) ==> texts(f@)[j].len() == widths@[j],
            i > 4 && plain_text(texts(r@)[4]) ==> texts(f@)[4].len() <= widths@[4],
        decreases 5 - i,
    {
        assert(texts(r@)[i as int] == r@[i as int]@);
        let s = truncate(r[i].as_str(), widths[i]);
        let cell = if i == 4 {
            s
        } else {
            pad(s.as_str(), widths[i])
        };
        let ghost prev = f@;
        f.push(cell);
        assert forall|j: int| 0 <= j < i + 1 implies #[trigger] texts(f@)[j] == format_row(texts(r@), widths@)[j] by {
            if j < i {
                assert(texts(prev)[j] == texts(f@)[j]);
            }
        }
        assert forall|j: int|
            0 <= j < i + 1 && j < 4 && plain_text(#[trigger] texts(r@)[j]) implies texts(f@)[j].len() == widths@[j] by {
            if j < i {
                assert(texts(prev)[j] == texts(f@)[j]);
            }
        }
        i += 1;
    }
    assert(texts(f@) =~= format_row(texts(r@), widths@));
    f
}

fn paint(
    theme: &Theme,
    w: &Worktree,
    index: usize,
    selected: Option<usize>,
    col: usize,
    s: &str,
) -> (r: String)
    requires
        col < 5,
    ensures
        r@ == paint_cell(theme.color, w@, index as int, selected, col as int, s@),
{
    let is_selected = match selected {
        Some(k) => k == index,
        None => false,
    };
    if col == 0 {
        if w.current {
            theme.current(s)
        } else {
            owned(s)
        }
    } else if col == 1 {
        if is_selected {
            theme.selected(s)
        } else if w.branch.is_some() {
            theme.branch(s)
        } else {
            theme.detached(s)
        }
    } else if col == 2 {
        if is_selected {
            theme.wrap_selected_path(s)
        } else {
            owned(s)
        }
    } else if col == 3 {
        theme.commit(s)
    } else {
        theme.status(w)
    }
}

/// Renders the worktree table: a header line and one line per worktree, with
/// columns `M`/`*` marker, branch, path, commit and status. Columns are
/// narrowed, widest first, until the lines fit in `terminal_width`; cells
/// that no longer fit are cut with an ellipsis. `selected` highlights a row.
/// Without colour, on a terminal at least 22 columns wide and with plain
/// text in every cell (so a line's length is its width), the header line
/// fits, and each worktree's line is at most as wide as the terminal less
/// the status column plus its full status: a line whose status fits its
/// column fits the terminal.
pub fn render(
    worktrees: &[Worktree],
    terminal_width: usize,
    color: bool,
    selected: Option<usize>,
) -> (out: Vec<String>)
    ensures
        texts(out@) == rendered(models(worktrees@), terminal_width as int, color, selected),
        (!color && terminal_width >= 22 && plain_table(models(worktrees@))) ==> {
            let wd = fitted_widths(
                models(worktrees@).map_values(|w: WorktreeModel| cells(w)),
                terminal_width as int,
            );
            &&& texts(out@)[0].len() <= terminal_width
            &&& forall|i: int|
                0 <= i < worktrees@.len() ==> (#[trigger] texts(out@)[i + 1]).len() + wd[4]
                    <= terminal_width + status_text(models(worktrees@)[i]).len()
        },
{
    let ghost ws = models(worktrees@);
    let mut rows: Vec<Vec<String>> = Vec::new();
    let mut i: usize = 0;
    while i < worktrees.len()
        invariant
            0 <= i <= worktrees.len(),
            ws == models(worktrees@),
            rows@.len() == i,
            forall|k: int| 0 <= k < i ==> #[trigger] rows@[k]@.len() == 5 && texts(rows@[k]@) == cells(ws[k]),
        decreases worktrees.len() - i,
    {
        rows.push(row_cells(&worktrees[i]));
        i += 1;
    }
    assert(row_texts(rows@) =~= ws.map_values(|w: WorktreeModel| cells(w)));
    let mut natural: Vec<usize> = Vec::new();
    let mut c: usize = 0;
    while c < 5
        invariant
            0 <= c <= 5,
            natural@.len() == c,
            forall|k: int| 0 <= k < rows@.len() ==> #[trigger] rows@[k]@.len() == 5,
            forall|k: int| 0 <= k < c ==> natural@[k] == col_width(row_texts(rows@), k),
        decreases 5 - c,
    {
        natural.push(column_width(&rows, c));
        c += 1;
    }
    assert(natural@ =~= natural_widths(row_texts(rows@)));
    let widths = fit_widths(natural, terminal_width);
    let ghost wd = widths@;
    assert(wd == fitted_widths(ws.map_values(|w: WorktreeModel| cells(w)), terminal_width as int));
    let theme = Theme { color };
    let hs = vec![owned(""), owned("BRANCH"), owned("PATH"), owned("COMMIT"), owned("STATUS")];
    assert(texts(hs@) =~= headers());
    let hf = format_cells(&hs, &widths);
    proof {
        lemma_headers_plain();
    }
    let mut hp: Vec<String> = Vec::new();
    let mut k: usize = 0;
    while k < 5
        invariant
            0 <= k <= 5,
            hf@.len() == 5,
            theme.color == color,
            hp@.len() == k,
            forall|j: int| 0 <= j < k ==> #[trigger] texts(hp@)[j] == painted(color, "1;37"@, texts(hf@)[j]),
        decreases 5 - k,
    {
        let h = theme.header(hf[k].as_str());
        let ghost prev = hp@;
        hp.push(h);
        assert forall|j: int| 0 <= j < k + 1 implies #[trigger] texts(hp@)[j] == painted(color, "1;37"@, texts(hf@)[j]) by {
            if j < k {
                assert(texts(prev)[j] == texts(hp@)[j]);
            }
        }
        k += 1;
    }
    assert(texts(hp@) =~= Seq::new(5, |i: int| painted(color, "1;37"@, format_row(headers(), wd)[i])));
    let mut out: Vec<String> = Vec::new();
    out.push(crate::text::join(&hp, "  "));
    let mut index: usize = 0;
    while index < worktrees.len()
        invariant
            0 <= index <= worktrees.len(),
            ws == models(worktrees@),
            rows@.len() == worktrees@.len(),
            forall|k: int| 0 <= k < rows@.len() ==> #[trigger] rows@[k]@.len() == 5 && texts(rows@[k]@) == cells(ws[k]),
            widths@ == wd,
            wd.len() == 5,
            theme.color == color,
            out@.len() == index + 1,
            texts(out@)[0] == header_line(color, wd),
            forall|j: int| 1 <= j <= index ==> #[trigger] texts(out@)[j] == row_line(color, ws[j - 1], j - 1, selected, wd),
            forall|k: int, c: int|
                0 <= k < index && 0 <= c < 4 && plain_text(cells(ws[k])[c]) ==> (#[trigger] format_row(
                    cells(ws[k]),
                    wd,
                )[c]).len() == wd[c],
        decreases worktrees.len() - index,
    {
        let fc = format_cells(&rows[index], &widths);
        assert(texts(rows@[index as int]@) == cells(ws[index as int]));
        assert forall|k: int, c: int|
            0 <= k < index + 1 && 0 <= c < 4 && plain_text(cells(ws[k])[c]) implies (#[trigger] format_row(
                cells(ws[k]),
                wd,
            )[c]).len() == wd[c] by {
            if k == index {
                assert(texts(fc@)[c] == format_row(cells(ws[k]), wd)[c]);
                assert(plain_text(texts(rows@[index as int]@)[c]));
            }
        }
        let w = &worktrees[index];
        let mut cols: Vec<String> = Vec::new();
        let mut col: usize = 0;
        while col < 5
            invariant
                0 <= col <= 5,
                fc@.len() == 5,
                cols@.len() == col,
                forall|j: int| 0 <= j < col ==> #[trigger] texts(cols@)[j] == paint_cell(color, w@, index as int, selected, j, texts(fc@)[j]),
                theme.color == color,
            decreases 5 - col,
        {
            let p = paint(&theme, w, index, selected, col, fc[col].as_str());
            let ghost prev = cols@;
            cols.push(p);
            assert forall|j: int| 0 <= j < col + 1 implies #[trigger] texts(cols@)[j] == paint_cell(color, w@, index as int, selected, j, texts(fc@)[j]) by {
                if j < col {
                    assert(texts(prev)[j] == texts(cols@)[j]);
                }
            }
            col += 1;
        }
        assert(w@ == ws[index as int]);
        assert(texts(cols@) =~= Seq::new(5, |c: int| paint_cell(color, ws[index as int], index as int, selected, c, format_row(cells(ws[index as int]), wd)[c])));
        let line = crate::text::join(&cols, "  ");
        let ghost prev = out@;
        out.push(line);
        assert forall|j: int| 1 <= j <= index + 1 implies #[trigger] texts(out@)[j] == row_line(color, ws[j - 1], j - 1, selected, wd) by {
            if j <= index {
                assert(texts(prev)[j] == texts(out@)[j]);
            }
        }
        assert(texts(prev)[0] == texts(out@)[0]);
        index += 1;
    }
    assert(texts(out@) =~= rendered(ws, terminal_width as int, color, selected));
    proof {
        if !color && terminal_width >= 22 && plain_table(ws) {
            let rows_v = ws.map_values(|w: WorktreeModel| cells(w));
            lemma_settle_fits(natural_widths(rows_v), terminal_width as int);
            assert(total(wd) + 8 <= terminal_width);
            assert forall|c: int| 0 <= c < 4 implies (#[trigger] format_row(headers(), wd)[c]).len() == wd[c] by {
                assert(texts(hf@)[c] == format_row(headers(), wd)[c]);
                assert(plain_text(texts(hs@)[c]));
            }
            assert(texts(hf@)[4] == format_row(headers(), wd)[4]);
            assert(plain_text(texts(hs@)[4]));
            assert forall|k: int, c: int| 0 <= k < ws.len() && 0 <= c < 4 implies (#[trigger] format_row(
                cells(ws[k]),
                wd,
            )[c]).len() == wd[c] by {
                assert(plain_text(cells(ws[k])[c]));
            }
            lemma_plain_lines_fit(ws, terminal_width as int, selected, wd);
        }
    }
    out
}

proof fn lemma_col_width_bound(rows: Seq<Seq<Seq<char>>>, c: int, k: int)
    requires
        0 <= k < rows.len(),
    ensures
        str_columns(rows[k][c]) <= col_width(rows, c),
    decreases rows.len(),
{
    if k < rows.len() - 1 {
        lemma_col_width_bound(rows.drop_last(), c, k);
        assert(rows.drop_last()[k] == rows[k]);
    }
}

/// The line of a worktree without colour, its cells cut to `widths`: the
/// first four cut and padded, then the status in full.
pub open spec fn plain_row(w: WorktreeModel, widths: Seq<usize>) -> Seq<char> {
    joined(
        Seq::new(5, |c: int| if c == 4 { status_text(w) } else { format_row(cells(w), widths)[c] }),
        "  "@,
    )
}

/// When the table fits in the terminal as it is, no column is narrowed and
/// nothing is cut: without colour, each worktree's line shows its marker,
/// branch, path and short commit id whole, padded to their columns (a column
/// whose every entry takes no room at all shows nothing), then its full
/// status; the highlighted row changes nothing without colour.
pub proof fn lemma_fitting_table_cuts_nothing(ws: Seq<WorktreeModel>, tw: int, selected: Option<usize>)
    requires
        total(natural_widths(ws.map_values(|w: WorktreeModel| cells(w)))) + 8 <= tw,
    ensures
        ({
            let rows = ws.map_values(|w: WorktreeModel| cells(w));
            let widths = natural_widths(rows);
            &&& fitted_widths(rows, tw) == widths
            &&& rendered(ws, tw, false, selected).len() == ws.len() + 1
            &&& forall|i: int|
                0 <= i < ws.len() ==> #[trigger] rendered(ws, tw, false, selected)[i + 1] == plain_row(
                    ws[i],
                    widths,
                )
            &&& forall|i: int, c: int|
                0 <= i < ws.len() && 0 <= c < 4 && widths[c] > 0 ==> #[trigger] format_row(
                    cells(ws[i]),
                    widths,
                )[c] == padded(cells(ws[i])[c], widths[c] as nat)
            &&& forall|i: int, c: int|
                0 <= i < ws.len() && 0 <= c < 5 ==> str_columns(#[trigger] cells(ws[i])[c]) <= widths[c]
        }),
{
    let rows = ws.map_values(|w: WorktreeModel| cells(w));
    let widths = natural_widths(rows);
    assert(settle(widths, tw, slack(widths)) == widths);
    assert forall|i: int, c: int| 0 <= i < ws.len() && 0 <= c < 5 implies str_columns(
        #[trigger] cells(ws[i])[c],
    ) <= widths[c] by {
        assert(rows[i] == cells(ws[i]));
        lemma_col_width_bound(rows, c, i);
    }
    assert forall|i: int, c: int| 0 <= i < ws.len() && 0 <= c < 4 && widths[c] > 0 implies #[trigger] format_row(
        cells(ws[i]),
        widths,
    )[c] == padded(cells(ws[i])[c], widths[c] as nat) by {
        assert(rows[i] == cells(ws[i]));
        lemma_col_width_bound(rows, c, i);
        assert(truncated(cells(ws[i])[c], widths[c] as nat) == cells(ws[i])[c]);
    }
    assert forall|i: int| 0 <= i < ws.len() implies #[trigger] rendered(ws, tw, false, selected)[i + 1]
        == plain_row(ws[i], widths) by {
        let w = ws[i];
        let a = Seq::new(
            5,
            |col: int| paint_cell(false, w, i, selected, col, format_row(cells(w), widths)[col]),
        );
        let b = Seq::new(5, |c: int| if c == 4 { status_text(w) } else { format_row(cells(w), widths)[c] });
        assert(a =~= b);
    }
}

/// Every cell of the table is plain text: printable ASCII and ellipses,
/// which take one column per character.
pub open spec fn plain_table(ws: Seq<WorktreeModel>) -> bool {
    forall|i: int, c: int| 0 <= i < ws.len() && 0 <= c < 5 ==> plain_text(#[trigger] cells(ws[i])[c])
}

proof fn lemma_upper_plain(s: Seq<char>)
    requires
        forall|i: int| 0 <= i < s.len() ==> 'A' <= #[trigger] s[i] <= 'Z',
    ensures
        plain_text(s),
{
    assert(('A' as u32) == 65u32);
    assert(('Z' as u32) == 90u32);
}

proof fn lemma_headers_plain()
    ensures
        forall|c: int| 0 <= c < 5 ==> plain_text(#[trigger] headers()[c]),
{
    reveal_strlit("");
    reveal_strlit("BRANCH");
    reveal_strlit("PATH");
    reveal_strlit("COMMIT");
    reveal_strlit("STATUS");
    lemma_upper_plain("BRANCH"@);
    lemma_upper_plain("PATH"@);
    lemma_upper_plain("COMMIT"@);
    lemma_upper_plain("STATUS"@);
    assert(headers()[0] == ""@);
    assert(headers()[1] == "BRANCH"@);
    assert(headers()[2] == "PATH"@);
    assert(headers()[3] == "COMMIT"@);
    assert(headers()[4] == "STATUS"@);
}

proof fn lemma_joined_len5(p: Seq<Seq<char>>, sep: Seq<char>)
    requires
        p.len() == 5,
    ensures
        joined(p, sep).len() == p[0].len() + p[1].len() + p[2].len() + p[3].len() + p[4].len() + 4
            * sep.len(),
{
    let p4 = p.drop_last();
    let p3 = p4.drop_last();
    let p2 = p3.drop_last();
    let p1 = p2.drop_last();
    assert(joined(p, sep) == joined(p4, sep) + sep + p[4]);
    assert(joined(p4, sep) == joined(p3, sep) + sep + p[3]);
    assert(joined(p3, sep) == joined(p2, sep) + sep + p[2]);
    assert(joined(p2, sep) == joined(p1, sep) + sep + p[1]);
    assert(joined(p1, sep) == p[0]);
}

proof fn lemma_plain_lines_fit(ws: Seq<WorktreeModel>, tw: int, selected: Option<usize>, wd: Seq<usize>)
    requires
        wd == fitted_widths(ws.map_values(|w: WorktreeModel| cells(w)), tw),
        wd.len() == 5,
        total(wd) + 8 <= tw,
        forall|c: int| 0 <= c < 4 ==> (#[trigger] format_row(headers(), wd)[c]).len() == wd[c],
        format_row(headers(), wd)[4].len() <= wd[4],
        forall|k: int, c: int|
            0 <= k < ws.len() && 0 <= c < 4 ==> (#[trigger] format_row(cells(ws[k]), wd)[c]).len() == wd[c],
    ensures
        rendered(ws, tw, false, selected)[0].len() <= tw,
        forall|i: int|
            0 <= i < ws.len() ==> (#[trigger] rendered(ws, tw, false, selected)[i + 1]).len() + wd[4] <= tw
                + status_text(ws[i]).len(),
{
    reveal_strlit("  ");
    let hs = Seq::new(5, |i: int| painted(false, "1;37"@, format_row(headers(), wd)[i]));
    lemma_joined_len5(hs, "  "@);
    assert(hs[0] == format_row(headers(), wd)[0]);
    assert(hs[1] == format_row(headers(), wd)[1]);
    assert(hs[2] == format_row(headers(), wd)[2]);
    assert(hs[3] == format_row(headers(), wd)[3]);
    assert(hs[4] == format_row(headers(), wd)[4]);
    assert forall|i: int| 0 <= i < ws.len() implies (#[trigger] rendered(ws, tw, false, selected)[i + 1]).len()
        + wd[4] <= tw + status_text(ws[i]).len() by {
        let w = ws[i];
        let parts = Seq::new(
            5,
            |col: int| paint_cell(false, w, i, selected, col, format_row(cells(w), wd)[col]),
        );
        assert(rendered(ws, tw, false, selected)[i + 1] == joined(parts, "  "@));
        lemma_joined_len5(parts, "  "@);
        assert(parts[0] == format_row(cells(w), wd)[0]);
        assert(parts[1] == format_row(cells(w), wd)[1]);
        assert(parts[2] == format_row(cells(w), wd)[2]);
        assert(parts[3] == format_row(cells(w), wd)[3]);
        assert(parts[4] == status_text(w));
    }
}

/// Cutting text keeps at most `max - 1` columns of it before the ellipsis,
/// and keeps a prefix of it.
pub proof fn lemma_truncated_fits(value: Seq<char>, max: nat)
    requires
        max >= 2,
        str_columns(value) > max,
    ensures
        truncated(value, max) == clip(value, (max - 1) as nat).push(ellipsis()),
        columns(clip(value, (max - 1) as nat)) <= max - 1,
        clip(value, (max - 1) as nat) == value.take(clip(value, (max - 1) as nat).len() as int),
{
    lemma_clip_fits(value, (max - 1) as nat);
}

proof fn lemma_widest_none(w: Seq<usize>, n: int)
    requires
        w.len() == 5,
        0 <= n <= 5,
        forall|i: int| 0 <= i < n ==> w[i] <= minimums()[i],
    ensures
        widest(w, n) == -1,
    decreases n,
{
    if n > 0 {
        lemma_widest_none(w, n - 1);
    }
}

/// Narrowing stops once the table fits, or once every column is at its
/// minimum; it never widens a column nor narrows one below its minimum.
pub proof fn lemma_settle_fits(w: Seq<usize>, tw: int)
    requires
        w.len() == 5,
    ensures
        ({
            let r = settle(w, tw, slack(w));
            &&& r.len() == 5
            &&& (total(r) + 8 <= tw || forall|i: int| 0 <= i < 5 ==> r[i] <= #[trigger] minimums()[i])
            &&& forall|i: int| 0 <= i < 5 ==> r[i] <= w[i] && (r[i] >= minimums()[i] || r[i] == w[i])
        }),
    decreases slack(w),
{
    if slack(w) == 0 {
        assert forall|i: int| 0 <= i < 5 implies w[i] <= #[trigger] minimums()[i] by {
            assert(excess(w, i) == 0);
        }
    } else if total(w) + 8 > tw && widest(w, 5) >= 0 {
        lemma_widest(w, 5);
        let p = widest(w, 5);
        let w2 = w.update(p, (w[p] - 1) as usize);
        assert(slack(w2) + 1 == slack(w));
        lemma_settle_fits(w2, tw);
    } else {
        if widest(w, 5) < 0 {
            assert forall|i: int| 0 <= i < 5 implies w[i] <= #[trigger] minimums()[i] by {
                if w[i] > minimums()[i] {
                    lemma_widest_above(w, 5, i);
                }
            }
        }
    }
}

proof fn lemma_widest_above(w: Seq<usize>, n: int, i: int)
    requires
        w.len() == 5,
        0 <= i < n <= 5,
        w[i] > minimums()[i],
    ensures
        widest(w, n) >= 0,
    decreases n,
{
    if i < n - 1 {
        lemma_widest_above(w, n - 1, i);
    }
}

} // verus!
