//! What the views show, before any colour: the chart's cells, the neutron
//! rulers, the braille overview, and the count of steps in a chain.

use vstd::prelude::*;
use crate::app::{App, AXIS_W};
use crate::table::{Table, LIMIT, fits};
use crate::nuclide::{Nuclide, name_of, main_of, summary_of};
use crate::decay::{Decay, label_of, short_of};
use crate::text::{decimal, push_char, push_decimal, trim_end, is_prefix, is_space, is_digit};
use crate::record::slice;

verus! {

/// "(1 step)" rather than "(1 steps)", indented three spaces.
pub open spec fn steps_text(n: nat) -> Seq<char> {
    if n == 1 {
        "   (1 step)"@
    } else {
        "   ("@ + decimal(n) + " steps)"@
    }
}

/// "(1 step)" rather than "(1 steps)".
pub fn steps(n: usize) -> (s: String)
    ensures
        s@ == steps_text(n as nat),
{
    if n == 1 {
        String::from_str("   (1 step)")
    } else {
        let mut s = String::from_str("   (");
        push_decimal(&mut s, n as u64);
        s.append(" steps)");
        s
    }
}

/// What the chain popup says of a nuclide whose chain is itself alone: that
/// it is stable, or that the mode it decays by has no single daughter.
pub open spec fn chain_stop_text(nuc: Nuclide) -> Seq<char> {
    if nuc.stable {
        "This one is stable. Nothing to follow."@
    } else {
        name_of(nuc) + " decays by "@ + label_of(main_of(nuc))
            + ", which has no single daughter to follow.\n\nFission fragments and unknown modes end a chain here."@
    }
}

/// What the chain popup says of a nuclide whose chain is itself alone.
pub fn chain_stop(nuc: &Nuclide) -> (s: String)
    requires
        fits(*nuc),
    ensures
        s@ == chain_stop_text(*nuc),
{
    if nuc.is_stable() {
        return String::from_str("This one is stable. Nothing to follow.");
    }
    let mut s = nuc.name();
    s.append(" decays by ");
    s.append(nuc.main_decay().label());
    s.append(
        ", which has no single daughter to follow.\n\nFission fragments and unknown modes end a chain here.",
    );
    s
}

/// The arrow before a link of a chain: the short form of the mode that
/// made it, and an arrow.
pub open spec fn link_arrow_text(d: Decay) -> Seq<char> {
    short_of(d) + "→"@
}

/// The arrow before a link of a chain.
pub fn link_arrow(d: Decay) -> (s: String)
    ensures
        s@ == link_arrow_text(d),
{
    let mut s = String::from_str(d.short());
    s.append("→");
    s
}

/// What a link of a chain says last: "the end" for a stable nuclide, else
/// its first two decay modes. `fixed` is as for `decay_summary`.
pub open spec fn link_tail_text(nuc: Nuclide, fixed: Seq<Option<String>>) -> Seq<char> {
    if nuc.stable {
        "the end"@
    } else {
        summary_of(nuc, 2, fixed)
    }
}

/// What a link of a chain says last.
pub fn link_tail(nuc: &Nuclide, fixed: &Vec<Option<String>>) -> (s: String)
    ensures
        s@ == link_tail_text(*nuc, fixed@),
{
    if nuc.is_stable() {
        String::from_str("the end")
    } else {
        nuc.decay_summary(2, fixed)
    }
}

/// How a chain of `k` steps that ends at `end` is summed up: the number of
/// steps ("1 step", not "1 steps"), where it ends, and whether that is
/// stable.
pub open spec fn chain_end_text(k: nat, end: Nuclide) -> Seq<char> {
    (if k == 1 {
        "1 step"@
    } else {
        decimal(k) + " steps"@
    }) + ", ending at "@ + name_of(end) + if end.stable {
        ", which is stable"@
    } else {
        seq![]
    }
}

/// How a chain of `k` steps that ends at `end` is summed up.
pub fn chain_end(k: usize, end: &Nuclide) -> (s: String)
    requires
        fits(*end),
    ensures
        s@ == chain_end_text(k as nat, *end),
{
    let mut s = if k == 1 {
        String::from_str("1 step")
    } else {
        let mut s = String::new();
        push_decimal(&mut s, k as u64);
        s.append(" steps");
        s
    };
    s.append(", ending at ");
    let name = end.name();
    s.append(name.as_str());
    if end.is_stable() {
        s.append(", which is stable");
    }
    s
}

/// What one cell of the chart shows.
#[derive(Clone, Copy, PartialEq, Eq, Structural, Debug)]
pub enum Cell {
    /// No nuclide here.
    Blank,
    /// The cursor's own cell, marked rather than coloured.
    Cursor,
    /// The nuclide at this position in the table.
    Nuclide(usize),
}

/// What column `c` of the row for element `z` shows, the window starting at
/// N = `left`.
pub open spec fn cell_at(t: &Table, app: &App, z: int, left: int, c: int) -> Cell {
    let n = left + c;
    match t.at(z, n) {
        None => Cell::Blank,
        Some(i) => if z == app.z && n == app.n {
            Cell::Cursor
        } else {
            Cell::Nuclide(i as usize)
        },
    }
}

/// The cells of the chart's row for element `z`: `vis_n` of them, from
/// N = `app.left_n` on.
pub fn chart_row(t: &Table, app: &App, z: u32, vis_n: u32) -> (r: Vec<Cell>)
    requires
        t.wf(),
        app.left_n as int + vis_n as int <= u32::MAX,
    ensures
        r@.len() == vis_n,
        forall|c: int| 0 <= c < vis_n ==> r@[c] == cell_at(t, app, z as int, app.left_n as int, c),
        forall|c: int|
            0 <= c < vis_n ==> ((#[trigger] r@[c] == Cell::Cursor) <==> (z == app.z && app.left_n + c
                == app.n && t.at(z as int, app.left_n + c) is Some)),
        forall|c: int|
            0 <= c < vis_n ==> ((#[trigger] r@[c] == Cell::Blank) <==> t.at(z as int, app.left_n + c)
                is None),
{
    let mut r: Vec<Cell> = Vec::new();
    let mut c: u32 = 0;
    while c < vis_n
        invariant
            t.wf(),
            app.left_n as int + vis_n as int <= u32::MAX,
            c <= vis_n,
            r@.len() == c,
            forall|k: int| 0 <= k < c ==> r@[k] == cell_at(t, app, z as int, app.left_n as int, k),
        decreases vis_n - c,
    {
        let n = app.left_n + c;
        let cell = match t.index(z, n) {
            None => Cell::Blank,
            Some(i) => if z == app.z && n == app.n {
                Cell::Cursor
            } else {
                Cell::Nuclide(i)
            },
        };
        r.push(cell);
        c = c + 1;
    }
    proof {
        assert forall|c: int| 0 <= c < vis_n implies ((#[trigger] r@[c] == Cell::Cursor) <==> (z
            == app.z && app.left_n + c == app.n && t.at(z as int, app.left_n + c) is Some)) && ((r@[c]
            == Cell::Blank) <==> t.at(z as int, app.left_n + c) is None) by {
            chart_row_law(t, app, z as int, app.left_n as int, c);
        }
    }
    r
}

/// What a cell of the chart shows, said of the place it stands for: the
/// cursor's mark exactly where the cursor stands (its Z and its N) on a
/// nuclide; a blank exactly where the table holds no nuclide; anywhere
/// else the nuclide the table holds there.
pub proof fn chart_row_law(t: &Table, app: &App, z: int, left: int, c: int)
    ensures
        (cell_at(t, app, z, left, c) == Cell::Cursor) <==> (z == app.z && left + c == app.n && t.at(
            z,
            left + c,
        ) is Some),
        (cell_at(t, app, z, left, c) == Cell::Blank) <==> t.at(z, left + c) is None,
        !(z == app.z && left + c == app.n) ==> (t.at(z, left + c) matches Some(i) ==> cell_at(
            t,
            app,
            z,
            left,
            c,
        ) == Cell::Nuclide(i as usize)),
{
}

/// `s` padded with spaces to `col` characters and cut there.
pub open spec fn to_column(s: Seq<char>, col: int) -> Seq<char> {
    if s.len() < col {
        s + Seq::new((col - s.len()) as nat, |k: int| ' ')
    } else {
        s.take(col)
    }
}

/// The ruler after placing the labels for N = `n`, `n + 10`, ... below
/// `end`: each at column `indent + n - left`, where it fits before `cols`.
pub open spec fn ruler_from(r: Seq<char>, n: int, end: int, left: int, indent: int, cols: int) -> Seq<char>
    decreases end - n + 10,
{
    if n >= end {
        r
    } else {
        let col = indent + n - left;
        let label = decimal(n as nat);
        let r2 = if col + label.len() < cols {
            to_column(r, col) + label
        } else {
            r
        };
        ruler_from(r2, n + 10, end, left, indent, cols)
    }
}

/// The first multiple of ten at or after `n`.
pub open spec fn round_up10(n: int) -> int {
    if n % 10 == 0 {
        n
    } else {
        n + (10 - n % 10)
    }
}

/// A neutron ruler: `indent` spaces, then a label at every multiple of
/// ten from `left` to before `left + vis`, each under its column, those that
/// would reach column `cols` left out, and no trailing white space.
pub open spec fn ruler_text(left: int, vis: int, indent: int, cols: int) -> Seq<char> {
    trim_end(
        ruler_from(
            Seq::new(indent as nat, |k: int| ' '),
            round_up10(left),
            left + vis,
            left,
            indent,
            cols,
        ),
    )
}

/// The characters of a numeral are digits, and there is at least one.
proof fn lemma_decimal_digits(n: nat)
    ensures
        decimal(n).len() >= 1,
        forall|i: int| 0 <= i < decimal(n).len() ==> is_digit(#[trigger] decimal(n)[i]),
    decreases n,
{
    if n >= 10 {
        lemma_decimal_digits(n / 10);
        let d = decimal(n / 10);
        assert forall|i: int| 0 <= i < decimal(n).len() implies is_digit(#[trigger] decimal(n)[i]) by {
            if i < d.len() {
                assert(decimal(n)[i] == d[i]);
            }
        }
    }
}

/// Trimming the end keeps a prefix, and every character that is not white
/// space.
proof fn lemma_trim_end_keeps(s: Seq<char>)
    ensures
        is_prefix(trim_end(s), s),
        forall|i: int| 0 <= i < s.len() && !is_space(#[trigger] s[i]) ==> i < trim_end(s).len(),
    decreases s.len(),
{
    if s.len() > 0 && is_space(s.last()) {
        let d = s.drop_last();
        lemma_trim_end_keeps(d);
        let p = trim_end(d);
        assert(s.subrange(0, p.len() as int) =~= d.subrange(0, p.len() as int));
        assert forall|i: int| 0 <= i < s.len() && !is_space(#[trigger] s[i]) implies i < trim_end(s).len() by {
            assert(i < d.len());
            assert(d[i] == s[i]);
        }
    } else {
        assert(s.subrange(0, s.len() as int) =~= s);
    }
}

/// A label below 10^10 has at most ten digits, so labels ten columns apart
/// never overlap.
proof fn lemma_label_len(n: int)
    requires
        0 <= n < 10_000_000_000,
    ensures
        decimal(n as nat).len() <= 10,
{
    reveal_with_fuel(crate::text::pow10, 11);
    crate::text::lemma_decimal_len(n as nat, 10);
}

/// Placing the labels from `n` on keeps what was there before.
proof fn lemma_ruler_prefix(r: Seq<char>, n: int, end: int, left: int, indent: int, cols: int)
    requires
        0 <= n,
        end <= 10_000_000_000,
        r.len() <= indent + n - left,
    ensures
        is_prefix(r, ruler_from(r, n, end, left, indent, cols)),
    decreases end - n + 10,
{
    if n < end {
        let col = indent + n - left;
        let label = decimal(n as nat);
        lemma_label_len(n);
        let r2 = if col + label.len() < cols {
            to_column(r, col) + label
        } else {
            r
        };
        assert(r2.subrange(0, r.len() as int) =~= r);
        lemma_ruler_prefix(r2, n + 10, end, left, indent, cols);
        let big = ruler_from(r2, n + 10, end, left, indent, cols);
        assert(big.subrange(0, r.len() as int) =~= big.subrange(0, r2.len() as int).subrange(0, r.len() as int));
    } else {
        assert(r.subrange(0, r.len() as int) =~= r);
    }
}

/// The label for `m` stands at its column once the labels from `n` on are
/// placed.
proof fn lemma_ruler_label(r: Seq<char>, n: int, end: int, left: int, indent: int, cols: int, m: int)
    requires
        0 <= n <= m < end,
        (m - n) % 10 == 0,
        end <= 10_000_000_000,
        r.len() <= indent + n - left,
        indent + m - left + decimal(m as nat).len() < cols,
    ensures
        ({
            let big = ruler_from(r, n, end, left, indent, cols);
            let col = indent + m - left;
            &&& big.len() >= col + decimal(m as nat).len()
            &&& big.subrange(col, col + decimal(m as nat).len()) == decimal(m as nat)
        }),
    decreases m - n,
{
    let col = indent + n - left;
    let label = decimal(n as nat);
    lemma_label_len(n);
    let r2 = if col + label.len() < cols {
        to_column(r, col) + label
    } else {
        r
    };
    if m == n {
        assert(r2.subrange(col, col + label.len()) =~= label);
        lemma_ruler_prefix(r2, n + 10, end, left, indent, cols);
        let big = ruler_from(r2, n + 10, end, left, indent, cols);
        assert(big.subrange(col, col + label.len()) =~= big.subrange(0, r2.len() as int).subrange(
            col,
            col + label.len(),
        ));
    } else {
        lemma_ruler_label(r2, n + 10, end, left, indent, cols, m);
    }
}

/// Every label the ruler shows stands under its column: for a multiple of
/// ten `m` from `left` to before `left + vis` whose label ends before
/// column `cols`, the ruler reads `m` from column `indent + m - left` on.
pub proof fn ruler_law(left: int, vis: int, indent: int, cols: int, m: int)
    requires
        0 <= left,
        0 <= indent,
        left + vis <= 10_000_000_000,
        left <= m < left + vis,
        m % 10 == 0,
        indent + m - left + decimal(m as nat).len() < cols,
    ensures
        ({
            let text = ruler_text(left, vis, indent, cols);
            let col = indent + m - left;
            &&& text.len() >= col + decimal(m as nat).len()
            &&& text.subrange(col, col + decimal(m as nat).len()) == decimal(m as nat)
        }),
{
    let start = Seq::new(indent as nat, |k: int| ' ');
    let n0 = round_up10(left);
    assert(n0 <= m && (m - n0) % 10 == 0);
    lemma_ruler_label(start, n0, left + vis, left, indent, cols, m);
    let big = ruler_from(start, n0, left + vis, left, indent, cols);
    let col = indent + m - left;
    let len = decimal(m as nat).len();
    lemma_decimal_digits(m as nat);
    lemma_trim_end_keeps(big);
    assert(big[col + len - 1] == decimal(m as nat)[len - 1]);
    assert(!is_space(big[col + len - 1]));
    let text = trim_end(big);
    assert(text.subrange(col, col + len) =~= big.subrange(0, text.len() as int).subrange(col, col + len));
}

/// Appends `k` spaces.
fn push_spaces(s: &mut String, k: usize)
    ensures
        final(s)@ == old(s)@ + Seq::new(k as nat, |j: int| ' '),
{
    let mut i: usize = 0;
    while i < k
        invariant
            i <= k,
            s@ =~= old(s)@ + Seq::new(i as nat, |j: int| ' '),
        decreases k - i,
    {
        push_char(s, ' ');
        i = i + 1;
    }
}

/// `s` without its trailing white space.
pub fn trim_end_string(s: &str) -> (r: String)
    ensures
        r@ == trim_end(s@),
{
    let len = s.unicode_len();
    let mut j: usize = len;
    assert(s@.subrange(0, len as int) =~= s@);
    while j > 0 && crate::text::space(s.get_char(j - 1))
        invariant
            len == s@.len(),
            j <= len,
            trim_end(s@) == trim_end(s@.subrange(0, j as int)),
        decreases j,
    {
        assert(s@.subrange(0, j as int).drop_last() =~= s@.subrange(0, j - 1));
        j = j - 1;
    }
    slice(s, 0, j)
}

/// The neutron ruler under the chart: a label every ten neutrons under its
/// column, the chart starting at N = `left_n`, `vis_n` columns wide after
/// the axis, on a screen `cols` wide.
pub fn ruler(left_n: u32, vis_n: u32, cols: u16) -> (s: String)
    requires
        left_n <= LIMIT,
        vis_n <= 0x10000,
    ensures
        s@ == ruler_text(left_n as int, vis_n as int, AXIS_W as int, cols as int),
{
    let mut r = String::new();
    push_spaces(&mut r, AXIS_W as usize);
    let mut n = left_n;
    while n % 10 != 0
        invariant
            left_n <= LIMIT,
            left_n <= n <= left_n + 9,
            round_up10(left_n as int) == round_up10(n as int),
        decreases left_n + 10 - n,
    {
        n = n + 1;
    }
    let end = left_n + vis_n;
    let ghost start = Seq::new(AXIS_W as nat, |k: int| ' ');
    while n < end
        invariant
            left_n <= n <= end + 10,
            end == left_n + vis_n,
            end <= LIMIT + 0x10000,
            ruler_from(start, round_up10(left_n as int), end as int, left_n as int, AXIS_W as int, cols as int)
                == ruler_from(r@, n as int, end as int, left_n as int, AXIS_W as int, cols as int),
        decreases end + 10 - n,
    {
        let col = (AXIS_W as u32 + n - left_n) as usize;
        let mut label = String::new();
        push_decimal(&mut label, n as u64);
        let ll = label.as_str().unicode_len();
        proof {
            reveal_with_fuel(crate::text::pow10, 11);
            crate::text::lemma_decimal_len(n as nat, 10);
        }
        if col + ll < cols as usize {
            let ghost before = r@;
            let cur = r.as_str().unicode_len();
            if cur < col {
                push_spaces(&mut r, col - cur);
            } else {
                r = slice(r.as_str(), 0, col);
            }
            assert(r@ =~= to_column(before, col as int));
            r.append(label.as_str());
        }
        n = n + 10;
    }
    trim_end_string(r.as_str())
}

/// The braille dot for the nuclide in sub-row `r` (0..4) and sub-column `c`
/// (0..2) of a cell: a braille cell is a 2×4 dot matrix.
pub open spec fn dot(r: int, c: int) -> u8 {
    if r == 0 {
        if c == 0 { 0x01 } else { 0x08 }
    } else if r == 1 {
        if c == 0 { 0x02 } else { 0x10 }
    } else if r == 2 {
        if c == 0 { 0x04 } else { 0x20 }
    } else {
        if c == 0 { 0x40 } else { 0x80 }
    }
}

/// The braille grid, `cw` cells across and `ch` down, row by row, after
/// the first `k` nuclides are dotted in: protons up the screen, so the top
/// row holds the heaviest element; each nuclide sets its own dot in its
/// cell, and those that fall outside the grid are left out.
pub open spec fn braille_after(t: &Table, cw: int, ch: int, k: int) -> Seq<u8>
    decreases k,
{
    if k <= 0 {
        Seq::new((cw * ch) as nat, |i: int| 0u8)
    } else {
        let g = braille_after(t, cw, ch, k - 1);
        let nuc = t.all@[k - 1];
        let row = t.z_max - nuc.z;
        let col = nuc.n as int;
        let cx = col / 2;
        let cy = row / 4;
        if cx >= cw || cy >= ch {
            g
        } else {
            g.update(cy * cw + cx, g[cy * cw + cx] | dot(row % 4, col % 2))
        }
    }
}

/// Nuclide `j` falls on dot (`r`, `c`) of overview cell (`cx`, `cy`):
/// its row from the top, Z = `z_max` down, is `4 cy + r`, and its N is
/// `2 cx + c`.
pub open spec fn on_dot(t: &Table, j: int, cx: int, cy: int, r: int, c: int) -> bool {
    t.z_max - t.all@[j].z == 4 * cy + r && t.all@[j].n == 2 * cx + c
}

/// Each of the eight dots is one bit, and no two share one.
proof fn lemma_dots(r: int, c: int, r2: int, c2: int)
    requires
        0 <= r < 4,
        0 <= c < 2,
        0 <= r2 < 4,
        0 <= c2 < 2,
    ensures
        (dot(r, c) & dot(r2, c2) != 0) <==> (r == r2 && c == c2),
{
    let d = dot(r, c);
    let e = dot(r2, c2);
    assert(d == 0x01u8 || d == 0x02u8 || d == 0x04u8 || d == 0x08u8 || d == 0x10u8 || d == 0x20u8
        || d == 0x40u8 || d == 0x80u8);
    assert(e == 0x01u8 || e == 0x02u8 || e == 0x04u8 || e == 0x08u8 || e == 0x10u8 || e == 0x20u8
        || e == 0x40u8 || e == 0x80u8);
    assert((d & e != 0) <==> d == e) by (bit_vector)
        requires
            d == 0x01u8 || d == 0x02u8 || d == 0x04u8 || d == 0x08u8 || d == 0x10u8 || d == 0x20u8
                || d == 0x40u8 || d == 0x80u8,
            e == 0x01u8 || e == 0x02u8 || e == 0x04u8 || e == 0x08u8 || e == 0x10u8 || e == 0x20u8
                || e == 0x40u8 || e == 0x80u8,
    ;
}

/// Cell (`cx`, `cy`) of a grid `cw` wide sits at `cy cw + cx`, and no other
/// cell does.
proof fn lemma_cell_at(cw: int, ch: int, cx: int, cy: int, cx2: int, cy2: int)
    requires
        0 <= cx < cw,
        0 <= cy < ch,
        0 <= cx2 < cw,
        0 <= cy2 < ch,
    ensures
        0 <= cy * cw + cx < cw * ch,
        cy * cw + cx == cy2 * cw + cx2 <==> (cx == cx2 && cy == cy2),
{
    assert(0 <= cy * cw + cx < cw * ch) by (nonlinear_arith)
        requires
            0 <= cx < cw,
            0 <= cy < ch,
    ;
    if cy < cy2 {
        assert(cy * cw + cx < cy2 * cw + cx2) by (nonlinear_arith)
            requires
                0 <= cx < cw,
                0 <= cx2,
                cy < cy2,
        ;
    } else if cy2 < cy {
        assert(cy2 * cw + cx2 < cy * cw + cx) by (nonlinear_arith)
            requires
                0 <= cx2 < cw,
                0 <= cx,
                cy2 < cy,
        ;
    }
}

/// What the overview holds, said directly: a dot of a cell is set exactly
/// when some nuclide of the table falls on it.
pub proof fn braille_law(t: &Table, cw: int, ch: int, cx: int, cy: int, r: int, c: int)
    requires
        t.wf(),
        0 <= cx < cw,
        0 <= cy < ch,
        0 <= r < 4,
        0 <= c < 2,
    ensures
        braille_after(t, cw, ch, t.all@.len() as int).len() == cw * ch,
        (braille_after(t, cw, ch, t.all@.len() as int)[cy * cw + cx] & dot(r, c) != 0) <==> exists|j: int|
            0 <= j < t.all@.len() && #[trigger] on_dot(t, j, cx, cy, r, c),
{
    crate::table::lemma_max(t.all@);
    lemma_braille(t, cw, ch, t.all@.len() as int, cx, cy, r, c);
}

proof fn lemma_braille(t: &Table, cw: int, ch: int, k: int, cx: int, cy: int, r: int, c: int)
    requires
        0 <= k <= t.all@.len(),
        forall|j: int| 0 <= j < t.all@.len() ==> t.all@[j].z <= t.z_max,
        0 <= cx < cw,
        0 <= cy < ch,
        0 <= r < 4,
        0 <= c < 2,
    ensures
        braille_after(t, cw, ch, k).len() == cw * ch,
        (braille_after(t, cw, ch, k)[cy * cw + cx] & dot(r, c) != 0) <==> exists|j: int|
            0 <= j < k && #[trigger] on_dot(t, j, cx, cy, r, c),
    decreases k,
{
    lemma_cell_at(cw, ch, cx, cy, cx, cy);
    let idx = cy * cw + cx;
    if k <= 0 {
        let g = braille_after(t, cw, ch, k);
        assert(g[idx] == 0u8);
        assert(0u8 & dot(r, c) == 0) by (bit_vector);
    } else {
        lemma_braille(t, cw, ch, k - 1, cx, cy, r, c);
        let g = braille_after(t, cw, ch, k - 1);
        let nuc = t.all@[k - 1];
        let row = t.z_max - nuc.z;
        let col = nuc.n as int;
        let cx0 = col / 2;
        let cy0 = row / 4;
        let hit = on_dot(t, k - 1, cx, cy, r, c);
        assert(hit <==> (cx0 == cx && cy0 == cy && row % 4 == r && col % 2 == c));
        if cx0 >= cw || cy0 >= ch {
            assert(!hit);
        } else {
            lemma_cell_at(cw, ch, cx0, cy0, cx, cy);
            let idx0 = cy0 * cw + cx0;
            let d0 = dot(row % 4, col % 2);
            let g2 = g.update(idx0, g[idx0] | d0);
            assert(braille_after(t, cw, ch, k) == g2);
            if idx0 == idx {
                let a = g[idx];
                let d = dot(r, c);
                assert((a | d0) & d != 0 <==> (a & d != 0 || d0 & d != 0)) by (bit_vector);
                lemma_dots(row % 4, col % 2, r, c);
            } else {
                assert(g2[idx] == g[idx]);
                assert(!hit);
            }
        }
        if hit {
            assert(on_dot(t, k - 1, cx, cy, r, c));
        }
        if exists|j: int| 0 <= j < k - 1 && #[trigger] on_dot(t, j, cx, cy, r, c) {
            let j = choose|j: int| 0 <= j < k - 1 && #[trigger] on_dot(t, j, cx, cy, r, c);
            assert(0 <= j < k && on_dot(t, j, cx, cy, r, c));
        }
        if exists|j: int| 0 <= j < k && #[trigger] on_dot(t, j, cx, cy, r, c) {
            let j = choose|j: int| 0 <= j < k && #[trigger] on_dot(t, j, cx, cy, r, c);
            if j < k - 1 {
                assert(0 <= j < k - 1 && on_dot(t, j, cx, cy, r, c));
            }
        }
    }
}

/// The size of the overview in braille cells for a rectangle `w` × `h`:
/// as wide as the chart needs (two neutrons a cell) but no wider than the
/// rectangle after the five-column label margin, and never under ten; as
/// high as the chart needs (four elements a cell) but no higher than the
/// rectangle, and never under four.
pub open spec fn overview_size_spec(t: &Table, w: int, h: int) -> (int, int) {
    let room = if w - 5 > 10 { w - 5 } else { 10 };
    let need_w = t.n_max / 2 + 1;
    let need_h = t.z_max / 4 + 1;
    let tall = if h > 4 { h } else { 4 };
    (if need_w < room { need_w } else { room }, if need_h < tall { need_h } else { tall })
}

/// The size of the overview in braille cells for a rectangle `w` × `h`.
pub fn overview_size(t: &Table, w: u16, h: u16) -> (r: (usize, usize))
    requires
        t.wf(),
    ensures
        r.0 as int == overview_size_spec(t, w as int, h as int).0,
        r.1 as int == overview_size_spec(t, w as int, h as int).1,
        1 <= r.0 <= 0xffff,
        1 <= r.1 <= 0xffff,
{
    let room: usize = if w.saturating_sub(5) > 10 {
        w.saturating_sub(5) as usize
    } else {
        10
    };
    let need_w = (t.n_max / 2) as usize + 1;
    let need_h = (t.z_max / 4) as usize + 1;
    let tall: usize = if h > 4 {
        h as usize
    } else {
        4
    };
    (if need_w < room { need_w } else { room }, if need_h < tall { need_h } else { tall })
}

/// The braille overview of the whole chart, `cw` cells across and `ch`
/// down, row by row: each cell's dots are the nuclides that fall in it.
pub fn braille(t: &Table, cw: usize, ch: usize) -> (g: Vec<u8>)
    requires
        t.wf(),
        cw <= 0xffff,
        ch <= 0xffff,
    ensures
        g@ == braille_after(t, cw as int, ch as int, t.all@.len() as int),
{
    assert(cw * ch <= 0xffff * 0xffff) by (nonlinear_arith)
        requires
            cw <= 0xffff,
            ch <= 0xffff,
    ;
    let size = cw * ch;
    let mut g: Vec<u8> = Vec::new();
    let mut i: usize = 0;
    while i < size
        invariant
            i <= size,
            g@.len() == i,
            forall|j: int| 0 <= j < i ==> g@[j] == 0u8,
        decreases size - i,
    {
        g.push(0u8);
        i = i + 1;
    }
    assert(g@ =~= braille_after(t, cw as int, ch as int, 0));
    let len = t.all.len();
    let mut k: usize = 0;
    while k < len
        invariant
            t.wf(),
            len == t.all@.len(),
            k <= len,
            size == cw * ch,
            cw <= 0xffff,
            ch <= 0xffff,
            g@ == braille_after(t, cw as int, ch as int, k as int),
            g@.len() == size,
        decreases len - k,
    {
        let nuc = &t.all[k];
        proof {
            crate::table::lemma_max(t.all@);
        }
        let row = t.z_max - nuc.z;
        let col = nuc.n;
        let cx = (col / 2) as usize;
        let cy = (row / 4) as usize;
        if cx < cw && cy < ch {
            assert(cy * cw + cx < cw * ch) by (nonlinear_arith)
                requires
                    cx < cw,
                    cy < ch,
            ;
            let at = cy * cw + cx;
            let r4 = row % 4;
            let c2 = col % 2;
            let d: u8 = if r4 == 0 {
                if c2 == 0 { 0x01 } else { 0x08 }
            } else if r4 == 1 {
                if c2 == 0 { 0x02 } else { 0x10 }
            } else if r4 == 2 {
                if c2 == 0 { 0x04 } else { 0x20 }
            } else {
                if c2 == 0 { 0x40 } else { 0x80 }
            };
            let v = g[at] | d;
            g.set(at, v);
        }
        k = k + 1;
    }
    g
}

/// The overview's ruler after placing the labels for N = `n`, `n + 20`,
/// ...: each at column `indent + N / 2`, while N is on the chart and its
/// column inside the `cw` braille cells.
pub open spec fn overview_ruler_from(r: Seq<char>, n: int, n_max: int, cw: int, indent: int) -> Seq<char>
    decreases n_max + 20 - n,
{
    if n > n_max || n / 2 >= cw || n < 0 {
        r
    } else {
        overview_ruler_from(to_column(r, indent + n / 2) + decimal(n as nat), n + 20, n_max, cw, indent)
    }
}

/// The neutron ruler under the overview: one label per twenty neutrons,
/// each under its braille column after the five-column label margin, the
/// line padded with spaces to `w`.
pub open spec fn overview_ruler_text(n_max: int, cw: int, w: int) -> Seq<char> {
    let r = overview_ruler_from(Seq::new(5, |k: int| ' '), 0, n_max, cw, 5);
    if r.len() < w {
        r + Seq::new((w - r.len()) as nat, |k: int| ' ')
    } else {
        r
    }
}

/// The neutron ruler under the overview of `t`, `cw` braille cells wide,
/// in a rectangle `w` wide.
pub fn overview_ruler(t: &Table, cw: usize, w: u16) -> (s: String)
    requires
        t.wf(),
        cw <= 0xffff,
    ensures
        s@ == overview_ruler_text(t.n_max as int, cw as int, w as int),
{
    let mut r = String::new();
    push_spaces(&mut r, 5);
    let ghost start = Seq::new(5, |k: int| ' ');
    assert(r@ =~= start);
    let mut n: usize = 0;
    let n_max = t.n_max as usize;
    while n <= n_max && n / 2 < cw
        invariant
            n_max == t.n_max,
            cw <= 0xffff,
            n <= 2 * cw + 20,
            overview_ruler_from(start, 0, n_max as int, cw as int, 5)
                == overview_ruler_from(r@, n as int, n_max as int, cw as int, 5),
        decreases n_max + 20 - n,
    {
        let col = 5 + n / 2;
        let ghost before = r@;
        let cur = r.as_str().unicode_len();
        if cur < col {
            push_spaces(&mut r, col - cur);
        } else {
            r = slice(r.as_str(), 0, col);
        }
        assert(r@ =~= to_column(before, col as int));
        push_decimal(&mut r, n as u64);
        n = n + 20;
    }
    let len = r.as_str().unicode_len();
    if len < w as usize {
        push_spaces(&mut r, w as usize - len);
    }
    r
}

} // verus!
