//! Areas of the screen, and what is selected on it.
use vstd::prelude::*;
use vstd::string::*;
use crate::text;
use crate::text::{join_texts, right_trimmed, slice_text, to_chars, trimmed_end};

verus! {

/// The columns left free at the left of the content.
pub const CONTENT_GUTTER: u16 = 3;

// ---------- Areas ----------

/// An area of the screen.
#[derive(Debug, Clone, Copy, PartialEq, Eq, Structural)]
pub struct Rect {
    pub x: u16,
    pub y: u16,
    pub width: u16,
    pub height: u16,
}

/// `a + b`, up to the greatest number.
pub open spec fn capped(n: int) -> u16 {
    if n <= u16::MAX {
        n as u16
    } else {
        u16::MAX
    }
}

impl Rect {
    /// An area of no size.
    pub open spec fn nothing() -> Rect {
        Rect { x: 0, y: 0, width: 0, height: 0 }
    }

    /// The first column to the right of the area.
    pub open spec fn right(self) -> u16 {
        capped(self.x + self.width)
    }

    /// The first row below the area.
    pub open spec fn bottom(self) -> u16 {
        capped(self.y + self.height)
    }

    /// The position lies in the area.
    pub open spec fn holds(self, column: u16, row: u16) -> bool {
        self.x <= column < self.right() && self.y <= row < self.bottom()
    }

    /// The area has no size.
    pub open spec fn is_empty(self) -> bool {
        self.width == 0 || self.height == 0
    }

    /// An area of no size.
    pub fn empty() -> (r: Rect)
        ensures
            r == Rect::nothing(),
    {
        Rect { x: 0, y: 0, width: 0, height: 0 }
    }

    /// The first column to the right of the area.
    pub fn right_end(&self) -> (r: u16)
        ensures
            r == self.right(),
    {
        self.x.saturating_add(self.width)
    }

    /// The first row below the area.
    pub fn bottom_end(&self) -> (r: u16)
        ensures
            r == self.bottom(),
    {
        self.y.saturating_add(self.height)
    }

    /// Tells whether the position lies in the area.
    pub fn contains(&self, column: u16, row: u16) -> (r: bool)
        ensures
            r == self.holds(column, row),
    {
        self.x <= column && column < self.right_end() && self.y <= row && row < self.bottom_end()
    }
}

// ---------- Selections ----------

/// `a` comes before `b` in reading order, or is `b`.
pub open spec fn reads_before(a: (u16, u16), b: (u16, u16)) -> bool {
    a.1 < b.1 || (a.1 == b.1 && a.0 <= b.0)
}

/// The ends of a selection, in reading order.
pub open spec fn bounds(start: (u16, u16), end: (u16, u16)) -> ((u16, u16), (u16, u16)) {
    if reads_before(start, end) {
        (start, end)
    } else {
        (end, start)
    }
}

/// The ends of a selection, in reading order.
pub fn selection_bounds(start: (u16, u16), end: (u16, u16)) -> (r: ((u16, u16), (u16, u16)))
    ensures
        r == bounds(start, end),
{
    if start.1 < end.1 || (start.1 == end.1 && start.0 <= end.0) {
        (start, end)
    } else {
        (end, start)
    }
}

/// A selection is the same from either end.
pub proof fn selections_have_no_direction(start: (u16, u16), end: (u16, u16))
    ensures
        bounds(start, end) == bounds(end, start),
        reads_before(bounds(start, end).0, bounds(start, end).1),
{
}

/// The last column of the area.
pub open spec fn last_column(area: Rect) -> int {
    if area.right() > 0 {
        area.right() - 1
    } else {
        0
    }
}

/// The last row of the area.
pub open spec fn last_row(area: Rect) -> int {
    if area.bottom() > 0 {
        area.bottom() - 1
    } else {
        0
    }
}

/// The first selected column in row `y`, when the selection runs from `start` to `end`.
pub open spec fn first_selected(area: Rect, start: (u16, u16), y: int) -> int {
    let from = if y == start.1 {
        start.0
    } else {
        area.x
    };
    if from < area.x {
        area.x as int
    } else {
        from as int
    }
}

/// The last selected column in row `y`.
pub open spec fn last_selected(area: Rect, end: (u16, u16), y: int) -> int {
    let to = if y == end.1 {
        end.0 as int
    } else {
        last_column(area)
    };
    if to > last_column(area) {
        last_column(area)
    } else {
        to
    }
}

/// The positions in row `y` from column `from` on, up to but not including `to`, that lie in
/// the area.
pub open spec fn row_cells(area: Rect, y: int, from: int, to: int) -> Seq<(u16, u16)>
    decreases to - from,
{
    if to <= from {
        Seq::empty()
    } else {
        let cells = row_cells(area, y, from, to - 1);
        if area.holds((to - 1) as u16, y as u16) {
            cells.push(((to - 1) as u16, y as u16))
        } else {
            cells
        }
    }
}

/// The selected positions in the rows of the selection up to but not including `stop`.
pub open spec fn selected_cells(
    area: Rect,
    start: (u16, u16),
    end: (u16, u16),
    stop: int,
) -> Seq<(u16, u16)>
    decreases stop - start.1,
{
    if stop <= start.1 {
        Seq::empty()
    } else {
        selected_cells(area, start, end, stop - 1) + row_cells(
            area,
            stop - 1,
            first_selected(area, start, stop - 1),
            last_selected(area, end, stop - 1) + 1,
        )
    }
}

/// The first row below the selection that ends in row `row`, or below the area.
pub open spec fn stop_row(area: Rect, row: u16) -> int {
    if row < last_row(area) {
        row + 1
    } else {
        last_row(area) + 1
    }
}

/// The positions to highlight, row by row.
pub open spec fn selection_cells(area: Rect, start: (u16, u16), end: (u16, u16)) -> Seq<
    (u16, u16),
> {
    if area.is_empty() {
        Seq::empty()
    } else {
        let (from, to) = bounds(start, end);
        selected_cells(area, from, to, stop_row(area, to.1))
    }
}

/// The first and last selected columns in row `y`.
fn selected_columns(area: &Rect, start: (u16, u16), end: (u16, u16), y: u16) -> (r: (u16, u16))
    ensures
        r.0 == first_selected(*area, start, y as int),
        r.1 == last_selected(*area, end, y as int),
{
    let last: u16 = area.right_end().saturating_sub(1);
    let from: u16 = if y == start.1 {
        start.0
    } else {
        area.x
    };
    let to: u16 = if y == end.1 {
        end.0
    } else {
        last
    };
    (
        if from < area.x {
            area.x
        } else {
            from
        },
        if to > last {
            last
        } else {
            to
        },
    )
}

/// The positions to highlight, row by row.
pub fn highlighted(area: Rect, start: (u16, u16), end: (u16, u16)) -> (r: Vec<(u16, u16)>)
    ensures
        r@ == selection_cells(area, start, end),
{
    let mut out: Vec<(u16, u16)> = Vec::new();
    if area.width == 0 || area.height == 0 {
        return out;
    }
    let (from, to) = selection_bounds(start, end);
    let last: u16 = area.bottom_end().saturating_sub(1);
    let stop: u16 = if to.1 < last {
        to.1
    } else {
        last
    };
    let mut y: u32 = from.1 as u32;
    while y <= stop as u32
        invariant
            from.1 <= y <= 0x1_0000,
            y <= from.1 || y <= stop + 1,
            out@ == selected_cells(area, from, to, y as int),
        decreases 0x1_0000 - y,
    {
        let ghost earlier = out@;
        let row: u16 = y as u16;
        let (first, last_x) = selected_columns(&area, from, to, row);
        let mut x: u32 = first as u32;
        assert(out@ =~= earlier + row_cells(area, y as int, first as int, first as int));
        while x <= last_x as u32
            invariant
                row == y,
                first <= x <= 0x1_0000,
                x <= first || x <= last_x + 1,
                out@ == earlier + row_cells(area, y as int, first as int, x as int),
            decreases 0x1_0000 - x,
        {
            let column: u16 = x as u16;
            let ghost cells = row_cells(area, y as int, first as int, x as int);
            if area.contains(column, row) {
                out.push((column, row));
                assert(out@ =~= earlier + cells.push((column, row)));
            }
            x += 1;
        }
        assert(out@ == earlier + row_cells(area, y as int, first as int, last_x as int + 1));
        y += 1;
    }
    assert(out@ == selected_cells(area, from, to, stop as int + 1));
    out
}

/// The position is selected: it lies in the area, in a row of the selection, between the
/// first and the last selected column of that row.
pub open spec fn is_selected(area: Rect, start: (u16, u16), end: (u16, u16), x: int, y: int) -> bool {
    let (from, to) = bounds(start, end);
    &&& !area.is_empty()
    &&& 0 <= x <= u16::MAX
    &&& 0 <= y <= u16::MAX
    &&& area.holds(x as u16, y as u16)
    &&& from.1 <= y <= to.1
    &&& first_selected(area, from, y) <= x <= last_selected(area, to, y)
}

proof fn lemma_row_cells(area: Rect, y: int, from: int, to: int, cell: (u16, u16))
    requires
        0 <= y <= u16::MAX,
        0 <= from,
        to <= u16::MAX + 1,
    ensures
        row_cells(area, y, from, to).contains(cell) <==> cell.1 == y && from <= cell.0 < to
            && area.holds(cell.0, cell.1),
    decreases to - from,
{
    if to > from {
        lemma_row_cells(area, y, from, to - 1, cell);
        let cells = row_cells(area, y, from, to - 1);
        let all = row_cells(area, y, from, to);
        if all.contains(cell) {
            let k = choose|k: int| 0 <= k < all.len() && all[k] == cell;
            if k < cells.len() {
                assert(cells[k] == cell);
            }
        } else {
            if cells.contains(cell) {
                let k = choose|k: int| 0 <= k < cells.len() && cells[k] == cell;
                assert(all[k] == cell);
            }
            if all.len() > cells.len() {
                assert(all[cells.len() as int] != cell);
            }
        }
    }
}

proof fn lemma_selected_cells(
    area: Rect,
    start: (u16, u16),
    end: (u16, u16),
    stop: int,
    cell: (u16, u16),
)
    requires
        stop <= u16::MAX + 1,
    ensures
        selected_cells(area, start, end, stop).contains(cell) <==> start.1 <= cell.1 < stop
            && area.holds(cell.0, cell.1) && first_selected(area, start, cell.1 as int) <= cell.0
            <= last_selected(area, end, cell.1 as int),
    decreases stop - start.1,
{
    if stop > start.1 {
        lemma_selected_cells(area, start, end, stop - 1, cell);
        let above = selected_cells(area, start, end, stop - 1);
        let row = row_cells(
            area,
            stop - 1,
            first_selected(area, start, stop - 1),
            last_selected(area, end, stop - 1) + 1,
        );
        lemma_row_cells(
            area,
            stop - 1,
            first_selected(area, start, stop - 1),
            last_selected(area, end, stop - 1) + 1,
            cell,
        );
        let all = above + row;
        if all.contains(cell) {
            let k = choose|k: int| 0 <= k < all.len() && all[k] == cell;
            if k < above.len() {
                assert(above[k] == cell);
            } else {
                assert(row[k - above.len()] == cell);
            }
        }
        if above.contains(cell) {
            let k = choose|k: int| 0 <= k < above.len() && above[k] == cell;
            assert(all[k] == cell);
        }
        if row.contains(cell) {
            let k = choose|k: int| 0 <= k < row.len() && row[k] == cell;
            assert(all[above.len() + k] == cell);
        }
    }
}

/// Exactly the selected positions are highlighted.
pub proof fn highlighting_marks_what_is_selected(
    area: Rect,
    start: (u16, u16),
    end: (u16, u16),
    x: u16,
    y: u16,
)
    ensures
        selection_cells(area, start, end).contains((x, y)) <==> is_selected(
            area,
            start,
            end,
            x as int,
            y as int,
        ),
{
    let (from, to) = bounds(start, end);
    lemma_selected_cells(area, from, to, stop_row(area, to.1), (x, y));
}

// ---------- Selected text ----------

/// What stands on the screen: the symbols of its cells, row by row.
#[derive(Debug)]
pub struct Screen {
    pub area: Rect,
    pub cells: Vec<String>,
}

/// What a `Screen` holds.
#[verifier::ext_equal]
pub struct ScreenModel {
    pub area: Rect,
    pub cells: Seq<Seq<char>>,
}

impl View for Screen {
    type V = ScreenModel;

    open spec fn view(&self) -> ScreenModel {
        ScreenModel { area: self.area, cells: text::texts(self.cells@) }
    }
}

impl ScreenModel {
    /// The symbol at a position; nothing outside the area, nor where no symbol is known.
    pub open spec fn symbol(self, x: int, y: int) -> Seq<char> {
        let at = (y - self.area.y) * self.area.width + (x - self.area.x);
        if self.area.x <= x < self.area.right() && self.area.y <= y < self.area.bottom() && 0 <= at
            < self.cells.len() {
            self.cells[at]
        } else {
            Seq::empty()
        }
    }

    /// The symbols in row `y` from column `from` on, up to but not including `to`.
    pub open spec fn symbols(self, y: int, from: int, to: int) -> Seq<char>
        decreases to - from,
    {
        if to <= from {
            Seq::empty()
        } else {
            self.symbols(y, from, to - 1) + self.symbol(to - 1, y)
        }
    }

    /// What is selected in row `y`: without the gutter, and without white space at its end.
    pub open spec fn selected_in(self, start: (u16, u16), end: (u16, u16), y: int) -> Seq<char> {
        let from = first_selected(self.area, start, y);
        let line = self.symbols(y, from, last_selected(self.area, end, y) + 1);
        let gutter = capped(self.area.x + CONTENT_GUTTER);
        text::trim_end(
            without_spaces(
                line,
                if from < gutter {
                    (gutter - from) as nat
                } else {
                    0
                },
            ),
        )
    }

    /// What is selected in the rows from `y` on up to but not including `stop`, line by line.
    pub open spec fn selected_lines(
        self,
        start: (u16, u16),
        end: (u16, u16),
        stop: int,
    ) -> Seq<Seq<char>>
        decreases stop - start.1,
    {
        if stop <= start.1 {
            Seq::empty()
        } else {
            self.selected_lines(start, end, stop - 1).push(self.selected_in(start, end, stop - 1))
        }
    }

    /// The selected text.
    pub open spec fn selected(self, start: (u16, u16), end: (u16, u16)) -> Seq<char> {
        if self.area.is_empty() {
            Seq::empty()
        } else {
            let (from, to) = bounds(start, end);
            text::trim_end(text::join(self.selected_lines(from, to, stop_row(self.area, to.1)), "\n"@))
        }
    }
}

/// `s` without up to `count` leading spaces.
pub open spec fn without_spaces(s: Seq<char>, count: nat) -> Seq<char>
    decreases count,
{
    if count == 0 || s.len() == 0 || s[0] != ' ' {
        s
    } else {
        without_spaces(s.drop_first(), (count - 1) as nat)
    }
}

/// Where `chars` start without up to `count` leading spaces.
fn skip_spaces(chars: &Vec<char>, count: u16) -> (r: usize)
    ensures
        r <= chars@.len(),
        chars@.skip(r as int) == without_spaces(chars@, count as nat),
{
    let mut i: usize = 0;
    let mut left: u16 = count;
    assert(chars@.skip(0) =~= chars@);
    while left > 0 && i < chars.len() && chars[i] == ' '
        invariant
            i <= chars@.len(),
            without_spaces(chars@, count as nat) == without_spaces(
                chars@.skip(i as int),
                left as nat,
            ),
        decreases left,
    {
        proof {
            let s = chars@.skip(i as int);
            assert(s[0] == chars@[i as int]);
            assert(s.drop_first() =~= chars@.skip(i + 1));
        }
        i += 1;
        left -= 1;
    }
    proof {
        let s = chars@.skip(i as int);
        assert(i < chars@.len() ==> s[0] == chars@[i as int]);
    }
    i
}

impl Screen {
    /// An empty screen.
    pub fn empty() -> (r: Screen)
        ensures
            r@ == (ScreenModel { area: Rect::nothing(), cells: Seq::empty() }),
    {
        let cells: Vec<String> = Vec::new();
        assert(text::texts(cells@) =~= Seq::empty());
        Screen { area: Rect::empty(), cells }
    }

    /// Appends the symbol at a position.
    fn push_symbol(&self, out: &mut String, x: u16, y: u16)
        ensures
            final(out)@ == old(out)@ + self@.symbol(x as int, y as int),
    {
        if self.area.contains(x, y) {
            let dy: usize = (y - self.area.y) as usize;
            let dx: usize = (x - self.area.x) as usize;
            assert(dy * self.area.width <= 0xffff * 0xffff) by (nonlinear_arith)
                requires
                    dy <= 0xffff,
                    self.area.width <= 0xffff,
            ;
            let at: usize = dy * self.area.width as usize + dx;
            if at < self.cells.len() {
                assert(self@.cells[at as int] == self.cells@[at as int]@);
                out.append(self.cells[at].as_str());
                return ;
            }
        }
        assert(out@ + Seq::empty() =~= out@);
    }

    /// What is selected in row `y`.
    fn selected_row(&self, start: (u16, u16), end: (u16, u16), y: u16) -> (r: String)
        ensures
            r@ == self@.selected_in(start, end, y as int),
    {
        let (from, to) = selected_columns(&self.area, start, end, y);
        let mut line = String::new();
        let mut x: u32 = from as u32;
        assert(line@ =~= self@.symbols(y as int, from as int, from as int));
        while x <= to as u32
            invariant
                from <= x <= 0x1_0000,
                x <= from || x <= to + 1,
                line@ == self@.symbols(y as int, from as int, x as int),
            decreases 0x1_0000 - x,
        {
            self.push_symbol(&mut line, x as u16, y);
            x += 1;
        }
        assert(line@ == self@.symbols(y as int, from as int, to as int + 1));
        let gutter: u16 = self.area.x.saturating_add(CONTENT_GUTTER);
        let count: u16 = gutter.saturating_sub(from);
        let chars = to_chars(line.as_str());
        let at = skip_spaces(&chars, count);
        let end = trimmed_end(&chars, at, chars.len());
        assert(chars@.subrange(at as int, chars@.len() as int) =~= chars@.skip(at as int));
        slice_text(&chars, at, end)
    }
}

/// The selected text.
pub fn selected_text(screen: &Screen, start: (u16, u16), end: (u16, u16)) -> (r: String)
    ensures
        r@ == screen@.selected(start, end),
{
    if screen.area.width == 0 || screen.area.height == 0 {
        let r = String::new();
        assert(r@ =~= Seq::empty());
        return r;
    }
    let (from, to) = selection_bounds(start, end);
    let last: u16 = screen.area.bottom_end().saturating_sub(1);
    let stop: u16 = if to.1 < last {
        to.1
    } else {
        last
    };
    let mut lines: Vec<String> = Vec::new();
    let mut y: u32 = from.1 as u32;
    assert(text::texts(lines@) =~= screen@.selected_lines(from, to, y as int));
    while y <= stop as u32
        invariant
            from.1 <= y <= 0x1_0000,
            y <= from.1 || y <= stop + 1,
            text::texts(lines@) == screen@.selected_lines(from, to, y as int),
        decreases 0x1_0000 - y,
    {
        let ghost earlier = text::texts(lines@);
        let line = screen.selected_row(from, to, y as u16);
        lines.push(line);
        assert(text::texts(lines@) =~= earlier.push(line@));
        y += 1;
    }
    assert(text::texts(lines@) == screen@.selected_lines(from, to, stop as int + 1));
    right_trimmed(join_texts(&lines, "\n").as_str())
}

// ---------- Laws ----------

/// The symbols at `positions`, one after the other.
pub open spec fn symbols_at(screen: ScreenModel, positions: Seq<(u16, u16)>) -> Seq<Seq<char>> {
    Seq::new(
        positions.len(),
        |i: int| screen.symbol(positions[i].0 as int, positions[i].1 as int),
    )
}

proof fn lemma_symbols_add(screen: ScreenModel, a: Seq<(u16, u16)>, b: Seq<(u16, u16)>)
    ensures
        symbols_at(screen, a + b) == symbols_at(screen, a) + symbols_at(screen, b),
{
    assert(symbols_at(screen, a + b) =~= symbols_at(screen, a) + symbols_at(screen, b));
}

proof fn lemma_row_is_solid(screen: ScreenModel, y: int, from: int, to: int)
    requires
        0 <= from,
        to <= u16::MAX + 1,
        0 <= y <= u16::MAX,
    ensures
        text::all_solid(symbols_at(screen, row_cells(screen.area, y, from, to))) == text::solid(
            screen.symbols(y, from, to),
        ),
    decreases to - from,
{
    if to <= from {
        assert(symbols_at(screen, row_cells(screen.area, y, from, to)) =~= Seq::empty());
    } else {
        lemma_row_is_solid(screen, y, from, to - 1);
        let cells = row_cells(screen.area, y, from, to - 1);
        let symbol = screen.symbol(to - 1, y);
        text::lemma_solid_add(screen.symbols(y, from, to - 1), symbol);
        if screen.area.holds((to - 1) as u16, y as u16) {
            let all = symbols_at(screen, row_cells(screen.area, y, from, to));
            assert(all.drop_last() =~= symbols_at(screen, cells));
            assert(all.last() == symbol);
        } else {
            assert(symbol =~= Seq::empty());
            assert(text::solid(screen.symbols(y, from, to - 1)) + text::solid(symbol) =~= text::solid(
                screen.symbols(y, from, to - 1),
            ));
        }
    }
}

proof fn lemma_without_spaces_is_solid(s: Seq<char>, count: nat)
    ensures
        text::solid(without_spaces(s, count)) == text::solid(s),
    decreases count,
{
    if !(count == 0 || s.len() == 0 || s[0] != ' ') {
        lemma_without_spaces_is_solid(s.drop_first(), (count - 1) as nat);
        assert(s =~= seq![s[0]] + s.drop_first());
        text::lemma_solid_add(seq![s[0]], s.drop_first());
        text::lemma_solid_one(s[0]);
        assert(Seq::<char>::empty() + text::solid(s.drop_first()) =~= text::solid(s.drop_first()));
    }
}

proof fn lemma_lines_are_solid(
    screen: ScreenModel,
    start: (u16, u16),
    end: (u16, u16),
    stop: int,
)
    requires
        stop <= u16::MAX + 1,
    ensures
        text::all_solid(screen.selected_lines(start, end, stop)) == text::all_solid(
            symbols_at(screen, selected_cells(screen.area, start, end, stop)),
        ),
    decreases stop - start.1,
{
    if stop <= start.1 {
        assert(symbols_at(screen, selected_cells(screen.area, start, end, stop))
            =~= Seq::empty());
    } else {
        let y = stop - 1;
        lemma_lines_are_solid(screen, start, end, y);
        let from = first_selected(screen.area, start, y);
        let to = last_selected(screen.area, end, y) + 1;
        let above = selected_cells(screen.area, start, end, y);
        let row = row_cells(screen.area, y, from, to);
        lemma_symbols_add(screen, above, row);
        text::lemma_all_solid_add(symbols_at(screen, above), symbols_at(screen, row));
        lemma_row_is_solid(screen, y, from, to);
        let lines = screen.selected_lines(start, end, stop);
        assert(lines.drop_last() =~= screen.selected_lines(start, end, y));
        let line = screen.symbols(y, from, to);
        let gutter = capped(screen.area.x + CONTENT_GUTTER);
        let count = if from < gutter {
            (gutter - from) as nat
        } else {
            0
        };
        lemma_without_spaces_is_solid(line, count);
        text::trimming_takes_white_space_alone(without_spaces(line, count));
    }
}

/// What is copied of a selection is what is highlighted: the symbols at the highlighted
/// positions, in reading order, but for white space.
pub proof fn what_is_highlighted_is_copied(
    screen: ScreenModel,
    start: (u16, u16),
    end: (u16, u16),
)
    ensures
        text::solid(screen.selected(start, end)) == text::all_solid(
            symbols_at(screen, selection_cells(screen.area, start, end)),
        ),
{
    if screen.area.is_empty() {
        assert(symbols_at(screen, selection_cells(screen.area, start, end)) =~= Seq::empty());
    } else {
        reveal_strlit("\n");
        let (from, to) = bounds(start, end);
        let stop = stop_row(screen.area, to.1);
        let lines = screen.selected_lines(from, to, stop);
        lemma_lines_are_solid(screen, from, to, stop);
        text::lemma_solid_join(lines, "\n"@);
        text::trimming_takes_white_space_alone(text::join(lines, "\n"@));
    }
}

/// A selection takes in what stands between its ends in reading order, and nothing else of the
/// area.
pub proof fn selections_run_in_reading_order(
    area: Rect,
    start: (u16, u16),
    end: (u16, u16),
    x: u16,
    y: u16,
)
    requires
        area.holds(x, y),
        area.holds(start.0, start.1) && area.holds(end.0, end.1),
        area.x + area.width <= u16::MAX && area.y + area.height <= u16::MAX,
    ensures
        selection_cells(area, start, end).contains((x, y)) <==> (reads_before(start, (x, y))
            && reads_before((x, y), end)) || (reads_before(end, (x, y)) && reads_before(
            (x, y),
            start,
        )),
{
    highlighting_marks_what_is_selected(area, start, end, x, y);
}

/// The symbols of a screen stand row by row: the next column is the next symbol, and the next
/// row is as many symbols on as the screen has columns.
pub proof fn symbols_stand_row_by_row(screen: ScreenModel, x: int, y: int)
    requires
        screen.area.x + screen.area.width <= u16::MAX,
        screen.area.y + screen.area.height <= u16::MAX,
        screen.cells.len() == screen.area.width * screen.area.height,
        screen.area.x <= x < screen.area.x + screen.area.width,
        screen.area.y <= y < screen.area.y + screen.area.height,
    ensures
        exists|k: int| #![trigger screen.cells[k]]
            0 <= k < screen.cells.len() && k == (y - screen.area.y) * screen.area.width + (x
                - screen.area.x) && screen.symbol(x, y) == screen.cells[k],
{
    let dy = y - screen.area.y;
    let dx = x - screen.area.x;
    let w = screen.area.width as int;
    let h = screen.area.height as int;
    let k = dy * w + dx;
    assert(0 <= k < w * h) by (nonlinear_arith)
        requires
            0 <= dy < h,
            0 <= dx < w,
            k == dy * w + dx,
    ;
    assert(screen.symbol(x, y) == screen.cells[k]);
}

/// What is selected in a row is what stands there from the first to the last selected column,
/// without white space at its end; only spaces that stand in the gutter are left out at its
/// start.
pub proof fn only_the_gutter_is_left_out(
    screen: ScreenModel,
    start: (u16, u16),
    end: (u16, u16),
    y: int,
)
    requires
        screen.area.x + CONTENT_GUTTER <= u16::MAX,
    ensures
        ({
            let from = first_selected(screen.area, start, y);
            let to = last_selected(screen.area, end, y);
            let row = screen.symbols(y, from, to + 1);
            &&& from >= screen.area.x + CONTENT_GUTTER ==> screen.selected_in(start, end, y)
                == text::trim_end(row)
            &&& row.len() > 0 && row[0] != ' ' ==> screen.selected_in(start, end, y) == text::trim_end(
                row,
            )
            &&& from == screen.area.x && row.len() > 3 && row[0] == ' ' && row[1] == ' ' && row[2]
                == ' ' ==> screen.selected_in(start, end, y) == text::trim_end(row.skip(3))
        }),
{
    let from = first_selected(screen.area, start, y);
    let row = screen.symbols(y, from, last_selected(screen.area, end, y) + 1);
    if from == screen.area.x && row.len() > 3 && row[0] == ' ' && row[1] == ' ' && row[2] == ' ' {
        reveal_with_fuel(without_spaces, 4);
        let a = row.drop_first();
        let b = a.drop_first();
        assert(a[0] == row[1]);
        assert(b[0] == row[2]);
        assert(b.drop_first() =~= row.skip(3));
    }
}

/// In a row that the selection starts in, it starts there, and in every other row of it at the
/// start of the area; it ends likewise.
pub proof fn rows_are_selected_from_end_to_end(
    area: Rect,
    start: (u16, u16),
    end: (u16, u16),
    y: int,
)
    requires
        area.holds(start.0, start.1) && area.holds(end.0, end.1),
        area.x + area.width <= u16::MAX,
    ensures
        y == start.1 ==> first_selected(area, start, y) == start.0,
        y != start.1 ==> first_selected(area, start, y) == area.x,
        y == end.1 ==> last_selected(area, end, y) == end.0,
        y != end.1 ==> last_selected(area, end, y) == area.x + area.width - 1,
{
}

} // verus!
