//! Lines of text from the glyphs of a page.
//!
//! Glyphs become cells, and cells are merged with their neighbours in three passes: from left to
//! right, from right to left, and from left to right once more, then also against the order. A
//! merge puts at most one space between two texts.
//!
//! Where glyphs lie on the page is not known here. A cell names the glyph at its left edge and the
//! glyph at its right edge, and whoever calls answers questions about the distances between them.

use vstd::prelude::*;

use crate::text::same_text;

verus! {

/// A glyph: its character, its font, and whether its box has a place on the page and is narrow
/// enough to be none. Font zero is no font.
#[derive(Clone, Copy, PartialEq, Eq, Structural, Debug)]
pub struct Glyph {
    pub ch: char,
    pub font: u64,
    pub placed: bool,
    pub narrow: bool,
}

/// The glyphs whose boxes are the left and the right end of a cell.
#[derive(Clone, Copy, PartialEq, Eq, Structural, Debug)]
pub struct Span {
    pub first: usize,
    pub last: usize,
}

/// A question about two cells, one of which may follow the other.
///
/// The width of a character is that of `measured`, which has `chars` characters. The gap is the
/// one between the right end of `from` and the left end of `to`; `relaxed` allows for a larger one
/// between the upper corners.
#[derive(Clone, Copy, PartialEq, Eq, Structural, Debug)]
pub struct Question {
    pub measured: Span,
    pub chars: usize,
    pub from: Span,
    pub to: Span,
    pub relaxed: bool,
}

/// Whether the gap is small enough for a merge, and wide enough for a space.
#[derive(Clone, Copy, PartialEq, Eq, Structural, Debug)]
pub struct Answer {
    pub adjacent: bool,
    pub wide: bool,
}

/// A piece of a line: its text and its ends.
pub struct LineCell {
    pub text: String,
    pub span: Span,
}

/// A cell that may still be merged with others.
pub struct Cell {
    pub text: String,
    pub span: Span,
    pub ltr: bool,
    pub active: bool,
    pub lig_carry: bool,
    pub font: u64,
}

/// The mathematical form of [`Cell`].
#[verifier::ext_equal]
pub struct CellView {
    pub text: Seq<char>,
    pub span: Span,
    pub ltr: bool,
    pub active: bool,
    pub lig_carry: bool,
    pub font: u64,
}

impl View for Cell {
    type V = CellView;

    open spec fn view(&self) -> CellView {
        CellView {
            text: self.text@,
            span: self.span,
            ltr: self.ltr,
            active: self.active,
            lig_carry: self.lig_carry,
            font: self.font,
        }
    }
}

/// The mathematical forms of a list of cells.
pub open spec fn cells_view(cells: Seq<Cell>) -> Seq<CellView> {
    cells.map_values(|c: Cell| c@)
}

/// The contents of a list of pieces of lines.
pub open spec fn pieces_view(pieces: Seq<LineCell>) -> Seq<(Seq<char>, Span)> {
    pieces.map_values(|p: LineCell| (p.text@, p.span))
}

// ---------------------------------------------------------------- scripts and ligatures

/// Whether a character belongs to a script that is written from right to left.
pub open spec fn rtl_char(c: char) -> bool {
    ||| 0x0590 <= c as u32 <= 0x07FF
    ||| 0x08A0 <= c as u32 <= 0x08FF
    ||| 0xFB1D <= c as u32 <= 0xFDFF
    ||| 0xFE70 <= c as u32 <= 0xFEFF
}

/// Whether a text is written from right to left: it has characters, and all are of such a script.
pub open spec fn right_to_left(s: Seq<char>) -> bool {
    s.len() > 0 && forall|k: int| 0 <= k < s.len() ==> rtl_char(#[trigger] s[k])
}

/// The punctuation marks and spaces that are told one by one.
pub open spec fn common_mark(c: char) -> bool {
    ||| c == ' '
    ||| c == '\t'
    ||| c == '\n'
    ||| c == '\r'
    ||| c == '\u{c}'
    ||| c == '\u{b}'
    ||| c == '.'
    ||| c == ','
    ||| c == ';'
    ||| c == ':'
    ||| c == '!'
    ||| c == '?'
    ||| c == '('
    ||| c == ')'
    ||| c == '['
    ||| c == ']'
    ||| c == '{'
    ||| c == '}'
    ||| c == '\''
    ||| c == '"'
    ||| c == '`'
    ||| c == '\u{2018}'
    ||| c == '\u{2019}'
    ||| c == '\u{201c}'
    ||| c == '\u{201d}'
    ||| c == '-'
    ||| c == '\u{2013}'
    ||| c == '\u{2014}'
    ||| c == '_'
    ||| c == '/'
    ||| c == '\\'
    ||| c == '|'
    ||| c == '@'
    ||| c == '#'
    ||| c == '%'
    ||| c == '&'
    ||| c == '*'
    ||| c == '+'
    ||| c == '='
    ||| c == '<'
    ||| c == '>'
}

/// Whether a character is punctuation or a space.
pub open spec fn mark_char(c: char) -> bool {
    ||| common_mark(c)
    ||| 0x2000 <= c as u32 <= 0x206F
    ||| 0x3000 <= c as u32 <= 0x303F
    ||| 0xFE50 <= c as u32 <= 0xFE6F
    ||| 0xFF00 <= c as u32 <= 0xFF0F
    ||| 0xFF1A <= c as u32 <= 0xFF1F
    ||| 0xFF3B <= c as u32 <= 0xFF5E
}

/// Whether a text is a single character of punctuation or space.
pub open spec fn single_mark(s: Seq<char>) -> bool {
    s.len() == 1 && mark_char(s[0])
}

/// Whether a text is a ligature: spelled out, or with a character that is one.
pub open spec fn ligature(s: Seq<char>) -> bool {
    ||| s == "ff"@
    ||| s == "fi"@
    ||| s == "fl"@
    ||| s == "ffi"@
    ||| s == "ffl"@
    ||| exists|k: int| 0 <= k < s.len() && 0xFB00 <= (#[trigger] s[k]) as u32 <= 0xFB06
}

/// Whether a character belongs to a script that is written from right to left.
pub fn is_rtl_char(c: char) -> (yes: bool)
    ensures
        yes == rtl_char(c),
{
    let ch = c as u32;
    (0x0590 <= ch && ch <= 0x07FF) || (0x08A0 <= ch && ch <= 0x08FF) || (0xFB1D <= ch && ch
        <= 0xFDFF) || (0xFE70 <= ch && ch <= 0xFEFF)
}

/// Whether a text has characters, and all are of a script that is written from right to left.
pub fn is_right_to_left(s: &str) -> (yes: bool)
    ensures
        yes == right_to_left(s@),
{
    let mut all = true;
    for c in it: s.chars()
        invariant
            it.seq() == s@,
            all == forall|k: int| 0 <= k < it.index() ==> rtl_char(#[trigger] s@[k]),
    {
        if !is_rtl_char(c) {
            assert(!rtl_char(s@[it.index() as int]));
            all = false;
        }
    }
    all && !s.is_empty()
}

/// Whether a character is one of the marks that are told one by one.
fn is_common_mark(c: char) -> (yes: bool)
    ensures
        yes == common_mark(c),
{
    c == ' ' || c == '\t' || c == '\n' || c == '\r' || c == '\u{c}' || c == '\u{b}' || c == '.'
        || c == ',' || c == ';' || c == ':' || c == '!' || c == '?' || c == '(' || c == ')'
        || c == '[' || c == ']' || c == '{' || c == '}' || c == '\'' || c == '"' || c == '`'
        || c == '\u{2018}' || c == '\u{2019}' || c == '\u{201c}' || c == '\u{201d}' || c == '-'
        || c == '\u{2013}' || c == '\u{2014}' || c == '_' || c == '/' || c == '\\' || c == '|'
        || c == '@' || c == '#' || c == '%' || c == '&' || c == '*' || c == '+' || c == '='
        || c == '<' || c == '>'
}

/// Whether a text is a single character of punctuation or space.
pub fn is_punct_or_space(s: &str) -> (yes: bool)
    ensures
        yes == single_mark(s@),
{
    if s.unicode_len() != 1 {
        return false;
    }
    let c = s.get_char(0);
    let ch = c as u32;
    if (0x2000 <= ch && ch <= 0x206F) || (0x3000 <= ch && ch <= 0x303F) || (0xFE50 <= ch && ch
        <= 0xFE6F) || (0xFF00 <= ch && ch <= 0xFF0F) || (0xFF1A <= ch && ch <= 0xFF1F) || (0xFF3B
        <= ch && ch <= 0xFF5E) {
        return true;
    }
    is_common_mark(c)
}

/// Whether a text is a ligature: spelled out, or with a character that is one.
pub fn is_ligature(s: &str) -> (yes: bool)
    ensures
        yes == ligature(s@),
{
    let mut found = same_text(s, "ff") || same_text(s, "fi") || same_text(s, "fl") || same_text(
        s,
        "ffi",
    ) || same_text(s, "ffl");
    let ghost spelled = found;
    for c in it: s.chars()
        invariant
            it.seq() == s@,
            found == (spelled || exists|k: int|
                0 <= k < it.index() && 0xFB00 <= (#[trigger] s@[k]) as u32 <= 0xFB06),
    {
        if 0xFB00 <= c as u32 && c as u32 <= 0xFB06 {
            assert(0xFB00 <= s@[it.index() as int] as u32 <= 0xFB06);
            found = true;
        }
    }
    found
}

// ---------------------------------------------------------------- merging two cells

/// Whether two cells are read in one direction; a single mark goes with either.
pub open spec fn oriented_alike(a: CellView, b: CellView) -> bool {
    a.ltr == b.ltr || single_mark(a.text) || single_mark(b.text)
}

/// Whether two cells may be merged at all: both are active, they are of one font, and they are
/// read in one direction. No font and ligatures go with every font.
pub open spec fn may_merge(a: CellView, b: CellView) -> bool {
    &&& a.active
    &&& b.active
    &&& a.font == 0 || b.font == 0 || a.font == b.font || ligature(a.text) || ligature(b.text)
    &&& oriented_alike(a, b)
}

/// A cell with the one to its right merged into it, which may need a space between the texts.
/// Where one of them is read from right to left, the other's text comes first.
pub open spec fn merged(a: CellView, b: CellView, wide: bool) -> CellView {
    let gap = if wide {
        seq![' ']
    } else {
        Seq::empty()
    };
    CellView {
        text: if a.ltr && b.ltr {
            a.text + gap + b.text
        } else {
            b.text + gap + a.text
        },
        span: Span { first: a.span.first, last: b.span.last },
        ltr: a.ltr && b.ltr,
        ..a
    }
}

/// A cell with another one absorbed, which it remembers where that was a ligature.
pub open spec fn absorbed(a: CellView, b: CellView, wide: bool) -> CellView {
    CellView { lig_carry: ligature(b.text), ..merged(a, b, wide) }
}

/// A cell that has been merged into another one.
pub open spec fn retired(c: CellView) -> CellView {
    CellView { active: false, ..c }
}

/// Whether a cell is a ligature or ends in one.
pub open spec fn ligated(c: CellView) -> bool {
    ligature(c.text) || c.lig_carry
}

/// The question whether `to` follows `from`, in the measure of `by`, which is one of the two.
pub open spec fn question(by: CellView, from: CellView, to: CellView) -> Question {
    Question {
        measured: by.span,
        chars: by.text.len() as usize,
        from: from.span,
        to: to.span,
        relaxed: ligated(from) || ligated(to),
    }
}

impl Cell {
    /// The same cell.
    fn copy(&self) -> (cell: Cell)
        ensures
            cell@ == self@,
    {
        Cell {
            text: self.text.clone(),
            span: self.span,
            ltr: self.ltr,
            active: self.active,
            lig_carry: self.lig_carry,
            font: self.font,
        }
    }

    /// Whether two cells are read in one direction; a single mark goes with either.
    pub fn same_orientation(&self, other: &Cell) -> (yes: bool)
        ensures
            yes == oriented_alike(self@, other@),
    {
        self.ltr == other.ltr || is_punct_or_space(self.text.as_str()) || is_punct_or_space(
            other.text.as_str(),
        )
    }

    /// Merges the cell to the right into this one, with a space between the texts where the gap
    /// is wide.
    pub fn merge_with(&mut self, other: &Cell, wide: bool)
        ensures
            final(self)@ == merged(old(self)@, other@, wide),
    {
        let ghost before = self@;
        let in_order = self.ltr && other.ltr;
        let mut text = if in_order {
            self.text.clone()
        } else {
            other.text.clone()
        };
        if wide {
            let ghost left = text@;
            text.push(' ');
            assert(text@ =~= left + seq![' ']);
        } else {
            assert(text@ =~= text@ + Seq::<char>::empty());
        }
        if in_order {
            text.append(other.text.as_str());
        } else {
            text.append(self.text.as_str());
        }
        self.text = text;
        self.ltr = in_order;
        self.span = Span { first: self.span.first, last: other.span.last };
        assert(self@ =~= merged(before, other@, wide));
    }

    /// Whether the cell is a ligature or ends in one.
    fn is_ligated(&self) -> (yes: bool)
        ensures
            yes == ligated(self@),
    {
        is_ligature(self.text.as_str()) || self.lig_carry
    }
}

/// Whether two cells may be merged at all.
pub fn applicable(a: &Cell, b: &Cell) -> (yes: bool)
    ensures
        yes == may_merge(a@, b@),
{
    if !a.active || !b.active {
        return false;
    }
    if a.font != 0 && b.font != 0 && a.font != b.font && !is_ligature(a.text.as_str())
        && !is_ligature(b.text.as_str()) {
        return false;
    }
    a.same_orientation(b)
}

/// The question whether `to` follows `from`, in the measure of `by`.
fn ask(by: &Cell, from: &Cell, to: &Cell) -> (q: Question)
    ensures
        q == question(by@, from@, to@),
{
    Question {
        measured: by.span,
        chars: by.text.as_str().unicode_len(),
        from: from.span,
        to: to.span,
        relaxed: from.is_ligated() || to.is_ligated(),
    }
}

// ---------------------------------------------------------------- the passes

/// The cells once the cell at `i` has absorbed those from `j` on that follow it, one by one. With
/// `reverse`, the cell that ends this may absorb the one at `i` in turn.
pub open spec fn swallowed(
    cells: Seq<CellView>,
    i: int,
    j: int,
    reverse: bool,
    geo: spec_fn(Question) -> Answer,
) -> Seq<CellView>
    decreases cells.len() - j,
{
    if !(0 <= i < j < cells.len()) || !may_merge(cells[i], cells[j]) {
        cells
    } else {
        let onward = geo(question(cells[i], cells[i], cells[j]));
        let back = geo(question(cells[i], cells[j], cells[i]));
        if onward.adjacent {
            swallowed(
                cells.update(i, absorbed(cells[i], cells[j], onward.wide)).update(
                    j,
                    retired(cells[j]),
                ),
                i,
                j + 1,
                reverse,
                geo,
            )
        } else if reverse && back.adjacent {
            cells.update(j, absorbed(cells[j], cells[i], back.wide)).update(i, retired(cells[i]))
        } else {
            cells
        }
    }
}

/// The cells once each of the first `n`, from left to right, has absorbed what follows it.
pub open spec fn ltr_pass(
    cells: Seq<CellView>,
    n: int,
    reverse: bool,
    geo: spec_fn(Question) -> Answer,
) -> Seq<CellView>
    decreases n,
{
    if n <= 0 {
        cells
    } else {
        let before = ltr_pass(cells, n - 1, reverse, geo);
        if before[n - 1].active {
            swallowed(before, n - 1, n, reverse, geo)
        } else {
            before
        }
    }
}

/// The cells once the one at `i` has been absorbed by the one to its left, where it follows that.
pub open spec fn drawn_left(
    cells: Seq<CellView>,
    i: int,
    geo: spec_fn(Question) -> Answer,
) -> Seq<CellView> {
    if !(0 < i < cells.len()) || !may_merge(cells[i], cells[i - 1]) {
        cells
    } else {
        let back = geo(question(cells[i], cells[i - 1], cells[i]));
        if back.adjacent {
            cells.update(i - 1, absorbed(cells[i - 1], cells[i], back.wide)).update(
                i,
                retired(cells[i]),
            )
        } else {
            cells
        }
    }
}

/// The cells once the last `n`, from right to left, have been absorbed where they follow the cell
/// to their left.
pub open spec fn rtl_pass(
    cells: Seq<CellView>,
    n: int,
    geo: spec_fn(Question) -> Answer,
) -> Seq<CellView>
    decreases n,
{
    if n <= 0 {
        cells
    } else {
        drawn_left(rtl_pass(cells, n - 1, geo), cells.len() - n, geo)
    }
}

/// The cells that are still active.
pub open spec fn active_cells(cells: Seq<CellView>) -> Seq<CellView>
    decreases cells.len(),
{
    if cells.len() == 0 {
        Seq::empty()
    } else if cells.last().active {
        active_cells(cells.drop_last()).push(cells.last())
    } else {
        active_cells(cells.drop_last())
    }
}

/// The cells after one pass from left to right.
pub open spec fn after_ltr(
    cells: Seq<CellView>,
    reverse: bool,
    geo: spec_fn(Question) -> Answer,
) -> Seq<CellView> {
    active_cells(ltr_pass(cells, cells.len() as int, reverse, geo))
}

/// The cells after one pass from right to left.
pub open spec fn after_rtl(cells: Seq<CellView>, geo: spec_fn(Question) -> Answer) -> Seq<
    CellView,
> {
    active_cells(rtl_pass(cells, cells.len() as int, geo))
}

/// The cells after the three passes.
pub open spec fn contracted(cells: Seq<CellView>, geo: spec_fn(Question) -> Answer) -> Seq<
    CellView,
> {
    after_ltr(after_rtl(after_ltr(cells, false, geo), geo), true, geo)
}

/// The answers that a function gives.
pub open spec fn answers<F: Fn(Question) -> Answer>(f: F) -> spec_fn(Question) -> Answer {
    |q: Question| choose|a: Answer| call_ensures(f, (q,), a)
}

/// Whether both ends of a cell are glyphs of a set.
pub open spec fn span_in(span: Span, known: Set<usize>) -> bool {
    known.contains(span.first) && known.contains(span.last)
}

/// Whether a question is about glyphs of a set alone.
pub open spec fn asks_about(q: Question, known: Set<usize>) -> bool {
    span_in(q.measured, known) && span_in(q.from, known) && span_in(q.to, known)
}

/// Whether a function answers every question about glyphs of a set, and the same question always
/// alike.
pub open spec fn answers_about<F: Fn(Question) -> Answer>(f: F, known: Set<usize>) -> bool {
    &&& forall|q: Question| asks_about(q, known) ==> #[trigger] call_requires(f, (q,))
    &&& forall|q: Question, a: Answer, b: Answer|
        asks_about(q, known) && #[trigger] call_ensures(f, (q,), a) && #[trigger] call_ensures(
            f,
            (q,),
            b,
        ) ==> a == b
}

/// Whether the ends of all cells are glyphs of a set.
pub open spec fn ends_in(cells: Seq<CellView>, known: Set<usize>) -> bool {
    forall|k: int| 0 <= k < cells.len() ==> span_in((#[trigger] cells[k]).span, known)
}

/// The glyphs at the ends of cells.
pub open spec fn ends_of(cells: Seq<CellView>) -> Set<usize> {
    Set::new(
        |e: usize|
            exists|k: int|
                0 <= k < cells.len() && ((#[trigger] cells[k]).span.first == e
                    || cells[k].span.last == e),
    )
}

proof fn lemma_ends_of(cells: Seq<CellView>, known: Set<usize>)
    ensures
        ends_in(cells, ends_of(cells)),
        ends_in(cells, known) ==> ends_of(cells).subset_of(known),
{
    assert forall|k: int| 0 <= k < cells.len() implies span_in(
        (#[trigger] cells[k]).span,
        ends_of(cells),
    ) by {
        assert(ends_of(cells).contains(cells[k].span.first));
        assert(ends_of(cells).contains(cells[k].span.last));
    }
}

/// Merging two cells brings no other glyph to an end.
pub proof fn lemma_merge_ends(
    cells: Seq<CellView>,
    i: int,
    j: int,
    wide: bool,
    known: Set<usize>,
)
    requires
        ends_in(cells, known),
        0 <= i < cells.len(),
        0 <= j < cells.len(),
    ensures
        ends_in(
            cells.update(i, absorbed(cells[i], cells[j], wide)).update(j, retired(cells[j])),
            known,
        ),
{
    let after = cells.update(i, absorbed(cells[i], cells[j], wide)).update(j, retired(cells[j]));
    assert(span_in(cells[i].span, known) && span_in(cells[j].span, known));
    assert forall|k: int| 0 <= k < after.len() implies span_in(
        (#[trigger] after[k]).span,
        known,
    ) by {
        assert(span_in(cells[k].span, known));
    }
}

/// Leaving cells out brings no other glyph to an end.
pub proof fn lemma_active_ends(cells: Seq<CellView>, known: Set<usize>)
    requires
        ends_in(cells, known),
    ensures
        ends_in(active_cells(cells), known),
    decreases cells.len(),
{
    if cells.len() > 0 {
        let fewer = cells.drop_last();
        assert forall|k: int| 0 <= k < fewer.len() implies span_in(
            (#[trigger] fewer[k]).span,
            known,
        ) by {
            assert(span_in(cells[k].span, known));
        }
        lemma_active_ends(fewer, known);
        assert(span_in(cells[cells.len() - 1].span, known));
    }
}

proof fn lemma_swallowed_len(
    cells: Seq<CellView>,
    i: int,
    j: int,
    reverse: bool,
    geo: spec_fn(Question) -> Answer,
)
    ensures
        swallowed(cells, i, j, reverse, geo).len() == cells.len(),
    decreases cells.len() - j,
{
    if 0 <= i < j < cells.len() && may_merge(cells[i], cells[j]) {
        let onward = geo(question(cells[i], cells[i], cells[j]));
        if onward.adjacent {
            lemma_swallowed_len(
                cells.update(i, absorbed(cells[i], cells[j], onward.wide)).update(
                    j,
                    retired(cells[j]),
                ),
                i,
                j + 1,
                reverse,
                geo,
            );
        }
    }
}

pub proof fn lemma_ltr_len(
    cells: Seq<CellView>,
    n: int,
    reverse: bool,
    geo: spec_fn(Question) -> Answer,
)
    ensures
        ltr_pass(cells, n, reverse, geo).len() == cells.len(),
    decreases n,
{
    if n > 0 {
        lemma_ltr_len(cells, n - 1, reverse, geo);
        lemma_swallowed_len(ltr_pass(cells, n - 1, reverse, geo), n - 1, n, reverse, geo);
    }
}

pub proof fn lemma_rtl_len(cells: Seq<CellView>, n: int, geo: spec_fn(Question) -> Answer)
    ensures
        rtl_pass(cells, n, geo).len() == cells.len(),
    decreases n,
{
    if n > 0 {
        lemma_rtl_len(cells, n - 1, geo);
    }
}

/// Lets the cell at `at` absorb the one at `gone`.
fn absorb(cells: &mut Vec<Cell>, at: usize, gone: usize, wide: bool)
    requires
        at < old(cells)@.len(),
        gone < old(cells)@.len(),
        at != gone,
    ensures
        final(cells)@.len() == old(cells)@.len(),
        cells_view(final(cells)@) == cells_view(old(cells)@).update(
            at as int,
            absorbed(old(cells)@[at as int]@, old(cells)@[gone as int]@, wide),
        ).update(gone as int, retired(old(cells)@[gone as int]@)),
{
    let ghost before = cells_view(cells@);
    let mut other = cells[gone].copy();
    let mut cell = cells[at].copy();
    cell.merge_with(&other, wide);
    cell.lig_carry = is_ligature(other.text.as_str());
    other.active = false;
    assert(cell@ =~= absorbed(before[at as int], before[gone as int], wide));
    assert(other@ =~= retired(before[gone as int]));
    cells.set(at, cell);
    cells.set(gone, other);
    assert(cells_view(cells@) =~= before.update(at as int, cell@).update(gone as int, other@));
}

/// Passes over the cells from left to right: each absorbs those that follow it, one by one. With
/// `allow_reverse`, the cell that ends this may absorb it in turn.
pub fn pass_ltr<F: Fn(Question) -> Answer>(cells: &mut Vec<Cell>, allow_reverse: bool, answer: &F)
    requires
        answers_about(*answer, ends_of(cells_view(old(cells)@))),
    ensures
        ends_in(cells_view(final(cells)@), ends_of(cells_view(old(cells)@))),
        cells_view(final(cells)@) == ltr_pass(
            cells_view(old(cells)@),
            old(cells)@.len() as int,
            allow_reverse,
            answers(*answer),
        ),
{
    let ghost all = cells_view(cells@);
    let ghost geo = answers(*answer);
    let ghost known = ends_of(all);
    proof {
        lemma_ends_of(all, known);
    }
    let n = cells.len();
    let mut i: usize = 0;
    while i < n
        invariant
            answers_about(*answer, known),
            ends_in(cells_view(cells@), known),
            geo == answers(*answer),
            i <= n,
            all.len() == n,
            cells@.len() == n,
            cells_view(cells@) == ltr_pass(all, i as int, allow_reverse, geo),
        decreases n - i,
    {
        let ghost begun = cells_view(cells@);
        proof {
            lemma_ltr_len(all, i as int + 1, allow_reverse, geo);
        }
        if cells[i].active {
            let ghost goal = swallowed(begun, i as int, i as int + 1, allow_reverse, geo);
            let mut j: usize = i + 1;
            let mut going = true;
            while going && j < n
                invariant
                    answers_about(*answer, known),
                    ends_in(cells_view(cells@), known),
                    geo == answers(*answer),
                    i < j <= n,
                    cells@.len() == n,
                    going ==> swallowed(
                        cells_view(cells@),
                        i as int,
                        j as int,
                        allow_reverse,
                        geo,
                    ) == goal,
                    !going ==> cells_view(cells@) == goal,
                decreases n - j + (if going {
                        1int
                    } else {
                        0
                    }),
            {
                let ghost now = cells_view(cells@);
                if !applicable(&cells[i], &cells[j]) {
                    going = false;
                } else {
                    assert(span_in(now[i as int].span, known));
                    assert(span_in(now[j as int].span, known));
                    let onward = answer(ask(&cells[i], &cells[i], &cells[j]));
                    assert(onward == geo(question(now[i as int], now[i as int], now[j as int])));
                    if onward.adjacent {
                        proof {
                            lemma_merge_ends(now, i as int, j as int, onward.wide, known);
                        }
                        absorb(cells, i, j, onward.wide);
                        j += 1;
                    } else {
                        going = false;
                        if allow_reverse {
                            let back = answer(ask(&cells[i], &cells[j], &cells[i]));
                            assert(back == geo(
                                question(now[i as int], now[j as int], now[i as int]),
                            ));
                            if back.adjacent {
                                proof {
                                    lemma_merge_ends(now, j as int, i as int, back.wide, known);
                                }
                                absorb(cells, j, i, back.wide);
                            }
                        }
                    }
                }
            }
        }
        i += 1;
    }
}

/// Passes over the cells from right to left: each is absorbed by the one to its left where it
/// follows that.
pub fn pass_rtl<F: Fn(Question) -> Answer>(cells: &mut Vec<Cell>, answer: &F)
    requires
        answers_about(*answer, ends_of(cells_view(old(cells)@))),
    ensures
        ends_in(cells_view(final(cells)@), ends_of(cells_view(old(cells)@))),
        cells_view(final(cells)@) == rtl_pass(
            cells_view(old(cells)@),
            old(cells)@.len() as int,
            answers(*answer),
        ),
{
    let ghost all = cells_view(cells@);
    let ghost geo = answers(*answer);
    let ghost known = ends_of(all);
    proof {
        lemma_ends_of(all, known);
    }
    let n = cells.len();
    let mut k: usize = 0;
    while k < n
        invariant
            answers_about(*answer, known),
            ends_in(cells_view(cells@), known),
            geo == answers(*answer),
            k <= n,
            all.len() == n,
            cells@.len() == n,
            cells_view(cells@) == rtl_pass(all, k as int, geo),
        decreases n - k,
    {
        let i = n - 1 - k;
        let ghost now = cells_view(cells@);
        proof {
            lemma_rtl_len(all, k as int + 1, geo);
        }
        if i > 0 && applicable(&cells[i], &cells[i - 1]) {
            assert(span_in(now[i as int].span, known) && span_in(now[i as int - 1].span, known));
            let back = answer(ask(&cells[i], &cells[i - 1], &cells[i]));
            assert(back == geo(question(now[i as int], now[i as int - 1], now[i as int])));
            if back.adjacent {
                proof {
                    lemma_merge_ends(now, i as int - 1, i as int, back.wide, known);
                }
                absorb(cells, i - 1, i, back.wide);
            }
        }
        k += 1;
    }
}

/// The cells that are still active.
fn retain_active(cells: &Vec<Cell>) -> (kept: Vec<Cell>)
    ensures
        cells_view(kept@) == active_cells(cells_view(cells@)),
{
    let ghost all = cells_view(cells@);
    let mut kept: Vec<Cell> = Vec::new();
    let mut i: usize = 0;
    assert(cells_view(kept@) =~= Seq::empty());
    while i < cells.len()
        invariant
            i <= cells@.len(),
            all == cells_view(cells@),
            cells_view(kept@) == active_cells(all.take(i as int)),
        decreases cells@.len() - i,
    {
        assert(all.take(i as int + 1).drop_last() =~= all.take(i as int));
        assert(all.take(i as int + 1).last() == cells@[i as int]@);
        if cells[i].active {
            let ghost before = cells_view(kept@);
            let cell = cells[i].copy();
            kept.push(cell);
            assert(cells_view(kept@) =~= before.push(cell@));
        }
        i += 1;
    }
    assert(all.take(i as int) =~= all);
    kept
}

/// Merges cells in three passes, and keeps those that were merged into no other. Questions are
/// asked about the glyphs at the ends of the given cells alone.
pub fn contract<F: Fn(Question) -> Answer>(cells: &mut Vec<Cell>, answer: &F)
    requires
        answers_about(*answer, ends_of(cells_view(old(cells)@))),
    ensures
        cells_view(final(cells)@) == contracted(cells_view(old(cells)@), answers(*answer)),
        ends_in(cells_view(final(cells)@), ends_of(cells_view(old(cells)@))),
{
    let ghost known = ends_of(cells_view(cells@));
    pass_ltr(cells, false, answer);
    proof {
        lemma_active_ends(cells_view(cells@), known);
    }
    *cells = retain_active(cells);
    proof {
        lemma_ends_of(cells_view(cells@), known);
    }
    let ghost second = ends_of(cells_view(cells@));
    pass_rtl(cells, answer);
    proof {
        lemma_ends_within(cells_view(cells@), second, known);
        lemma_active_ends(cells_view(cells@), known);
    }
    *cells = retain_active(cells);
    proof {
        lemma_ends_of(cells_view(cells@), known);
    }
    let ghost third = ends_of(cells_view(cells@));
    pass_ltr(cells, true, answer);
    proof {
        lemma_ends_within(cells_view(cells@), third, known);
        lemma_active_ends(cells_view(cells@), known);
    }
    *cells = retain_active(cells);
}

proof fn lemma_ends_within(cells: Seq<CellView>, few: Set<usize>, many: Set<usize>)
    requires
        ends_in(cells, few),
        few.subset_of(many),
    ensures
        ends_in(cells, many),
{
    assert forall|k: int| 0 <= k < cells.len() implies span_in(
        (#[trigger] cells[k]).span,
        many,
    ) by {
        assert(span_in(cells[k].span, few));
    }
}

// ---------------------------------------------------------------- from glyphs to lines

/// Whether a glyph is shown: it has a place on the page, and is no space that is too narrow to be
/// one.
pub open spec fn shown(g: Glyph) -> bool {
    g.placed && !(g.ch == ' ' && g.narrow)
}

/// A cell of one glyph.
pub open spec fn glyph_cell(g: Glyph, k: int) -> CellView {
    CellView {
        text: seq![g.ch],
        span: Span { first: k as usize, last: k as usize },
        ltr: !right_to_left(seq![g.ch]),
        active: true,
        lig_carry: false,
        font: g.font,
    }
}

/// A cell with one more character.
pub open spec fn extended_cell(c: CellView, ch: char) -> CellView {
    CellView { text: c.text.push(ch), ltr: !right_to_left(c.text.push(ch)), ..c }
}

/// The cells that glyphs become. A glyph in the box of the last cell joins it: a ligature comes as
/// several characters in one box.
pub open spec fn glyph_cells(glyphs: Seq<Glyph>, same: spec_fn(usize, usize) -> bool) -> Seq<
    CellView,
>
    decreases glyphs.len(),
{
    if glyphs.len() == 0 {
        Seq::empty()
    } else {
        let before = glyph_cells(glyphs.drop_last(), same);
        let k = glyphs.len() - 1;
        let g = glyphs.last();
        if !shown(g) {
            before
        } else if before.len() > 0 && same(before.last().span.first, k as usize) {
            before.drop_last().push(extended_cell(before.last(), g.ch))
        } else {
            before.push(glyph_cell(g, k))
        }
    }
}

/// The texts and ends of cells.
pub open spec fn pieces(cells: Seq<CellView>) -> Seq<(Seq<char>, Span)> {
    cells.map_values(|c: CellView| (c.text, c.span))
}

/// What a function says of two glyphs.
pub open spec fn judgements<G: Fn(usize, usize) -> bool>(f: G) -> spec_fn(usize, usize) -> bool {
    |a: usize, b: usize| call_ensures(f, (a, b), true)
}

/// Whether a function judges every two glyphs of a set, and the same two always alike.
pub open spec fn judges_among<G: Fn(usize, usize) -> bool>(f: G, known: Set<usize>) -> bool {
    &&& forall|a: usize, b: usize|
        known.contains(a) && known.contains(b) ==> #[trigger] call_requires(f, (a, b))
    &&& forall|a: usize, b: usize|
        known.contains(a) && known.contains(b) ==> !(#[trigger] call_ensures(f, (a, b), true)
            && call_ensures(f, (a, b), false))
}

/// Where the glyphs that are shown stand among all glyphs.
pub open spec fn shown_at(glyphs: Seq<Glyph>) -> Set<usize> {
    Set::new(|i: usize| i < glyphs.len() && shown(glyphs[i as int]))
}

/// The ends of the cells that the first glyphs become are glyphs that are shown.
pub proof fn lemma_glyph_ends(glyphs: Seq<Glyph>, n: int, same: spec_fn(usize, usize) -> bool)
    requires
        0 <= n <= glyphs.len() <= usize::MAX,
    ensures
        ends_in(glyph_cells(glyphs.take(n), same), shown_at(glyphs)),
    decreases n,
{
    if n > 0 {
        let part = glyphs.take(n);
        let known = shown_at(glyphs);
        assert(part.drop_last() =~= glyphs.take(n - 1));
        lemma_glyph_ends(glyphs, n - 1, same);
        let before = glyph_cells(part.drop_last(), same);
        let after = glyph_cells(part, same);
        assert(part.last() == glyphs[n - 1]);
        assert forall|k: int| 0 <= k < after.len() implies span_in(
            (#[trigger] after[k]).span,
            known,
        ) by {
            if k < before.len() {
                assert(span_in(before[k].span, known));
            } else {
                assert(known.contains((n - 1) as usize));
            }
        }
    }
}

/// The cells that glyphs become. `same_box` says whether the second glyph is in the box of the
/// first, and is asked about glyphs that are shown alone.
pub fn start_cells<G: Fn(usize, usize) -> bool>(glyphs: &Vec<Glyph>, same_box: &G) -> (cells: Vec<
    Cell,
>)
    requires
        judges_among(*same_box, shown_at(glyphs@)),
    ensures
        cells_view(cells@) == glyph_cells(glyphs@, judgements(*same_box)),
        ends_in(cells_view(cells@), shown_at(glyphs@)),
{
    let ghost same = judgements(*same_box);
    let mut cells: Vec<Cell> = Vec::new();
    let mut i: usize = 0;
    assert(cells_view(cells@) =~= Seq::empty());
    while i < glyphs.len()
        invariant
            judges_among(*same_box, shown_at(glyphs@)),
            ends_in(cells_view(cells@), shown_at(glyphs@)),
            same == judgements(*same_box),
            i <= glyphs@.len(),
            cells_view(cells@) == glyph_cells(glyphs@.take(i as int), same),
        decreases glyphs@.len() - i,
    {
        let g = glyphs[i];
        let ghost before = cells_view(cells@);
        assert(glyphs@.take(i as int + 1).drop_last() =~= glyphs@.take(i as int));
        assert(glyphs@.take(i as int + 1).last() == g);
        proof {
            lemma_glyph_ends(glyphs@, i as int + 1, same);
        }
        if g.placed && !(g.ch == ' ' && g.narrow) {
            let count = cells.len();
            let joins = if count > 0 {
                let first = cells[count - 1].span.first;
                assert(span_in(before[count - 1].span, shown_at(glyphs@)));
                assert(shown_at(glyphs@).contains(i));
                let inside = same_box(first, i);
                assert(inside == same(before.last().span.first, i));
                inside
            } else {
                false
            };
            if joins {
                match cells.pop() {
                    Some(mut last) => {
                        let ghost c = last@;
                        last.text.push(g.ch);
                        last.ltr = !is_right_to_left(last.text.as_str());
                        assert(last@ =~= extended_cell(c, g.ch));
                        assert(cells_view(cells@) =~= before.drop_last());
                        cells.push(last);
                        assert(cells_view(cells@) =~= before.drop_last().push(last@));
                    },
                    None => {},
                }
            } else {
                let mut text = String::new();
                text.push(g.ch);
                assert(text@ =~= seq![g.ch]);
                let ltr = !is_right_to_left(text.as_str());
                let cell = Cell {
                    text,
                    span: Span { first: i, last: i },
                    ltr,
                    active: true,
                    lig_carry: false,
                    font: g.font,
                };
                assert(cell@ =~= glyph_cell(g, i as int));
                cells.push(cell);
                assert(cells_view(cells@) =~= before.push(cell@));
            }
        }
        i += 1;
    }
    assert(glyphs@.take(i as int) =~= glyphs@);
    cells
}

/// The pieces of lines that the glyphs of a page form. `same_box` says whether the second glyph is
/// in the box of the first, and `answer` tells of the gap between two cells. Both are asked about
/// glyphs that are shown alone, and such glyphs are the ends of every piece.
pub fn line_cells<G: Fn(usize, usize) -> bool, F: Fn(Question) -> Answer>(
    glyphs: &Vec<Glyph>,
    same_box: &G,
    answer: &F,
) -> (lines: Vec<LineCell>)
    requires
        judges_among(*same_box, shown_at(glyphs@)),
        answers_about(*answer, shown_at(glyphs@)),
    ensures
        forall|k: int|
            0 <= k < lines@.len() ==> span_in((#[trigger] lines@[k]).span, shown_at(glyphs@)),
        pieces_view(lines@) == pieces(
            contracted(glyph_cells(glyphs@, judgements(*same_box)), answers(*answer)),
        ),
{
    let mut cells = start_cells(glyphs, same_box);
    let ghost known = shown_at(glyphs@);
    let ghost begun = ends_of(cells_view(cells@));
    proof {
        lemma_ends_of(cells_view(cells@), known);
    }
    contract(&mut cells, answer);
    proof {
        lemma_ends_within(cells_view(cells@), begun, known);
    }
    let ghost all = cells_view(cells@);
    let mut lines: Vec<LineCell> = Vec::new();
    let mut i: usize = 0;
    while i < cells.len()
        invariant
            i <= cells@.len(),
            all == cells_view(cells@),
            ends_in(all, known),
            lines@.len() == i,
            forall|k: int| 0 <= k < lines@.len() ==> span_in((#[trigger] lines@[k]).span, known),
            pieces_view(lines@) =~= pieces(all).take(i as int),
        decreases cells@.len() - i,
    {
        let ghost before = pieces_view(lines@);
        let piece = LineCell { text: cells[i].text.clone(), span: cells[i].span };
        assert(pieces(all)[i as int] == (piece.text@, piece.span));
        assert(span_in(all[i as int].span, known));
        lines.push(piece);
        assert(pieces_view(lines@) =~= before.push((piece.text@, piece.span)));
        i += 1;
    }
    assert(pieces(all).take(i as int) =~= pieces(all));
    lines
}

} // verus!
