//! Laws of merging: which cells are merged, in which order their texts stand, and where a space
//! goes.

use vstd::prelude::*;

use crate::lines::{
    absorbed, active_cells, after_ltr, after_rtl, contracted, glyph_cells, lemma_ltr_len,
    lemma_rtl_len, ligature, ltr_pass, may_merge, question, retired, right_to_left, rtl_char,
    rtl_pass, single_mark, swallowed, Answer, CellView, Glyph, Question, Span,
};

verus! {

// ---------------------------------------------------------------- two cells

/// A space, where there is to be one.
pub open spec fn space_if(wide: bool) -> Seq<char> {
    if wide {
        seq![' ']
    } else {
        Seq::empty()
    }
}

/// Whether two cells are active and of fonts and directions that let them be merged: a font of
/// zero goes with every font.
pub open spec fn compatible(a: CellView, b: CellView) -> bool {
    &&& a.active && b.active
    &&& a.font == b.font || a.font == 0 || b.font == 0
    &&& a.ltr == b.ltr
}

proof fn lemma_one_alone(c: CellView, geo: spec_fn(Question) -> Answer)
    requires
        c.active,
    ensures
        ltr_pass(seq![c], 1, false, geo) == seq![c],
        ltr_pass(seq![c], 1, true, geo) == seq![c],
        rtl_pass(seq![c], 1, geo) == seq![c],
        active_cells(seq![c]) == seq![c],
{
    let one = seq![c];
    reveal_with_fuel(ltr_pass, 2);
    reveal_with_fuel(rtl_pass, 2);
    reveal_with_fuel(active_cells, 2);
    assert(one.drop_last() =~= Seq::empty());
    assert(active_cells(one) =~= one);
}

proof fn lemma_pair_active(x: CellView, y: CellView)
    ensures
        x.active && y.active ==> active_cells(seq![x, y]) == seq![x, y],
        x.active && !y.active ==> active_cells(seq![x, y]) == seq![x],
        !x.active && y.active ==> active_cells(seq![x, y]) == seq![y],
{
    reveal_with_fuel(active_cells, 3);
    let two = seq![x, y];
    assert(two.drop_last() =~= seq![x]);
    assert(seq![x].drop_last() =~= Seq::empty());
    if x.active && y.active {
        assert(active_cells(two) =~= two);
    } else if x.active {
        assert(active_cells(two) =~= seq![x]);
    } else if y.active {
        assert(active_cells(two) =~= seq![y]);
    }
}

/// What one pass from left to right makes of two cells.
proof fn lemma_pair_ltr(a: CellView, b: CellView, reverse: bool, geo: spec_fn(Question) -> Answer)
    requires
        a.active,
        b.active,
    ensures
        ({
            let onward = geo(question(a, a, b));
            let back = geo(question(a, b, a));
            after_ltr(seq![a, b], reverse, geo) == (if !may_merge(a, b) {
                seq![a, b]
            } else if onward.adjacent {
                seq![absorbed(a, b, onward.wide)]
            } else if reverse && back.adjacent {
                seq![absorbed(b, a, back.wide)]
            } else {
                seq![a, b]
            })
        }),
{
    let two = seq![a, b];
    let onward = geo(question(a, a, b));
    let back = geo(question(a, b, a));
    reveal_with_fuel(ltr_pass, 3);
    reveal_with_fuel(swallowed, 3);
    let gone_b = retired(b);
    let gone_a = retired(a);
    let x = absorbed(a, b, onward.wide);
    let y = absorbed(b, a, back.wide);
    assert(two.update(0, x).update(1, gone_b) =~= seq![x, gone_b]);
    assert(two.update(1, y).update(0, gone_a) =~= seq![gone_a, y]);
    lemma_pair_active(a, b);
    lemma_pair_active(x, gone_b);
    lemma_pair_active(gone_a, y);
    assert(ltr_pass(two, 0, reverse, geo) == two);
    let once = swallowed(two, 0, 1, reverse, geo);
    assert(ltr_pass(two, 1, reverse, geo) == once);
    assert(swallowed(once, 1, 2, reverse, geo) == once);
    assert(ltr_pass(two, 2, reverse, geo) == once);
}

/// What one pass from right to left makes of two cells.
proof fn lemma_pair_rtl(a: CellView, b: CellView, geo: spec_fn(Question) -> Answer)
    requires
        a.active,
        b.active,
    ensures
        ({
            let back = geo(question(b, a, b));
            after_rtl(seq![a, b], geo) == (if may_merge(b, a) && back.adjacent {
                seq![absorbed(a, b, back.wide)]
            } else {
                seq![a, b]
            })
        }),
{
    let two = seq![a, b];
    let back = geo(question(b, a, b));
    reveal_with_fuel(rtl_pass, 3);
    let gone = retired(b);
    let x = absorbed(a, b, back.wide);
    assert(two.update(0, x).update(1, gone) =~= seq![x, gone]);
    lemma_pair_active(a, b);
    lemma_pair_active(x, gone);
}

/// A cell that nothing is beside stays as it is.
pub proof fn law_a_cell_alone_stays(c: CellView, geo: spec_fn(Question) -> Answer)
    requires
        c.active,
    ensures
        contracted(seq![c], geo) == seq![c],
{
    lemma_one_alone(c, geo);
}

/// Two cells that follow each other, in the measure of the first, become one. Its text is the two
/// texts with a space between them exactly where the gap is wide, whatever the texts are: in their
/// order where both are read from left to right, and otherwise the second one first. It begins
/// where the first begins and ends where the second ends.
pub proof fn law_neighbours_become_one(
    a: CellView,
    b: CellView,
    wide: bool,
    geo: spec_fn(Question) -> Answer,
)
    requires
        compatible(a, b),
        forall|q: Question|
            q.measured == a.span && q.chars == a.text.len() as usize && q.from == a.span && q.to
                == b.span ==> #[trigger] geo(q) == (Answer { adjacent: true, wide }),
    ensures
        contracted(seq![a, b], geo).len() == 1,
        ({
            let line = contracted(seq![a, b], geo)[0];
            &&& a.ltr ==> line.text == a.text + space_if(wide) + b.text
            &&& !a.ltr ==> line.text == b.text + space_if(wide) + a.text
            &&& line.ltr == a.ltr
            &&& line.span.first == a.span.first
            &&& line.span.last == b.span.last
            &&& line.font == a.font
            &&& line.active
            &&& line.lig_carry == ligature(b.text)
        }),
{
    lemma_pair_ltr(a, b, false, geo);
    let x = absorbed(a, b, wide);
    lemma_one_alone(x, geo);
    assert(after_ltr(seq![a, b], false, geo) == seq![x]);
    assert(after_rtl(seq![x], geo) == seq![x]);
    assert(after_ltr(seq![x], true, geo) == seq![x]);
}

/// Two cells of which the second follows the first in its own measure only become one in the
/// second pass, the first still in front where both are read from left to right, even where the
/// first would follow the second too.
pub proof fn law_the_measure_of_the_second_counts_too(
    a: CellView,
    b: CellView,
    wide: bool,
    geo: spec_fn(Question) -> Answer,
)
    requires
        compatible(a, b),
        a.span != b.span,
        forall|q: Question|
            q.measured == a.span && q.from == a.span ==> !(#[trigger] geo(q)).adjacent,
        forall|q: Question|
            q.measured == b.span && q.chars == b.text.len() as usize && q.from == a.span && q.to
                == b.span ==> #[trigger] geo(q) == (Answer { adjacent: true, wide }),
    ensures
        contracted(seq![a, b], geo).len() == 1,
        ({
            let line = contracted(seq![a, b], geo)[0];
            &&& a.ltr ==> line.text == a.text + space_if(wide) + b.text
            &&& !a.ltr ==> line.text == b.text + space_if(wide) + a.text
            &&& line.span == (Span { first: a.span.first, last: b.span.last })
        }),
{
    lemma_pair_ltr(a, b, false, geo);
    lemma_pair_rtl(a, b, geo);
    let x = absorbed(a, b, wide);
    lemma_one_alone(x, geo);
    assert(after_ltr(seq![a, b], false, geo) == seq![a, b]);
    assert(after_rtl(seq![a, b], geo) == seq![x]);
    assert(after_ltr(seq![x], true, geo) == seq![x]);
}

/// Two cells of which the first follows the second, against their order, become one in the last
/// pass: the second is in front where both are read from left to right.
pub proof fn law_the_last_pass_goes_against_the_order(
    a: CellView,
    b: CellView,
    wide: bool,
    geo: spec_fn(Question) -> Answer,
)
    requires
        compatible(a, b),
        a.span != b.span,
        forall|q: Question| q.from == a.span ==> !(#[trigger] geo(q)).adjacent,
        forall|q: Question|
            q.measured == a.span && q.chars == a.text.len() as usize && q.from == b.span && q.to
                == a.span ==> #[trigger] geo(q) == (Answer { adjacent: true, wide }),
    ensures
        contracted(seq![a, b], geo).len() == 1,
        ({
            let line = contracted(seq![a, b], geo)[0];
            &&& a.ltr ==> line.text == b.text + space_if(wide) + a.text
            &&& !a.ltr ==> line.text == a.text + space_if(wide) + b.text
            &&& line.span == (Span { first: b.span.first, last: a.span.last })
        }),
{
    lemma_pair_ltr(a, b, false, geo);
    lemma_pair_rtl(a, b, geo);
    lemma_pair_ltr(a, b, true, geo);
    assert(after_ltr(seq![a, b], false, geo) == seq![a, b]);
    assert(after_rtl(seq![a, b], geo) == seq![a, b]);
    assert(after_ltr(seq![a, b], true, geo) == seq![absorbed(b, a, wide)]);
}

/// Two cells that are far apart in every measure stay two.
pub proof fn law_distant_cells_stay_apart(
    a: CellView,
    b: CellView,
    geo: spec_fn(Question) -> Answer,
)
    requires
        a.active && b.active,
        forall|q: Question| !(#[trigger] geo(q)).adjacent,
    ensures
        contracted(seq![a, b], geo) == seq![a, b],
{
    lemma_pair_ltr(a, b, false, geo);
    lemma_pair_rtl(a, b, geo);
    lemma_pair_ltr(a, b, true, geo);
}

/// Two cells of different fonts stay two, however near they are, unless one is a ligature.
pub proof fn law_fonts_keep_cells_apart(
    a: CellView,
    b: CellView,
    geo: spec_fn(Question) -> Answer,
)
    requires
        a.active && b.active,
        a.font != 0 && b.font != 0 && a.font != b.font,
        !ligature(a.text) && !ligature(b.text),
    ensures
        contracted(seq![a, b], geo) == seq![a, b],
{
    lemma_pair_ltr(a, b, false, geo);
    lemma_pair_rtl(a, b, geo);
    lemma_pair_ltr(a, b, true, geo);
}

/// Two cells of different directions stay two, however near they are, unless one is a single mark.
pub proof fn law_directions_keep_cells_apart(
    a: CellView,
    b: CellView,
    geo: spec_fn(Question) -> Answer,
)
    requires
        a.active && b.active,
        a.ltr != b.ltr,
        !single_mark(a.text) && !single_mark(b.text),
    ensures
        contracted(seq![a, b], geo) == seq![a, b],
{
    lemma_pair_ltr(a, b, false, geo);
    lemma_pair_rtl(a, b, geo);
    lemma_pair_ltr(a, b, true, geo);
}

/// A ligature goes with every font, and a single mark with every direction; where one of two cells
/// is read from right to left, the second one's text comes first.
pub proof fn law_ligatures_and_marks_bridge(
    a: CellView,
    b: CellView,
    wide: bool,
    geo: spec_fn(Question) -> Answer,
)
    requires
        a.active && b.active,
        a.font == b.font || ligature(a.text) || ligature(b.text),
        a.ltr == b.ltr || single_mark(a.text) || single_mark(b.text),
        forall|q: Question| #[trigger] geo(q) == (Answer { adjacent: true, wide }),
    ensures
        contracted(seq![a, b], geo).len() == 1,
        ({
            let line = contracted(seq![a, b], geo)[0];
            &&& a.ltr && b.ltr ==> line.text == a.text + space_if(wide) + b.text
            &&& !(a.ltr && b.ltr) ==> line.text == b.text + space_if(wide) + a.text
            &&& line.ltr == (a.ltr && b.ltr)
        }),
{
    lemma_pair_ltr(a, b, false, geo);
    let x = absorbed(a, b, wide);
    lemma_one_alone(x, geo);
    assert(after_ltr(seq![a, b], false, geo) == seq![x]);
    assert(after_rtl(seq![x], geo) == seq![x]);
    assert(after_ltr(seq![x], true, geo) == seq![x]);
}

/// A gap that is small enough for relaxed questions alone lets two cells be merged exactly where
/// one of them is a ligature or has just absorbed one.
pub proof fn law_ligatures_relax_the_question(
    a: CellView,
    b: CellView,
    geo: spec_fn(Question) -> Answer,
)
    requires
        compatible(a, b),
        forall|q: Question| (#[trigger] geo(q)).adjacent == q.relaxed,
    ensures
        contracted(seq![a, b], geo).len() == 1 <==> ligature(a.text) || ligature(b.text)
            || a.lig_carry || b.lig_carry,
{
    lemma_pair_ltr(a, b, false, geo);
    lemma_pair_rtl(a, b, geo);
    lemma_pair_ltr(a, b, true, geo);
    let onward = geo(question(a, a, b));
    let x = absorbed(a, b, onward.wide);
    lemma_one_alone(x, geo);
    if onward.adjacent {
        assert(after_ltr(seq![a, b], false, geo) == seq![x]);
        assert(after_rtl(seq![x], geo) == seq![x]);
        assert(after_ltr(seq![x], true, geo) == seq![x]);
    }
}

/// It is so too where relaxed questions count in the order of the cells alone, whichever of the two
/// is the ligature.
pub proof fn law_either_ligature_relaxes_the_question(
    a: CellView,
    b: CellView,
    geo: spec_fn(Question) -> Answer,
)
    requires
        compatible(a, b),
        a.span != b.span,
        forall|q: Question|
            (#[trigger] geo(q)).adjacent == (q.relaxed && q.from == a.span && q.to == b.span),
    ensures
        contracted(seq![a, b], geo).len() == 1 <==> ligature(a.text) || ligature(b.text)
            || a.lig_carry || b.lig_carry,
{
    lemma_pair_ltr(a, b, false, geo);
    lemma_pair_rtl(a, b, geo);
    lemma_pair_ltr(a, b, true, geo);
    let onward = geo(question(a, a, b));
    let x = absorbed(a, b, onward.wide);
    lemma_one_alone(x, geo);
    if onward.adjacent {
        assert(after_ltr(seq![a, b], false, geo) == seq![x]);
        assert(after_rtl(seq![x], geo) == seq![x]);
        assert(after_ltr(seq![x], true, geo) == seq![x]);
    }
}

// ---------------------------------------------------------------- many cells

/// What stands behind the first text of a line: each further text, with a space before it where
/// the gap before its cell is wide.
pub open spec fn further_texts(cells: Seq<CellView>, wide_at: spec_fn(Span) -> bool) -> Seq<char>
    decreases cells.len(),
{
    if cells.len() == 0 {
        Seq::empty()
    } else {
        space_if(wide_at(cells[0].span)) + cells[0].text + further_texts(cells.skip(1), wide_at)
    }
}

/// What stands before the first text of a line that is read from right to left: the further texts,
/// the last one first, with a space behind each where the gap before its cell is wide.
pub open spec fn texts_before(cells: Seq<CellView>, wide_at: spec_fn(Span) -> bool) -> Seq<char>
    decreases cells.len(),
{
    if cells.len() == 0 {
        Seq::empty()
    } else {
        texts_before(cells.skip(1), wide_at) + cells[0].text + space_if(wide_at(cells[0].span))
    }
}

proof fn lemma_swallow_all(
    cells: Seq<CellView>,
    j: int,
    ltr: bool,
    font: u64,
    reverse: bool,
    wide_at: spec_fn(Span) -> bool,
    geo: spec_fn(Question) -> Answer,
)
    requires
        1 <= j <= cells.len(),
        cells[0].active && cells[0].ltr == ltr && cells[0].font == font,
        forall|k: int| 1 <= k < j ==> !(#[trigger] cells[k]).active,
        forall|k: int|
            j <= k < cells.len() ==> (#[trigger] cells[k]).active && cells[k].ltr == ltr
                && cells[k].font == font,
        forall|q: Question|
            #[trigger] geo(q) == (Answer { adjacent: true, wide: wide_at(q.to) }),
    ensures
        ({
            let r = swallowed(cells, 0, j, reverse, geo);
            &&& r.len() == cells.len()
            &&& r[0].active
            &&& ltr ==> r[0].text == cells[0].text + further_texts(cells.skip(j), wide_at)
            &&& !ltr ==> r[0].text == texts_before(cells.skip(j), wide_at) + cells[0].text
            &&& r[0].span.first == cells[0].span.first
            &&& r[0].span.last == (if j < cells.len() {
                cells.last().span.last
            } else {
                cells[0].span.last
            })
            &&& forall|k: int| 1 <= k < r.len() ==> !(#[trigger] r[k]).active
        }),
    decreases cells.len() - j,
{
    let rest = cells.skip(j);
    if j == cells.len() {
        assert(rest =~= Seq::empty());
        assert(cells[0].text + further_texts(rest, wide_at) =~= cells[0].text);
        assert(texts_before(rest, wide_at) + cells[0].text =~= cells[0].text);
    } else {
        assert(cells[j].active);
        let q = question(cells[0], cells[0], cells[j]);
        let wide = wide_at(cells[j].span);
        assert(geo(q) == (Answer { adjacent: true, wide }));
        let x = absorbed(cells[0], cells[j], wide);
        let next = cells.update(0, x).update(j, retired(cells[j]));
        assert forall|k: int| 1 <= k < j + 1 implies !(#[trigger] next[k]).active by {
            if k < j {
                assert(!cells[k].active);
            }
        }
        assert forall|k: int| j + 1 <= k < next.len() implies (#[trigger] next[k]).active
            && next[k].ltr == ltr && next[k].font == font by {
            assert(cells[k].active);
        }
        lemma_swallow_all(next, j + 1, ltr, font, reverse, wide_at, geo);
        assert(next.skip(j + 1) =~= cells.skip(j + 1));
        assert(rest.skip(1) =~= cells.skip(j + 1));
        assert(rest[0] == cells[j]);
        if ltr {
            assert(x.text =~= cells[0].text + space_if(wide) + cells[j].text);
            assert(x.text + further_texts(rest.skip(1), wide_at) =~= cells[0].text
                + further_texts(rest, wide_at));
        } else {
            assert(x.text =~= cells[j].text + space_if(wide) + cells[0].text);
            assert(texts_before(rest.skip(1), wide_at) + x.text =~= texts_before(rest, wide_at)
                + cells[0].text);
        }
    }
}

proof fn lemma_only_first(cells: Seq<CellView>)
    requires
        cells.len() > 0,
        cells[0].active,
        forall|k: int| 1 <= k < cells.len() ==> !(#[trigger] cells[k]).active,
    ensures
        active_cells(cells) == seq![cells[0]],
    decreases cells.len(),
{
    if cells.len() == 1 {
        lemma_one_alone(cells[0], |q: Question| Answer { adjacent: false, wide: false });
        assert(cells =~= seq![cells[0]]);
    } else {
        let fewer = cells.drop_last();
        assert forall|k: int| 1 <= k < fewer.len() implies !(#[trigger] fewer[k]).active by {
            assert(!cells[k].active);
        }
        assert(!cells[cells.len() - 1].active);
        lemma_only_first(fewer);
    }
}

proof fn lemma_rest_of_pass(
    cells: Seq<CellView>,
    n: int,
    r: Seq<CellView>,
    geo: spec_fn(Question) -> Answer,
)
    requires
        1 <= n <= cells.len(),
        cells[0].active,
        r == swallowed(cells, 0, 1, false, geo),
        r.len() == cells.len(),
        forall|k: int| 1 <= k < r.len() ==> !(#[trigger] r[k]).active,
    ensures
        ltr_pass(cells, n, false, geo) == r,
    decreases n,
{
    if n == 1 {
        assert(ltr_pass(cells, 0, false, geo) == cells);
    } else {
        lemma_rest_of_pass(cells, n - 1, r, geo);
        assert(!r[n - 1].active);
    }
}

/// Any number of cells of one font and direction, each of which follows the one before it, become
/// one. Its text is all their texts, with a space before a text exactly where the gap before its
/// cell is wide: in their order where they are read from left to right, in the opposite order where
/// from right to left. It begins where the first begins and ends where the last ends.
pub proof fn law_a_line_is_spelled_out(
    cells: Seq<CellView>,
    wide_at: spec_fn(Span) -> bool,
    geo: spec_fn(Question) -> Answer,
)
    requires
        cells.len() > 0,
        forall|k: int|
            0 <= k < cells.len() ==> (#[trigger] cells[k]).active && cells[k].ltr == cells[0].ltr
                && cells[k].font == cells[0].font,
        forall|q: Question|
            #[trigger] geo(q) == (Answer { adjacent: true, wide: wide_at(q.to) }),
    ensures
        contracted(cells, geo).len() == 1,
        ({
            let line = contracted(cells, geo)[0];
            &&& cells[0].ltr ==> line.text == cells[0].text + further_texts(
                cells.skip(1),
                wide_at,
            )
            &&& !cells[0].ltr ==> line.text == texts_before(cells.skip(1), wide_at)
                + cells[0].text
            &&& line.span == (Span {
                first: cells[0].span.first,
                last: cells.last().span.last,
            })
        }),
{
    assert(cells[0].active);
    lemma_swallow_all(cells, 1, cells[0].ltr, cells[0].font, false, wide_at, geo);
    let r = swallowed(cells, 0, 1, false, geo);
    lemma_rest_of_pass(cells, cells.len() as int, r, geo);
    lemma_only_first(r);
    let x = r[0];
    lemma_one_alone(x, geo);
    assert(after_ltr(cells, false, geo) == seq![x]);
    assert(after_rtl(seq![x], geo) == seq![x]);
    assert(after_ltr(seq![x], true, geo) == seq![x]);
}

// ---------------------------------------------------------------- scripts, marks and ligatures

/// The characters of right-to-left scripts are those of the blocks for Hebrew, Arabic, Syriac,
/// Thaana and N'Ko, and of the presentation forms of the first two.
pub proof fn law_right_to_left_scripts(c: char)
    ensures
        rtl_char(c) <==> {
            ||| '\u{590}' <= c <= '\u{5ff}'
            ||| '\u{600}' <= c <= '\u{6ff}'
            ||| '\u{700}' <= c <= '\u{74f}'
            ||| '\u{750}' <= c <= '\u{77f}'
            ||| '\u{780}' <= c <= '\u{7bf}'
            ||| '\u{7c0}' <= c <= '\u{7ff}'
            ||| '\u{8a0}' <= c <= '\u{8ff}'
            ||| '\u{fb1d}' <= c <= '\u{fb4f}'
            ||| '\u{fb50}' <= c <= '\u{fdff}'
            ||| '\u{fe70}' <= c <= '\u{feff}'
        },
{
}

/// No text is read from right to left without characters; one character is by its script, and two
/// texts together exactly where both are.
pub proof fn law_direction_of_a_text(a: Seq<char>, b: Seq<char>, c: char)
    ensures
        !right_to_left(Seq::empty()),
        right_to_left(seq![c]) == rtl_char(c),
        a.len() > 0 && b.len() > 0 ==> right_to_left(a + b) == (right_to_left(a) && right_to_left(
            b,
        )),
{
    if a.len() > 0 && b.len() > 0 {
        let s = a + b;
        if right_to_left(s) {
            assert forall|k: int| 0 <= k < a.len() implies rtl_char(#[trigger] a[k]) by {
                assert(rtl_char(s[k]));
            }
            assert forall|k: int| 0 <= k < b.len() implies rtl_char(#[trigger] b[k]) by {
                assert(rtl_char(s[a.len() + k]));
            }
        }
    }
    assert(seq![c][0] == c);
    if right_to_left(seq![c]) {
        assert(rtl_char(seq![c][0]));
    }
}

/// The marks are single characters: those of ASCII that are neither letters, digits, nor `$`, `^`
/// and `~`, nor control characters but for white space, and those of the blocks for general and
/// for wide punctuation.
pub proof fn law_marks(s: Seq<char>)
    ensures
        s.len() != 1 ==> !single_mark(s),
        s.len() == 1 && s[0] as u32 <= 0x7f ==> (single_mark(s) <==> {
            ||| '\u{9}' <= s[0] <= '\u{d}'
            ||| ' ' <= s[0] <= '/' && s[0] != '$'
            ||| ':' <= s[0] <= '@'
            ||| '[' <= s[0] <= '`' && s[0] != '^'
            ||| '{' <= s[0] <= '}'
        }),
        s.len() == 1 && s[0] as u32 > 0x7f ==> (single_mark(s) <==> {
            ||| '\u{2000}' <= s[0] <= '\u{206f}'
            ||| '\u{3000}' <= s[0] <= '\u{303f}'
            ||| '\u{fe50}' <= s[0] <= '\u{fe6f}'
            ||| '\u{ff00}' <= s[0] <= '\u{ff0f}'
            ||| '\u{ff1a}' <= s[0] <= '\u{ff1f}'
            ||| '\u{ff3b}' <= s[0] <= '\u{ff5e}'
        }),
{
    if s.len() == 1 {
        lemma_code(s[0]);
    }
}

/// A character is as large as its code.
proof fn lemma_code(c: char)
    ensures
        c as u32 == c as int,
{
}

/// A text is a ligature where a character of it is one, or where it spells one out: two or three
/// letters, `f`s before a last `f`, `i` or `l`.
pub proof fn law_ligatures(s: Seq<char>)
    ensures
        ligature(s) <==> {
            ||| exists|k: int| 0 <= k < s.len() && '\u{fb00}' <= #[trigger] s[k] <= '\u{fb06}'
            ||| s.len() == 2 && s[0] == 'f' && (s[1] == 'f' || s[1] == 'i' || s[1] == 'l')
            ||| s.len() == 3 && s[0] == 'f' && s[1] == 'f' && (s[2] == 'i' || s[2] == 'l')
        },
{
    reveal_strlit("ff");
    reveal_strlit("fi");
    reveal_strlit("fl");
    reveal_strlit("ffi");
    reveal_strlit("ffl");
    if s.len() == 2 {
        assert(s =~= seq![s[0], s[1]]);
        assert("ff"@ =~= seq!['f', 'f'] && "fi"@ =~= seq!['f', 'i'] && "fl"@ =~= seq!['f', 'l']);
    }
    if s.len() == 3 {
        assert(s =~= seq![s[0], s[1], s[2]]);
        assert("ffi"@ =~= seq!['f', 'f', 'i'] && "ffl"@ =~= seq!['f', 'f', 'l']);
    }
    if exists|k: int| 0 <= k < s.len() && 0xFB00 <= (#[trigger] s[k]) as u32 <= 0xFB06 {
        let k = choose|k: int| 0 <= k < s.len() && 0xFB00 <= (#[trigger] s[k]) as u32 <= 0xFB06;
        lemma_code(s[k]);
        assert('\u{fb00}' <= s[k] <= '\u{fb06}');
    }
    if exists|k: int| 0 <= k < s.len() && '\u{fb00}' <= #[trigger] s[k] <= '\u{fb06}' {
        let k = choose|k: int| 0 <= k < s.len() && '\u{fb00}' <= #[trigger] s[k] <= '\u{fb06}';
        lemma_code(s[k]);
        assert(0xFB00 <= s[k] as u32 <= 0xFB06);
    }
}

// ---------------------------------------------------------------- from glyphs to cells

/// A further glyph without a place, or a narrow space, changes nothing. Any other one in the box of
/// the last cell's first glyph joins its text, and one that is not becomes a cell of its own.
pub proof fn law_a_further_glyph(
    glyphs: Seq<Glyph>,
    g: Glyph,
    same: spec_fn(usize, usize) -> bool,
)
    requires
        glyphs.len() < usize::MAX,
    ensures
        ({
            let before = glyph_cells(glyphs, same);
            let after = glyph_cells(glyphs.push(g), same);
            let place = glyphs.len() as usize;
            if !g.placed || (g.ch == ' ' && g.narrow) {
                after == before
            } else if before.len() > 0 && same(before.last().span.first, place) {
                &&& after.len() == before.len()
                &&& after.drop_last() == before.drop_last()
                &&& after.last().text == before.last().text.push(g.ch)
                &&& after.last().span == before.last().span
                &&& after.last().font == before.last().font
                &&& after.last().ltr == !right_to_left(before.last().text.push(g.ch))
                &&& after.last().active == before.last().active
                &&& after.last().lig_carry == before.last().lig_carry
            } else {
                &&& after.len() == before.len() + 1
                &&& after.drop_last() == before
                &&& after.last().text == seq![g.ch]
                &&& after.last().span == (Span { first: place, last: place })
                &&& after.last().font == g.font
                &&& after.last().ltr == !rtl_char(g.ch)
                &&& after.last().active && !after.last().lig_carry
            }
        }),
{
    assert(glyphs.push(g).drop_last() =~= glyphs);
    law_direction_of_a_text(seq![g.ch], seq![g.ch], g.ch);
    let before = glyph_cells(glyphs, same);
    let after = glyph_cells(glyphs.push(g), same);
    if after.len() == before.len() + 1 {
        assert(after.drop_last() =~= before);
    } else if after.len() > 0 {
        assert(after.drop_last() =~= before.drop_last());
    }
}

// ---------------------------------------------------------------- a cell apart

/// Whether no question about the gap before or behind a cell is answered by a small one.
pub open spec fn stands_apart(a: CellView, geo: spec_fn(Question) -> Answer) -> bool {
    forall|q: Question| q.from == a.span || q.to == a.span ==> !(#[trigger] geo(q)).adjacent
}

proof fn lemma_shifted_swallow(
    a: CellView,
    rest: Seq<CellView>,
    i: int,
    j: int,
    reverse: bool,
    geo: spec_fn(Question) -> Answer,
)
    requires
        0 <= i < j,
    ensures
        swallowed(seq![a] + rest, i + 1, j + 1, reverse, geo) == seq![a] + swallowed(
            rest,
            i,
            j,
            reverse,
            geo,
        ),
    decreases rest.len() - j,
{
    let all = seq![a] + rest;
    if j < rest.len() {
        assert(all[i + 1] == rest[i] && all[j + 1] == rest[j]);
        if may_merge(rest[i], rest[j]) {
            let onward = geo(question(rest[i], rest[i], rest[j]));
            let back = geo(question(rest[i], rest[j], rest[i]));
            let x = absorbed(rest[i], rest[j], onward.wide);
            let y = absorbed(rest[j], rest[i], back.wide);
            if onward.adjacent {
                let next = rest.update(i, x).update(j, retired(rest[j]));
                assert(all.update(i + 1, x).update(j + 1, retired(rest[j])) =~= seq![a] + next);
                lemma_shifted_swallow(a, next, i, j + 1, reverse, geo);
            } else if reverse && back.adjacent {
                assert(all.update(j + 1, y).update(i + 1, retired(rest[i])) =~= seq![a]
                    + rest.update(j, y).update(i, retired(rest[i])));
            }
        }
    }
}

proof fn lemma_shifted_ltr(
    a: CellView,
    rest: Seq<CellView>,
    n: int,
    reverse: bool,
    geo: spec_fn(Question) -> Answer,
)
    requires
        0 <= n <= rest.len(),
        a.active,
        stands_apart(a, geo),
    ensures
        ltr_pass(seq![a] + rest, n + 1, reverse, geo) == seq![a] + ltr_pass(rest, n, reverse, geo),
    decreases n,
{
    let all = seq![a] + rest;
    if n == 0 {
        assert(ltr_pass(all, 0, reverse, geo) == all);
        assert(all[0] == a);
        if rest.len() > 0 {
            let onward = question(a, a, all[1]);
            let back = question(a, all[1], a);
            assert(!geo(onward).adjacent && !geo(back).adjacent);
        }
        assert(swallowed(all, 0, 1, reverse, geo) == all);
    } else {
        lemma_shifted_ltr(a, rest, n - 1, reverse, geo);
        let before = ltr_pass(rest, n - 1, reverse, geo);
        lemma_ltr_len(rest, n - 1, reverse, geo);
        assert((seq![a] + before)[n] == before[n - 1]);
        lemma_shifted_swallow(a, before, n - 1, n, reverse, geo);
    }
}

proof fn lemma_shifted_rtl(
    a: CellView,
    rest: Seq<CellView>,
    n: int,
    geo: spec_fn(Question) -> Answer,
)
    requires
        0 <= n <= rest.len() + 1,
        stands_apart(a, geo),
    ensures
        rtl_pass(seq![a] + rest, n, geo) == seq![a] + rtl_pass(
            rest,
            if n <= rest.len() {
                n
            } else {
                rest.len() as int
            },
            geo,
        ),
    decreases n,
{
    let all = seq![a] + rest;
    if n > 0 {
        lemma_shifted_rtl(a, rest, n - 1, geo);
        let before = rtl_pass(rest, n - 1, geo);
        lemma_rtl_len(rest, n - 1, geo);
        let i = all.len() - n;
        let whole = seq![a] + before;
        if n < rest.len() {
            assert(whole[i] == before[i - 1] && whole[i - 1] == before[i - 2]);
            if may_merge(before[i - 1], before[i - 2]) {
                let back = geo(question(before[i - 1], before[i - 2], before[i - 1]));
                let x = absorbed(before[i - 2], before[i - 1], back.wide);
                assert(whole.update(i - 1, x).update(i, retired(before[i - 1])) =~= seq![a]
                    + before.update(i - 2, x).update(i - 1, retired(before[i - 1])));
            }
        } else if n == rest.len() {
            assert(whole[0] == a);
            assert(!geo(question(whole[1], a, whole[1])).adjacent);
        }
    }
}

proof fn lemma_shifted_active(a: CellView, rest: Seq<CellView>)
    requires
        a.active,
    ensures
        active_cells(seq![a] + rest) == seq![a] + active_cells(rest),
    decreases rest.len(),
{
    let all = seq![a] + rest;
    if rest.len() == 0 {
        lemma_one_alone(a, |q: Question| Answer { adjacent: false, wide: false });
        assert(all =~= seq![a]);
        assert(seq![a] + active_cells(rest) =~= seq![a]);
    } else {
        assert(all.drop_last() =~= seq![a] + rest.drop_last());
        lemma_shifted_active(a, rest.drop_last());
        assert(active_cells(all) =~= seq![a] + active_cells(rest));
    }
}

/// A cell that stands apart at the start of a page stays as it is, and the cells behind it are
/// merged as they would be without it.
pub proof fn law_a_cell_apart_changes_nothing(
    a: CellView,
    rest: Seq<CellView>,
    geo: spec_fn(Question) -> Answer,
)
    requires
        a.active,
        stands_apart(a, geo),
    ensures
        contracted(seq![a] + rest, geo) == seq![a] + contracted(rest, geo),
{
    lemma_shifted_ltr(a, rest, rest.len() as int, false, geo);
    lemma_shifted_active(a, ltr_pass(rest, rest.len() as int, false, geo));
    let once = after_ltr(rest, false, geo);
    lemma_shifted_rtl(a, once, once.len() as int + 1, geo);
    lemma_shifted_active(a, rtl_pass(once, once.len() as int, geo));
    let twice = after_rtl(once, geo);
    lemma_shifted_ltr(a, twice, twice.len() as int, true, geo);
    lemma_shifted_active(a, ltr_pass(twice, twice.len() as int, true, geo));
}

} // verus!
