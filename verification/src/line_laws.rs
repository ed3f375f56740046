//! Laws of lines: what merging glyphs into lines keeps.

use vstd::prelude::*;

use crate::lines::{
    absorbed, active_cells, after_ltr, after_rtl, contracted, ends_in, extended_cell, glyph_cell,
    glyph_cells, lemma_active_ends, lemma_glyph_ends, lemma_ltr_len, lemma_merge_ends, ltr_pass,
    may_merge, question, retired, rtl_pass, shown, shown_at, span_in, swallowed, Answer, CellView,
    Glyph, Question, Span,
};

verus! {

// ---------------------------------------------------------------- characters

/// How often a character occurs in a text.
pub open spec fn occurrences(s: Seq<char>, c: char) -> nat
    decreases s.len(),
{
    if s.len() == 0 {
        0
    } else {
        occurrences(s.drop_last(), c) + (if s.last() == c {
            1nat
        } else {
            0nat
        })
    }
}

/// How often a character occurs in the texts of the active cells.
pub open spec fn total(cells: Seq<CellView>, c: char) -> nat
    decreases cells.len(),
{
    if cells.len() == 0 {
        0
    } else {
        total(cells.drop_last(), c) + share(cells.last(), c)
    }
}

/// How often a character occurs in the text of a cell, where it is active.
pub open spec fn share(cell: CellView, c: char) -> nat {
    if cell.active {
        occurrences(cell.text, c)
    } else {
        0
    }
}

/// How many cells are active.
pub open spec fn alive(cells: Seq<CellView>) -> nat
    decreases cells.len(),
{
    if cells.len() == 0 {
        0
    } else {
        alive(cells.drop_last()) + (if cells.last().active {
            1nat
        } else {
            0nat
        })
    }
}

/// Whether the active cells still have all characters, and at most one space more for each cell
/// that has been merged into another one.
pub open spec fn conserved(before: Seq<CellView>, after: Seq<CellView>) -> bool {
    &&& alive(after) <= alive(before)
    &&& alive(before) > 0 ==> alive(after) > 0
    &&& forall|c: char| c != ' ' ==> #[trigger] total(after, c) == total(before, c)
    &&& total(before, ' ') <= total(after, ' ') <= total(before, ' ') + (alive(before) - alive(
        after,
    ))
}

proof fn lemma_occurrences_add(a: Seq<char>, b: Seq<char>, c: char)
    ensures
        occurrences(a + b, c) == occurrences(a, c) + occurrences(b, c),
    decreases b.len(),
{
    if b.len() == 0 {
        assert(a + b =~= a);
    } else {
        assert((a + b).drop_last() =~= a + b.drop_last());
        lemma_occurrences_add(a, b.drop_last(), c);
    }
}

proof fn lemma_total_update(cells: Seq<CellView>, i: int, x: CellView, c: char)
    requires
        0 <= i < cells.len(),
    ensures
        total(cells.update(i, x), c) + share(cells[i], c) == total(cells, c) + share(x, c),
    decreases cells.len(),
{
    let changed = cells.update(i, x);
    if i == cells.len() - 1 {
        assert(changed.drop_last() =~= cells.drop_last());
    } else {
        assert(changed.drop_last() =~= cells.drop_last().update(i, x));
        lemma_total_update(cells.drop_last(), i, x, c);
    }
}

spec fn one_if(b: bool) -> nat {
    if b {
        1
    } else {
        0
    }
}

proof fn lemma_alive_update(cells: Seq<CellView>, i: int, x: CellView)
    requires
        0 <= i < cells.len(),
    ensures
        alive(cells.update(i, x)) + one_if(cells[i].active) == alive(cells) + one_if(x.active),
    decreases cells.len(),
{
    let changed = cells.update(i, x);
    if i == cells.len() - 1 {
        assert(changed.drop_last() =~= cells.drop_last());
    } else {
        assert(changed.drop_last() =~= cells.drop_last().update(i, x));
        lemma_alive_update(cells.drop_last(), i, x);
    }
}

proof fn lemma_alive_some(cells: Seq<CellView>, i: int)
    requires
        0 <= i < cells.len(),
        cells[i].active,
    ensures
        alive(cells) > 0,
    decreases cells.len(),
{
    if i < cells.len() - 1 {
        lemma_alive_some(cells.drop_last(), i);
    }
}

/// A merge keeps all characters and adds at most one space.
proof fn lemma_merge_conserves(cells: Seq<CellView>, at: int, gone: int, wide: bool)
    requires
        0 <= at < cells.len(),
        0 <= gone < cells.len(),
        at != gone,
        cells[at].active,
        cells[gone].active,
    ensures
        conserved(
            cells,
            cells.update(at, absorbed(cells[at], cells[gone], wide)).update(
                gone,
                retired(cells[gone]),
            ),
        ),
{
    let x = absorbed(cells[at], cells[gone], wide);
    let y = retired(cells[gone]);
    let once = cells.update(at, x);
    let twice = once.update(gone, y);
    lemma_alive_update(cells, at, x);
    lemma_alive_update(once, gone, y);
    assert(twice[at].active);
    lemma_alive_some(twice, at);
    let gap = if wide {
        seq![' ']
    } else {
        Seq::empty()
    };
    assert forall|c: char| true implies #[trigger] total(twice, c) == total(cells, c) + (if c
        == ' ' && wide {
        1nat
    } else {
        0nat
    }) by {
        lemma_total_update(cells, at, x, c);
        lemma_total_update(once, gone, y, c);
        let a = cells[at].text;
        let b = cells[gone].text;
        lemma_occurrences_add(a + gap, b, c);
        lemma_occurrences_add(a, gap, c);
        lemma_occurrences_add(b + gap, a, c);
        lemma_occurrences_add(b, gap, c);
        assert(gap.drop_last() =~= Seq::<char>::empty() || !wide);
        assert(occurrences(gap, c) == if c == ' ' && wide {
            1nat
        } else {
            0nat
        }) by {
            reveal_with_fuel(occurrences, 2);
        }
    }
}

proof fn lemma_conserved_both(a: Seq<CellView>, b: Seq<CellView>, c: Seq<CellView>)
    requires
        conserved(a, b),
        conserved(b, c),
    ensures
        conserved(a, c),
{
    assert forall|ch: char| ch != ' ' implies #[trigger] total(c, ch) == total(a, ch) by {
        assert(total(b, ch) == total(a, ch));
    }
}

proof fn lemma_swallowed_conserves(
    cells: Seq<CellView>,
    i: int,
    j: int,
    reverse: bool,
    geo: spec_fn(Question) -> Answer,
)
    ensures
        conserved(cells, swallowed(cells, i, j, reverse, geo)),
    decreases cells.len() - j,
{
    if 0 <= i < j < cells.len() && may_merge(cells[i], cells[j]) {
        let onward = geo(question(cells[i], cells[i], cells[j]));
        let back = geo(question(cells[i], cells[j], cells[i]));
        if onward.adjacent {
            let next = cells.update(i, absorbed(cells[i], cells[j], onward.wide)).update(
                j,
                retired(cells[j]),
            );
            lemma_merge_conserves(cells, i, j, onward.wide);
            lemma_swallowed_conserves(next, i, j + 1, reverse, geo);
            lemma_conserved_both(cells, next, swallowed(next, i, j + 1, reverse, geo));
        } else if reverse && back.adjacent {
            lemma_merge_conserves(cells, j, i, back.wide);
        }
    }
}

proof fn lemma_ltr_conserves(
    cells: Seq<CellView>,
    n: int,
    reverse: bool,
    geo: spec_fn(Question) -> Answer,
)
    ensures
        conserved(cells, ltr_pass(cells, n, reverse, geo)),
    decreases n,
{
    if n > 0 {
        lemma_ltr_conserves(cells, n - 1, reverse, geo);
        let before = ltr_pass(cells, n - 1, reverse, geo);
        lemma_swallowed_conserves(before, n - 1, n, reverse, geo);
        lemma_conserved_both(cells, before, ltr_pass(cells, n, reverse, geo));
    }
}

proof fn lemma_rtl_conserves(cells: Seq<CellView>, n: int, geo: spec_fn(Question) -> Answer)
    ensures
        conserved(cells, rtl_pass(cells, n, geo)),
    decreases n,
{
    if n > 0 {
        lemma_rtl_conserves(cells, n - 1, geo);
        let before = rtl_pass(cells, n - 1, geo);
        let i = cells.len() - n;
        if 0 < i < before.len() && may_merge(before[i], before[i - 1]) {
            let back = geo(question(before[i], before[i - 1], before[i]));
            lemma_merge_conserves(before, i - 1, i, back.wide);
        }
        lemma_conserved_both(cells, before, rtl_pass(cells, n, geo));
    }
}

proof fn lemma_active_cells(cells: Seq<CellView>)
    ensures
        conserved(cells, active_cells(cells)),
        alive(active_cells(cells)) == alive(cells),
        alive(active_cells(cells)) == active_cells(cells).len(),
    decreases cells.len(),
{
    if cells.len() > 0 {
        let fewer = cells.drop_last();
        lemma_active_cells(fewer);
        if cells.last().active {
            let kept = active_cells(fewer).push(cells.last());
            assert(kept.drop_last() =~= active_cells(fewer));
            assert forall|c: char| c != ' ' implies #[trigger] total(kept, c) == total(
                cells,
                c,
            ) by {
                assert(total(active_cells(fewer), c) == total(fewer, c));
            }
        } else {
            assert forall|c: char| c != ' ' implies #[trigger] total(active_cells(cells), c)
                == total(cells, c) by {
                assert(total(active_cells(fewer), c) == total(fewer, c));
            }
        }
    }
}

/// Merging cells into lines keeps every character, and adds at most one space for each cell that
/// is merged into another one; where there were active cells, one is left.
pub proof fn law_contraction_keeps_the_text(cells: Seq<CellView>, geo: spec_fn(Question) -> Answer)
    ensures
        conserved(cells, contracted(cells, geo)),
        alive(contracted(cells, geo)) == contracted(cells, geo).len(),
{
    let a = ltr_pass(cells, cells.len() as int, false, geo);
    let b = active_cells(a);
    let c = rtl_pass(b, b.len() as int, geo);
    let d = active_cells(c);
    let e = ltr_pass(d, d.len() as int, true, geo);
    lemma_ltr_conserves(cells, cells.len() as int, false, geo);
    lemma_active_cells(a);
    lemma_conserved_both(cells, a, b);
    lemma_rtl_conserves(b, b.len() as int, geo);
    lemma_conserved_both(cells, b, c);
    lemma_active_cells(c);
    lemma_conserved_both(cells, c, d);
    lemma_ltr_conserves(d, d.len() as int, true, geo);
    lemma_conserved_both(cells, d, e);
    lemma_active_cells(e);
    lemma_conserved_both(cells, e, active_cells(e));
}

/// The characters of the glyphs that are shown.
pub open spec fn shown_text(glyphs: Seq<Glyph>) -> Seq<char>
    decreases glyphs.len(),
{
    if glyphs.len() == 0 {
        Seq::empty()
    } else if shown(glyphs.last()) {
        shown_text(glyphs.drop_last()).push(glyphs.last().ch)
    } else {
        shown_text(glyphs.drop_last())
    }
}

/// The texts of cells, one behind the other.
pub open spec fn run_on(cells: Seq<CellView>) -> Seq<char>
    decreases cells.len(),
{
    if cells.len() == 0 {
        Seq::empty()
    } else {
        run_on(cells.drop_last()) + cells.last().text
    }
}

/// The cells that glyphs become hold the characters of the glyphs that are shown, in their order;
/// all are active, and none is empty.
pub proof fn law_cells_spell_the_glyphs(glyphs: Seq<Glyph>, same: spec_fn(usize, usize) -> bool)
    ensures
        run_on(glyph_cells(glyphs, same)) == shown_text(glyphs),
        forall|k: int|
            0 <= k < glyph_cells(glyphs, same).len() ==> (#[trigger] glyph_cells(
                glyphs,
                same,
            )[k]).active && glyph_cells(glyphs, same)[k].text.len() > 0,
    decreases glyphs.len(),
{
    if glyphs.len() > 0 {
        law_cells_spell_the_glyphs(glyphs.drop_last(), same);
        let before = glyph_cells(glyphs.drop_last(), same);
        let after = glyph_cells(glyphs, same);
        let k = glyphs.len() - 1;
        let g = glyphs.last();
        if shown(g) {
            if before.len() > 0 && same(before.last().span.first, k as usize) {
                let joined = extended_cell(before.last(), g.ch);
                assert(after.drop_last() =~= before.drop_last());
                assert(run_on(after) =~= run_on(before.drop_last()) + before.last().text.push(
                    g.ch,
                ));
                assert(run_on(after) =~= run_on(before).push(g.ch));
            } else {
                assert(after.drop_last() =~= before);
                assert(run_on(after) =~= run_on(before).push(g.ch));
            }
        }
    }
}

proof fn lemma_total_of_active(cells: Seq<CellView>, c: char)
    requires
        forall|k: int| 0 <= k < cells.len() ==> (#[trigger] cells[k]).active,
    ensures
        total(cells, c) == occurrences(run_on(cells), c),
        alive(cells) == cells.len(),
    decreases cells.len(),
{
    if cells.len() > 0 {
        assert forall|k: int| 0 <= k < cells.drop_last().len() implies (
        #[trigger] cells.drop_last()[k]).active by {
            assert(cells[k].active);
        }
        assert(cells[cells.len() - 1].active);
        lemma_total_of_active(cells.drop_last(), c);
        lemma_occurrences_add(run_on(cells.drop_last()), cells.last().text, c);
    }
}

/// The lines that glyphs form hold every character of the glyphs that are shown as often as those
/// do, but for at most one more space for each merge.
pub proof fn law_lines_keep_the_glyphs(
    glyphs: Seq<Glyph>,
    same: spec_fn(usize, usize) -> bool,
    geo: spec_fn(Question) -> Answer,
)
    ensures
        ({
            let cells = glyph_cells(glyphs, same);
            let lines = contracted(cells, geo);
            &&& forall|c: char|
                c != ' ' ==> #[trigger] total(lines, c) == occurrences(shown_text(glyphs), c)
            &&& occurrences(shown_text(glyphs), ' ') <= total(lines, ' ') <= occurrences(
                shown_text(glyphs),
                ' ',
            ) + (cells.len() - lines.len())
        }),
{
    let cells = glyph_cells(glyphs, same);
    let lines = contracted(cells, geo);
    law_cells_spell_the_glyphs(glyphs, same);
    law_contraction_keeps_the_text(cells, geo);
    lemma_total_of_active(cells, ' ');
    assert forall|c: char| c != ' ' implies #[trigger] total(lines, c) == occurrences(
        shown_text(glyphs),
        c,
    ) by {
        lemma_total_of_active(cells, c);
        assert(total(lines, c) == total(cells, c));
    }
}

// ---------------------------------------------------------------- order

/// A text without its spaces.
pub open spec fn spaceless(s: Seq<char>) -> Seq<char>
    decreases s.len(),
{
    if s.len() == 0 {
        Seq::empty()
    } else if s.last() == ' ' {
        spaceless(s.drop_last())
    } else {
        spaceless(s.drop_last()).push(s.last())
    }
}

/// The text of a cell without its spaces, where it is active.
pub open spec fn letters(cell: CellView) -> Seq<char> {
    if cell.active {
        spaceless(cell.text)
    } else {
        Seq::empty()
    }
}

/// The texts of the active cells without their spaces, one behind the other.
pub open spec fn all_letters(cells: Seq<CellView>) -> Seq<char>
    decreases cells.len(),
{
    if cells.len() == 0 {
        Seq::empty()
    } else {
        all_letters(cells.drop_last()) + letters(cells.last())
    }
}

/// Whether all cells are read from left to right.
pub open spec fn all_ltr(cells: Seq<CellView>) -> bool {
    forall|k: int| 0 <= k < cells.len() ==> (#[trigger] cells[k]).ltr
}

proof fn lemma_spaceless_add(a: Seq<char>, b: Seq<char>)
    ensures
        spaceless(a + b) == spaceless(a) + spaceless(b),
    decreases b.len(),
{
    if b.len() == 0 {
        assert(a + b =~= a);
        assert(spaceless(a) + spaceless(b) =~= spaceless(a));
    } else {
        assert((a + b).drop_last() =~= a + b.drop_last());
        lemma_spaceless_add(a, b.drop_last());
        assert(spaceless(a + b) =~= spaceless(a) + spaceless(b));
    }
}

/// Where nothing behind a cell is active, the letters end in its own.
proof fn lemma_last_letters(cells: Seq<CellView>, i: int)
    requires
        0 <= i < cells.len(),
        forall|k: int| i < k < cells.len() ==> !(#[trigger] cells[k]).active,
    ensures
        all_letters(cells) == all_letters(cells.take(i)) + letters(cells[i]),
    decreases cells.len(),
{
    let fewer = cells.drop_last();
    if i == cells.len() - 1 {
        assert(cells.take(i) =~= fewer);
    } else {
        assert forall|k: int| i < k < fewer.len() implies !(#[trigger] fewer[k]).active by {
            assert(!cells[k].active);
        }
        assert(!cells[cells.len() - 1].active);
        lemma_last_letters(fewer, i);
        assert(fewer.take(i) =~= cells.take(i));
        assert(all_letters(cells) =~= all_letters(fewer));
    }
}

/// A merge of two cells that are read from left to right, with none active between them, keeps
/// the letters in their order.
proof fn lemma_merge_keeps_order(cells: Seq<CellView>, i: int, j: int, wide: bool)
    requires
        0 <= i < j < cells.len(),
        cells[i].active && cells[j].active,
        cells[i].ltr && cells[j].ltr,
        forall|k: int| i < k < j ==> !(#[trigger] cells[k]).active,
    ensures
        all_letters(
            cells.update(i, absorbed(cells[i], cells[j], wide)).update(j, retired(cells[j])),
        ) == all_letters(cells),
    decreases cells.len(),
{
    let x = absorbed(cells[i], cells[j], wide);
    let y = retired(cells[j]);
    let after = cells.update(i, x).update(j, y);
    let fewer = cells.drop_last();
    if j < cells.len() - 1 {
        assert forall|k: int| i < k < j implies !(#[trigger] fewer[k]).active by {
            assert(!cells[k].active);
        }
        lemma_merge_keeps_order(fewer, i, j, wide);
        assert(after.drop_last() =~= fewer.update(i, x).update(j, y));
    } else {
        assert forall|k: int| i < k < fewer.len() implies !(#[trigger] fewer[k]).active by {
            assert(!cells[k].active);
        }
        lemma_last_letters(fewer, i);
        let changed = fewer.update(i, x);
        assert(after.drop_last() =~= changed);
        assert forall|k: int| i < k < changed.len() implies !(#[trigger] changed[k]).active by {
            assert(!cells[k].active);
        }
        lemma_last_letters(changed, i);
        assert(changed.take(i) =~= fewer.take(i));
        let gap = if wide {
            seq![' ']
        } else {
            Seq::empty()
        };
        assert(spaceless(gap) =~= Seq::empty()) by {
            reveal_with_fuel(spaceless, 2);
        }
        lemma_spaceless_add(cells[i].text + gap, cells[j].text);
        lemma_spaceless_add(cells[i].text, gap);
        assert(letters(x) =~= letters(cells[i]) + letters(cells[j]));
        assert(all_letters(after) =~= all_letters(changed));
        assert(all_letters(cells) =~= all_letters(fewer.take(i)) + letters(cells[i]) + letters(
            cells[j],
        ));
        assert(all_letters(after) =~= all_letters(cells));
    }
}

proof fn lemma_swallowed_keeps_order(
    cells: Seq<CellView>,
    i: int,
    j: int,
    geo: spec_fn(Question) -> Answer,
)
    requires
        all_ltr(cells),
        forall|k: int| i < k < j && k < cells.len() ==> !(#[trigger] cells[k]).active,
    ensures
        all_letters(swallowed(cells, i, j, false, geo)) == all_letters(cells),
        all_ltr(swallowed(cells, i, j, false, geo)),
    decreases cells.len() - j,
{
    if 0 <= i < j < cells.len() && may_merge(cells[i], cells[j]) {
        let onward = geo(question(cells[i], cells[i], cells[j]));
        if onward.adjacent {
            let x = absorbed(cells[i], cells[j], onward.wide);
            let next = cells.update(i, x).update(j, retired(cells[j]));
            assert(cells[i].ltr && cells[j].ltr);
            lemma_merge_keeps_order(cells, i, j, onward.wide);
            assert forall|k: int| i < k < j + 1 && k < next.len() implies !(
            #[trigger] next[k]).active by {
                if k < j {
                    assert(!cells[k].active);
                }
            }
            assert forall|k: int| 0 <= k < next.len() implies (#[trigger] next[k]).ltr by {
                assert(cells[k].ltr);
            }
            lemma_swallowed_keeps_order(next, i, j + 1, geo);
        }
    }
}

proof fn lemma_ltr_keeps_order(cells: Seq<CellView>, n: int, geo: spec_fn(Question) -> Answer)
    requires
        all_ltr(cells),
    ensures
        all_letters(ltr_pass(cells, n, false, geo)) == all_letters(cells),
        all_ltr(ltr_pass(cells, n, false, geo)),
    decreases n,
{
    if n > 0 {
        lemma_ltr_keeps_order(cells, n - 1, geo);
        lemma_swallowed_keeps_order(ltr_pass(cells, n - 1, false, geo), n - 1, n, geo);
    }
}

proof fn lemma_rtl_keeps_order(cells: Seq<CellView>, n: int, geo: spec_fn(Question) -> Answer)
    requires
        all_ltr(cells),
    ensures
        all_letters(rtl_pass(cells, n, geo)) == all_letters(cells),
        all_ltr(rtl_pass(cells, n, geo)),
    decreases n,
{
    if n > 0 {
        lemma_rtl_keeps_order(cells, n - 1, geo);
        let before = rtl_pass(cells, n - 1, geo);
        let after = rtl_pass(cells, n, geo);
        let i = cells.len() - n;
        if 0 < i < before.len() && may_merge(before[i], before[i - 1]) {
            let back = geo(question(before[i], before[i - 1], before[i]));
            assert(before[i].ltr && before[i - 1].ltr);
            lemma_merge_keeps_order(before, i - 1, i, back.wide);
            assert forall|k: int| 0 <= k < after.len() implies (#[trigger] after[k]).ltr by {
                assert(before[k].ltr);
            }
        }
    }
}

proof fn lemma_active_keeps_order(cells: Seq<CellView>)
    requires
        all_ltr(cells),
    ensures
        all_letters(active_cells(cells)) == all_letters(cells),
        all_ltr(active_cells(cells)),
    decreases cells.len(),
{
    if cells.len() > 0 {
        let fewer = cells.drop_last();
        assert forall|k: int| 0 <= k < fewer.len() implies (#[trigger] fewer[k]).ltr by {
            assert(cells[k].ltr);
        }
        lemma_active_keeps_order(fewer);
        assert(cells[cells.len() - 1].ltr);
        if cells.last().active {
            assert(active_cells(cells).drop_last() =~= active_cells(fewer));
        } else {
            assert(all_letters(cells) =~= all_letters(fewer));
        }
    }
}

/// As long as all cells are read from left to right, the first two passes keep all letters in
/// their order; only the last pass may merge against it.
pub proof fn law_first_passes_keep_the_order(
    cells: Seq<CellView>,
    geo: spec_fn(Question) -> Answer,
)
    requires
        all_ltr(cells),
    ensures
        all_letters(after_ltr(cells, false, geo)) == all_letters(cells),
        all_letters(after_rtl(after_ltr(cells, false, geo), geo)) == all_letters(cells),
{
    lemma_ltr_keeps_order(cells, cells.len() as int, geo);
    lemma_active_keeps_order(ltr_pass(cells, cells.len() as int, false, geo));
    let once = after_ltr(cells, false, geo);
    lemma_rtl_keeps_order(once, once.len() as int, geo);
    lemma_active_keeps_order(rtl_pass(once, once.len() as int, geo));
}

// ---------------------------------------------------------------- cells stay whole

/// Whether a text holds another one in one piece.
pub open spec fn holds_text(s: Seq<char>, t: Seq<char>) -> bool {
    exists|a: Seq<char>, b: Seq<char>| s == #[trigger] (a + t + b)
}

/// Whether an active cell holds a text in one piece.
pub open spec fn shows_text(cells: Seq<CellView>, t: Seq<char>) -> bool {
    exists|k: int|
        0 <= k < cells.len() && (#[trigger] cells[k]).active && holds_text(cells[k].text, t)
}

proof fn lemma_holds_between(before: Seq<char>, s: Seq<char>, after: Seq<char>, t: Seq<char>)
    requires
        holds_text(s, t),
    ensures
        holds_text(before + s + after, t),
{
    let (a, b) = choose|a: Seq<char>, b: Seq<char>| s == #[trigger] (a + t + b);
    assert(before + s + after =~= (before + a) + t + (b + after));
}

proof fn lemma_merge_shows(cells: Seq<CellView>, at: int, gone: int, wide: bool, t: Seq<char>)
    requires
        0 <= at < cells.len(),
        0 <= gone < cells.len(),
        at != gone,
        cells[at].active,
        cells[gone].active,
        shows_text(cells, t),
    ensures
        shows_text(
            cells.update(at, absorbed(cells[at], cells[gone], wide)).update(
                gone,
                retired(cells[gone]),
            ),
            t,
        ),
{
    let x = absorbed(cells[at], cells[gone], wide);
    let after = cells.update(at, x).update(gone, retired(cells[gone]));
    let gap = if wide {
        seq![' ']
    } else {
        Seq::empty()
    };
    let a = cells[at].text;
    let b = cells[gone].text;
    let none = Seq::<char>::empty();
    let k = choose|k: int|
        0 <= k < cells.len() && (#[trigger] cells[k]).active && holds_text(cells[k].text, t);
    if k == at {
        lemma_holds_between(none, a, gap + b, t);
        lemma_holds_between(b + gap, a, none, t);
        assert(none + a + (gap + b) =~= a + gap + b);
        assert((b + gap) + a + none =~= b + gap + a);
        assert(after[at] == x);
    } else if k == gone {
        lemma_holds_between(a + gap, b, none, t);
        lemma_holds_between(none, b, gap + a, t);
        assert((a + gap) + b + none =~= a + gap + b);
        assert(none + b + (gap + a) =~= b + gap + a);
        assert(after[at] == x);
    } else {
        assert(after[k] == cells[k]);
    }
}

proof fn lemma_swallowed_shows(
    cells: Seq<CellView>,
    i: int,
    j: int,
    reverse: bool,
    geo: spec_fn(Question) -> Answer,
    t: Seq<char>,
)
    requires
        shows_text(cells, t),
    ensures
        shows_text(swallowed(cells, i, j, reverse, geo), t),
    decreases cells.len() - j,
{
    if 0 <= i < j < cells.len() && may_merge(cells[i], cells[j]) {
        let onward = geo(question(cells[i], cells[i], cells[j]));
        let back = geo(question(cells[i], cells[j], cells[i]));
        if onward.adjacent {
            lemma_merge_shows(cells, i, j, onward.wide, t);
            let next = cells.update(i, absorbed(cells[i], cells[j], onward.wide)).update(
                j,
                retired(cells[j]),
            );
            lemma_swallowed_shows(next, i, j + 1, reverse, geo, t);
        } else if reverse && back.adjacent {
            lemma_merge_shows(cells, j, i, back.wide, t);
        }
    }
}

proof fn lemma_ltr_shows(
    cells: Seq<CellView>,
    n: int,
    reverse: bool,
    geo: spec_fn(Question) -> Answer,
    t: Seq<char>,
)
    requires
        shows_text(cells, t),
    ensures
        shows_text(ltr_pass(cells, n, reverse, geo), t),
    decreases n,
{
    if n > 0 {
        lemma_ltr_shows(cells, n - 1, reverse, geo, t);
        let before = ltr_pass(cells, n - 1, reverse, geo);
        lemma_swallowed_shows(before, n - 1, n, reverse, geo, t);
    }
}

proof fn lemma_rtl_shows(
    cells: Seq<CellView>,
    n: int,
    geo: spec_fn(Question) -> Answer,
    t: Seq<char>,
)
    requires
        shows_text(cells, t),
    ensures
        shows_text(rtl_pass(cells, n, geo), t),
    decreases n,
{
    if n > 0 {
        lemma_rtl_shows(cells, n - 1, geo, t);
        let before = rtl_pass(cells, n - 1, geo);
        let i = cells.len() - n;
        if 0 < i < before.len() && may_merge(before[i], before[i - 1]) {
            let back = geo(question(before[i], before[i - 1], before[i]));
            lemma_merge_shows(before, i - 1, i, back.wide, t);
        }
    }
}

proof fn lemma_active_shows(cells: Seq<CellView>, t: Seq<char>)
    requires
        shows_text(cells, t),
    ensures
        shows_text(active_cells(cells), t),
    decreases cells.len(),
{
    let k = choose|k: int|
        0 <= k < cells.len() && (#[trigger] cells[k]).active && holds_text(cells[k].text, t);
    let kept = active_cells(cells);
    if k == cells.len() - 1 {
        assert(kept[kept.len() - 1] == cells[k]);
    } else {
        let fewer = cells.drop_last();
        assert(fewer[k] == cells[k]);
        lemma_active_shows(fewer, t);
        let part = active_cells(fewer);
        let l = choose|l: int|
            0 <= l < part.len() && (#[trigger] part[l]).active && holds_text(part[l].text, t);
        assert(kept[l] == part[l]);
    }
}

/// The text of a cell stays in one piece: no merge puts a space inside it, so that a ligature that
/// came as several characters is never torn.
pub proof fn law_cells_stay_whole(cells: Seq<CellView>, geo: spec_fn(Question) -> Answer, k: int)
    requires
        0 <= k < cells.len(),
        cells[k].active,
    ensures
        shows_text(contracted(cells, geo), cells[k].text),
{
    let t = cells[k].text;
    let none = Seq::<char>::empty();
    assert(t =~= none + t + none);
    assert(holds_text(cells[k].text, t));
    lemma_ltr_shows(cells, cells.len() as int, false, geo, t);
    lemma_active_shows(ltr_pass(cells, cells.len() as int, false, geo), t);
    let once = after_ltr(cells, false, geo);
    lemma_rtl_shows(once, once.len() as int, geo, t);
    lemma_active_shows(rtl_pass(once, once.len() as int, geo), t);
    let twice = after_rtl(once, geo);
    lemma_ltr_shows(twice, twice.len() as int, true, geo, t);
    lemma_active_shows(ltr_pass(twice, twice.len() as int, true, geo), t);
}

// ---------------------------------------------------------------- only shown glyphs count

/// The glyphs that are shown.
pub open spec fn shown_glyphs(glyphs: Seq<Glyph>) -> Seq<Glyph>
    decreases glyphs.len(),
{
    if glyphs.len() == 0 {
        Seq::empty()
    } else if shown(glyphs.last()) {
        shown_glyphs(glyphs.drop_last()).push(glyphs.last())
    } else {
        shown_glyphs(glyphs.drop_last())
    }
}

/// Where among all glyphs those that are shown stand.
pub open spec fn places(glyphs: Seq<Glyph>) -> Seq<usize>
    decreases glyphs.len(),
{
    if glyphs.len() == 0 {
        Seq::empty()
    } else if shown(glyphs.last()) {
        places(glyphs.drop_last()).push((glyphs.len() - 1) as usize)
    } else {
        places(glyphs.drop_last())
    }
}

/// The ends of a cell, each glyph under its place.
pub open spec fn placed_span(at: Seq<usize>, span: Span) -> Span {
    Span { first: at[span.first as int], last: at[span.last as int] }
}

/// A cell, each glyph under its place.
pub open spec fn placed_cell(at: Seq<usize>, cell: CellView) -> CellView {
    CellView { span: placed_span(at, cell.span), ..cell }
}

/// Cells, each glyph under its place.
pub open spec fn placed_cells(at: Seq<usize>, cells: Seq<CellView>) -> Seq<CellView> {
    cells.map_values(|c: CellView| placed_cell(at, c))
}

/// A question, each glyph under its place.
pub open spec fn placed_question(at: Seq<usize>, q: Question) -> Question {
    Question {
        measured: placed_span(at, q.measured),
        from: placed_span(at, q.from),
        to: placed_span(at, q.to),
        ..q
    }
}

/// The answers about glyphs that are counted among the shown ones.
pub open spec fn placed_geo(at: Seq<usize>, geo: spec_fn(Question) -> Answer) -> spec_fn(
    Question,
) -> Answer {
    |q: Question| geo(placed_question(at, q))
}

/// The judgements on glyphs that are counted among the shown ones.
pub open spec fn placed_same(at: Seq<usize>, same: spec_fn(usize, usize) -> bool) -> spec_fn(
    usize,
    usize,
) -> bool {
    |a: usize, b: usize| same(at[a as int], at[b as int])
}

proof fn lemma_placed_merge(
    at: Seq<usize>,
    cells: Seq<CellView>,
    i: int,
    j: int,
    wide: bool,
)
    requires
        0 <= i < cells.len(),
        0 <= j < cells.len(),
        i != j,
    ensures
        ({
            let p = placed_cells(at, cells);
            p.update(i, absorbed(p[i], p[j], wide)).update(j, retired(p[j])) == placed_cells(
                at,
                cells.update(i, absorbed(cells[i], cells[j], wide)).update(j, retired(cells[j])),
            )
        }),
{
    let p = placed_cells(at, cells);
    let a = p.update(i, absorbed(p[i], p[j], wide)).update(j, retired(p[j]));
    let b = placed_cells(
        at,
        cells.update(i, absorbed(cells[i], cells[j], wide)).update(j, retired(cells[j])),
    );
    assert forall|k: int| 0 <= k < a.len() implies #[trigger] a[k] == b[k] by {
        assert(a[k] =~= b[k]);
    }
    assert(a =~= b);
}

proof fn lemma_placed_swallowed(
    at: Seq<usize>,
    cells: Seq<CellView>,
    i: int,
    j: int,
    reverse: bool,
    geo: spec_fn(Question) -> Answer,
)
    ensures
        swallowed(placed_cells(at, cells), i, j, reverse, geo) == placed_cells(
            at,
            swallowed(cells, i, j, reverse, placed_geo(at, geo)),
        ),
    decreases cells.len() - j,
{
    let p = placed_cells(at, cells);
    let near = placed_geo(at, geo);
    if 0 <= i < j < cells.len() && may_merge(cells[i], cells[j]) {
        let onward = near(question(cells[i], cells[i], cells[j]));
        let back = near(question(cells[i], cells[j], cells[i]));
        assert(onward == geo(question(p[i], p[i], p[j])));
        assert(back == geo(question(p[i], p[j], p[i])));
        lemma_placed_merge(at, cells, i, j, onward.wide);
        lemma_placed_merge(at, cells, j, i, back.wide);
        if onward.adjacent {
            let next = cells.update(i, absorbed(cells[i], cells[j], onward.wide)).update(
                j,
                retired(cells[j]),
            );
            lemma_placed_swallowed(at, next, i, j + 1, reverse, geo);
        }
    }
}

proof fn lemma_placed_ltr(
    at: Seq<usize>,
    cells: Seq<CellView>,
    n: int,
    reverse: bool,
    geo: spec_fn(Question) -> Answer,
)
    requires
        n <= cells.len(),
    ensures
        ltr_pass(placed_cells(at, cells), n, reverse, geo) == placed_cells(
            at,
            ltr_pass(cells, n, reverse, placed_geo(at, geo)),
        ),
    decreases n,
{
    if n > 0 {
        lemma_placed_ltr(at, cells, n - 1, reverse, geo);
        let before = ltr_pass(cells, n - 1, reverse, placed_geo(at, geo));
        lemma_ltr_len(cells, n - 1, reverse, placed_geo(at, geo));
        assert(placed_cells(at, before)[n - 1].active == before[n - 1].active);
        lemma_placed_swallowed(at, before, n - 1, n, reverse, geo);
    }
}

proof fn lemma_placed_rtl(
    at: Seq<usize>,
    cells: Seq<CellView>,
    n: int,
    geo: spec_fn(Question) -> Answer,
)
    ensures
        rtl_pass(placed_cells(at, cells), n, geo) == placed_cells(
            at,
            rtl_pass(cells, n, placed_geo(at, geo)),
        ),
    decreases n,
{
    if n > 0 {
        lemma_placed_rtl(at, cells, n - 1, geo);
        let before = rtl_pass(cells, n - 1, placed_geo(at, geo));
        let p = placed_cells(at, before);
        let i = cells.len() - n;
        if 0 < i < before.len() && may_merge(before[i], before[i - 1]) {
            let back = placed_geo(at, geo)(question(before[i], before[i - 1], before[i]));
            assert(back == geo(question(p[i], p[i - 1], p[i])));
            lemma_placed_merge(at, before, i - 1, i, back.wide);
        }
    }
}

proof fn lemma_placed_active(at: Seq<usize>, cells: Seq<CellView>)
    ensures
        active_cells(placed_cells(at, cells)) == placed_cells(at, active_cells(cells)),
    decreases cells.len(),
{
    let p = placed_cells(at, cells);
    if cells.len() > 0 {
        assert(p.drop_last() =~= placed_cells(at, cells.drop_last()));
        lemma_placed_active(at, cells.drop_last());
        assert(active_cells(p) =~= placed_cells(at, active_cells(cells)));
    } else {
        assert(active_cells(p) =~= placed_cells(at, active_cells(cells)));
    }
}

proof fn lemma_placed_contracted(
    at: Seq<usize>,
    cells: Seq<CellView>,
    geo: spec_fn(Question) -> Answer,
)
    ensures
        contracted(placed_cells(at, cells), geo) == placed_cells(
            at,
            contracted(cells, placed_geo(at, geo)),
        ),
{
    let near = placed_geo(at, geo);
    lemma_placed_ltr(at, cells, cells.len() as int, false, geo);
    lemma_placed_active(at, ltr_pass(cells, cells.len() as int, false, near));
    let once = after_ltr(cells, false, near);
    lemma_placed_rtl(at, once, once.len() as int, geo);
    lemma_placed_active(at, rtl_pass(once, once.len() as int, near));
    let twice = after_rtl(once, near);
    lemma_placed_ltr(at, twice, twice.len() as int, true, geo);
    lemma_placed_active(at, ltr_pass(twice, twice.len() as int, true, near));
}

/// There are as many places as shown glyphs, and those of the first glyphs come first.
proof fn lemma_places(glyphs: Seq<Glyph>, n: int)
    requires
        0 <= n <= glyphs.len(),
    ensures
        places(glyphs).len() == shown_glyphs(glyphs).len(),
        shown_glyphs(glyphs).len() <= glyphs.len(),
        places(glyphs.take(n)).is_prefix_of(places(glyphs)),
    decreases glyphs.len(),
{
    if n == glyphs.len() {
        assert(glyphs.take(n) =~= glyphs);
        if n > 0 {
            lemma_places(glyphs.drop_last(), n - 1);
        }
    } else {
        lemma_places(glyphs.drop_last(), n);
        assert(glyphs.drop_last().take(n) =~= glyphs.take(n));
        let fewer = places(glyphs.drop_last());
        assert(fewer.is_prefix_of(places(glyphs)));
        assert(places(glyphs.take(n)).is_prefix_of(places(glyphs)));
    }
}

proof fn lemma_placed_glyphs(glyphs: Seq<Glyph>, n: int, same: spec_fn(usize, usize) -> bool)
    requires
        0 <= n <= glyphs.len(),
        glyphs.len() <= usize::MAX,
    ensures
        glyph_cells(glyphs.take(n), same) == placed_cells(
            places(glyphs),
            glyph_cells(shown_glyphs(glyphs.take(n)), placed_same(places(glyphs), same)),
        ),
    decreases n,
{
    let at = places(glyphs);
    let near = placed_same(at, same);
    let part = glyphs.take(n);
    if n == 0 {
        assert(glyph_cells(part, same) =~= placed_cells(at, glyph_cells(shown_glyphs(part), near)));
    } else {
        lemma_placed_glyphs(glyphs, n - 1, same);
        assert(part.drop_last() =~= glyphs.take(n - 1));
        let fewer = shown_glyphs(part.drop_last());
        let g = part.last();
        if shown(g) {
            let kept = shown_glyphs(part);
            let j = fewer.len() as int;
            assert(kept.drop_last() =~= fewer);
            lemma_places(glyphs, n);
            lemma_places(part, n);
            lemma_places(part.drop_last(), n - 1);
            assert(places(part)[j] == (n - 1) as usize);
            assert(at[j] == (n - 1) as usize);
            let inner = glyph_cells(fewer, near);
            let outer = glyph_cells(part.drop_last(), same);
            if inner.len() > 0 {
                assert(outer.last() == placed_cell(at, inner.last()));
                assert(outer.drop_last() =~= placed_cells(at, inner.drop_last()));
                assert(extended_cell(outer.last(), g.ch) =~= placed_cell(
                    at,
                    extended_cell(inner.last(), g.ch),
                ));
            }
            assert(glyph_cell(g, n - 1) =~= placed_cell(at, glyph_cell(g, j)));
            assert(glyph_cells(part, same) =~= placed_cells(at, glyph_cells(kept, near)));
        }
    }
}

proof fn lemma_glyph_cells_len(glyphs: Seq<Glyph>, same: spec_fn(usize, usize) -> bool)
    ensures
        glyph_cells(glyphs, same).len() <= shown_glyphs(glyphs).len(),
        glyph_cells(glyphs, same).len() == 0 <==> shown_glyphs(glyphs).len() == 0,
    decreases glyphs.len(),
{
    if glyphs.len() > 0 {
        lemma_glyph_cells_len(glyphs.drop_last(), same);
    }
}

/// Whether no cell is without text.
pub open spec fn none_empty(cells: Seq<CellView>) -> bool {
    forall|k: int| 0 <= k < cells.len() ==> (#[trigger] cells[k]).text.len() > 0
}

proof fn lemma_merge_none_empty(cells: Seq<CellView>, i: int, j: int, wide: bool)
    requires
        none_empty(cells),
        0 <= i < cells.len(),
        0 <= j < cells.len(),
    ensures
        none_empty(
            cells.update(i, absorbed(cells[i], cells[j], wide)).update(j, retired(cells[j])),
        ),
{
    let after = cells.update(i, absorbed(cells[i], cells[j], wide)).update(j, retired(cells[j]));
    assert(cells[i].text.len() > 0 && cells[j].text.len() > 0);
    assert forall|k: int| 0 <= k < after.len() implies (#[trigger] after[k]).text.len() > 0 by {
        assert(cells[k].text.len() > 0);
    }
}

proof fn lemma_swallowed_none_empty(
    cells: Seq<CellView>,
    i: int,
    j: int,
    reverse: bool,
    geo: spec_fn(Question) -> Answer,
)
    requires
        none_empty(cells),
    ensures
        none_empty(swallowed(cells, i, j, reverse, geo)),
    decreases cells.len() - j,
{
    if 0 <= i < j < cells.len() && may_merge(cells[i], cells[j]) {
        let onward = geo(question(cells[i], cells[i], cells[j]));
        let back = geo(question(cells[i], cells[j], cells[i]));
        lemma_merge_none_empty(cells, i, j, onward.wide);
        lemma_merge_none_empty(cells, j, i, back.wide);
        if onward.adjacent {
            let next = cells.update(i, absorbed(cells[i], cells[j], onward.wide)).update(
                j,
                retired(cells[j]),
            );
            lemma_swallowed_none_empty(next, i, j + 1, reverse, geo);
        }
    }
}

proof fn lemma_ltr_none_empty(
    cells: Seq<CellView>,
    n: int,
    reverse: bool,
    geo: spec_fn(Question) -> Answer,
)
    requires
        none_empty(cells),
    ensures
        none_empty(ltr_pass(cells, n, reverse, geo)),
    decreases n,
{
    if n > 0 {
        lemma_ltr_none_empty(cells, n - 1, reverse, geo);
        let before = ltr_pass(cells, n - 1, reverse, geo);
        lemma_swallowed_none_empty(before, n - 1, n, reverse, geo);
    }
}

proof fn lemma_rtl_none_empty(cells: Seq<CellView>, n: int, geo: spec_fn(Question) -> Answer)
    requires
        none_empty(cells),
    ensures
        none_empty(rtl_pass(cells, n, geo)),
    decreases n,
{
    if n > 0 {
        lemma_rtl_none_empty(cells, n - 1, geo);
        let before = rtl_pass(cells, n - 1, geo);
        let i = cells.len() - n;
        if 0 < i < before.len() && may_merge(before[i], before[i - 1]) {
            let back = geo(question(before[i], before[i - 1], before[i]));
            lemma_merge_none_empty(before, i - 1, i, back.wide);
        }
    }
}

proof fn lemma_active_none_empty(cells: Seq<CellView>)
    requires
        none_empty(cells),
    ensures
        none_empty(active_cells(cells)),
    decreases cells.len(),
{
    if cells.len() > 0 {
        let fewer = cells.drop_last();
        assert forall|k: int| 0 <= k < fewer.len() implies (#[trigger] fewer[k]).text.len()
            > 0 by {
            assert(cells[k].text.len() > 0);
        }
        lemma_active_none_empty(fewer);
        assert(cells[cells.len() - 1].text.len() > 0);
    }
}

proof fn lemma_contracted_none_empty(cells: Seq<CellView>, geo: spec_fn(Question) -> Answer)
    requires
        none_empty(cells),
    ensures
        none_empty(contracted(cells, geo)),
{
    lemma_ltr_none_empty(cells, cells.len() as int, false, geo);
    lemma_active_none_empty(ltr_pass(cells, cells.len() as int, false, geo));
    let once = after_ltr(cells, false, geo);
    lemma_rtl_none_empty(once, once.len() as int, geo);
    lemma_active_none_empty(rtl_pass(once, once.len() as int, geo));
    let twice = after_rtl(once, geo);
    lemma_ltr_none_empty(twice, twice.len() as int, true, geo);
    lemma_active_none_empty(ltr_pass(twice, twice.len() as int, true, geo));
}

proof fn lemma_shown_text(glyphs: Seq<Glyph>)
    ensures
        shown_text(shown_glyphs(glyphs)) == shown_text(glyphs),
        forall|k: int|
            0 <= k < shown_glyphs(glyphs).len() ==> shown(#[trigger] shown_glyphs(glyphs)[k]),
    decreases glyphs.len(),
{
    if glyphs.len() > 0 {
        lemma_shown_text(glyphs.drop_last());
        if shown(glyphs.last()) {
            assert(shown_glyphs(glyphs).drop_last() =~= shown_glyphs(glyphs.drop_last()));
        }
    }
}

/// The lines of glyphs are those of the glyphs that are shown: leaving the others out changes
/// nothing but how the glyphs are counted. There are no more lines than such glyphs, none exactly
/// where there is no such glyph, and none without text. They hold every character as often as those
/// glyphs do, but for spaces, of which there are at most as many more as there are fewer lines than
/// such glyphs.
pub proof fn law_only_shown_glyphs_count(
    glyphs: Seq<Glyph>,
    same: spec_fn(usize, usize) -> bool,
    geo: spec_fn(Question) -> Answer,
)
    requires
        glyphs.len() <= usize::MAX,
    ensures
        ({
            let kept = shown_glyphs(glyphs);
            let at = places(glyphs);
            let lines = contracted(glyph_cells(glyphs, same), geo);
            &&& lines == placed_cells(
                at,
                contracted(glyph_cells(kept, placed_same(at, same)), placed_geo(at, geo)),
            )
            &&& at.len() == kept.len()
            &&& lines.len() <= kept.len()
            &&& lines.len() == 0 <==> kept.len() == 0
            &&& none_empty(lines)
            &&& forall|c: char|
                c != ' ' ==> #[trigger] total(lines, c) == occurrences(shown_text(kept), c)
            &&& occurrences(shown_text(kept), ' ') <= total(lines, ' ') <= occurrences(
                shown_text(kept),
                ' ',
            ) + (kept.len() - lines.len())
        }),
{
    let kept = shown_glyphs(glyphs);
    let at = places(glyphs);
    let cells = glyph_cells(glyphs, same);
    let lines = contracted(cells, geo);
    assert(glyphs.take(glyphs.len() as int) =~= glyphs);
    lemma_places(glyphs, glyphs.len() as int);
    lemma_placed_glyphs(glyphs, glyphs.len() as int, same);
    lemma_placed_contracted(at, glyph_cells(kept, placed_same(at, same)), geo);
    lemma_glyph_cells_len(glyphs, same);
    lemma_shown_text(glyphs);
    law_cells_spell_the_glyphs(glyphs, same);
    law_contraction_keeps_the_text(cells, geo);
    law_lines_keep_the_glyphs(glyphs, same, geo);
    lemma_total_of_active(cells, ' ');
    lemma_contracted_none_empty(cells, geo);
}

// ---------------------------------------------------------------- ends of pieces

proof fn lemma_swallowed_ends(
    cells: Seq<CellView>,
    i: int,
    j: int,
    reverse: bool,
    geo: spec_fn(Question) -> Answer,
    known: Set<usize>,
)
    requires
        ends_in(cells, known),
    ensures
        ends_in(swallowed(cells, i, j, reverse, geo), known),
    decreases cells.len() - j,
{
    if 0 <= i < j < cells.len() && may_merge(cells[i], cells[j]) {
        let onward = geo(question(cells[i], cells[i], cells[j]));
        let back = geo(question(cells[i], cells[j], cells[i]));
        lemma_merge_ends(cells, i, j, onward.wide, known);
        lemma_merge_ends(cells, j, i, back.wide, known);
        if onward.adjacent {
            let next = cells.update(i, absorbed(cells[i], cells[j], onward.wide)).update(
                j,
                retired(cells[j]),
            );
            lemma_swallowed_ends(next, i, j + 1, reverse, geo, known);
        }
    }
}

proof fn lemma_ltr_ends(
    cells: Seq<CellView>,
    n: int,
    reverse: bool,
    geo: spec_fn(Question) -> Answer,
    known: Set<usize>,
)
    requires
        ends_in(cells, known),
    ensures
        ends_in(ltr_pass(cells, n, reverse, geo), known),
    decreases n,
{
    if n > 0 {
        lemma_ltr_ends(cells, n - 1, reverse, geo, known);
        let before = ltr_pass(cells, n - 1, reverse, geo);
        lemma_swallowed_ends(before, n - 1, n, reverse, geo, known);
    }
}

proof fn lemma_rtl_ends(
    cells: Seq<CellView>,
    n: int,
    geo: spec_fn(Question) -> Answer,
    known: Set<usize>,
)
    requires
        ends_in(cells, known),
    ensures
        ends_in(rtl_pass(cells, n, geo), known),
    decreases n,
{
    if n > 0 {
        lemma_rtl_ends(cells, n - 1, geo, known);
        let before = rtl_pass(cells, n - 1, geo);
        let i = cells.len() - n;
        if 0 < i < before.len() && may_merge(before[i], before[i - 1]) {
            let back = geo(question(before[i], before[i - 1], before[i]));
            lemma_merge_ends(before, i - 1, i, back.wide, known);
        }
    }
}

/// Merging brings no other glyph to the end of a cell: whatever glyphs the ends of cells are, those
/// are the ends of what they are merged into.
pub proof fn law_merging_keeps_to_the_ends(
    cells: Seq<CellView>,
    geo: spec_fn(Question) -> Answer,
    known: Set<usize>,
)
    requires
        ends_in(cells, known),
    ensures
        ends_in(contracted(cells, geo), known),
{
    lemma_ltr_ends(cells, cells.len() as int, false, geo, known);
    lemma_active_ends(ltr_pass(cells, cells.len() as int, false, geo), known);
    let once = after_ltr(cells, false, geo);
    lemma_rtl_ends(once, once.len() as int, geo, known);
    lemma_active_ends(rtl_pass(once, once.len() as int, geo), known);
    let twice = after_rtl(once, geo);
    lemma_ltr_ends(twice, twice.len() as int, true, geo, known);
    lemma_active_ends(ltr_pass(twice, twice.len() as int, true, geo), known);
}

/// Both ends of every piece of a line are glyphs that were handed in and that are shown.
pub proof fn law_pieces_end_in_shown_glyphs(
    glyphs: Seq<Glyph>,
    same: spec_fn(usize, usize) -> bool,
    geo: spec_fn(Question) -> Answer,
)
    requires
        glyphs.len() <= usize::MAX,
    ensures
        ({
            let lines = contracted(glyph_cells(glyphs, same), geo);
            forall|k: int|
                0 <= k < lines.len() ==> {
                    &&& (#[trigger] lines[k]).span.first < glyphs.len()
                    &&& lines[k].span.last < glyphs.len()
                    &&& shown(glyphs[lines[k].span.first as int])
                    &&& shown(glyphs[lines[k].span.last as int])
                }
        }),
{
    let known = shown_at(glyphs);
    let lines = contracted(glyph_cells(glyphs, same), geo);
    assert(glyphs.take(glyphs.len() as int) =~= glyphs);
    lemma_glyph_ends(glyphs, glyphs.len() as int, same);
    law_merging_keeps_to_the_ends(glyph_cells(glyphs, same), geo, known);
    assert forall|k: int| 0 <= k < lines.len() implies {
        &&& (#[trigger] lines[k]).span.first < glyphs.len()
        &&& lines[k].span.last < glyphs.len()
        &&& shown(glyphs[lines[k].span.first as int])
        &&& shown(glyphs[lines[k].span.last as int])
    } by {
        assert(span_in(lines[k].span, known));
    }
}

} // verus!
