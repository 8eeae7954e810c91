//! What the parts of the screen show, whatever is shown.

use super::parts;
use super::parts::{Area, DrawnCell, EdgeFill};
use super::screen;
use super::screen::{RowsWanted, Screen};
use crate::ansi;
use crate::ansi::written;
use crate::app::{AppState, BlockedSurface, StatusLine};
use crate::composer::ComposerAccess;
use crate::markdown;
use crate::style;
use crate::text;
use crate::ui::draft::DraftView;
use crate::ui::history::{HistoryRenderCache, HyperlinkArea};
use crate::ui::visual_rows::block::TurnInput;
use crate::ui::visual_rows::block;
use crate::ui::visual_rows::cells;
use crate::ui::visual_rows::document;
use crate::ui::visual_rows::rows;
use crate::ui::visual_rows::rows::{CellStyle, RowView, SpanView};
use crate::ui::visual_rows::wrap;
use crate::width;
use vstd::prelude::*;

verus! {

// ---------------------------------------------------------------------------
// Areas
// ---------------------------------------------------------------------------

/// What lies between the gutters leaves one column free at either side.
pub proof fn lemma_gutters_are_one_column(area: Area)
    requires
        area.x + area.width <= 65535,
    ensures
        ({
            let inner = parts::content_area(area);
            &&& inner.y == area.y && inner.height == area.height
            &&& area.width >= 2 ==> inner.x == area.x + 1 && inner.x + inner.width + 1 == area.x
                + area.width
            &&& area.width < 2 ==> inner.width == 0
        }),
{
}

/// The composer holds all its rows and the rule above them, unless that takes more than
/// two fifths of the screen: then it takes as many rows as those hold. It never has
/// fewer than three.
pub proof fn lemma_composer_takes_two_fifths_at_most(content_rows: int, screen_height: int)
    requires
        0 <= content_rows,
        0 <= screen_height,
    ensures
        ({
            let height = parts::composer_box(content_rows, screen_height);
            &&& height >= 3
            &&& height == 3 || 5 * height <= 2 * screen_height
            &&& height == 3 || height <= content_rows + 1
            &&& height < content_rows + 1 ==> 5 * (height + 1) > 2 * screen_height
        }),
{
}

/// The cursor stands where its row and its column are, and never outside the composer.
pub proof fn lemma_cursor_stands_in_the_composer(
    area: Area,
    content_row: int,
    column: int,
    scroll: int,
)
    requires
        area.x + area.width <= 65535,
        area.y + area.height <= 65535,
        area.width > 0,
        area.height > 1,
        0 <= column,
        0 <= scroll <= content_row,
    ensures
        ({
            let (x, y) = parts::cursor_cell(area, content_row, column, scroll);
            &&& area.x <= x < area.x + area.width
            &&& area.y < y < area.y + area.height
            &&& column < area.width ==> x - area.x == column
            &&& content_row - scroll < area.height - 1 ==> y - area.y - 1 == content_row - scroll
        }),
{
}

// ---------------------------------------------------------------------------
// Texts
// ---------------------------------------------------------------------------

/// A field behind a dot, where there is one.
pub open spec fn behind_a_dot(field: Option<String>) -> Seq<char> {
    match field {
        Some(value) => " · "@ + value@,
        None => Seq::empty(),
    }
}

/// How far back the view stands, where it does.
pub open spec fn far_back(scrolled_rows: nat) -> Seq<char> {
    if scrolled_rows > 0 {
        "↑ "@ + text::decimal_text(scrolled_rows) + " rows · Shift+End for the latest"@ + " · "@
    } else {
        Seq::empty()
    }
}

proof fn lemma_first_field(scrolled_rows: nat, field: Seq<char>)
    ensures
        ({
            let first: Seq<Seq<char>> = if scrolled_rows > 0 {
                seq!["↑ "@ + text::decimal_text(scrolled_rows) + " rows · Shift+End for the latest"@]
            } else {
                Seq::empty()
            };
            parts::dotted(first.push(field), first.len() as int + 1) == far_back(scrolled_rows)
                + field
        }),
{
    let first: Seq<Seq<char>> = if scrolled_rows > 0 {
        seq!["↑ "@ + text::decimal_text(scrolled_rows) + " rows · Shift+End for the latest"@]
    } else {
        Seq::empty()
    };
    lemma_dotted_push(first, field);
    if scrolled_rows == 0 {
        assert(far_back(scrolled_rows) + field =~= field);
    }
}

/// The footer says first how far back the view stands, where it does; then the agent, the
/// model, the directory, the branch and the usage, as far as they are known, with a dot
/// between any two.
pub proof fn lemma_footer_reads_in_order(status: Option<StatusLine>, scrolled_rows: nat)
    ensures
        parts::footer_text(status, scrolled_rows) == (match status {
            None => far_back(scrolled_rows) + "Simple Prompts · prefix+m to return"@,
            Some(line) => far_back(scrolled_rows) + line.agent@ + behind_a_dot(line.model) + " · "@
                + line.cwd@ + behind_a_dot(line.branch) + behind_a_dot(line.usage),
        }),
{
    let first: Seq<Seq<char>> = if scrolled_rows > 0 {
        seq!["↑ "@ + text::decimal_text(scrolled_rows) + " rows · Shift+End for the latest"@]
    } else {
        Seq::empty()
    };
    match status {
        None => {
            lemma_first_field(scrolled_rows, "Simple Prompts · prefix+m to return"@);
        },
        Some(line) => {
            let f1 = first.push(line.agent@);
            let f2 = parts::with_field(f1, line.model);
            let f3 = f2.push(line.cwd@);
            let f4 = parts::with_field(f3, line.branch);
            lemma_first_field(scrolled_rows, line.agent@);
            lemma_dotted_field(f1, line.model);
            lemma_dotted_push(f2, line.cwd@);
            lemma_dotted_field(f3, line.branch);
            lemma_dotted_field(f4, line.usage);
        },
    }
}

proof fn lemma_dotted_prefix(a: Seq<Seq<char>>, b: Seq<Seq<char>>, n: int)
    requires
        0 <= n <= a.len(),
        n <= b.len(),
        forall|i: int| 0 <= i < n ==> #[trigger] a[i] == b[i],
    ensures
        parts::dotted(a, n) == parts::dotted(b, n),
    decreases n,
{
    if n > 1 {
        lemma_dotted_prefix(a, b, n - 1);
        assert(a[n - 1] == b[n - 1]);
    } else if n == 1 {
        assert(a[0] == b[0]);
    }
}

proof fn lemma_dotted_push(fields: Seq<Seq<char>>, field: Seq<char>)
    ensures
        parts::dotted(fields.push(field), fields.len() as int + 1) == (if fields.len() == 0 {
            field
        } else {
            parts::dotted(fields, fields.len() as int) + " · "@ + field
        }),
{
    lemma_dotted_prefix(fields, fields.push(field), fields.len() as int);
}

proof fn lemma_dotted_field(fields: Seq<Seq<char>>, field: Option<String>)
    requires
        fields.len() > 0,
    ensures
        ({
            let after = parts::with_field(fields, field);
            &&& after.len() > 0
            &&& parts::dotted(after, after.len() as int) == parts::dotted(
                fields,
                fields.len() as int,
            ) + behind_a_dot(field)
        }),
{
    match field {
        Some(value) => {
            lemma_dotted_push(fields, value@);
            assert(parts::dotted(fields, fields.len() as int) + " · "@ + value@
                =~= parts::dotted(fields, fields.len() as int) + behind_a_dot(field));
        },
        None => {
            assert(parts::dotted(fields, fields.len() as int) =~= parts::dotted(
                fields,
                fields.len() as int,
            ) + behind_a_dot(field));
        },
    }
}

/// A composer that may be written to shows no warning, and neither does one that takes no
/// input at all; any other shows one, and each its own.
pub proof fn lemma_guard_is_shown_where_needed(app: AppState)
    ensures
        parts::guard_text(app) is None <==> !app.input_enabled || app.access() is Ready,
        app.input_enabled && app.access() is Occupied ==> parts::guard_text(app) == Some(
            "Native composer contains unsent input · prefix+m to return"@,
        ),
        app.input_enabled && app.access() is Unknown ==> parts::guard_text(app) == Some(
            "Unable to verify native composer · prefix+m to return"@,
        ),
{
}

/// What is waited for is named while anything is, the asked for action before the work of
/// the agent; with the whole seconds since it began.
pub proof fn lemma_wait_is_counted(app: AppState, now_ms: u64)
    ensures
        parts::note_text(app, now_ms) is None <==> app.pending_action is None
            && !(app.agent_status is Working),
        app.pending_action matches Some(pending) ==> exists|n: nat|
            {
                &&& parts::note_text(app, now_ms) == Some(
                    pending.label@ + " ("@ + #[trigger] text::decimal_text(n) + "s)…"@,
                )
                &&& now_ms >= pending.since_ms ==> 1000 * n <= now_ms - pending.since_ms < 1000 * n
                    + 1000
                &&& now_ms < pending.since_ms ==> n == 0
            },
        app.pending_action is None && app.agent_status is Working ==> exists|n: nat|
            {
                &&& parts::note_text(app, now_ms) == Some(
                    "Working ("@ + #[trigger] text::decimal_text(n) + "s · esc to interrupt)"@,
                )
                &&& app.working_since_ms matches Some(since) ==> (now_ms >= since ==> 1000 * n
                    <= now_ms - since < 1000 * n + 1000)
                &&& app.working_since_ms is None ==> n == 0
            },
{
    if let Some(pending) = app.pending_action {
        let n = parts::seconds_since(pending.since_ms, now_ms);
        assert(parts::note_text(app, now_ms) == Some(
            pending.label@ + " ("@ + text::decimal_text(n) + "s)…"@,
        ));
    } else if app.agent_status is Working {
        let n = match app.working_since_ms {
            Some(since) => parts::seconds_since(since, now_ms),
            None => 0,
        };
        assert(parts::note_text(app, now_ms) == Some(
            "Working ("@ + text::decimal_text(n) + "s · esc to interrupt)"@,
        ));
    }
}

// ---------------------------------------------------------------------------
// Styles over one another
// ---------------------------------------------------------------------------

/// A style over another: over nothing it is what it is, nothing over it changes it, what
/// it sets wins, and it takes no modifier away. Three of them stack up either way.
pub proof fn lemma_styles_stack(base: CellStyle, over: CellStyle, top: CellStyle)
    ensures
        parts::merged(rows::plain_cell(), over) == over,
        parts::merged(base, rows::plain_cell()) == base,
        over.foreground is Some ==> parts::merged(base, over).foreground == over.foreground,
        over.background is Some ==> parts::merged(base, over).background == over.background,
        over.foreground is None ==> parts::merged(base, over).foreground == base.foreground,
        over.background is None ==> parts::merged(base, over).background == base.background,
        parts::merged(parts::merged(base, over), top) == parts::merged(
            base,
            parts::merged(over, top),
        ),
        parts::merged(base, over).modifiers == parts::merged(over, base).modifiers,
        parts::merged(base, base) == base,
{
}

// ---------------------------------------------------------------------------
// The thumb
// ---------------------------------------------------------------------------

/// The thumb takes the share of the track that the view takes of the history, one cell at
/// least. It stands at the end of the track where the latest is read, at its start where
/// the oldest is, and never moves down on the way up.
pub proof fn lemma_thumb_shows_the_place(
    track: int,
    scrolled: int,
    further: int,
    scrollable: int,
)
    requires
        0 < track <= 65535,
        0 < scrollable,
        0 <= scrolled <= further,
    ensures
        ({
            let n = parts::thumb_len(track, scrollable);
            &&& n == 1 || n * (track + scrollable) <= track * track
            &&& track * track < (n + 1) * (track + scrollable)
            &&& parts::thumb_top(track, 0, scrollable) + n == track
            &&& scrolled >= scrollable ==> parts::thumb_top(track, scrolled, scrollable) == 0
            &&& parts::thumb_top(track, further, scrollable) <= parts::thumb_top(
                track,
                scrolled,
                scrollable,
            )
        }),
{
    let n = parts::thumb_len(track, scrollable);
    let all = track + scrollable;
    let square = track * track;
    let share = square / all;
    assert(share * all <= square < (share + 1) * all) by (nonlinear_arith)
        requires
            all > 0,
            share == square / all,
    ;
    assert(0 <= square) by (nonlinear_arith)
        requires
            square == track * track,
    ;
    assert(0 <= share) by (nonlinear_arith)
        requires
            share == square / all,
            square >= 0,
            all > 0,
    ;
    assert(square < track * all) by (nonlinear_arith)
        requires
            square == track * track,
            all == track + scrollable,
            track > 0,
            scrollable > 0,
    ;
    assert(share < track) by (nonlinear_arith)
        requires
            share * all <= square,
            square < track * all,
            all > 0,
    ;
    if share < 1 {
        assert(share == 0 && n == 1);
        assert(square < (n + 1) * all) by (nonlinear_arith)
            requires
                square < (share + 1) * all,
                share == 0,
                n == 1,
                all > 0,
        ;
    } else {
        assert(n == share);
    }
    let travel = track - n;
    assert(scrollable * travel / scrollable == travel) by (nonlinear_arith)
        requires
            scrollable > 0,
    ;
    if scrolled >= scrollable {
        assert(0 * travel / scrollable == 0) by (nonlinear_arith)
            requires
                scrollable > 0,
        ;
    }
    let above = if scrolled < scrollable { scrollable - scrolled } else { 0 };
    let less = if further < scrollable { scrollable - further } else { 0 };
    assert(0 <= travel);
    assert(less * travel <= above * travel) by (nonlinear_arith)
        requires
            less <= above,
            0 <= travel,
    ;
    let a = less * travel;
    let b = above * travel;
    assert(a / scrollable <= b / scrollable) by (nonlinear_arith)
        requires
            a <= b,
            scrollable > 0,
    ;
}

// ---------------------------------------------------------------------------
// Rows as they are drawn
// ---------------------------------------------------------------------------

proof fn lemma_cells_over_a_fill(spans: Seq<SpanView>, over: Seq<SpanView>, fill: CellStyle)
    requires
        spans.len() == over.len(),
        forall|i: int|
            0 <= i < spans.len() ==> (#[trigger] over[i]).text == spans[i].text && over[i].style
                == parts::merged(fill, spans[i].style) && over[i].hyperlink == spans[i].hyperlink,
    ensures
        ({
            let a = cells::spans_cells(spans);
            let b = cells::spans_cells(over);
            &&& a.len() == b.len()
            &&& forall|j: int|
                0 <= j < a.len() ==> (#[trigger] b[j]) == cells::cell(
                    a[j].character,
                    parts::merged(fill, a[j].style),
                    a[j].link,
                )
        }),
    decreases spans.len(),
{
    if spans.len() > 0 {
        lemma_cells_over_a_fill(spans.drop_last(), over.drop_last(), fill);
        let a = cells::spans_cells(spans);
        let b = cells::spans_cells(over);
        let n = cells::spans_cells(spans.drop_last()).len();
        assert(over[over.len() - 1].text == spans[spans.len() - 1].text);
        assert forall|j: int| 0 <= j < a.len() implies (#[trigger] b[j]) == cells::cell(
            a[j].character,
            parts::merged(fill, a[j].style),
            a[j].link,
        ) by {
            if j < n {
                assert(a[j] == cells::spans_cells(spans.drop_last())[j]);
                assert(b[j] == cells::spans_cells(over.drop_last())[j]);
            } else {
                assert(a[j] == cells::span_cells(spans.last())[j - n]);
                assert(b[j] == cells::span_cells(over.last())[j - n]);
            }
        }
    }
}

/// A row is drawn with each of its cells over its band, and the band reaches up to the
/// width of the row. Nothing is drawn behind a row that has no band.
pub proof fn lemma_row_is_drawn_over_its_band(row: RowView, width: nat)
    ensures
        ({
            let own = cells::spans_cells(row.spans);
            let all = cells::spans_cells(parts::drawn(row, width).spans);
            let used = wrap::text_width(rows::plain_of(row));
            &&& all.len() == own.len() + (if row.fill is Some && used < width {
                width - used
            } else {
                0
            })
            &&& forall|j: int|
                0 <= j < own.len() ==> (#[trigger] all[j]) == cells::cell(
                    own[j].character,
                    match row.fill {
                        Some(fill) => parts::merged(fill, own[j].style),
                        None => own[j].style,
                    },
                    own[j].link,
                )
            &&& row.fill matches Some(fill) ==> forall|j: int|
                own.len() <= j < all.len() ==> (#[trigger] all[j]) == cells::cell(' ', fill, None)
        }),
{
    let own = cells::spans_cells(row.spans);
    let shown = parts::drawn(row, width);
    let over = parts::filled_spans(row);
    let all = cells::spans_cells(shown.spans);
    lemma_cells_over_a_fill(row.spans, over, parts::fill_of(row));
    let base = cells::spans_cells(over);
    assert forall|j: int| 0 <= j < own.len() && row.fill is None implies parts::merged(
        parts::fill_of(row),
        (#[trigger] own[j]).style,
    ) == own[j].style by {
        lemma_styles_stack(own[j].style, own[j].style, own[j].style);
    }
    let used = wrap::text_width(rows::plain_of(row));
    if row.fill is Some && used < width {
        assert(shown.spans.drop_last() =~= over);
        assert forall|j: int| 0 <= j < own.len() implies #[trigger] all[j] == base[j] by {}
        assert forall|j: int| own.len() <= j < all.len() implies (#[trigger] all[j]) == cells::cell(
            ' ',
            row.fill.unwrap(),
            None,
        ) by {
            assert(all[j] == cells::span_cells(shown.spans.last())[j - own.len()]);
        }
    } else {
        assert(shown.spans =~= over);
    }
}

/// The bands that reach over the gutters are those of the rows on the screen: each stands
/// beside its row, and they come from the top down.
pub proof fn lemma_bands_stand_beside_their_rows(v: Seq<RowView>, area: Area, n: int)
    requires
        0 <= n <= v.len(),
    ensures
        ({
            let bands = parts::edge_fills_upto(v, area, n);
            &&& forall|k: int|
                0 <= k < bands.len() ==> band_of_a_row(#[trigger] bands[k], v, area, n)
            &&& forall|i: int|
                0 <= i < n && (#[trigger] v[i]).fill is Some && area.y + i < parts::saturated(
                    area.y + area.height,
                ) ==> exists|k: int|
                    0 <= k < bands.len() && (#[trigger] bands[k]).y == area.y + i && Some(
                        bands[k].style,
                    ) == v[i].fill
            &&& forall|j: int, k: int|
                0 <= j < k < bands.len() ==> (#[trigger] bands[j]).y < (#[trigger] bands[k]).y
        }),
    decreases n,
{
    if n > 0 {
        lemma_bands_stand_beside_their_rows(v, area, n - 1);
        let before = parts::edge_fills_upto(v, area, n - 1);
        let bands = parts::edge_fills_upto(v, area, n);
        assert forall|k: int| 0 <= k < bands.len() implies band_of_a_row(
            #[trigger] bands[k],
            v,
            area,
            n,
        ) by {
            if k < before.len() {
                assert(bands[k] == before[k]);
                assert(band_of_a_row(before[k], v, area, n - 1));
            }
        }
        assert forall|i: int|
            0 <= i < n && (#[trigger] v[i]).fill is Some && area.y + i < parts::saturated(
                area.y + area.height,
            ) implies exists|k: int|
            0 <= k < bands.len() && (#[trigger] bands[k]).y == area.y + i && Some(bands[k].style)
                == v[i].fill by {
            if i < n - 1 {
                let k = choose|k: int|
                    0 <= k < before.len() && (#[trigger] before[k]).y == area.y + i && Some(
                        before[k].style,
                    ) == v[i].fill;
                assert(bands[k] == before[k]);
            } else {
                assert(bands[before.len() as int].y == area.y + i);
            }
        }
        assert forall|j: int, k: int| 0 <= j < k < bands.len() implies (#[trigger] bands[j]).y < (
        #[trigger] bands[k]).y by {
            assert(bands[j] == before[j]);
            assert(band_of_a_row(before[j], v, area, n - 1));
            if k < before.len() {
                assert(bands[k] == before[k]);
            }
        }
    }
}

/// Whether a band is that of one of the first `n` rows, and on the screen.
pub open spec fn band_of_a_row(band: EdgeFill, v: Seq<RowView>, area: Area, n: int) -> bool {
    let i = band.y - area.y;
    &&& 0 <= i < n
    &&& v[i].fill == Some(band.style)
    &&& band.y < parts::saturated(area.y + area.height)
}

// ---------------------------------------------------------------------------
// The draft
// ---------------------------------------------------------------------------

proof fn lemma_characters_before_a_boundary(s: Seq<char>, byte: int, i: int, n: int)
    requires
        0 <= i <= n <= s.len(),
        text::byte_at(s, i) == byte,
    ensures
        wrap::chars_before(s, byte, n) == i,
    decreases n,
{
    if n > i {
        text::lemma_byte_at_monotone(s, i, n - 1);
        lemma_characters_before_a_boundary(s, byte, i, n - 1);
    } else if n > 0 {
        text::lemma_byte_at_monotone(s, n - 1, n);
    }
}

/// A row of the draft reads as it is, and is drawn plainly but for the characters of the
/// image that the cursor stands on: those are reversed, and no others.
pub proof fn lemma_image_is_picked_out(
    row: Seq<char>,
    row_start: int,
    highlight: Option<(usize, usize)>,
    j: int,
)
    requires
        0 <= row_start,
        0 <= j < row.len(),
        highlight matches Some((from, to)) ==> {
            &&& from <= row_start || style::on_boundary(row, from - row_start)
            &&& to <= row_start || to - row_start >= text::byte_len(row) || style::on_boundary(
                row,
                to - row_start,
            )
        },
    ensures
        ({
            let drawn = cells::spans_cells(
                parts::highlighted_row(row, row_start, highlight).spans,
            );
            let byte = row_start + text::byte_at(row, j);
            let picked = highlight matches Some((from, to)) && from <= byte < to;
            &&& drawn.len() == row.len()
            &&& drawn[j].character == row[j]
            &&& drawn[j].link is None
            &&& drawn[j].style.foreground is None && drawn[j].style.background is None
            &&& drawn[j].style.modifiers == (style::StyleModifiers {
                reverse: picked,
                ..style::no_modifiers()
            })
        }),
{
    let shown = parts::highlighted_row(row, row_start, highlight);
    let drawn = cells::spans_cells(shown.spans);
    text::lemma_byte_at_ends(row);
    text::lemma_byte_at_monotone(row, 0, j);
    text::lemma_byte_at_step(row, j);
    text::lemma_byte_at_monotone(row, j, j + 1);
    text::lemma_byte_at_monotone(row, j + 1, row.len() as int);
    assert(style::on_boundary(row, 0)) by {
        assert(text::byte_at(row, 0) == 0);
    }
    assert(style::on_boundary(row, text::byte_len(row) as int)) by {
        assert(text::byte_at(row, row.len() as int) == text::byte_len(row));
    }
    if shown.spans.len() == 3 {
        let (from, to) = highlight.unwrap();
        let start = if from < row_start { 0 } else { from - row_start };
        let end = if to - row_start < text::byte_len(row) {
            to - row_start
        } else {
            text::byte_len(row) as int
        };
        let a = choose|i: int| 0 <= i <= row.len() && #[trigger] text::byte_at(row, i) == start;
        let b = choose|i: int| 0 <= i <= row.len() && #[trigger] text::byte_at(row, i) == end;
        lemma_characters_before_a_boundary(row, start, a, row.len() as int);
        lemma_characters_before_a_boundary(row, end, b, row.len() as int);
        if b < a {
            text::lemma_byte_at_monotone(row, b, a);
        }
        lemma_three_spans(shown.spans);
        if j < a {
            text::lemma_byte_at_monotone(row, j + 1, a);
        } else if j < b {
            text::lemma_byte_at_monotone(row, a, j);
            text::lemma_byte_at_monotone(row, j + 1, b);
        } else {
            text::lemma_byte_at_monotone(row, b, j);
        }
    } else {
        assert(shown == parts::one_span(row, rows::plain_cell()));
        lemma_one_span(shown.spans);
    }
}

proof fn lemma_one_span(spans: Seq<SpanView>)
    requires
        spans.len() == 1,
    ensures
        cells::spans_cells(spans) == cells::span_cells(spans[0]),
{
    assert(spans.drop_last() =~= Seq::<SpanView>::empty());
    assert(cells::spans_cells(spans.drop_last()) =~= Seq::<cells::CellView>::empty());
    assert(cells::spans_cells(spans) =~= cells::span_cells(spans[0]));
}

proof fn lemma_three_spans(spans: Seq<SpanView>)
    requires
        spans.len() == 3,
    ensures
        cells::spans_cells(spans) == cells::span_cells(spans[0]) + cells::span_cells(spans[1])
            + cells::span_cells(spans[2]),
{
    let two = spans.drop_last();
    let one = two.drop_last();
    lemma_one_span(one);
    assert(cells::spans_cells(two) == cells::spans_cells(one) + cells::span_cells(spans[1]));
}

// ---------------------------------------------------------------------------
// Links
// ---------------------------------------------------------------------------

/// What opens a link in the terminal shows its text there and nothing else.
pub proof fn lemma_link_shows_its_text(patch: parts::PatchView)
    requires
        markdown::safe_url(patch.url),
        forall|i: int| 0 <= i < patch.text.len() ==> !text::control(#[trigger] patch.text[i]),
    ensures
        ansi::visible(parts::link_symbol(patch)) == patch.text,
{
    let plain = style::plain_style();
    reveal_strlit("\x1b]8;;");
    reveal_strlit("\x07");
    reveal_strlit("\x1b]8;;\x07");
    let open = seq!['8', ';', ';'] + patch.url;
    let close = seq!['8', ';', ';'];
    let tail = seq!['\x1b', ']'] + close + seq!['\x07'] + Seq::<char>::empty();
    let s = parts::link_symbol(patch);
    assert(s =~= seq!['\x1b', ']'] + open + seq!['\x07'] + (patch.text + tail));
    assert forall|k: int| 0 <= k < open.len() implies #[trigger] open[k] != '\x1b' && open[k]
        != '\x07' by {
        if k >= 3 {
            assert(!text::control(patch.url[k - 3]));
        }
    }
    written::lemma_string_is_skipped(']', open, true, patch.text + tail, 0, plain);
    lemma_text_then_link_end(patch.text, close, tail, 0);
    let shown = ansi::cells(s);
    assert(ansi::visible(s) =~= patch.text);
}

proof fn lemma_text_then_link_end(t: Seq<char>, close: Seq<char>, tail: Seq<char>, column: nat)
    requires
        forall|i: int| 0 <= i < t.len() ==> !text::control(#[trigger] t[i]),
        close == seq!['8', ';', ';'],
        tail == seq!['\x1b', ']'] + close + seq!['\x07'] + Seq::<char>::empty(),
    ensures
        ansi::cells_from(t + tail, 0, column, style::plain_style()) == Seq::new(
            t.len(),
            |i: int| (t[i], style::plain_style()),
        ),
    decreases t.len(),
{
    let plain = style::plain_style();
    let want = Seq::new(t.len(), |i: int| (t[i], plain));
    if t.len() == 0 {
        assert(t + tail =~= tail);
        written::lemma_string_is_skipped(']', close, true, Seq::empty(), column, plain);
        assert(ansi::cells_from(t + tail, 0, column, plain) =~= want);
    } else {
        let rest = t.skip(1);
        let next = (column + width::cell_width(t[0])) % 8;
        assert(t + tail =~= seq![t[0]] + (rest + tail));
        written::lemma_character_is_shown(t[0], rest + tail, column, plain);
        lemma_text_then_link_end(rest, close, tail, next);
        assert(ansi::cells_from(t + tail, 0, column, plain) =~= want);
    }
}

proof fn lemma_prefix_opens(prefix: Seq<char>, s: Seq<char>)
    requires
        prefix.len() > 0,
    ensures
        prefix.is_prefix_of(s) ==> s.len() > 0 && s[0] == prefix[0],
{
    if prefix.is_prefix_of(s) {
        assert(s.subrange(0, prefix.len() as int)[0] == prefix[0]);
    }
}

/// Only what is safe to open is linked: an address of the web or a file of this machine,
/// spelled without control characters.
pub proof fn lemma_safe_links(url: Seq<char>, rest: Seq<char>)
    requires
        forall|i: int| 0 <= i < rest.len() ==> !text::control(#[trigger] rest[i]),
    ensures
        markdown::safe_url("http://"@ + rest),
        markdown::safe_url("https://"@ + rest),
        rest.len() > 0 && rest[0] != '/' ==> markdown::safe_url("file:///"@ + rest),
        !markdown::safe_url("file:////"@ + rest),
        !markdown::safe_url("javascript:"@ + rest),
        markdown::safe_url(url) ==> ("http"@.is_prefix_of(url) || "file:///"@.is_prefix_of(url)),
        (exists|i: int| 0 <= i < url.len() && text::control(#[trigger] url[i]))
            ==> !markdown::safe_url(url),
{
    reveal_strlit("http://");
    reveal_strlit("https://");
    reveal_strlit("http");
    reveal_strlit("file:///");
    reveal_strlit("file:////");
    reveal_strlit("javascript:");
    let web = "http://"@ + rest;
    let secure = "https://"@ + rest;
    let local = "file:///"@ + rest;
    assert("http://"@.is_prefix_of(web));
    assert("https://"@.is_prefix_of(secure));
    assert("file:///"@.is_prefix_of(local));
    assert forall|i: int| 0 <= i < web.len() implies !text::control(#[trigger] web[i]) by {
        if i >= 7 {
            assert(web[i] == rest[i - 7]);
        }
    }
    assert forall|i: int| 0 <= i < secure.len() implies !text::control(#[trigger] secure[i]) by {
        if i >= 8 {
            assert(secure[i] == rest[i - 8]);
        }
    }
    assert forall|i: int| 0 <= i < local.len() implies !text::control(#[trigger] local[i]) by {
        if i >= 8 {
            assert(local[i] == rest[i - 8]);
        }
    }
    if rest.len() > 0 && rest[0] != '/' {
        assert(local[8] == rest[0]);
        assert(!"file:////"@.is_prefix_of(local)) by {
            if "file:////"@.is_prefix_of(local) {
                assert(local.subrange(0, 9)[8] == "file:////"@[8]);
            }
        }
    }
    let far = "file:////"@ + rest;
    assert("file:////"@.is_prefix_of(far));
    assert(far[0] == 'f');
    lemma_prefix_opens("http://"@, far);
    lemma_prefix_opens("https://"@, far);
    let script = "javascript:"@ + rest;
    assert(script[0] == 'j');
    lemma_prefix_opens("http://"@, script);
    lemma_prefix_opens("https://"@, script);
    lemma_prefix_opens("file:///"@, script);
    if "http://"@.is_prefix_of(url) {
        assert("http"@ =~= "http://"@.subrange(0, 4));
        assert("http"@.is_prefix_of(url));
    }
    if "https://"@.is_prefix_of(url) {
        assert("http"@ =~= "https://"@.subrange(0, 4));
        assert("http"@.is_prefix_of(url));
    }
}

/// The column in which a span of a row starts.
pub open spec fn starts_in(spans: Seq<SpanView>, first: int, k: int) -> int
    decreases k,
{
    if k <= 0 {
        first
    } else {
        starts_in(spans, first, k - 1) + width::joined_columns(spans[k - 1].text)
    }
}

/// Whether a span of a row carries a link that can be reached: it is in view, safe to
/// open and spelled without control characters.
pub open spec fn reachable(spans: Seq<SpanView>, area: Area, k: int) -> bool {
    let x = starts_in(spans, area.x as int, k);
    &&& 0 <= k < spans.len()
    &&& width::joined_columns(spans[k].text) > 0
    &&& x < parts::saturated(area.x + area.width)
    &&& spans[k].hyperlink is Some
    &&& markdown::safe_url(spans[k].hyperlink.unwrap())
    &&& forall|i: int| 0 <= i < spans[k].text.len() ==> !text::control(#[trigger] spans[k].text[i])
}

/// The link of a span on the screen: over the columns that the span takes there.
pub open spec fn link_of_span(
    spans: Seq<SpanView>,
    area: Area,
    y: int,
    k: int,
) -> parts::PatchView {
    let x = starts_in(spans, area.x as int, k);
    let left = parts::saturated(area.x + area.width) - x;
    let columns = width::joined_columns(spans[k].text);
    parts::PatchView {
        area: HyperlinkArea {
            x: x as u16,
            y: y as u16,
            width: (if columns < left {
                columns as int
            } else {
                left
            }) as u16,
        },
        text: spans[k].text,
        url: spans[k].hyperlink.unwrap(),
    }
}

/// Whether a link is that of a span from `from` on.
pub open spec fn link_of_some_span(
    patch: parts::PatchView,
    spans: Seq<SpanView>,
    area: Area,
    y: int,
    from: int,
) -> bool {
    exists|k: int|
        from <= k && #[trigger] reachable(spans, area, k) && patch == link_of_span(
            spans,
            area,
            y,
            k,
        )
}

proof fn lemma_starts_grow(spans: Seq<SpanView>, first: int, k: int, m: int)
    requires
        0 <= k <= m,
    ensures
        starts_in(spans, first, k) <= starts_in(spans, first, m),
    decreases m,
{
    if k < m {
        lemma_starts_grow(spans, first, k, m - 1);
    }
}

proof fn lemma_links_from(spans: Seq<SpanView>, area: Area, y: int, k: int)
    requires
        0 <= k <= spans.len(),
        starts_in(spans, area.x as int, k) <= parts::saturated(area.x + area.width),
    ensures
        ({
            let found = parts::row_patches(
                spans,
                k,
                area,
                starts_in(spans, area.x as int, k),
                y,
            );
            &&& forall|i: int|
                0 <= i < found.len() ==> link_of_some_span(#[trigger] found[i], spans, area, y, k)
            &&& forall|m: int|
                k <= m && #[trigger] reachable(spans, area, m) ==> found.contains(
                    link_of_span(spans, area, y, m),
                )
        }),
    decreases spans.len() - k,
{
    let right = parts::saturated(area.x + area.width);
    let x = starts_in(spans, area.x as int, k);
    let found = parts::row_patches(spans, k, area, x, y);
    lemma_starts_grow(spans, area.x as int, 0, k);
    if k < spans.len() {
        let span = spans[k];
        let columns = width::joined_columns(span.text) as int;
        let room = parts::span_room(span, area, x);
        assert(room == (if columns < right - x {
            columns
        } else {
            right - x
        }));
        let here: Seq<parts::PatchView> = if parts::linked(span, room) {
            seq![
                parts::PatchView {
                    area: HyperlinkArea { x: x as u16, y: y as u16, width: room as u16 },
                    text: span.text,
                    url: span.hyperlink.unwrap(),
                },
            ]
        } else {
            Seq::empty()
        };
        assert(reachable(spans, area, k) <==> parts::linked(span, room));
        if parts::linked(span, room) {
            assert(here[0] == link_of_span(spans, area, y, k));
        }
        assert(starts_in(spans, area.x as int, k + 1) == x + columns);
        if x + room >= right {
            assert(found == here);
            assert forall|m: int| k <= m && #[trigger] reachable(
                spans,
                area,
                m,
            ) implies found.contains(link_of_span(spans, area, y, m)) by {
                if m > k {
                    lemma_starts_grow(spans, area.x as int, k + 1, m);
                } else {
                    assert(found[0] == link_of_span(spans, area, y, k));
                }
            }
            assert forall|i: int| 0 <= i < found.len() implies link_of_some_span(
                #[trigger] found[i],
                spans,
                area,
                y,
                k,
            ) by {
                assert(reachable(spans, area, k));
            }
        } else {
            lemma_links_from(spans, area, y, k + 1);
            let rest = parts::row_patches(spans, k + 1, area, x + columns, y);
            assert(found == here + rest);
            assert forall|i: int| 0 <= i < found.len() implies link_of_some_span(
                #[trigger] found[i],
                spans,
                area,
                y,
                k,
            ) by {
                if i < here.len() {
                    assert(reachable(spans, area, k));
                } else {
                    assert(found[i] == rest[i - here.len()]);
                    assert(link_of_some_span(rest[i - here.len()], spans, area, y, k + 1));
                    let m = choose|m: int|
                        k + 1 <= m && #[trigger] reachable(spans, area, m) && found[i]
                            == link_of_span(spans, area, y, m);
                    assert(reachable(spans, area, m));
                }
            }
            assert forall|m: int| k <= m && #[trigger] reachable(
                spans,
                area,
                m,
            ) implies found.contains(link_of_span(spans, area, y, m)) by {
                let want = link_of_span(spans, area, y, m);
                if m == k {
                    assert(found[0] == want);
                } else {
                    assert(rest.contains(want));
                    let j = choose|j: int| 0 <= j < rest.len() && rest[j] == want;
                    assert(found[here.len() + j] == want);
                }
            }
        }
    }
}

/// The links of a row are those of its spans that can be reached, each over the columns
/// that its span takes on the screen, and no others.
pub proof fn lemma_links_lie_over_their_spans(spans: Seq<SpanView>, area: Area, y: int)
    ensures
        ({
            let found = parts::row_patches(spans, 0, area, area.x as int, y);
            &&& forall|i: int|
                0 <= i < found.len() ==> link_of_some_span(#[trigger] found[i], spans, area, y, 0)
            &&& forall|k: int| #[trigger]
                reachable(spans, area, k) ==> found.contains(link_of_span(spans, area, y, k))
        }),
{
    assert(starts_in(spans, area.x as int, 0) == area.x);
    lemma_links_from(spans, area, y, 0);
    let found = parts::row_patches(spans, 0, area, area.x as int, y);
    assert forall|k: int| #[trigger] reachable(spans, area, k) implies found.contains(
        link_of_span(spans, area, y, k),
    ) by {
        assert(0 <= k);
    }
}

/// The links on the screen are those of its rows, each on the line of its row.
pub proof fn lemma_links_lie_on_their_rows(v: Seq<RowView>, area: Area, n: int)
    requires
        0 <= n <= v.len(),
    ensures
        ({
            let found = parts::patches_upto(v, area, n);
            &&& forall|i: int|
                0 <= i < found.len() ==> link_on_some_row(#[trigger] found[i], v, area, n)
            &&& forall|r: int, k: int|
                0 <= r < n && area.y + r < parts::saturated(area.y + area.height)
                    && #[trigger] reachable(v[r].spans, area, k) ==> found.contains(
                    link_of_span(v[r].spans, area, area.y + r, k),
                )
        }),
    decreases n,
{
    if n > 0 {
        lemma_links_lie_on_their_rows(v, area, n - 1);
        let before = parts::patches_upto(v, area, n - 1);
        let found = parts::patches_upto(v, area, n);
        let y = area.y + n - 1;
        let row = parts::row_patches(v[n - 1].spans, 0, area, area.x as int, y);
        lemma_links_lie_over_their_spans(v[n - 1].spans, area, y);
        assert forall|i: int| 0 <= i < found.len() implies link_on_some_row(
            #[trigger] found[i],
            v,
            area,
            n,
        ) by {
            if i < before.len() {
                assert(found[i] == before[i]);
                assert(link_on_some_row(before[i], v, area, n - 1));
                let r = choose|r: int|
                    0 <= r < n - 1 && area.y + r < parts::saturated(area.y + area.height)
                        && #[trigger] link_of_some_span(
                        before[i],
                        v[r].spans,
                        area,
                        area.y + r,
                        0,
                    );
                assert(link_of_some_span(found[i], v[r].spans, area, area.y + r, 0));
            } else {
                assert(found[i] == row[i - before.len()]);
                assert(link_of_some_span(found[i], v[n - 1].spans, area, area.y + (n - 1), 0));
            }
        }
        assert forall|r: int, k: int|
            0 <= r < n && area.y + r < parts::saturated(area.y + area.height)
                && #[trigger] reachable(v[r].spans, area, k) implies found.contains(
            link_of_span(v[r].spans, area, area.y + r, k),
        ) by {
            let want = link_of_span(v[r].spans, area, area.y + r, k);
            if r < n - 1 {
                assert(before.contains(want));
                let j = choose|j: int| 0 <= j < before.len() && before[j] == want;
                assert(found[j] == want);
            } else {
                assert(row.contains(want));
                let j = choose|j: int| 0 <= j < row.len() && row[j] == want;
                assert(found[before.len() + j] == want);
            }
        }
    }
}

/// Whether a link is that of a span on one of the first `n` rows, and on the screen.
pub open spec fn link_on_some_row(
    patch: parts::PatchView,
    v: Seq<RowView>,
    area: Area,
    n: int,
) -> bool {
    exists|r: int|
        0 <= r < n && area.y + r < parts::saturated(area.y + area.height)
            && #[trigger] link_of_some_span(patch, v[r].spans, area, area.y + r, 0)
}

/// Where every glyph takes one column, the glyphs that are drawn again are all those
/// inside the area, from the left on, but for the ones that are skipped.
pub proof fn lemma_every_stale_glyph_is_drawn_again(
    drawn: Seq<DrawnCell>,
    left: int,
    area: HyperlinkArea,
    end: int,
    x: int,
)
    requires
        0 <= left <= x,
        end <= 65535,
        end - left <= drawn.len(),
        forall|i: int| 0 <= i < drawn.len() ==> parts::cell_columns(#[trigger] drawn[i]) == 1,
    ensures
        ({
            let found = parts::glyphs_from(drawn, left, area, end, x);
            &&& forall|i: int|
                0 <= i < found.len() ==> x <= (#[trigger] found[i]) < end && area.x <= found[i]
                    && !drawn[found[i] - left].skip
            &&& forall|i: int, j: int|
                0 <= i < j < found.len() ==> (#[trigger] found[i]) < (#[trigger] found[j])
            &&& forall|c: u16|
                x <= c < end && area.x <= c && !drawn[c - left].skip ==> #[trigger] found.contains(
                    c,
                )
        }),
    decreases 65535 - x,
{
    let found = parts::glyphs_from(drawn, left, area, end, x);
    if x < end {
        lemma_every_stale_glyph_is_drawn_again(drawn, left, area, end, x + 1);
        let rest = parts::glyphs_from(drawn, left, area, end, x + 1);
        let cell = drawn[x - left];
        assert(parts::cell_columns(cell) == 1);
        let taken = area.x <= x && !cell.skip;
        let shift: int = if taken {
            1
        } else {
            0
        };
        if taken {
            assert(found == seq![x as u16] + rest);
        } else {
            assert(found == rest);
        }
        assert forall|c: u16|
            x <= c < end && area.x <= c && !drawn[c - left].skip implies #[trigger] found.contains(
            c,
        ) by {
            if c == x {
                assert(found[0] == c);
            } else {
                assert(rest.contains(c));
                let j = choose|j: int| 0 <= j < rest.len() && rest[j] == c;
                assert(found[j + shift] == c);
            }
        }
        assert forall|i: int| 0 <= i < found.len() implies x <= (#[trigger] found[i]) < end
            && area.x <= found[i] && !drawn[found[i] - left].skip by {
            if i >= shift {
                assert(found[i] == rest[i - shift]);
            }
        }
        assert forall|i: int, j: int| 0 <= i < j < found.len() implies (#[trigger] found[i]) < (
        #[trigger] found[j]) by {
            assert(found[j] == rest[j - shift]);
            if i >= shift {
                assert(found[i] == rest[i - shift]);
            }
        }
    }
}

// ---------------------------------------------------------------------------
// The composer
// ---------------------------------------------------------------------------

proof fn lemma_chars_before_within(s: Seq<char>, a: int, b: int, n: int)
    requires
        a <= b,
        0 <= n,
    ensures
        0 <= wrap::chars_before(s, a, n) <= wrap::chars_before(s, b, n) <= n,
    decreases n,
{
    if n > 0 {
        lemma_chars_before_within(s, a, b, n - 1);
    }
}

proof fn lemma_joined_three(a: Seq<char>, b: Seq<char>, c: Seq<char>)
    ensures
        wrap::joined_rows(seq![a, b, c]) == a + b + c,
{
    let three = seq![a, b, c];
    let two = three.drop_last();
    let one = two.drop_last();
    assert(one.drop_last() =~= Seq::<Seq<char>>::empty());
    assert(wrap::joined_rows(one.drop_last()) =~= Seq::<char>::empty());
    assert(wrap::joined_rows(one) =~= a);
    assert(wrap::joined_rows(two) =~= a + b);
}

proof fn lemma_reads_as_one_span(s: Seq<char>, style: CellStyle)
    ensures
        rows::plain_of(parts::one_span(s, style)) == s,
{
    let texts = rows::span_texts(parts::one_span(s, style).spans);
    assert(texts.drop_last() =~= Seq::<Seq<char>>::empty());
    assert(wrap::joined_rows(texts.drop_last()) =~= Seq::<char>::empty());
    assert(wrap::joined_rows(texts) =~= s);
}

proof fn lemma_highlighted_row_reads(
    row: Seq<char>,
    row_start: int,
    highlight: Option<(usize, usize)>,
)
    ensures
        rows::plain_of(parts::highlighted_row(row, row_start, highlight)) == row,
{
    let shown = parts::highlighted_row(row, row_start, highlight);
    if shown.spans.len() == 3 {
        let (from, to) = highlight.unwrap();
        let start = if from < row_start { 0 } else { from - row_start };
        let end = if to - row_start < text::byte_len(row) {
            to - row_start
        } else {
            text::byte_len(row) as int
        };
        let a = wrap::chars_before(row, start, row.len() as int);
        let b = wrap::chars_before(row, end, row.len() as int);
        lemma_chars_before_within(row, start, end, row.len() as int);
        assert(rows::span_texts(shown.spans) =~= seq![row.take(a), row.subrange(a, b), row.skip(b)]);
        lemma_joined_three(row.take(a), row.subrange(a, b), row.skip(b));
        assert(row.take(a) + row.subrange(a, b) + row.skip(b) =~= row);
    } else {
        lemma_reads_as_one_span(row, rows::plain_cell());
    }
}

/// A composer that can be written to shows a line for each image that is still being
/// verified, in their order and numbered behind those of the draft, and below them the
/// draft: its rows one after the other are its text without the line feeds.
pub proof fn lemma_composer_shows_the_draft(app: AppState, draft: DraftView, frame: Area)
    requires
        app.input_enabled,
        app.access() is Ready,
        draft.display_text@.len() > 0,
    ensures
        ({
            let lines = screen::composer_lines(app, draft, frame);
            let n = app.pending_attachments@.len() as int;
            let s = draft.display_text@;
            &&& n < lines.len()
            &&& forall|i: int|
                0 <= i < n ==> rows::plain_of(#[trigger] lines[i]) == "[Image #"@
                    + text::decimal_text((app.draft_attachments@.len() + i + 1) as nat) + "] "@
                    + app.pending_attachments@[i].display@ + " (verifying…)"@
            &&& wrap::joined_rows(rows::plain_rows(lines.skip(n))) == wrap::without_feeds(
                s,
                s.len() as int,
            )
        }),
{
    let lines = screen::composer_lines(app, draft, frame);
    let n = app.pending_attachments@.len() as int;
    let s = draft.display_text@;
    let cells = screen::content_cells(frame);
    let below = screen::draft_rows(draft, cells);
    let texts = wrap::wrapped_rows(s, cells);
    assert(parts::guard_text(app) is None);
    assert(lines == screen::verifying_lines(app, n) + below);
    assert(lines.skip(n) =~= below);
    assert forall|i: int| 0 <= i < n implies rows::plain_of(#[trigger] lines[i]) == "[Image #"@
        + text::decimal_text((app.draft_attachments@.len() + i + 1) as nat) + "] "@
        + app.pending_attachments@[i].display@ + " (verifying…)"@ by {
        lemma_reads_as_one_span(
            parts::pending_line(
                app.draft_attachments@.len() as int,
                i,
                app.pending_attachments@[i].display@,
            ),
            parts::colored(style::AnsiColor::Yellow),
        );
    }
    let starts = wrap::bytes_at(s, wrap::wrapped_starts(s, cells));
    assert forall|i: int| 0 <= i < below.len() implies rows::plain_of(#[trigger] below[i])
        == texts[i] by {
        lemma_highlighted_row_reads(texts[i], wrap::start_of(starts, i), draft.highlight);
    }
    assert(rows::plain_rows(below) =~= texts);
    wrap::lemma_wrapping_keeps_every_character(s, cells);
    wrap::lemma_rows_are_consecutive_parts(s, cells);
}

/// A guarded composer shows the warning and nothing of the draft or its images; one that
/// takes no input says so; an empty one says what to do.
pub proof fn lemma_composer_says_why(app: AppState, draft: DraftView, frame: Area)
    ensures
        ({
            let lines = screen::composer_lines(app, draft, frame);
            let n = app.pending_attachments@.len() as int;
            &&& parts::guard_text(app) matches Some(warning) ==> wrap::joined_rows(
                rows::plain_rows(lines),
            ) == wrap::without_feeds(warning, warning.len() as int)
            &&& !app.input_enabled ==> lines.len() == n + 1 && rows::plain_of(lines[n])
                == "Input disabled · reopen Simple Prompts"@
            &&& app.input_enabled && app.access() is Ready && draft.display_text@.len() == 0
                ==> lines.len() == n + 1 && rows::plain_of(lines[n]) == "Write a prompt"@
        }),
{
    let lines = screen::composer_lines(app, draft, frame);
    let cells = screen::content_cells(frame);
    lemma_reads_as_one_span(
        "Input disabled · reopen Simple Prompts"@,
        parts::colored(style::AnsiColor::Red),
    );
    lemma_reads_as_one_span("Write a prompt"@, parts::colored(style::AnsiColor::BrightBlack));
    if let Some(warning) = parts::guard_text(app) {
        let texts = wrap::wrapped_rows(warning, cells);
        let shown = screen::colored_rows(texts, style::AnsiColor::Yellow);
        assert forall|i: int| 0 <= i < shown.len() implies rows::plain_of(#[trigger] shown[i])
            == texts[i] by {
            lemma_reads_as_one_span(texts[i], parts::colored(style::AnsiColor::Yellow));
        }
        assert(rows::plain_rows(shown) =~= texts);
        wrap::lemma_wrapping_keeps_every_character(warning, cells);
    }
}

/// The composer is scrolled just so far that the row of the cursor is in it: not at all
/// where that fits, and else so that it is the last one.
pub proof fn lemma_cursor_row_stays_in_view(row: int, area: Area)
    requires
        0 <= row,
        area.height >= 2,
    ensures
        ({
            let offset = screen::composer_offset(row, area);
            let visible = area.height - 1;
            &&& 0 <= offset <= row
            &&& row - offset < visible
            &&& row < visible ==> offset == 0
            &&& offset > 0 ==> row - offset == visible - 1
        }),
{
}

// ---------------------------------------------------------------------------
// The whole screen
// ---------------------------------------------------------------------------

/// The question of a blocked agent is shown from its end: its last rows, as many as fit,
/// in their order.
pub proof fn lemma_end_of_the_question_is_shown(surface: style::StyledText, area: Area, j: int)
    requires
        0 <= j < screen::blocked_body(BlockedSurface::Read(surface), area).len(),
    ensures
        ({
            let body = screen::blocked_body(BlockedSurface::Read(surface), area);
            let read = wrap::wrapped_rows(surface@.text, area.width as nat);
            let all = rows::styled_rows(surface@, Seq::empty(), area.width as nat);
            &&& all.len() == read.len()
            &&& body.len() == (if read.len() < area.height {
                read.len() as int
            } else {
                area.height as int
            })
            &&& body[j] == parts::drawn(all[all.len() - body.len() + j], area.width as nat)
            &&& rows::plain_of(all[all.len() - body.len() + j]) == read[read.len() - body.len() + j]
        }),
{
    let all = rows::styled_rows(surface@, Seq::empty(), area.width as nat);
    let body = screen::blocked_body(BlockedSurface::Read(surface), area);
    rows::lemma_styled_rows_read_as_plain_rows(surface@, Seq::empty(), area.width as nat);
    let i = all.len() - body.len() + j;
    assert(rows::plain_rows(all)[i] == rows::plain_of(all[i]));
}

/// On a screen that is large enough, the history stands at the top, below it the error
/// and the note where there are any, then the composer, and the footer on the last row;
/// each right below the one above it.
pub proof fn lemma_parts_stand_below_each_other(
    r: Screen,
    app: AppState,
    draft: DraftView,
    error: Option<Seq<char>>,
    now_ms: u64,
    frame: Area,
    before: HistoryRenderCache,
    after: HistoryRenderCache,
    inputs: Seq<TurnInput>,
)
    requires
        screen::ordinary(r, app, draft, error, now_ms, frame, before, after, inputs),
        screen::split_is_settled(
            parts::content_area(frame),
            screen::rows_wanted(app, draft, error, now_ms, frame),
        ),
    ensures
        ({
            let area = parts::content_area(frame);
            &&& r.history_area.y == area.y
            &&& r.error_area.y == r.history_area.y + r.history_area.height
            &&& r.note_area.y == r.error_area.y + r.error_area.height
            &&& r.composer_area.y == r.note_area.y + r.note_area.height
            &&& r.footer_area.y == r.composer_area.y + r.composer_area.height
            &&& r.footer_area.y + 1 == area.y + area.height
            &&& r.footer_area.height == 1
            &&& r.error_area.height == (if error is Some {
                1int
            } else {
                0
            })
            &&& r.note_area.height == (if parts::note_text(app, now_ms) is Some {
                1int
            } else {
                0
            })
            &&& r.history_area.height >= 1
        }),
{
    let area = parts::content_area(frame);
    let wanted = screen::rows_wanted(app, draft, error, now_ms, frame);
    let areas = choose|areas: Seq<Area>|
        #[trigger] screen::split_of(areas, area, wanted) && screen::shows(
            r,
            app,
            draft,
            error,
            now_ms,
            frame,
            areas,
            after,
        ) && screen::history_shown(before, after, app, inputs, areas[0]);
    assert(areas == screen::stacked(area, wanted));
    let k = choose|k: int| screen::only_flexible(area, wanted, k);
    assert(wanted[0] is AtLeast);
    assert(k == 0) by {
        if k != 0 {
            assert(wanted[0] is Exactly);
        }
    }
    reveal_with_fuel(screen::rows_above, 6);
    reveal_with_fuel(screen::exact_rows, 6);
}

/// The rows that some images take that are still being verified, counted without a limit.
pub open spec fn rows_of_pending(app: AppState, width: nat, n: int) -> int
    decreases n,
{
    if n <= 0 {
        0
    } else {
        rows_of_pending(app, width, n - 1) + wrap::wrapped_rows(
            "[Image #"@ + text::decimal_text((app.draft_attachments@.len() + n) as nat) + "] "@
                + app.pending_attachments@[n - 1].display@ + " (verifying…)"@,
            width,
        ).len()
    }
}

/// The images that are still being verified take as many rows as their lines do, as far as
/// a screen can count them.
pub proof fn lemma_pending_rows_add_up(app: AppState, width: nat, n: int)
    requires
        0 <= n <= app.pending_attachments@.len(),
    ensures
        rows_of_pending(app, width, n) >= 0,
        parts::pending_height(app, width, n) == (if rows_of_pending(app, width, n) < 65535 {
            rows_of_pending(app, width, n)
        } else {
            65535
        }),
    decreases n,
{
    if n > 0 {
        lemma_pending_rows_add_up(app, width, n - 1);
        let line = parts::pending_line(
            app.draft_attachments@.len() as int,
            n - 1,
            app.pending_attachments@[n - 1].display@,
        );
        wrap::lemma_rows_are_consecutive_parts(line, width);
        assert(app.draft_attachments@.len() + (n - 1) + 1 == app.draft_attachments@.len() + n);
    }
}

// ---------------------------------------------------------------------------
// Colors and labels
// ---------------------------------------------------------------------------

/// The lines of a composer have their colors: what waits and what warns is yellow, what
/// cannot be done is red, and a hint is faint.
pub proof fn lemma_composer_colors(app: AppState, draft: DraftView, frame: Area, i: int)
    requires
        0 <= i < screen::composer_lines(app, draft, frame).len(),
    ensures
        ({
            let line = screen::composer_lines(app, draft, frame)[i];
            let n = app.pending_attachments@.len() as int;
            let guarded = parts::guard_text(app) is Some;
            &&& guarded || i < n ==> line.spans.len() == 1 && line.spans[0].style.foreground == Some(
                style::AnsiColor::Yellow,
            )
            &&& !app.input_enabled && i == n ==> line.spans[0].style.foreground == Some(
                style::AnsiColor::Red,
            )
            &&& app.input_enabled && !guarded && draft.display_text@.len() == 0 && i == n
                ==> line.spans[0].style.foreground == Some(style::AnsiColor::BrightBlack)
        }),
{
}

/// An error is said behind a red label, and a note in bold yellow.
pub proof fn lemma_errors_and_notes_stand_out(error: Seq<char>)
    ensures
        rows::plain_of(screen::error_row(error)) == "Error: "@ + error,
        screen::error_row(error).spans[0].style.foreground == Some(style::AnsiColor::Red),
        screen::error_row(error).spans[0].text == "Error: "@,
        screen::note_style().foreground == Some(style::AnsiColor::Yellow),
        screen::note_style().modifiers.bold,
{
    let texts = rows::span_texts(screen::error_row(error).spans);
    let one = texts.drop_last();
    assert(one.drop_last() =~= Seq::<Seq<char>>::empty());
    assert(wrap::joined_rows(one.drop_last()) =~= Seq::<char>::empty());
    assert(wrap::joined_rows(one) =~= "Error: "@);
    assert(wrap::joined_rows(texts) =~= "Error: "@ + error);
}

/// An ordinary screen shows what there is to show: the error and the note where there are
/// any, the rows of the composer, and the footer of the place that is read.
pub proof fn lemma_screen_shows_it_all(
    r: Screen,
    app: AppState,
    draft: DraftView,
    error: Option<Seq<char>>,
    now_ms: u64,
    frame: Area,
    before: HistoryRenderCache,
    after: HistoryRenderCache,
    inputs: Seq<TurnInput>,
)
    requires
        screen::ordinary(r, app, draft, error, now_ms, frame, before, after, inputs),
    ensures
        r.error is Some <==> error is Some,
        error matches Some(e) ==> (r.error matches Some(row) && rows::plain_of(row@) == "Error: "@
            + e),
        r.note is Some <==> app.pending_action is Some || app.agent_status is Working,
        parts::note_text(app, now_ms) matches Some(note) ==> (r.note matches Some(row)
            && rows::plain_of(row@) == note),
        rows::row_views(r.composer@) == screen::composer_lines(app, draft, frame),
        r.footer@ == parts::footer_text(app.status_line, after.scroll as nat),
        r.history@.len() == document::view(
            after.document@,
            r.history_area.height as nat,
            after.scroll as nat,
        ).len(),
        forall|i: int|
            0 <= i < r.history@.len() ==> (#[trigger] r.history@[i])@ == parts::drawn(
                document::view(
                    after.document@,
                    r.history_area.height as nat,
                    after.scroll as nat,
                )[i],
                r.history_area.width as nat,
            ),
        r.cursor is Some <==> app.input_enabled && app.access() is Ready && r.composer_area.width
            > 0,
{
    lemma_wait_is_counted(app, now_ms);
    lemma_guard_is_shown_where_needed(app);
    if let Some(e) = error {
        lemma_errors_and_notes_stand_out(e);
    }
    if let Some(note) = parts::note_text(app, now_ms) {
        lemma_reads_as_one_span(note, screen::note_style());
    }
    let view = document::view(
        after.document@,
        r.history_area.height as nat,
        after.scroll as nat,
    );
    let shown = rows::row_views(r.history@);
    assert(shown == screen::drawn_rows(view, r.history_area.width as nat));
    assert(shown.len() == r.history@.len());
    assert forall|i: int| 0 <= i < r.history@.len() implies (#[trigger] r.history@[i])@
        == parts::drawn(view[i], r.history_area.width as nat) by {
        assert(shown[i] == r.history@[i]@);
        assert(screen::drawn_rows(view, r.history_area.width as nat)[i] == parts::drawn(
            view[i],
            r.history_area.width as nat,
        ));
    }
}

/// The screen of a blocked agent says so above its question.
pub proof fn lemma_question_is_announced(r: screen::BlockedScreen, app: AppState, frame: Area)
    requires
        screen::questioning(r, app, frame),
    ensures
        rows::plain_of(r.title@) == "INTERACTION REQUIRED"@,
        r.error is Some <==> app.interaction_error is Some,
        app.interaction_error matches Some(e) ==> (r.error matches Some(row) && rows::plain_of(row@)
            == "Error: "@ + e@),
        rows::row_views(r.body@) == screen::blocked_body(app.blocked_surface, r.body_area),
        !(app.blocked_surface is Read) ==> r.body@.len() == 1 && rows::plain_of(r.body@[0]@)
            == "Unable to read native interaction"@,
{
    lemma_reads_as_one_span("INTERACTION REQUIRED"@, screen::note_style());
    lemma_reads_as_one_span("Unable to read native interaction"@, rows::plain_cell());
    if let Some(e) = app.interaction_error {
        lemma_errors_and_notes_stand_out(e@);
    }
    assert(rows::row_views(r.body@).len() == r.body@.len());
    if !(app.blocked_surface is Read) {
        assert(rows::row_views(r.body@)[0] == r.body@[0]@);
    }
}

/// The scroll indicator stands in the last column of the frame, one cell beside each row of
/// the history; its thumb is one stretch of them. There is none where nothing is outside
/// the view, and bands reach over the gutters only where there are gutters.
pub proof fn lemma_indicator_stands_beside_the_rows(
    frame: Area,
    area: Area,
    v: Seq<RowView>,
    scrolled: int,
    scrollable: int,
    i: int,
)
    requires
        frame.x + frame.width <= 65535,
        area.y + area.height <= 65535,
        0 <= scrollable,
        0 <= scrolled,
    ensures
        ({
            let bar = parts::scrollbar(frame, area, v.len(), scrolled, scrollable);
            let there = scrollable > 0 && frame.width >= 3 && area.height > 0;
            let top = parts::thumb_top(area.height as int, scrolled, scrollable);
            let n = parts::thumb_len(area.height as int, scrollable);
            &&& there ==> bar.len() == (if v.len() < area.height {
                v.len() as int
            } else {
                area.height as int
            })
            &&& !there ==> bar.len() == 0
            &&& 0 <= i < bar.len() ==> bar[i].x + 1 == frame.x + frame.width && bar[i].y == area.y
                + i && (bar[i].on_thumb <==> top <= i < top + n)
            &&& frame.width < 3 ==> parts::edge_fills(v, frame, area).len() == 0
            &&& frame.width >= 3 ==> parts::edge_fills(v, frame, area) == parts::edge_fills_upto(
                v,
                area,
                v.len() as int,
            )
        }),
{
}

}
