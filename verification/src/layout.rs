//! The layout engine: place a styled tree into a fixed-width character
//! grid, wrapping text by display columns at grapheme-cluster
//! boundaries.

use vstd::prelude::*;

use crate::cssom::{CSSValue, CssValueView};
use crate::dom::{NodeType, NodeTypeView};
use crate::style::{
    lemma_styled_views_index, lemma_styled_views_len, styled_view, styled_views, StyledNode,
    StyledNodeView,
};
use crate::text::str_eq;
use crate::unicode::{display_width, grapheme_clusters, graphemes_of, str_width, views_of};
use vstd::string::StringExecFns;

verus! {

/// A rectangle of the character grid, in columns and rows.
#[derive(Debug, PartialEq, Eq, Clone, Copy)]
pub struct Rect {
    pub x: u16,
    pub y: u16,
    pub width: u16,
    pub height: u16,
}

impl Rect {
    pub fn new(x: u16, y: u16, width: u16, height: u16) -> (r: Rect)
        ensures
            r == (Rect { x, y, width, height }),
    {
        Rect { x, y, width, height }
    }
}

/// A rectangle read over the unbounded integers.
pub struct RectView {
    pub x: int,
    pub y: int,
    pub width: int,
    pub height: int,
}

/// The mathematical reading of a grid rectangle.
pub open spec fn rect_view(r: Rect) -> RectView {
    RectView { x: r.x as int, y: r.y as int, width: r.width as int, height: r.height as int }
}

/// A positioned box of the finished layout.
#[derive(Debug, PartialEq)]
pub struct LayoutObject {
    pub area: Rect,
    pub ty: LayoutObjectType,
}

/// A box is either a block that owns child boxes, or a run of laid-out
/// text lines.
#[derive(Debug, PartialEq)]
pub enum LayoutObjectType {
    Block { children: Vec<LayoutObject> },
    Texts(Vec<Text>),
}

/// One laid-out line of text.
#[derive(Debug, PartialEq)]
pub struct Text {
    pub area: Rect,
    pub data: String,
}

/// Mathematical view of a laid-out text line.
pub struct TextView {
    pub area: RectView,
    pub data: Seq<char>,
}

/// Mathematical view of a box.
pub struct LayoutView {
    pub area: RectView,
    pub ty: LayoutTypeView,
}

/// Mathematical view of a box's payload.
pub enum LayoutTypeView {
    Block { children: Seq<LayoutView> },
    Texts(Seq<TextView>),
}

/// The view of one text line.
pub open spec fn text_view(t: Text) -> TextView {
    TextView { area: rect_view(t.area), data: t.data@ }
}

/// The views of a sequence of text lines.
pub open spec fn text_views(s: Seq<Text>) -> Seq<TextView> {
    s.map_values(|t: Text| text_view(t))
}

/// The view of a whole box tree.
pub open spec fn layout_view(o: LayoutObject) -> LayoutView
    decreases o,
{
    match o.ty {
        LayoutObjectType::Block { children } => LayoutView {
            area: rect_view(o.area),
            ty: LayoutTypeView::Block { children: layout_views(children@) },
        },
        LayoutObjectType::Texts(ts) => LayoutView {
            area: rect_view(o.area),
            ty: LayoutTypeView::Texts(text_views(ts@)),
        },
    }
}

/// The views of a sequence of boxes.
pub open spec fn layout_views(s: Seq<LayoutObject>) -> Seq<LayoutView>
    decreases s,
{
    if s.len() == 0 {
        Seq::empty()
    } else {
        layout_views(s.drop_last()).push(layout_view(s.last()))
    }
}

/// A node takes part in inline flow when it is text, or an element whose
/// resolved `display` is `inline`.
pub open spec fn spec_inline(sn: StyledNodeView) -> bool {
    match sn.node_type {
        NodeTypeView::Text { .. } => true,
        NodeTypeView::Element { .. } => sn.properties.contains_key("display"@)
            && sn.properties["display"@] == CssValueView::Keyword("inline"@),
    }
}

/// Whether the node flows inline with its siblings.
pub fn inline_node(node: &StyledNode) -> (r: bool)
    ensures
        r == spec_inline(styled_view(*node)),
{
    match &node.node_type {
        NodeType::Element(_) => match node.properties.get("display") {
            Some(v) => match v {
                CSSValue::Keyword(k) => str_eq(k.as_str(), "inline"),
            },
            None => false,
        },
        NodeType::Text(_) => true,
    }
}

/// The columns the scan's open line occupies against the width limit:
/// while no line has been closed yet, the continuation offset is still
/// in force.
pub open spec fn line_counter(
    done: Seq<(Seq<char>, int)>,
    cur: (Seq<char>, int),
    offset: int,
) -> int {
    if done.len() == 0 {
        offset + cur.1
    } else {
        cur.1
    }
}

/// The state of the wrapping scan after the first `k` graphemes: the
/// closed lines and the open line, each paired with the display columns
/// its clusters occupy.
pub open spec fn split_state(gs: Seq<Seq<char>>, width: int, offset: int, k: int) -> (
    Seq<(Seq<char>, int)>,
    (Seq<char>, int),
)
    decreases k,
{
    if k <= 0 {
        (Seq::empty(), (Seq::<char>::empty(), 0int))
    } else {
        let (done, cur) = split_state(gs, width, offset, k - 1);
        let g = gs[k - 1];
        if line_counter(done, cur, offset) + display_width(g) > width {
            (done.push(cur), (g, display_width(g) as int))
        } else {
            (done, (cur.0 + g, cur.1 + display_width(g)))
        }
    }
}

/// The texts of a line sequence, without their column counts.
pub open spec fn line_texts(lines: Seq<(Seq<char>, int)>) -> Seq<Seq<char>> {
    lines.map_values(|p: (Seq<char>, int)| p.0)
}

/// The lines the wrapping scan cuts a grapheme sequence into, each with
/// its column count: a cluster that would overflow the current line
/// closes it and opens the next, and the final open line is always
/// emitted.
pub open spec fn spec_split_lines(gs: Seq<Seq<char>>, width: int, offset: int) -> Seq<
    (Seq<char>, int),
> {
    let (done, cur) = split_state(gs, width, offset, gs.len() as int);
    done.push(cur)
}

/// The line texts alone.
pub open spec fn spec_split(gs: Seq<Seq<char>>, width: int, offset: int) -> Seq<Seq<char>> {
    line_texts(spec_split_lines(gs, width, offset))
}

/// The total character count of a sequence of pieces.
pub open spec fn lens_sum(s: Seq<Seq<char>>) -> int
    decreases s.len(),
{
    if s.len() == 0 {
        0
    } else {
        lens_sum(s.drop_last()) + s.last().len()
    }
}

/// A flattened piece sequence has exactly the summed length of its
/// pieces.
pub proof fn lemma_flatten_len(s: Seq<Seq<char>>)
    ensures
        s.flatten().len() == lens_sum(s),
    decreases s.len(),
{
    broadcast use vstd::seq_lib::group_seq_properties;

    if s.len() == 0 {
    } else {
        lemma_flatten_len(s.drop_last());
        s.drop_last().lemma_flatten_push(s.last());
        assert(s.drop_last().push(s.last()) =~= s);
    }
}

/// Piece lengths are non-negative, so a prefix never sums to more than
/// the whole.
pub proof fn lemma_lens_sum_prefix(s: Seq<Seq<char>>, i: int)
    requires
        0 <= i <= s.len(),
    ensures
        0 <= lens_sum(s.subrange(0, i)),
        lens_sum(s.subrange(0, i)) <= lens_sum(s),
    decreases s.len() - i,
{
    if i == s.len() {
        assert(s.subrange(0, i) =~= s);
        lemma_lens_sum_nonneg(s);
    } else {
        lemma_lens_sum_prefix(s, i + 1);
        assert(s.subrange(0, i + 1).drop_last() =~= s.subrange(0, i));
        assert(s.subrange(0, i + 1).last() == s[i]);
        lemma_lens_sum_nonneg(s.subrange(0, i));
    }
}

/// Every summed length is non-negative.
pub proof fn lemma_lens_sum_nonneg(s: Seq<Seq<char>>)
    ensures
        0 <= lens_sum(s),
    decreases s.len(),
{
    if s.len() > 0 {
        lemma_lens_sum_nonneg(s.drop_last());
    }
}

/// The wrapping scan, with each line's column count alongside its text.
fn split_with_widths(text: &str, width: usize, offset: usize) -> (r: (Vec<String>, Vec<usize>))
    requires
        offset + 2 * text@.len() <= usize::MAX,
    ensures
        ({
            let lines = spec_split_lines(grapheme_clusters(text@), width as int, offset as int);
            &&& r.0@.len() == lines.len()
            &&& r.1@.len() == lines.len()
            &&& views_of(r.0@) == line_texts(lines)
            &&& forall|i: int| 0 <= i < lines.len() ==> r.1@[i] as int == #[trigger] lines[i].1
        }),
        views_of(r.0@).flatten() == text@,
        r.0@.len() <= text@.len() + 1,
        forall|i: int| 0 <= i < r.0@.len() ==> #[trigger] r.1@[i] <= 2 * r.0@[i]@.len(),
{
    let ghost gv = grapheme_clusters(text@);
    let gs = graphemes_of(text);
    let n = gs.len();
    proof {
        assert(views_of(gs@).len() == gs@.len());
        lemma_flatten_len(views_of(gs@));
        lemma_lens_sum_count(views_of(gs@));
    }
    let mut texts: Vec<String> = Vec::new();
    let mut cols: Vec<usize> = Vec::new();
    let mut curr: String = String::new();
    let mut curr_cols: usize = 0;
    let mut counter: usize = offset;
    let mut i: usize = 0;
    while i < n
        invariant
            n == gs@.len(),
            i <= n,
            views_of(gs@) == gv,
            gv.flatten() == text@,
            lens_sum(gv) == text@.len(),
            forall|j: int| 0 <= j < n ==> gs@[j]@.len() > 0,
            offset + 2 * text@.len() <= usize::MAX,
            ({
                let (done, cur) = split_state(gv, width as int, offset as int, i as int);
                &&& texts@.len() == done.len()
                &&& cols@.len() == done.len()
                &&& forall|j: int|
                    0 <= j < done.len() ==> texts@[j]@ == (#[trigger] done[j]).0 && cols@[j] as int
                        == done[j].1
                &&& curr@ == cur.0
                &&& curr_cols as int == cur.1
                &&& counter as int == line_counter(done, cur, offset as int)
            }),
            curr_cols <= counter,
            curr_cols <= 2 * curr@.len(),
            forall|j: int| 0 <= j < texts@.len() ==> #[trigger] cols@[j] <= 2 * texts@[j]@.len(),
            counter <= offset + 2 * lens_sum(gv.subrange(0, i as int)),
            texts@.len() <= i,
        decreases n - i,
    {
        proof {
            lemma_lens_sum_prefix(gv, i as int);
            lemma_lens_sum_prefix(gv, i + 1 as int);
            assert(gv.subrange(0, i + 1 as int).drop_last() =~= gv.subrange(0, i as int));
            assert(gv.subrange(0, i + 1 as int).last() == gv[i as int]);
            assert(gv[i as int] == gs@[i as int]@);
        }
        let gw = str_width(gs[i].as_str());
        if counter + gw > width {
            texts.push(curr);
            cols.push(curr_cols);
            curr = gs[i].clone();
            curr_cols = gw;
            counter = gw;
            proof {
                let (done1, cur1) = split_state(gv, width as int, offset as int, i + 1 as int);
                assert(texts@.len() == done1.len());
            }
        } else {
            curr.append(gs[i].as_str());
            curr_cols = curr_cols + gw;
            counter = counter + gw;
        }
        i = i + 1;
    }
    proof {
        assert(gv.subrange(0, n as int) =~= gv);
    }
    texts.push(curr);
    cols.push(curr_cols);
    proof {
        let (done, cur) = split_state(gv, width as int, offset as int, n as int);
        let lines = spec_split_lines(gv, width as int, offset as int);
        assert(lines == done.push(cur));
        assert forall|j: int| 0 <= j < lines.len() implies texts@[j]@ == (#[trigger] lines[j]).0
            && cols@[j] as int == lines[j].1 by {
            if j < done.len() {
                assert(lines[j] == done[j]);
            } else {
                assert(lines[j] == cur);
            }
        }
        assert(views_of(texts@) =~= line_texts(lines));
        lemma_split_flatten(gv, width as int, offset as int, n as int);
    }
    (texts, cols)
}

/// Wrap `text` into lines of at most `width` display columns, the first
/// line shortened by `offset` columns already in use. A grapheme cluster
/// that would overflow the line starts the next one; clusters are never
/// split, so a cluster wider than `width` yields a line wider than
/// `width`.
pub fn split_string_by_width(text: &str, width: usize, offset: usize) -> (r: Vec<String>)
    requires
        offset + 2 * text@.len() <= usize::MAX,
    ensures
        views_of(r@) == spec_split(grapheme_clusters(text@), width as int, offset as int),
        views_of(r@).flatten() == text@,
        r@.len() <= text@.len() + 1,
{
    let pieces = split_with_widths(text, width, offset);
    pieces.0
}

/// There are at most as many pieces as characters when no piece is
/// empty.
pub proof fn lemma_lens_sum_count(s: Seq<Seq<char>>)
    requires
        forall|i: int| 0 <= i < s.len() ==> s[i].len() > 0,
    ensures
        s.len() <= lens_sum(s),
    decreases s.len(),
{
    if s.len() > 0 {
        assert(forall|i: int|
            0 <= i < s.drop_last().len() ==> s.drop_last()[i] == s[i]);
        lemma_lens_sum_count(s.drop_last());
    }
}

/// What the wrapping scan has closed and kept open concatenates back to
/// the graphemes consumed so far.
pub proof fn lemma_split_flatten(gs: Seq<Seq<char>>, width: int, offset: int, k: int)
    requires
        0 <= k <= gs.len(),
    ensures
        ({
            let (done, cur) = split_state(gs, width, offset, k);
            line_texts(done.push(cur)).flatten() == gs.subrange(0, k).flatten()
        }),
    decreases k,
{
    broadcast use vstd::seq_lib::group_seq_properties;

    let (done, cur) = split_state(gs, width, offset, k);
    if k == 0 {
        assert(line_texts(done.push(cur)) =~= seq![Seq::<char>::empty()]);
        line_texts(done.push(cur)).lemma_flatten_one_element();
        assert(gs.subrange(0, 0) =~= Seq::<Seq<char>>::empty());
        assert(line_texts(done.push(cur)).flatten() =~= gs.subrange(0, 0).flatten());
    } else {
        lemma_split_flatten(gs, width, offset, k - 1);
        let (done0, cur0) = split_state(gs, width, offset, k - 1);
        let g = gs[k - 1];
        assert(gs.subrange(0, k - 1).push(g) =~= gs.subrange(0, k));
        gs.subrange(0, k - 1).lemma_flatten_push(g);
        if line_counter(done0, cur0, offset) + display_width(g) > width {
            assert(done == done0.push(cur0) && cur == (g, display_width(g) as int));
            assert(line_texts(done.push(cur)) =~= line_texts(done0.push(cur0)).push(g));
            line_texts(done0.push(cur0)).lemma_flatten_push(g);
        } else {
            assert(done == done0 && cur == (cur0.0 + g, cur0.1 + display_width(g)));
            assert(line_texts(done0.push(cur0)) =~= line_texts(done0).push(cur0.0));
            assert(line_texts(done.push(cur)) =~= line_texts(done0).push(cur0.0 + g));
            line_texts(done0).lemma_flatten_push(cur0.0);
            line_texts(done0).lemma_flatten_push(cur0.0 + g);
            assert(line_texts(done0).flatten() + (cur0.0 + g) =~= (line_texts(done0).flatten()
                + cur0.0) + g);
        }
    }
}

/// While the continuation offset fits the width and no cluster alone is
/// wider than the width, the running counter stays within the width and
/// so does every line's column count.
proof fn lemma_split_state_fit(gs: Seq<Seq<char>>, width: int, offset: int, k: int)
    requires
        0 <= offset <= width,
        forall|i: int| 0 <= i < gs.len() ==> #[trigger] display_width(gs[i]) <= width,
        0 <= k <= gs.len(),
    ensures
        ({
            let (done, cur) = split_state(gs, width, offset, k);
            &&& line_counter(done, cur, offset) <= width
            &&& 0 <= cur.1
            &&& forall|i: int| 0 <= i < done.len() ==> 0 <= #[trigger] done[i].1 <= width
            &&& done.len() > 0 ==> done[0].1 + offset <= width
            &&& done.len() == 0 ==> cur.1 + offset <= width
        }),
    decreases k,
{
    if k > 0 {
        lemma_split_state_fit(gs, width, offset, k - 1);
    }
}

/// Law: wrapped lines respect the width. Provided the continuation
/// offset is no more than the width and no single grapheme cluster is
/// wider than the width, every line the scan produces fits the width in
/// display columns, and the first line also leaves room for the offset.
pub proof fn lemma_split_lines_fit(gs: Seq<Seq<char>>, width: int, offset: int)
    requires
        0 <= offset <= width,
        forall|i: int| 0 <= i < gs.len() ==> #[trigger] display_width(gs[i]) <= width,
    ensures
        spec_split_lines(gs, width, offset).len() > 0,
        forall|i: int|
            0 <= i < spec_split_lines(gs, width, offset).len() ==> 0 <= (#[trigger] spec_split_lines(
                gs,
                width,
                offset,
            )[i]).1 <= width,
        spec_split_lines(gs, width, offset)[0].1 + offset <= width,
{
    lemma_split_state_fit(gs, width, offset, gs.len() as int);
    let (done, cur) = split_state(gs, width, offset, gs.len() as int);
    let lines = spec_split_lines(gs, width, offset);
    assert forall|i: int| 0 <= i < lines.len() implies 0 <= (#[trigger] lines[i]).1 <= width by {
        if i < done.len() {
            assert(lines[i] == done[i]);
        } else {
            assert(lines[i] == cur);
        }
    }
}

/// The total column count of a line sequence.
pub open spec fn line_cols_sum(lines: Seq<(Seq<char>, int)>) -> int
    decreases lines.len(),
{
    if lines.len() == 0 {
        0
    } else {
        line_cols_sum(lines.drop_last()) + lines.last().1
    }
}

/// The line records of a laid-out text leaf: line `i` sits `i` rows
/// under the leaf's top, at the leaf's left edge, one row high and as
/// wide as the columns its clusters occupy.
pub open spec fn spec_text_lines(lines: Seq<(Seq<char>, int)>, area: RectView) -> Seq<TextView> {
    Seq::new(
        lines.len(),
        |i: int|
            TextView {
                area: RectView { x: area.x, y: area.y + i, width: lines[i].1, height: 1 },
                data: lines[i].0,
            },
    )
}

/// A text leaf laid out: its wrapped lines, under a bounding box whose
/// width is the SUM of the line widths (the caller reads it as "columns
/// consumed", not as a visual extent) and whose height is the number of
/// lines produced.
pub open spec fn spec_text_layout(s: Seq<char>, area: RectView, offset: int) -> LayoutView {
    let lines = spec_split_lines(grapheme_clusters(s), area.width, offset);
    LayoutView {
        area: RectView {
            x: area.x,
            y: area.y,
            width: line_cols_sum(lines),
            height: lines.len() as int,
        },
        ty: LayoutTypeView::Texts(spec_text_lines(lines, area)),
    }
}

/// Law: a text leaf's line rectangles never exceed the declared
/// viewport width. Provided the continuation offset is no more than the
/// width and no single grapheme cluster of the text is wider than the
/// viewport, every produced line rectangle is at most `area.width`
/// columns wide, and the first one also leaves room for the offset.
pub proof fn lemma_text_lines_fit(s: Seq<char>, area: RectView, offset: int)
    requires
        0 <= offset <= area.width,
        forall|i: int|
            0 <= i < grapheme_clusters(s).len() ==> #[trigger] display_width(
                grapheme_clusters(s)[i],
            ) <= area.width,
    ensures
        ({
            let lines = spec_split_lines(grapheme_clusters(s), area.width, offset);
            &&& lines.len() > 0
            &&& forall|i: int|
                0 <= i < lines.len() ==> (#[trigger] spec_text_lines(lines, area)[i]).area.width
                    <= area.width
            &&& spec_text_lines(lines, area)[0].area.width + offset <= area.width
        }),
{
    lemma_split_lines_fit(grapheme_clusters(s), area.width, offset);
}

/// Lay a text run out inside `area`, the first line already `offset`
/// columns deep.
pub fn text_to_object(text: &str, area: Rect, offset: usize) -> (r: LayoutObject)
    requires
        offset + 2 * text@.len() <= usize::MAX,
        2 * text@.len() <= 65535,
        area.y + text@.len() + 1 <= 65535,
    ensures
        layout_view(r) == spec_text_layout(text@, rect_view(area), offset as int),
        r.area.x == area.x,
        r.area.y == area.y,
        r.area.width <= 2 * text@.len(),
        r.area.height <= text@.len() + 1,
        r.area.height as int == spec_split_lines(
            grapheme_clusters(text@),
            area.width as int,
            offset as int,
        ).len(),
{
    let ghost lv = spec_split_lines(grapheme_clusters(text@), area.width as int, offset as int);
    let pieces_cols = split_with_widths(text, area.width as usize, offset);
    let pieces = pieces_cols.0;
    let cols = pieces_cols.1;
    let ghost pvs = views_of(pieces@);
    proof {
        lemma_flatten_len(pvs);
    }
    let mut texts: Vec<Text> = Vec::new();
    let mut y: u16 = area.y;
    let mut content_len: u16 = 0;
    let n = pieces.len();
    let mut i: usize = 0;
    while i < n
        invariant
            n == pieces@.len(),
            n == cols@.len(),
            i <= n,
            lv == spec_split_lines(grapheme_clusters(text@), area.width as int, offset as int),
            lv.len() == n,
            pvs == views_of(pieces@),
            pvs == line_texts(lv),
            forall|j: int| 0 <= j < n ==> cols@[j] as int == #[trigger] lv[j].1,
            forall|j: int| 0 <= j < n ==> #[trigger] cols@[j] <= 2 * pieces@[j]@.len(),
            lens_sum(pvs) == text@.len(),
            n <= text@.len() + 1,
            2 * text@.len() <= 65535,
            area.y + text@.len() + 1 <= 65535,
            y as int == area.y + i,
            content_len as int == line_cols_sum(lv.subrange(0, i as int)),
            content_len <= 2 * lens_sum(pvs.subrange(0, i as int)),
            texts@.len() == i,
            text_views(texts@) == spec_text_lines(lv, rect_view(area)).subrange(0, i as int),
        decreases n - i,
    {
        proof {
            lemma_lens_sum_prefix(pvs, i as int);
            lemma_lens_sum_prefix(pvs, i + 1 as int);
            assert(pvs.subrange(0, i + 1 as int).drop_last() =~= pvs.subrange(0, i as int));
            assert(pvs.subrange(0, i + 1 as int).last() == pvs[i as int]);
            assert(lv.subrange(0, i + 1 as int).drop_last() =~= lv.subrange(0, i as int));
            assert(lv.subrange(0, i + 1 as int).last() == lv[i as int]);
            assert(pvs[i as int] == pieces@[i as int]@);
            assert(pvs[i as int] == lv[i as int].0);
            assert(lens_sum(pvs.subrange(0, i + 1 as int)) == lens_sum(pvs.subrange(0, i as int))
                + pvs[i as int].len());
            assert(cols@[i as int] <= 2 * text@.len());
        }
        let len = cols[i];
        let ghost pre = texts@;
        let line = Text {
            area: Rect { x: area.x, y, width: len as u16, height: 1 },
            data: pieces[i].clone(),
        };
        texts.push(line);
        proof {
            assert(texts@.len() == i + 1);
            assert forall|j: int| 0 <= j < i + 1 implies text_views(texts@)[j] == spec_text_lines(
                lv,
                rect_view(area),
            ).subrange(0, i + 1 as int)[j] by {
                if j < i {
                    assert(texts@[j] == pre[j]);
                    assert(text_views(pre)[j] == spec_text_lines(lv, rect_view(area)).subrange(
                        0,
                        i as int,
                    )[j]);
                } else {
                    assert(texts@[j] == line);
                    assert(text_view(line) == spec_text_lines(lv, rect_view(area))[j]);
                }
            }
            assert(text_views(texts@) =~= spec_text_lines(lv, rect_view(area)).subrange(
                0,
                i + 1 as int,
            ));
        }
        y = y + 1;
        content_len = content_len + (len as u16);
        i = i + 1;
    }
    proof {
        assert(lv.subrange(0, n as int) =~= lv);
        assert(pvs.subrange(0, n as int) =~= pvs);
        assert(spec_text_lines(lv, rect_view(area)).subrange(0, n as int) =~= spec_text_lines(
            lv,
            rect_view(area),
        ));
    }
    let r = LayoutObject {
        area: Rect { x: area.x, y: area.y, width: content_len, height: n as u16 },
        ty: LayoutObjectType::Texts(texts),
    };
    r
}

/// A bound on every column count the flow of a node can produce: for a
/// text leaf, the continuation offset plus twice its character count;
/// for an element, one more than the offset plus twice its children's
/// bounds (heights as well as widths stay under it).
pub open spec fn flow_size(sn: StyledNodeView, offset: int) -> int
    decreases sn, 1int,
{
    match sn.node_type {
        NodeTypeView::Text { data } => offset + 2 * data.len() + 1,
        NodeTypeView::Element { .. } => 1 + offset + 2 * flow_sizes(sn.children, offset),
    }
}

/// The summed flow bounds of a node sequence.
pub open spec fn flow_sizes(cs: Seq<StyledNodeView>, offset: int) -> int
    decreases cs, 2int,
{
    if cs.len() == 0 {
        0
    } else {
        flow_sizes(cs.drop_last(), offset) + flow_size(cs.last(), offset)
    }
}

/// The nesting depth of a styled tree: text leaves count zero.
pub open spec fn tree_depth(sn: StyledNodeView) -> int
    decreases sn, 1int,
{
    match sn.node_type {
        NodeTypeView::Text { .. } => 0,
        NodeTypeView::Element { .. } => 1 + depth_max(sn.children),
    }
}

/// The largest nesting depth among a node sequence.
pub open spec fn depth_max(cs: Seq<StyledNodeView>) -> int
    decreases cs, 2int,
{
    if cs.len() == 0 {
        0
    } else if tree_depth(cs.last()) >= depth_max(cs.drop_last()) {
        tree_depth(cs.last())
    } else {
        depth_max(cs.drop_last())
    }
}

/// Every flow bound is at least one.
pub proof fn lemma_flow_size_pos(sn: StyledNodeView, offset: int)
    requires
        0 <= offset,
    ensures
        1 <= flow_size(sn, offset),
    decreases sn, 1int,
{
    match sn.node_type {
        NodeTypeView::Text { .. } => {},
        NodeTypeView::Element { .. } => {
            lemma_flow_sizes_nonneg(sn.children, offset);
        },
    }
}

/// Summed flow bounds are non-negative.
pub proof fn lemma_flow_sizes_nonneg(cs: Seq<StyledNodeView>, offset: int)
    requires
        0 <= offset,
    ensures
        0 <= flow_sizes(cs, offset),
    decreases cs, 2int,
{
    if cs.len() > 0 {
        lemma_flow_sizes_nonneg(cs.drop_last(), offset);
        lemma_flow_size_pos(cs.last(), offset);
    }
}

/// A prefix of a node sequence never sums to more than the whole.
pub proof fn lemma_flow_sizes_prefix(cs: Seq<StyledNodeView>, offset: int, i: int)
    requires
        0 <= offset,
        0 <= i <= cs.len(),
    ensures
        0 <= flow_sizes(cs.subrange(0, i), offset),
        flow_sizes(cs.subrange(0, i), offset) <= flow_sizes(cs, offset),
    decreases cs.len() - i,
{
    if i == cs.len() {
        assert(cs.subrange(0, i) =~= cs);
        lemma_flow_sizes_nonneg(cs, offset);
    } else {
        lemma_flow_sizes_prefix(cs, offset, i + 1);
        assert(cs.subrange(0, i + 1).drop_last() =~= cs.subrange(0, i));
        assert(cs.subrange(0, i + 1).last() == cs[i]);
        lemma_flow_size_pos(cs[i], offset);
        lemma_flow_sizes_nonneg(cs.subrange(0, i), offset);
    }
}

/// Depths are non-negative.
pub proof fn lemma_tree_depth_nonneg(sn: StyledNodeView)
    ensures
        0 <= tree_depth(sn),
    decreases sn, 1int,
{
    match sn.node_type {
        NodeTypeView::Text { .. } => {},
        NodeTypeView::Element { .. } => {
            lemma_depth_max_nonneg(sn.children);
        },
    }
}

/// The largest depth is non-negative and dominates every member.
pub proof fn lemma_depth_max_nonneg(cs: Seq<StyledNodeView>)
    ensures
        0 <= depth_max(cs),
    decreases cs, 2int,
{
    if cs.len() > 0 {
        lemma_depth_max_nonneg(cs.drop_last());
        lemma_tree_depth_nonneg(cs.last());
    }
}

/// No member of a node sequence is deeper than the sequence's maximum.
pub proof fn lemma_depth_max_elem(cs: Seq<StyledNodeView>, i: int)
    requires
        0 <= i < cs.len(),
    ensures
        tree_depth(cs[i]) <= depth_max(cs),
    decreases cs.len(),
{
    if i == cs.len() - 1 {
    } else {
        assert(cs.drop_last()[i] == cs[i]);
        lemma_depth_max_elem(cs.drop_last(), i);
    }
}

/// Rounding a non-negative column count up to whole rows never exceeds
/// the count itself.
pub proof fn lemma_ceil_le(c: int, w: int)
    requires
        0 <= c,
        1 <= w,
    ensures
        0 <= (c + w - 1) / w,
        (c + w - 1) / w <= c,
{
    vstd::arithmetic::div_mod::lemma_div_pos_is_pos(c + w - 1, w);
    if c == 0 {
        vstd::arithmetic::div_mod::lemma_basic_div(w - 1, w);
    } else {
        assert(c + w - 1 <= w * c) by (nonlinear_arith)
            requires
                1 <= c && 1 <= w,
        ;
        vstd::arithmetic::div_mod::lemma_div_is_ordered(c + w - 1, w * c, w);
        vstd::arithmetic::div_mod::lemma_div_multiples_vanish(c, w);
    }
}

/// The machine bounds under which a node can be laid out into `area`
/// with `offset` columns of its first line already in use: the grid
/// coordinates stay inside sixteen-bit arithmetic.
pub open spec fn layout_fits(sn: StyledNodeView, area: RectView, offset: int) -> bool {
    &&& 0 <= offset
    &&& 1 <= area.width
    &&& 0 <= area.x
    &&& 0 <= area.y
    &&& flow_size(sn, offset) + area.width <= 65536
    &&& area.x + (tree_depth(sn) + 1) * area.width <= 65536
    &&& area.y + flow_size(sn, offset) <= 65535
}

/// The same bounds, stated over a child sequence for the composite
/// flow.
pub open spec fn flow_fits(cs: Seq<StyledNodeView>, area: RectView, offset: int) -> bool {
    &&& 0 <= offset
    &&& 1 <= area.width
    &&& 0 <= area.x
    &&& 0 <= area.y
    &&& 1 + offset + 2 * flow_sizes(cs, offset) + area.width <= 65536
    &&& area.x + (depth_max(cs) + 2) * area.width <= 65536
    &&& area.y + 1 + offset + 2 * flow_sizes(cs, offset) <= 65535
}

/// The running state of the composite flow: the current row, the rows
/// and columns produced so far, the columns of the line in progress,
/// and the boxes already placed.
pub struct FlowState {
    pub y: int,
    pub height: int,
    pub content_len: int,
    pub width: int,
    pub boxes: Seq<LayoutView>,
}

/// One child folded into the flow. The child is placed at the current
/// line position and laid out with the composite's own incoming
/// `offset`; a block child then moves the flow below itself and resets
/// the line, while an inline child re-derives row and height from the
/// running column count, read as a ribbon of `area.width` columns.
pub open spec fn spec_flow_step(
    st: FlowState,
    child: StyledNodeView,
    area: RectView,
    offset: int,
) -> FlowState
    decreases child, 4int,
{
    let child_area = RectView {
        x: area.x + (st.content_len % area.width),
        y: st.y,
        width: area.width,
        height: area.height,
    };
    let b = spec_layout(child, child_area, offset);
    let cl = st.content_len + b.area.width;
    if !spec_inline(child) {
        FlowState {
            y: st.y + b.area.height,
            height: st.height + b.area.height,
            content_len: 0,
            width: if st.width < cl {
                cl
            } else {
                st.width
            },
            boxes: st.boxes.push(b),
        }
    } else {
        FlowState {
            y: area.y + cl / area.width,
            height: (cl + area.width - 1) / area.width,
            content_len: cl,
            width: st.width,
            boxes: st.boxes.push(b),
        }
    }
}

/// The flow state after the first `k` children.
pub open spec fn spec_flow_upto(
    cs: Seq<StyledNodeView>,
    area: RectView,
    offset: int,
    k: int,
) -> FlowState
    decreases cs, 5int, k,
{
    if k <= 0 || cs.len() < k {
        FlowState { y: area.y, height: 0, content_len: offset, width: 0, boxes: Seq::empty() }
    } else {
        spec_flow_step(spec_flow_upto(cs, area, offset, k - 1), cs[k - 1], area, offset)
    }
}

/// A composite laid out: its children flowed in order, under a block
/// box as wide as the longest line and as tall as the flow's final
/// height.
pub open spec fn spec_children_layout(sn: StyledNodeView, area: RectView, offset: int) -> LayoutView
    decreases sn, 2int,
{
    let st = spec_flow_upto(sn.children, area, offset, sn.children.len() as int);
    let w = if st.width < st.content_len {
        st.content_len
    } else {
        st.width
    };
    LayoutView {
        area: RectView { x: area.x, y: area.y, width: w, height: st.height },
        ty: LayoutTypeView::Block { children: st.boxes },
    }
}

/// A node laid out: text leaves wrap into lines, everything else flows
/// its children as a block.
pub open spec fn spec_layout(sn: StyledNodeView, area: RectView, offset: int) -> LayoutView
    decreases sn, 3int,
{
    match sn.node_type {
        NodeTypeView::Text { data } => spec_text_layout(data, area, offset),
        NodeTypeView::Element { .. } => spec_children_layout(sn, area, offset),
    }
}

/// Flow the node's children into `area` in order: inline children share
/// and continue the current line, a block child always starts a new row
/// before and after itself.
pub fn children_to_object(node: &StyledNode, area: Rect, offset: usize) -> (r: LayoutObject)
    requires
        flow_fits(styled_view(*node).children, rect_view(area), offset as int),
    ensures
        layout_view(r) == spec_children_layout(styled_view(*node), rect_view(area), offset as int),
        r.area.x == area.x,
        r.area.y == area.y,
        r.area.width as int <= offset + flow_sizes(styled_view(*node).children, offset as int),
        r.area.height as int <= offset + 2 * flow_sizes(
            styled_view(*node).children,
            offset as int,
        ),
    decreases *node, 0int,
{
    let ghost sv = styled_view(*node);
    let ghost cs = sv.children;
    let ghost av = rect_view(area);
    let ghost off = offset as int;
    proof {
        lemma_styled_views_len(node.children@);
        lemma_flow_sizes_nonneg(cs, off);
        lemma_depth_max_nonneg(cs);
        assert(offset <= 65535);
    }
    let cn = node.children.len();
    let mut y: u16 = area.y;
    let mut height: u16 = 0;
    let mut objects: Vec<LayoutObject> = Vec::new();
    let mut content_len: u16 = offset as u16;
    let mut width: u16 = 0;
    let mut i: usize = 0;
    while i < cn
        invariant
            cn == node.children@.len(),
            i <= cn,
            sv == styled_view(*node),
            cs == sv.children,
            cs == styled_views(node.children@),
            cs.len() == cn,
            av == rect_view(area),
            off == offset as int,
            flow_fits(cs, av, off),
            ({
                let st = spec_flow_upto(cs, av, off, i as int);
                &&& y as int == st.y
                &&& height as int == st.height
                &&& content_len as int == st.content_len
                &&& width as int == st.width
                &&& layout_views(objects@) == st.boxes
            }),
            content_len as int <= off + flow_sizes(cs.subrange(0, i as int), off),
            width as int <= off + flow_sizes(cs.subrange(0, i as int), off),
            height as int <= off + 2 * flow_sizes(cs.subrange(0, i as int), off),
            area.y <= y,
            y as int <= av.y + off + 2 * flow_sizes(cs.subrange(0, i as int), off),
        decreases cn - i,
    {
        let ghost st = spec_flow_upto(cs, av, off, i as int);
        let ghost pre_sizes = flow_sizes(cs.subrange(0, i as int), off);
        let ghost fc = flow_size(cs[i as int], off);
        proof {
            lemma_styled_views_index(node.children@, i as int);
            lemma_flow_sizes_prefix(cs, off, i as int);
            lemma_flow_sizes_prefix(cs, off, i + 1 as int);
            assert(cs.subrange(0, i + 1 as int).drop_last() =~= cs.subrange(0, i as int));
            assert(cs.subrange(0, i + 1 as int).last() == cs[i as int]);
            assert(flow_sizes(cs.subrange(0, i + 1 as int), off) == pre_sizes + fc);
            lemma_flow_size_pos(cs[i as int], off);
            lemma_tree_depth_nonneg(cs[i as int]);
            lemma_depth_max_elem(cs, i as int);
            vstd::arithmetic::mul::lemma_mul_inequality(1, depth_max(cs) + 2, av.width);
            assert(1 * av.width == av.width);
            assert(area.x + area.width <= 65536);
        }
        let child = &node.children[i];
        let cx = area.x + (content_len % area.width);
        let child_area = Rect { x: cx, y, width: area.width, height: area.height };
        proof {
            assert(content_len % area.width < area.width);
            vstd::arithmetic::mul::lemma_mul_inequality(
                tree_depth(cs[i as int]) + 1,
                depth_max(cs) + 1,
                av.width,
            );
            vstd::arithmetic::mul::lemma_mul_is_distributive_add_other_way(
                av.width,
                depth_max(cs) + 1,
                1,
            );
            assert((depth_max(cs) + 2) * av.width == (depth_max(cs) + 1) * av.width + av.width);
            assert(cx as int + (tree_depth(cs[i as int]) + 1) * av.width <= 65536);
            assert(fc + av.width <= 65536);
            assert(y as int + fc <= 65535);
            assert(layout_fits(cs[i as int], rect_view(child_area), off));
        }
        let object = node_to_object(child, child_area, offset);
        let ghost b = spec_layout(cs[i as int], rect_view(child_area), off);
        proof {
            assert(rect_view(child_area) == RectView {
                x: av.x + (st.content_len % av.width),
                y: st.y,
                width: av.width,
                height: av.height,
            });
            assert(layout_view(object) == b);
            assert(rect_view(object.area) == b.area);
            assert(object.area.width as int == b.area.width);
            assert(object.area.height as int == b.area.height);
            assert(content_len as int + object.area.width as int <= off + pre_sizes + fc);
        }
        content_len = content_len + object.area.width;
        let ghost cl = st.content_len + b.area.width;
        if !inline_node(child) {
            y = y + object.area.height;
            height = height + object.area.height;
            if width < content_len {
                width = content_len;
            }
            content_len = 0;
        } else {
            proof {
                assert(content_len as int + area.width as int <= 65535);
                lemma_ceil_le(cl, av.width);
                vstd::arithmetic::div_mod::lemma_div_nonincreasing(cl, av.width);
                vstd::arithmetic::div_mod::lemma_div_pos_is_pos(cl, av.width);
            }
            y = area.y + content_len / area.width;
            height = (content_len + area.width - 1) / area.width;
        }
        let ghost pre_objects = objects@;
        objects.push(object);
        proof {
            assert(objects@.drop_last() =~= pre_objects);
            assert(layout_views(objects@) == layout_views(pre_objects).push(layout_view(object)));
            assert(spec_flow_upto(cs, av, off, i + 1 as int) == spec_flow_step(
                st,
                cs[i as int],
                av,
                off,
            ));
        }
        i = i + 1;
    }
    proof {
        assert(cs.subrange(0, cn as int) =~= cs);
    }
    if width < content_len {
        width = content_len;
    }
    let r = LayoutObject {
        area: Rect { x: area.x, y: area.y, width, height },
        ty: LayoutObjectType::Block { children: objects },
    };
    r
}

/// Law: a block child resets the line. Immediately after the flow has
/// consumed a block child, the running column count is zero, so the
/// next child's placement rectangle starts at the composite's own left
/// edge.
pub proof fn lemma_block_child_resets_line(
    cs: Seq<StyledNodeView>,
    area: RectView,
    offset: int,
    i: int,
)
    requires
        1 <= area.width,
        0 <= i < cs.len(),
        !spec_inline(cs[i]),
    ensures
        spec_flow_upto(cs, area, offset, i + 1).content_len == 0,
        area.x + (spec_flow_upto(cs, area, offset, i + 1).content_len % area.width) == area.x,
{
    assert(spec_flow_upto(cs, area, offset, i + 1) == spec_flow_step(
        spec_flow_upto(cs, area, offset, i),
        cs[i],
        area,
        offset,
    ));
    vstd::arithmetic::div_mod::lemma_small_mod(0nat, area.width as nat);
}

/// Lay one styled node out inside `area`: a text leaf wraps into lines,
/// an element flows its children as a block.
pub fn node_to_object(node: &StyledNode, area: Rect, offset: usize) -> (r: LayoutObject)
    requires
        layout_fits(styled_view(*node), rect_view(area), offset as int),
    ensures
        layout_view(r) == spec_layout(styled_view(*node), rect_view(area), offset as int),
        r.area.x == area.x,
        r.area.y == area.y,
        r.area.width as int <= flow_size(styled_view(*node), offset as int),
        r.area.height as int <= flow_size(styled_view(*node), offset as int),
    decreases *node, 1int,
{
    proof {
        lemma_flow_size_pos(styled_view(*node), offset as int);
    }
    match &node.node_type {
        NodeType::Text(t) => {
            let r = text_to_object(t.data.as_str(), area, offset);
            r
        },
        NodeType::Element(_) => {
            proof {
                lemma_flow_sizes_nonneg(styled_view(*node).children, offset as int);
                lemma_depth_max_nonneg(styled_view(*node).children);
            }
            let r = children_to_object(node, area, offset);
            r
        },
    }
}



} // verus!
