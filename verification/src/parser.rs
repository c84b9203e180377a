//! Markdown course parsing: the heading tree of a document and the body of each section.
use comrak::arena_tree::NodeEdge::{End, Start};
use comrak::nodes::NodeValue::{Code, Heading, HtmlInline, Image, LineBreak, SoftBreak, Text};
use comrak::options::Extension;
use comrak::{parse_document, Arena, Options};
use self::MdEvent::{Enter, Leave};
use self::MdNode::{
    CodeSpan, HardLineBreak, HeadingAt, ImageLink, InlineHtml, Other, SoftLineBreak, TextRun,
};
use vstd::prelude::*;

use crate::text::{
    append_chars, chars_of, collapse_whitespace, collapse_whitespace_chars, slice_chars,
    string_of,
};

verus! {

/* Markdown syntax tree, as a flat sequence of node entries and exits */

/// A node of the Markdown syntax tree, reduced to what course parsing reads.
#[derive(Debug, Clone)]
pub enum MdNode {
    /// A heading of the given level that starts on the given 1-based line.
    HeadingAt(u8, usize),
    /// A run of text, with its literal.
    TextRun(String),
    /// An inline code span, with its literal.
    CodeSpan(String),
    /// Inline HTML, with its source.
    InlineHtml(String),
    /// A soft line break.
    SoftLineBreak,
    /// A hard line break.
    HardLineBreak,
    /// An image, with its destination URL.
    ImageLink(String),
    /// Any other node.
    Other,
}

/// One step of a depth-first walk over the syntax tree.
#[derive(Debug, Clone)]
pub enum MdEvent {
    Enter(MdNode),
    Leave,
}

pub enum NodeView {
    Heading(u8, nat),
    Text(Seq<char>),
    Code(Seq<char>),
    Html(Seq<char>),
    SoftBreak,
    LineBreak,
    Image(Seq<char>),
    Other,
}

pub enum EventView {
    Enter(NodeView),
    Leave,
}

impl View for MdEvent {
    type V = EventView;

    open spec fn view(&self) -> EventView {
        match self {
            MdEvent::Enter(MdNode::HeadingAt(level, line)) => EventView::Enter(
                NodeView::Heading(*level, *line as nat),
            ),
            MdEvent::Enter(MdNode::TextRun(t)) => EventView::Enter(NodeView::Text(t@)),
            MdEvent::Enter(MdNode::CodeSpan(t)) => EventView::Enter(NodeView::Code(t@)),
            MdEvent::Enter(MdNode::InlineHtml(t)) => EventView::Enter(NodeView::Html(t@)),
            MdEvent::Enter(MdNode::SoftLineBreak) => EventView::Enter(NodeView::SoftBreak),
            MdEvent::Enter(MdNode::HardLineBreak) => EventView::Enter(NodeView::LineBreak),
            MdEvent::Enter(MdNode::ImageLink(u)) => EventView::Enter(NodeView::Image(u@)),
            MdEvent::Enter(MdNode::Other) => EventView::Enter(NodeView::Other),
            MdEvent::Leave => EventView::Leave,
        }
    }
}

/// The depth-first walk of the syntax tree that comrak parses from a document
/// (tables, task lists, strikethrough and autolinks enabled).
pub uninterp spec fn markdown_events_of(markdown: Seq<char>) -> Seq<EventView>;

/// `comrak::parse_document` followed by `Node::traverse`. Trusted: the walk
/// is the (named) one of the document; each entered node is converted to the
/// `MdNode` of its kind (a heading's level and start line; the literal of a
/// text, code or inline HTML node; a soft or hard line break; an image's URL;
/// `Other` for every other kind), each exit to `Leave`.
#[verifier::external_body]
pub(crate) fn markdown_events(markdown: &str) -> (events: Vec<MdEvent>)
    ensures
        events@.map_values(|e: MdEvent| e@) == markdown_events_of(markdown@),
{
    let extension = Extension { strikethrough: true, table: true, autolink: true, tasklist: true, ..Default::default() };
    parse_document(&Arena::new(), markdown, &Options { extension, ..Default::default() }).traverse().map(|edge| match edge {
        End(_) => Leave,
        Start(n) => Enter(match &n.data.borrow().value {
            Heading(h) => HeadingAt(h.level, n.data.borrow().sourcepos.start.line),
            Text(t) => TextRun(t.to_string()),
            Code(c) => CodeSpan(c.literal.clone()),
            HtmlInline(h) => InlineHtml(h.clone()),
            SoftBreak => SoftLineBreak,
            LineBreak => HardLineBreak,
            Image(link) => ImageLink(link.url.clone()),
            _ => Other,
        }),
    }).collect()
}

/* Titles */

pub open spec fn untitled() -> Seq<char> {
    seq!['U', 'n', 't', 'i', 't', 'l', 'e', 'd']
}

pub open spec fn untitled_section() -> Seq<char> {
    untitled() + seq![' ', 'S', 'e', 'c', 't', 'i', 'o', 'n']
}

pub open spec fn untitled_course() -> Seq<char> {
    untitled() + seq![' ', 'C', 'o', 'u', 'r', 's', 'e']
}

pub open spec fn overview() -> Seq<char> {
    seq!['O', 'v', 'e', 'r', 'v', 'i', 'e', 'w']
}

/// `clean_title`: whitespace runs collapsed to single spaces and trimmed; `Untitled` when empty.
pub open spec fn clean_title_spec(title: Seq<char>) -> Seq<char> {
    let cleaned = collapse_whitespace(title);
    if cleaned.len() == 0 {
        untitled()
    } else {
        cleaned
    }
}

fn untitled_chars() -> (out: Vec<char>)
    ensures
        out@ == untitled(),
{
    let out = chars_of("Untitled");
    proof {
        reveal_strlit("Untitled");
    }
    assert(out@ =~= untitled());
    out
}

fn clean_title(title: &[char]) -> (out: Vec<char>)
    ensures
        out@ == clean_title_spec(title@),
        out@.len() > 0,
{
    let cleaned = collapse_whitespace_chars(title);
    if cleaned.len() == 0 {
        untitled_chars()
    } else {
        cleaned
    }
}

/* Headings */

/// What a node contributes to the plain text of its ancestors: the literal of a
/// text run, code span or inline HTML, a space for a soft or hard line break,
/// nothing for any other node (its descendants contribute their own text).
pub open spec fn node_text(n: NodeView) -> Seq<char> {
    match n {
        NodeView::Text(t) => t,
        NodeView::Code(t) => t,
        NodeView::Html(t) => t,
        NodeView::SoftBreak => seq![' '],
        NodeView::LineBreak => seq![' '],
        _ => Seq::empty(),
    }
}

/// The plain text collected from walk position `j` until the `depth` currently
/// open nodes are closed.
pub open spec fn subtree_text(ev: Seq<EventView>, j: int, depth: nat) -> Seq<char>
    decreases ev.len() - j,
{
    if j < 0 || j >= ev.len() || depth == 0 {
        Seq::empty()
    } else {
        match ev[j] {
            EventView::Enter(n) => node_text(n) + subtree_text(ev, j + 1, depth + 1),
            EventView::Leave => subtree_text(ev, j + 1, (depth - 1) as nat),
        }
    }
}

/// A heading in document order, with the index of its parent once assigned.
pub struct HeadingView {
    pub level: u8,
    pub title: Seq<char>,
    pub line: nat,
}

/// The title of the heading entered at walk position `i`.
pub open spec fn heading_title(ev: Seq<EventView>, i: int) -> Seq<char> {
    let title = clean_title_spec(subtree_text(ev, i + 1, 1));
    if title.len() == 0 {
        untitled_section()
    } else {
        title
    }
}

/// The headings (with a known start line) entered in the first `k` steps of the walk.
pub open spec fn headings_upto(ev: Seq<EventView>, k: int) -> Seq<HeadingView>
    decreases k,
{
    if k <= 0 || k > ev.len() {
        Seq::empty()
    } else {
        let before = headings_upto(ev, k - 1);
        match ev[k - 1] {
            EventView::Enter(NodeView::Heading(level, line)) => if line > 0 {
                before.push(HeadingView { level, title: heading_title(ev, k - 1), line })
            } else {
                before
            },
            _ => before,
        }
    }
}

/// Where a heading at `line` goes among headings already sorted by line:
/// after every heading that starts at or before it.
pub open spec fn insert_pos(sorted: Seq<HeadingView>, line: nat) -> int
    decreases sorted.len(),
{
    if sorted.len() == 0 {
        0
    } else if sorted[0].line > line {
        0
    } else {
        1 + insert_pos(sorted.drop_first(), line)
    }
}

/// Headings stably sorted by start line (`sort_by_key`).
pub open spec fn sort_by_line(hs: Seq<HeadingView>) -> Seq<HeadingView>
    decreases hs.len(),
{
    if hs.len() == 0 {
        hs
    } else {
        let sorted = sort_by_line(hs.drop_last());
        sorted.insert(insert_pos(sorted, hs.last().line), hs.last())
    }
}

/// The headings of a document, in start-line order.
pub open spec fn document_headings(markdown: Seq<char>) -> Seq<HeadingView> {
    let ev = markdown_events_of(markdown);
    sort_by_line(headings_upto(ev, ev.len() as int))
}

struct FlatHeading {
    level: u8,
    title: Vec<char>,
    start_line: usize,
}

impl FlatHeading {
    spec fn view(&self) -> HeadingView {
        HeadingView { level: self.level, title: self.title@, line: self.start_line as nat }
    }
}

spec fn flat_views(hs: Seq<FlatHeading>) -> Seq<HeadingView> {
    hs.map_values(|h: FlatHeading| h.view())
}

proof fn lemma_insert_pos_bound(sorted: Seq<HeadingView>, line: nat)
    ensures
        0 <= insert_pos(sorted, line) <= sorted.len(),
    decreases sorted.len(),
{
    if sorted.len() > 0 && sorted[0].line <= line {
        lemma_insert_pos_bound(sorted.drop_first(), line);
    }
}

proof fn lemma_sort_len(hs: Seq<HeadingView>)
    ensures
        sort_by_line(hs).len() == hs.len(),
    decreases hs.len(),
{
    if hs.len() > 0 {
        lemma_sort_len(hs.drop_last());
        lemma_insert_pos_bound(sort_by_line(hs.drop_last()), hs.last().line);
    }
}

/// The plain text of the subtree entered at walk position `start - 1`.
fn collect_subtree_text(events: &Vec<MdEvent>, start: usize) -> (out: Vec<char>)
    requires
        1 <= start <= events.len(),
    ensures
        out@ == subtree_text(events@.map_values(|e: MdEvent| e@), start as int, 1),
{
    let ghost ev = events@.map_values(|e: MdEvent| e@);
    let mut out: Vec<char> = Vec::new();
    let mut j = start;
    let mut depth: usize = 1;
    while j < events.len() && depth > 0
        invariant
            1 <= start <= j <= events.len(),
            ev == events@.map_values(|e: MdEvent| e@),
            depth <= j - start + 1,
            out@ + subtree_text(ev, j as int, depth as nat) == subtree_text(ev, start as int, 1),
        decreases events.len() - j,
    {
        let ghost before = out@;
        match &events[j] {
            MdEvent::Enter(node) => {
                match node {
                    MdNode::TextRun(t) | MdNode::CodeSpan(t) | MdNode::InlineHtml(t) => {
                        let tc = chars_of(t.as_str());
                        append_chars(&mut out, tc.as_slice());
                    },
                    MdNode::SoftLineBreak | MdNode::HardLineBreak => {
                        out.push(' ');
                    },
                    _ => {},
                }
                assert(out@ =~= before + node_text(ev[j as int]->Enter_0));
                depth = depth + 1;
            },
            MdEvent::Leave => {
                depth = depth - 1;
            },
        }
        j += 1;
    }
    proof {
        assert(subtree_text(ev, j as int, depth as nat) == Seq::<char>::empty());
        assert(out@ =~= out@ + Seq::<char>::empty());
    }
    out
}

/// Headings of the walk, in walk order.
fn collect_headings(events: &Vec<MdEvent>) -> (hs: Vec<FlatHeading>)
    ensures
        flat_views(hs@) == headings_upto(
            events@.map_values(|e: MdEvent| e@),
            events@.len() as int,
        ),
        forall|i: int| 0 <= i < hs@.len() ==> #[trigger] hs@[i].start_line > 0,
{
    let ghost ev = events@.map_values(|e: MdEvent| e@);
    let mut hs: Vec<FlatHeading> = Vec::new();
    let mut k: usize = 0;
    while k < events.len()
        invariant
            k <= events.len(),
            ev == events@.map_values(|e: MdEvent| e@),
            flat_views(hs@) == headings_upto(ev, k as int),
            forall|i: int| 0 <= i < hs@.len() ==> #[trigger] hs@[i].start_line > 0,
        decreases events.len() - k,
    {
        match &events[k] {
            MdEvent::Enter(MdNode::HeadingAt(level, line)) => {
                if *line > 0 {
                    let text = collect_subtree_text(events, k + 1);
                    let title = clean_title(text.as_slice());
                    let h = FlatHeading { level: *level, title, start_line: *line };
                    hs.push(h);
                    assert(flat_views(hs@) =~= headings_upto(ev, k + 1));
                } else {
                    assert(flat_views(hs@) =~= headings_upto(ev, k + 1));
                }
            },
            _ => {
                assert(flat_views(hs@) =~= headings_upto(ev, k + 1));
            },
        }
        k += 1;
    }
    hs
}

/// Stable insertion sort of the headings by start line.
fn sort_headings(hs: Vec<FlatHeading>) -> (sorted: Vec<FlatHeading>)
    ensures
        flat_views(sorted@) == sort_by_line(flat_views(hs@)),
        sorted@.len() == hs@.len(),
        forall|i: int| 0 <= i < sorted@.len() ==> exists|j: int|
            0 <= j < hs@.len() && #[trigger] sorted@[i].start_line == hs@[j].start_line,
{
    let ghost orig = hs@;
    let ghost input = flat_views(hs@);
    let n = hs.len();
    let mut sorted: Vec<FlatHeading> = Vec::new();
    let mut rest = hs;
    // Move the headings out in order: reverse so that `pop` yields them front to back.
    let mut reversed: Vec<FlatHeading> = Vec::new();
    while rest.len() > 0
        invariant
            reversed@.len() + rest@.len() == n,
            n == orig.len(),
            forall|i: int| 0 <= i < reversed@.len() ==> #[trigger] reversed@[i] == orig[n - 1 - i],
            forall|i: int| 0 <= i < rest@.len() ==> #[trigger] rest@[i] == orig[i],
        decreases rest.len(),
    {
        let h = rest.pop().unwrap();
        reversed.push(h);
    }
    let mut k: usize = 0;
    while k < n
        invariant
            k <= n,
            n == orig.len(),
            reversed@.len() == n - k,
            forall|i: int| 0 <= i < reversed@.len() ==> #[trigger] reversed@[i] == orig[n - 1 - i],
            flat_views(sorted@) == sort_by_line(input.take(k as int)),
            input == flat_views(orig),
            sorted@.len() == k,
            forall|i: int| 0 <= i < sorted@.len() ==> exists|j: int|
                0 <= j < orig.len() && #[trigger] sorted@[i].start_line == orig[j].start_line,
        decreases n - k,
    {
        let h = reversed.pop().unwrap();
        assert(h == orig[k as int]);
        let ghost prev = flat_views(sorted@);
        let mut p: usize = 0;
        assert(prev.skip(0) =~= prev);
        while p < sorted.len() && sorted[p].start_line <= h.start_line
            invariant
                p <= sorted@.len(),
                prev == flat_views(sorted@),
                insert_pos(prev, h.start_line as nat) == p + insert_pos(
                    prev.skip(p as int),
                    h.start_line as nat,
                ),
            decreases sorted.len() - p,
        {
            assert(prev.skip(p as int).drop_first() =~= prev.skip(p + 1));
            p += 1;
        }
        proof {
            if p < sorted.len() {
                assert(prev.skip(p as int)[0] == prev[p as int]);
            }
            assert(insert_pos(prev.skip(p as int), h.start_line as nat) == 0);
            assert(input.take(k + 1).drop_last() =~= input.take(k as int));
            assert(input.take(k + 1).last() == h.view());
        }
        let ghost hv = h.view();
        sorted.insert(p, h);
        assert(flat_views(sorted@) =~= prev.insert(p as int, hv));
        k += 1;
        assert forall|i: int| 0 <= i < sorted@.len() implies exists|j: int|
            0 <= j < orig.len() && #[trigger] sorted@[i].start_line == orig[j].start_line by {
            if i == p {
                assert(sorted@[i].start_line == orig[k - 1].start_line);
            } else if i < p {
            } else {
            }
        }
    }
    assert(input.take(n as int) =~= input);
    sorted
}

/* Parents */

/// The last heading before position `j` whose level is below `level`.
pub open spec fn prev_smaller(hs: Seq<HeadingView>, level: u8, j: int) -> Option<int>
    decreases j,
{
    if j <= 0 {
        None
    } else if hs[j - 1].level < level {
        Some(j - 1)
    } else {
        prev_smaller(hs, level, j - 1)
    }
}

/// The parent of heading `i`: the nearest earlier heading of a lower level.
pub open spec fn parent_of(hs: Seq<HeadingView>, i: int) -> Option<int> {
    prev_smaller(hs, hs[i].level, i)
}

/// Parents of all headings.
pub open spec fn parents_of(hs: Seq<HeadingView>) -> Seq<Option<int>> {
    Seq::new(hs.len(), |i: int| parent_of(hs, i))
}

pub open spec fn opt_int(o: Option<usize>) -> Option<int> {
    match o {
        Some(v) => Some(v as int),
        None => None,
    }
}

proof fn lemma_prev_smaller_char(hs: Seq<HeadingView>, level: u8, j: int, t: Option<int>)
    requires
        0 <= j <= hs.len(),
        match t {
            Some(p) => 0 <= p < j && hs[p].level < level && forall|u: int|
                p < u < j ==> hs[u].level >= level,
            None => forall|u: int| 0 <= u < j ==> hs[u].level >= level,
        },
    ensures
        prev_smaller(hs, level, j) == t,
    decreases j,
{
    if j > 0 {
        if hs[j - 1].level < level {
        } else {
            lemma_prev_smaller_char(hs, level, j - 1, t);
        }
    }
}

proof fn lemma_prev_smaller_below(hs: Seq<HeadingView>, level: u8, j: int)
    ensures
        prev_smaller(hs, level, j) matches Some(p) ==> 0 <= p < j,
    decreases j,
{
    if j > 0 {
        lemma_prev_smaller_below(hs, level, j - 1);
    }
}

spec fn stack_witness(v: Seq<HeadingView>, stack: Seq<usize>, u: int) -> bool {
    exists|k: int|
        0 <= k < stack.len() && stack[k] >= u && #[trigger] v[u].level >= v[stack[k] as int].level
}

proof fn lemma_parent_from_stack(v: Seq<HeadingView>, i: int, old_stack: Seq<usize>, m: int)
    requires
        0 <= i < v.len(),
        0 <= m <= old_stack.len(),
        forall|a: int, b: int| 0 <= a < b < old_stack.len() ==> old_stack[a] < old_stack[b],
        forall|a: int| 0 <= a < old_stack.len() ==> old_stack[a] < i,
        forall|u: int| 0 <= u < i ==> stack_witness(v, old_stack, u),
        forall|q: int| m <= q < old_stack.len() ==> v[old_stack[q] as int].level >= v[i].level,
        m > 0 ==> v[old_stack[m - 1] as int].level < v[i].level,
    ensures
        parent_of(v, i) == (if m > 0 {
            Some(old_stack[m - 1] as int)
        } else {
            None::<int>
        }),
{
    let level = v[i].level;
    let t: Option<int> = if m > 0 {
        Some(old_stack[m - 1] as int)
    } else {
        None
    };
    assert forall|u: int| (match t {
        Some(p) => p < u < i,
        None => 0 <= u < i,
    }) implies v[u].level >= level by {
        assert(stack_witness(v, old_stack, u));
        let k = choose|k: int|
            0 <= k < old_stack.len() && old_stack[k] >= u && #[trigger] v[u].level
                >= v[old_stack[k] as int].level;
        if k < m {
            assert(old_stack[k] <= old_stack[m - 1]);
        }
    }
    lemma_prev_smaller_char(v, level, i, t);
}

proof fn lemma_stack_witness(
    v: Seq<HeadingView>,
    i: usize,
    old_stack: Seq<usize>,
    m: int,
    stack: Seq<usize>,
)
    requires
        0 <= i < v.len(),
        0 <= m <= old_stack.len(),
        stack == old_stack.take(m).push(i),
        forall|u: int| 0 <= u < i ==> stack_witness(v, old_stack, u),
        forall|q: int| m <= q < old_stack.len() ==> v[old_stack[q] as int].level >= v[i as int].level,
    ensures
        forall|u: int| 0 <= u < i + 1 ==> stack_witness(v, stack, u),
{
    assert forall|u: int| 0 <= u < i + 1 implies stack_witness(v, stack, u) by {
        if u == i {
            assert(stack[m] == i);
        } else {
            assert(stack_witness(v, old_stack, u));
            let k = choose|k: int|
                0 <= k < old_stack.len() && old_stack[k] >= u && #[trigger] v[u].level
                    >= v[old_stack[k] as int].level;
            if k < m {
                assert(stack[k] == old_stack[k]);
            } else {
                assert(stack[m] == i);
            }
        }
    }
}

/// `assign_parents`: the parent of each heading, computed with a stack of open headings.
fn assign_parents(hs: &Vec<FlatHeading>) -> (parents: Vec<Option<usize>>)
    ensures
        parents@.len() == hs@.len(),
        forall|i: int|
            0 <= i < hs@.len() ==> opt_int(#[trigger] parents@[i]) == parent_of(flat_views(hs@), i),
{
    let ghost v = flat_views(hs@);
    let n = hs.len();
    let mut parents: Vec<Option<usize>> = Vec::new();
    let mut stack: Vec<usize> = Vec::new();
    let mut i: usize = 0;
    while i < n
        invariant
            i <= n == hs@.len(),
            v == flat_views(hs@),
            parents@.len() == i,
            forall|q: int|
                0 <= q < i ==> opt_int(#[trigger] parents@[q]) == parent_of(v, q),
            forall|a: int, b: int| 0 <= a < b < stack@.len() ==> stack@[a] < stack@[b],
            forall|a: int| 0 <= a < stack@.len() ==> stack@[a] < i,
            i > 0 ==> stack@.len() > 0 && stack@.last() == i - 1,
            forall|u: int| 0 <= u < i ==> stack_witness(v, stack@, u),
        decreases n - i,
    {
        let ghost old_stack = stack@;
        let level = hs[i].level;
        while stack.len() > 0 && hs[stack[stack.len() - 1]].level >= level
            invariant
                i < n == hs@.len(),
                v == flat_views(hs@),
                level == v[i as int].level,
                stack@.len() <= old_stack.len(),
                stack@ == old_stack.take(stack@.len() as int),
                forall|a: int| 0 <= a < old_stack.len() ==> old_stack[a] < i,
                forall|q: int|
                    stack@.len() <= q < old_stack.len() ==> v[old_stack[q] as int].level >= level,
            decreases stack.len(),
        {
            stack.pop();
        }
        let m = stack.len();
        let parent = if m > 0 {
            Some(stack[m - 1])
        } else {
            None
        };
        proof {
            lemma_parent_from_stack(v, i as int, old_stack, m as int);
            if m > 0 {
                assert(stack@[m - 1] == old_stack[m - 1]);
            }
        }
        parents.push(parent);
        stack.push(i);
        proof {
            lemma_stack_witness(v, i, old_stack, m as int, stack@);
        }
        i += 1;
    }
    parents
}

/* Children */

/// The headings among the first `m` whose parent is `p`, in order.
pub open spec fn kids_upto(parents: Seq<Option<int>>, p: Option<int>, m: int) -> Seq<int>
    decreases m,
{
    if m <= 0 {
        Seq::empty()
    } else {
        let before = kids_upto(parents, p, m - 1);
        if parents[m - 1] == p {
            before.push(m - 1)
        } else {
            before
        }
    }
}

proof fn lemma_kids_range(parents: Seq<Option<int>>, p: Option<int>, m: int)
    requires
        m <= parents.len(),
        forall|c: int| 0 <= c < parents.len() ==> (#[trigger] parents[c] matches Some(q) ==> q < c),
    ensures
        forall|k: int|
            0 <= k < kids_upto(parents, p, m).len() ==> 0 <= #[trigger] kids_upto(parents, p, m)[k] < m
                && (p matches Some(q) ==> q < kids_upto(parents, p, m)[k]),
    decreases m,
{
    if m > 0 {
        lemma_kids_range(parents, p, m - 1);
        let before = kids_upto(parents, p, m - 1);
        if parents[m - 1] == p {
            assert(parents[m - 1] matches Some(q) ==> q < m - 1);
            assert forall|k: int| 0 <= k < before.len() + 1 implies 0 <= #[trigger] before.push(m - 1)[k] < m
                && (p matches Some(q) ==> q < before.push(m - 1)[k]) by {
                if k < before.len() {
                    assert(before.push(m - 1)[k] == before[k]);
                }
            }
        }
    }
}

spec fn usize_seq(s: Seq<usize>) -> Seq<int> {
    s.map_values(|x: usize| x as int)
}

/// Children lists of every heading, and the top-level headings.
fn group_children(parents: &Vec<Option<usize>>) -> (res: (Vec<Vec<usize>>, Vec<usize>))
    requires
        forall|c: int| 0 <= c < parents@.len() ==> (#[trigger] parents@[c] matches Some(q) ==> q < parents@.len()),
    ensures
        res.0@.len() == parents@.len(),
        forall|p: int|
            0 <= p < parents@.len() ==> usize_seq(#[trigger] res.0@[p]@) == kids_upto(
                parents@.map_values(|o: Option<usize>| opt_int(o)),
                Some(p),
                parents@.len() as int,
            ),
        usize_seq(res.1@) == kids_upto(
            parents@.map_values(|o: Option<usize>| opt_int(o)),
            None,
            parents@.len() as int,
        ),
{
    let ghost ps = parents@.map_values(|o: Option<usize>| opt_int(o));
    let n = parents.len();
    let mut children: Vec<Vec<usize>> = Vec::new();
    let mut j: usize = 0;
    while j < n
        invariant
            j <= n == parents@.len(),
            children@.len() == j,
            forall|p: int| 0 <= p < j ==> (#[trigger] children@[p])@.len() == 0,
        decreases n - j,
    {
        children.push(Vec::new());
        j += 1;
    }
    let mut roots: Vec<usize> = Vec::new();
    let mut idx: usize = 0;
    while idx < n
        invariant
            idx <= n == parents@.len(),
            ps == parents@.map_values(|o: Option<usize>| opt_int(o)),
            forall|c: int| 0 <= c < parents@.len() ==> (#[trigger] parents@[c] matches Some(q) ==> q < parents@.len()),
            children@.len() == n,
            forall|p: int|
                0 <= p < n ==> usize_seq(#[trigger] children@[p]@) == kids_upto(ps, Some(p), idx as int),
            usize_seq(roots@) == kids_upto(ps, None, idx as int),
        decreases n - idx,
    {
        match parents[idx] {
            Some(parent) => {
                let mut list = children[parent].clone();
                list.push(idx);
                children.set(parent, list);
                assert(usize_seq(roots@) =~= kids_upto(ps, None, idx + 1));
            },
            None => {
                roots.push(idx);
                assert(usize_seq(roots@) =~= kids_upto(ps, None, idx + 1));
            },
        }
        idx += 1;
        assert forall|p: int| 0 <= p < n implies usize_seq(#[trigger] children@[p]@) =~= kids_upto(
            ps,
            Some(p),
            idx as int,
        ) by {}
    }
    (children, roots)
}

/* Lines and section bodies */

/// Start offsets of the lines among the first `k` characters: 0, then every
/// position right after a newline that is not the end of the document.
pub open spec fn starts_upto(md: Seq<char>, k: int) -> Seq<int>
    decreases k,
{
    if k <= 0 {
        seq![0]
    } else {
        let before = starts_upto(md, k - 1);
        if md[k - 1] == '\n' && k < md.len() {
            before.push(k)
        } else {
            before
        }
    }
}

/// `line_start_offsets`: where each line of the document starts (none for an empty document).
pub open spec fn line_starts(md: Seq<char>) -> Seq<int> {
    if md.len() == 0 {
        Seq::empty()
    } else {
        starts_upto(md, md.len() as int)
    }
}

proof fn lemma_starts_sorted(md: Seq<char>, k: int)
    requires
        0 <= k <= md.len(),
        md.len() > 0,
    ensures
        starts_upto(md, k).len() >= 1,
        starts_upto(md, k)[0] == 0,
        forall|a: int, b: int|
            0 <= a < b < starts_upto(md, k).len() ==> starts_upto(md, k)[a] < starts_upto(md, k)[b],
        forall|a: int| 0 <= a < starts_upto(md, k).len() ==> 0 <= #[trigger] starts_upto(md, k)[a] < md.len(),
        forall|a: int| 0 <= a < starts_upto(md, k).len() ==> #[trigger] starts_upto(md, k)[a] <= k,
    decreases k,
{
    if k > 0 {
        lemma_starts_sorted(md, k - 1);
    }
}

/// `slice_lines`: the text of lines `start_line..=end_line` (1-based).
pub open spec fn slice_lines_spec(md: Seq<char>, offsets: Seq<int>, start_line: int, end_line: int) -> Seq<char> {
    if md.len() == 0 || start_line == 0 || end_line < start_line {
        Seq::empty()
    } else {
        let start = if start_line - 1 < offsets.len() {
            offsets[start_line - 1]
        } else {
            md.len() as int
        };
        let end = if end_line < offsets.len() {
            offsets[end_line]
        } else {
            md.len() as int
        };
        md.subrange(start, end)
    }
}

/// The last line of the section of heading `i`: the line before the next heading, or the last line.
pub open spec fn end_line(hs: Seq<HeadingView>, i: int, total_lines: int) -> int {
    if i + 1 < hs.len() {
        if hs[i + 1].line >= 1 {
            hs[i + 1].line - 1
        } else {
            0
        }
    } else {
        total_lines
    }
}

/// The body of the section of heading `i`: from its heading line up to the next heading.
pub open spec fn section_body(md: Seq<char>, hs: Seq<HeadingView>, i: int) -> Seq<char> {
    let offsets = line_starts(md);
    slice_lines_spec(md, offsets, hs[i].line as int, end_line(hs, i, offsets.len() as int))
}

fn line_start_offsets(md: &[char]) -> (offsets: Vec<usize>)
    ensures
        usize_seq(offsets@) == line_starts(md@),
{
    if md.len() == 0 {
        let offsets: Vec<usize> = Vec::new();
        assert(usize_seq(offsets@) =~= line_starts(md@));
        return offsets;
    }
    let mut offsets: Vec<usize> = Vec::new();
    offsets.push(0);
    let mut k: usize = 0;
    assert(usize_seq(offsets@) =~= starts_upto(md@, 0));
    while k < md.len()
        invariant
            0 < md.len(),
            k <= md.len(),
            usize_seq(offsets@) == starts_upto(md@, k as int),
        decreases md.len() - k,
    {
        if md[k] == '\n' && k + 1 < md.len() {
            offsets.push(k + 1);
        }
        k += 1;
        assert(usize_seq(offsets@) =~= starts_upto(md@, k as int));
    }
    offsets
}

fn slice_lines(md: &[char], offsets: &Vec<usize>, start_line: usize, end_line: usize) -> (out: Vec<char>)
    requires
        usize_seq(offsets@) == line_starts(md@),
    ensures
        out@ == slice_lines_spec(md@, usize_seq(offsets@), start_line as int, end_line as int),
{
    if md.len() == 0 || start_line == 0 || end_line < start_line {
        return Vec::new();
    }
    proof {
        lemma_starts_sorted(md@, md@.len() as int);
    }
    let start = if start_line - 1 < offsets.len() {
        offsets[start_line - 1]
    } else {
        md.len()
    };
    let end = if end_line < offsets.len() {
        offsets[end_line]
    } else {
        md.len()
    };
    proof {
        let os = usize_seq(offsets@);
        assert(os.len() == offsets@.len());
        if start_line - 1 < offsets.len() {
            assert(os[start_line - 1] == offsets@[start_line - 1] as int);
        }
        if end_line < offsets.len() {
            assert(os[end_line as int] == offsets@[end_line as int] as int);
            assert(os[start_line - 1] < os[end_line as int]);
        }
    }
    slice_chars(md, start, end)
}

/* The section tree */

/// A parsed course: its title and its top-level sections.
#[derive(Debug, PartialEq, Eq)]
pub struct ParsedCourse {
    pub title: String,
    pub sections: Vec<ParsedSection>,
}

/// A section: its heading, the Markdown from its heading up to the next heading, and its subsections.
#[derive(Debug, PartialEq, Eq)]
pub struct ParsedSection {
    pub title: String,
    pub level: u8,
    pub body: String,
    pub children: Vec<ParsedSection>,
}

/// `s` is the section of heading `i` of the document `md`, with the subsections
/// of the headings whose parent is `i`, recursively.
pub open spec fn section_is(
    md: Seq<char>,
    hs: Seq<HeadingView>,
    i: int,
    s: ParsedSection,
) -> bool
    decreases hs.len() - i,
{
    let kids = kids_upto(parents_of(hs), Some(i), hs.len() as int);
    &&& 0 <= i < hs.len()
    &&& s.title@ == hs[i].title
    &&& s.level == hs[i].level
    &&& s.body@ == section_body(md, hs, i)
    &&& s.children@.len() == kids.len()
    &&& forall|k: int|
        #![trigger s.children@[k]]
        0 <= k < kids.len() ==> i < kids[k] < hs.len() && section_is(md, hs, kids[k], s.children@[k])
}

proof fn lemma_parents_below(hs: Seq<HeadingView>)
    ensures
        forall|c: int|
            0 <= c < parents_of(hs).len() ==> (#[trigger] parents_of(hs)[c] matches Some(q) ==> 0 <= q < c),
{
    assert forall|c: int| 0 <= c < parents_of(hs).len() implies (#[trigger] parents_of(hs)[c] matches Some(q) ==> 0 <= q < c) by {
        lemma_prev_smaller_below(hs, hs[c].level, c);
    }
}

/// `build_section`: the section of heading `index` and, recursively, its subsections.
fn build_section(
    index: usize,
    headings: &Vec<FlatHeading>,
    children: &Vec<Vec<usize>>,
    offsets: &Vec<usize>,
    md: &[char],
) -> (section: ParsedSection)
    requires
        index < headings@.len(),
        children@.len() == headings@.len(),
        forall|p: int|
            0 <= p < headings@.len() ==> usize_seq(#[trigger] children@[p]@) == kids_upto(
                parents_of(flat_views(headings@)),
                Some(p),
                headings@.len() as int,
            ),
        usize_seq(offsets@) == line_starts(md@),
    ensures
        section_is(md@, flat_views(headings@), index as int, section),
    decreases headings@.len() - index,
{
    let ghost hs = flat_views(headings@);
    let n = headings.len();
    let heading = &headings[index];
    let end = if index + 1 < n {
        headings[index + 1].start_line.saturating_sub(1)
    } else {
        offsets.len()
    };
    let body = slice_lines(md, offsets, heading.start_line, end);
    let ghost kids = kids_upto(parents_of(hs), Some(index as int), n as int);
    proof {
        lemma_parents_below(hs);
        lemma_kids_range(parents_of(hs), Some(index as int), n as int);
        assert(usize_seq(children@[index as int]@) == kids);
    }
    let child_ids = &children[index];
    let mut subsections: Vec<ParsedSection> = Vec::new();
    let mut k: usize = 0;
    while k < child_ids.len()
        invariant
            index < n == headings@.len(),
            hs == flat_views(headings@),
            children@.len() == headings@.len(),
            forall|p: int|
                0 <= p < headings@.len() ==> usize_seq(#[trigger] children@[p]@) == kids_upto(
                    parents_of(flat_views(headings@)),
                    Some(p),
                    headings@.len() as int,
                ),
            usize_seq(offsets@) == line_starts(md@),
            child_ids == &children@[index as int],
            usize_seq(child_ids@) == kids,
            forall|q: int|
                0 <= q < kids.len() ==> 0 <= #[trigger] kids[q] < n && index < kids[q],
            k <= child_ids@.len(),
            subsections@.len() == k,
            forall|q: int|
                #![trigger subsections@[q]]
                0 <= q < k ==> section_is(md@, hs, kids[q], subsections@[q]),
        decreases child_ids@.len() - k,
    {
        let child = child_ids[k];
        assert(kids[k as int] == child as int);
        let sub = build_section(child, headings, children, offsets, md);
        subsections.push(sub);
        k += 1;
    }
    proof {
        assert(hs[index as int] == heading.view());
        assert(end_line(hs, index as int, line_starts(md@).len() as int) == end as int) by {
            if index + 1 < n {
                assert(hs[index + 1] == headings@[index + 1].view());
            }
        }
    }
    let section = ParsedSection {
        title: string_of(heading.title.as_slice()),
        level: heading.level,
        body: string_of(body.as_slice()),
        children: subsections,
    };
    assert(section_is(md@, hs, index as int, section));
    section
}

/* The course */

pub open spec fn hint_view(hint: Option<&str>) -> Option<Seq<char>> {
    match hint {
        Some(h) => Some(h@),
        None => None,
    }
}

/// The first heading at or after `j` whose level is 1, or -1.
pub open spec fn first_top_level(hs: Seq<HeadingView>, j: int) -> int
    decreases hs.len() - j,
{
    if j < 0 || j >= hs.len() {
        -1
    } else if hs[j].level == 1 {
        j
    } else {
        first_top_level(hs, j + 1)
    }
}

/// The course title: the first level-1 heading, else the first heading.
pub open spec fn course_title_spec(hs: Seq<HeadingView>) -> Seq<char> {
    let f = first_top_level(hs, 0);
    if 0 <= f < hs.len() {
        hs[f].title
    } else {
        hs[0].title
    }
}

/// `course` is the parse of `md`: its sections are the top-level headings (with
/// their subsection trees); a document without headings becomes one overview
/// section holding the whole document.
pub open spec fn parsed_course_is(md: Seq<char>, hint: Option<Seq<char>>, course: ParsedCourse) -> bool {
    let hs = document_headings(md);
    if hs.len() == 0 {
        &&& course.title@ == clean_title_spec(
            match hint {
                Some(h) => h,
                None => untitled_course(),
            },
        )
        &&& course.sections@.len() == 1
        &&& course.sections@[0].title@ == clean_title_spec(
            match hint {
                Some(h) => h,
                None => overview(),
            },
        )
        &&& course.sections@[0].level == 1
        &&& course.sections@[0].body@ == md
        &&& course.sections@[0].children@.len() == 0
    } else {
        let roots = kids_upto(parents_of(hs), None, hs.len() as int);
        &&& course.title@ == course_title_spec(hs)
        &&& course.sections@.len() == roots.len()
        &&& forall|k: int|
            #![trigger course.sections@[k]]
            0 <= k < roots.len() ==> section_is(md, hs, roots[k], course.sections@[k])
    }
}

fn literal_chars(which: u8) -> (out: Vec<char>)
    requires
        which < 2,
    ensures
        which == 0 ==> out@ == untitled_course(),
        which == 1 ==> out@ == overview(),
{
    if which == 0 {
        let out = chars_of("Untitled Course");
        proof {
            reveal_strlit("Untitled Course");
        }
        assert(out@ =~= untitled_course());
        out
    } else {
        let out = chars_of("Overview");
        proof {
            reveal_strlit("Overview");
        }
        assert(out@ =~= overview());
        out
    }
}

/// Parse a Markdown document into a course: the heading tree becomes the section
/// tree, and each section's body runs from its heading to the next heading.
pub fn parse_markdown_course(markdown: &str, title_hint: Option<&str>) -> (course: ParsedCourse)
    ensures
        parsed_course_is(markdown@, hint_view(title_hint), course),
{
    let events = markdown_events(markdown);
    let ghost ev = events@.map_values(|e: MdEvent| e@);
    let collected = collect_headings(&events);
    let headings = sort_headings(collected);
    let ghost hs = flat_views(headings@);
    assert(hs == document_headings(markdown@));
    let md = chars_of(markdown);

    if headings.len() == 0 {
        let title_source = match title_hint {
            Some(h) => chars_of(h),
            None => literal_chars(0),
        };
        let section_source = match title_hint {
            Some(h) => chars_of(h),
            None => literal_chars(1),
        };
        let section = ParsedSection {
            title: string_of(clean_title(section_source.as_slice()).as_slice()),
            level: 1,
            body: string_of(md.as_slice()),
            children: Vec::new(),
        };
        let mut sections = Vec::new();
        sections.push(section);
        return ParsedCourse { title: string_of(clean_title(title_source.as_slice()).as_slice()), sections };
    }

    let parents = assign_parents(&headings);
    proof {
        assert(parents@.map_values(|o: Option<usize>| opt_int(o)) =~= parents_of(hs));
        lemma_parents_below(hs);
        assert forall|c: int| 0 <= c < parents@.len() implies (#[trigger] parents@[c] matches Some(q)
            ==> q < parents@.len()) by {
            assert(opt_int(parents@[c]) == parents_of(hs)[c]);
        }
    }
    let (children, roots) = group_children(&parents);
    let offsets = line_start_offsets(md.as_slice());

    let mut f: usize = 0;
    while f < headings.len() && headings[f].level != 1
        invariant
            f <= headings@.len(),
            hs == flat_views(headings@),
            first_top_level(hs, 0) == first_top_level(hs, f as int),
        decreases headings@.len() - f,
    {
        f += 1;
    }
    let title = if f < headings.len() {
        string_of(headings[f].title.as_slice())
    } else {
        string_of(headings[0].title.as_slice())
    };
    proof {
        if f < headings.len() {
            assert(hs[f as int] == headings@[f as int].view());
        } else {
            assert(hs[0] == headings@[0].view());
        }
    }

    let ghost root_ids = kids_upto(parents_of(hs), None, hs.len() as int);
    proof {
        lemma_kids_range(parents_of(hs), None, hs.len() as int);
    }
    let mut sections: Vec<ParsedSection> = Vec::new();
    let mut k: usize = 0;
    while k < roots.len()
        invariant
            hs == flat_views(headings@),
            hs.len() > 0,
            children@.len() == headings@.len(),
            forall|p: int|
                0 <= p < headings@.len() ==> usize_seq(#[trigger] children@[p]@) == kids_upto(
                    parents_of(flat_views(headings@)),
                    Some(p),
                    headings@.len() as int,
                ),
            usize_seq(offsets@) == line_starts(md@),
            usize_seq(roots@) == root_ids,
            forall|q: int| 0 <= q < root_ids.len() ==> 0 <= #[trigger] root_ids[q] < hs.len(),
            k <= roots@.len(),
            sections@.len() == k,
            forall|q: int|
                #![trigger sections@[q]]
                0 <= q < k ==> section_is(md@, hs, root_ids[q], sections@[q]),
        decreases roots@.len() - k,
    {
        assert(root_ids[k as int] == roots@[k as int] as int);
        let section = build_section(roots[k], &headings, &children, &offsets, md.as_slice());
        sections.push(section);
        k += 1;
    }
    ParsedCourse { title, sections }
}

/* Heading titles */

/// Walk position `p` enters an inline node whose text is `part`: a text run,
/// code span or inline HTML with that literal, or a line break (a space).
pub open spec fn enters_inline(ev: Seq<EventView>, p: int, part: Seq<char>) -> bool {
    ||| ev[p] == EventView::Enter(NodeView::Text(part))
    ||| ev[p] == EventView::Enter(NodeView::Code(part))
    ||| ev[p] == EventView::Enter(NodeView::Html(part))
    ||| (part == seq![' '] && (ev[p] == EventView::Enter(NodeView::SoftBreak) || ev[p] == EventView::Enter(
        NodeView::LineBreak,
    )))
}

/// From walk position `j` on: the inline nodes `parts`, each entered and left
/// in turn, then the exit of the node that holds them.
pub open spec fn inline_run(ev: Seq<EventView>, j: int, parts: Seq<Seq<char>>) -> bool {
    &&& 0 <= j
    &&& j + 2 * parts.len() < ev.len()
    &&& forall|k: int|
        0 <= k < parts.len() ==> enters_inline(ev, j + 2 * k, #[trigger] parts[k]) && ev[j + 2 * k + 1]
            == EventView::Leave
    &&& ev[j + 2 * parts.len()] == EventView::Leave
}

proof fn lemma_inline_run_text(ev: Seq<EventView>, j: int, parts: Seq<Seq<char>>, k: int)
    requires
        inline_run(ev, j, parts),
        0 <= k <= parts.len(),
    ensures
        subtree_text(ev, j + 2 * k, 1) == parts.skip(k).flatten(),
    decreases parts.len() - k,
{
    if k == parts.len() {
        assert(parts.skip(k) =~= Seq::<Seq<char>>::empty());
        assert(subtree_text(ev, j + 2 * k + 1, 0) == Seq::<char>::empty());
    } else {
        lemma_inline_run_text(ev, j, parts, k + 1);
        assert(enters_inline(ev, j + 2 * k, parts[k]) && ev[j + 2 * k + 1] == EventView::Leave);
        assert(parts.skip(k).drop_first() =~= parts.skip(k + 1));
        assert(parts.skip(k).first() == parts[k]);
        assert(subtree_text(ev, j + 2 * k + 1, 2) == subtree_text(ev, j + 2 * k + 2, 1));
        assert(j + 2 * (k + 1) == j + 2 * k + 2);
    }
}

/// The title of a heading that holds only inline text is the literals of its
/// text runs, code spans and inline HTML, a space for each line break, all in
/// order, with whitespace runs collapsed and the ends trimmed (`Untitled` when
/// nothing is left); a code span counts as much as plain text.
pub proof fn lemma_heading_title_is_its_text(ev: Seq<EventView>, i: int, parts: Seq<Seq<char>>)
    requires
        0 <= i,
        ev[i] matches EventView::Enter(NodeView::Heading(_, _)),
        inline_run(ev, i + 1, parts),
    ensures
        heading_title(ev, i) == clean_title_spec(parts.flatten()),
{
    lemma_inline_run_text(ev, i + 1, parts, 0);
    assert(parts.skip(0) =~= parts);
}

proof fn lemma_only_heading(ev: Seq<EventView>, i: int, k: int)
    requires
        0 <= i < ev.len(),
        ev[i] matches EventView::Enter(NodeView::Heading(_, line)) && line > 0,
        forall|j: int| 0 <= j < ev.len() && j != i ==> !(#[trigger] ev[j] matches EventView::Enter(NodeView::Heading(_, _))),
        0 <= k <= ev.len(),
    ensures
        k <= i ==> headings_upto(ev, k).len() == 0,
        k > i ==> headings_upto(ev, k) == seq![
            match ev[i] {
                EventView::Enter(NodeView::Heading(level, line)) => HeadingView { level, title: heading_title(ev, i), line },
                _ => arbitrary(),
            },
        ],
    decreases k,
{
    if k > 0 {
        lemma_only_heading(ev, i, k - 1);
        if k - 1 != i {
            assert(!(ev[k - 1] matches EventView::Enter(NodeView::Heading(_, _))));
        } else {
            assert(headings_upto(ev, k - 1) =~= Seq::<HeadingView>::empty());
        }
    }
}

/// A document whose only heading holds only inline text parses to a course
/// with that one section, titled (as the course is) by the heading's text:
/// the literals of its text runs, code spans and inline HTML and a space per
/// line break, whitespace collapsed and trimmed.
pub proof fn lemma_single_heading_course(
    md: Seq<char>,
    hint: Option<Seq<char>>,
    course: ParsedCourse,
    i: int,
    parts: Seq<Seq<char>>,
)
    requires
        parsed_course_is(md, hint, course),
        0 <= i < markdown_events_of(md).len(),
        markdown_events_of(md)[i] matches EventView::Enter(NodeView::Heading(_, line)) && line > 0,
        forall|j: int|
            0 <= j < markdown_events_of(md).len() && j != i ==> !(#[trigger] markdown_events_of(md)[j] matches EventView::Enter(
                NodeView::Heading(_, _),
            )),
        inline_run(markdown_events_of(md), i + 1, parts),
    ensures
        course.title@ == clean_title_spec(parts.flatten()),
        course.sections@.len() == 1,
        course.sections@[0].title@ == clean_title_spec(parts.flatten()),
        markdown_events_of(md)[i] matches EventView::Enter(NodeView::Heading(level, _)) && course.sections@[0].level
            == level,
{
    let ev = markdown_events_of(md);
    lemma_only_heading(ev, i, ev.len() as int);
    lemma_heading_title_is_its_text(ev, i, parts);
    let hs0 = headings_upto(ev, ev.len() as int);
    let h = hs0[0];
    assert(sort_by_line(hs0.drop_last()) =~= Seq::<HeadingView>::empty());
    assert(sort_by_line(hs0) =~= seq![h]);
    let hs = document_headings(md);
    assert(hs == seq![h]);
    assert(parents_of(hs)[0] == prev_smaller(hs, hs[0].level, 0));
    assert(kids_upto(parents_of(hs), None, 0).len() == 0);
    assert(kids_upto(parents_of(hs), None, 1) =~= seq![0int]);
    assert(section_is(md, hs, 0, course.sections@[0]));
}

/* The outline in pre-order */

/// A section's heading level, title and body.
pub open spec fn section_entry(s: ParsedSection) -> (u8, Seq<char>, Seq<char>) {
    (s.level, s.title@, s.body@)
}

/// The first `k` sibling sections in pre-order: each section, then its
/// subsections in pre-order.
pub open spec fn preorder_group(ss: Seq<ParsedSection>, k: int) -> Seq<(u8, Seq<char>, Seq<char>)>
    decreases ss, k,
{
    if k <= 0 || k > ss.len() {
        Seq::empty()
    } else {
        preorder_group(ss, k - 1) + preorder_section(ss[k - 1])
    }
}

/// A section, then its subsections in pre-order.
pub open spec fn preorder_section(s: ParsedSection) -> Seq<(u8, Seq<char>, Seq<char>)>
    decreases s, 0int,
{
    seq![section_entry(s)] + preorder_group(s.children@, s.children@.len() as int)
}

/// Heading `i` of a document: its level, its title and the body of its section.
pub open spec fn heading_entry(md: Seq<char>, hs: Seq<HeadingView>, i: int) -> (u8, Seq<char>, Seq<char>) {
    (hs[i].level, hs[i].title, section_body(md, hs, i))
}

/// Headings `a..b` of a document, in document order.
pub open spec fn heading_entries(md: Seq<char>, hs: Seq<HeadingView>, a: int, b: int) -> Seq<
    (u8, Seq<char>, Seq<char>),
> {
    Seq::new((b - a) as nat, |t: int| heading_entry(md, hs, a + t))
}

/// The first heading at or after `j` whose level is at most `lvl`, or the
/// number of headings if there is none.
pub open spec fn subtree_end(hs: Seq<HeadingView>, lvl: int, j: int) -> int
    decreases hs.len() - j,
{
    if j >= hs.len() {
        hs.len() as int
    } else if hs[j].level as int <= lvl {
        j
    } else {
        subtree_end(hs, lvl, j + 1)
    }
}

proof fn lemma_subtree_end(hs: Seq<HeadingView>, lvl: int, j: int)
    requires
        0 <= j <= hs.len(),
    ensures
        j <= subtree_end(hs, lvl, j) <= hs.len(),
        forall|u: int| j <= u < subtree_end(hs, lvl, j) ==> hs[u].level as int > lvl,
        subtree_end(hs, lvl, j) < hs.len() ==> hs[subtree_end(hs, lvl, j)].level as int <= lvl,
    decreases hs.len() - j,
{
    if j < hs.len() && hs[j].level as int > lvl {
        lemma_subtree_end(hs, lvl, j + 1);
    }
}

/// The children of `p` are looked for from `lo` on, among the headings deeper
/// than `lvl`: after heading `i` and below its level, or (for the top) all.
spec fn child_frame(hs: Seq<HeadingView>, p: Option<int>, lo: int, lvl: int) -> bool {
    match p {
        Some(i) => 0 <= i < hs.len() && lo == i + 1 && lvl == hs[i].level as int,
        None => lo == 0 && lvl == -1,
    }
}

proof fn lemma_prev_smaller_facts(hs: Seq<HeadingView>, level: u8, j: int)
    requires
        0 <= j <= hs.len(),
    ensures
        match prev_smaller(hs, level, j) {
            Some(p) => 0 <= p < j && hs[p].level < level && forall|u: int| p < u < j ==> hs[u].level >= level,
            None => forall|u: int| 0 <= u < j ==> hs[u].level >= level,
        },
    decreases j,
{
    if j > 0 && hs[j - 1].level >= level {
        lemma_prev_smaller_facts(hs, level, j - 1);
    }
}

/// Inside its frame, a heading is a child of `p` exactly when no heading
/// between the frame's start and it has a lower level.
proof fn lemma_parent_in_frame(hs: Seq<HeadingView>, p: Option<int>, lo: int, lvl: int, c: int)
    requires
        child_frame(hs, p, lo, lvl),
        lo <= c < hs.len(),
        hs[c].level as int > lvl,
    ensures
        parents_of(hs)[c] == p <==> forall|u: int| lo <= u < c ==> hs[u].level >= hs[c].level,
{
    let level = hs[c].level;
    lemma_prev_smaller_facts(hs, level, c);
    assert(parents_of(hs)[c] == prev_smaller(hs, level, c));
    if forall|u: int| lo <= u < c ==> hs[u].level >= level {
        match p {
            Some(i) => {
                match prev_smaller(hs, level, c) {
                    Some(q) => {
                        if q < i {
                            assert(hs[i].level >= level);
                        } else if q > i {
                            assert(hs[q].level >= level);
                        }
                    },
                    None => {
                        assert(hs[i].level >= level);
                    },
                }
            },
            None => {
                match prev_smaller(hs, level, c) {
                    Some(q) => {
                        assert(hs[q].level >= level);
                    },
                    None => {},
                }
            },
        }
    } else {
        let u = choose|u: int| lo <= u < c && hs[u].level < level;
        match prev_smaller(hs, level, c) {
            Some(q) => {
                if q < u {
                    assert(hs[u].level >= level);
                }
            },
            None => {
                assert(hs[u].level >= level);
            },
        }
    }
}

/// Past the end of its frame, no heading is a child of `p`.
proof fn lemma_no_kid_beyond(hs: Seq<HeadingView>, p: Option<int>, lo: int, lvl: int, c: int)
    requires
        child_frame(hs, p, lo, lvl),
        subtree_end(hs, lvl, lo) <= c < hs.len(),
    ensures
        parents_of(hs)[c] != p,
{
    lemma_subtree_end(hs, lvl, lo);
    let hi = subtree_end(hs, lvl, lo);
    let level = hs[c].level;
    lemma_prev_smaller_facts(hs, level, c);
    assert(parents_of(hs)[c] == prev_smaller(hs, level, c));
    match p {
        Some(i) => {
            if prev_smaller(hs, level, c) == Some(i) {
                assert(hs[hi].level as int <= lvl);
                if hi < c {
                    assert(hs[hi].level >= level);
                }
            }
        },
        None => {},
    }
}

proof fn lemma_kids_parent(parents: Seq<Option<int>>, p: Option<int>, m: int)
    requires
        0 <= m <= parents.len(),
    ensures
        forall|t: int|
            0 <= t < kids_upto(parents, p, m).len() ==> 0 <= #[trigger] kids_upto(parents, p, m)[t] < m
                && parents[kids_upto(parents, p, m)[t]] == p,
    decreases m,
{
    if m > 0 {
        lemma_kids_parent(parents, p, m - 1);
        let before = kids_upto(parents, p, m - 1);
        if parents[m - 1] == p {
            assert forall|t: int| 0 <= t < before.len() + 1 implies 0 <= #[trigger] before.push(m - 1)[t] < m
                && parents[before.push(m - 1)[t]] == p by {
                if t < before.len() {
                    assert(before.push(m - 1)[t] == before[t]);
                }
            }
        }
    }
}

/// The children of `p` among the first `m` headings of its frame: the first
/// starts the frame, each next one ends the subtree of the one before, and the
/// subtree of the last reaches past `m`.
proof fn lemma_kids_chain(hs: Seq<HeadingView>, p: Option<int>, lo: int, lvl: int, m: int)
    requires
        child_frame(hs, p, lo, lvl),
        lo <= m <= subtree_end(hs, lvl, lo),
    ensures
        (kids_upto(parents_of(hs), p, m).len() == 0) == (m == lo),
        forall|t: int|
            0 <= t < kids_upto(parents_of(hs), p, m).len() ==> lo <= #[trigger] kids_upto(parents_of(hs), p, m)[t]
                < m,
        kids_upto(parents_of(hs), p, m).len() > 0 ==> kids_upto(parents_of(hs), p, m)[0] == lo && m <= subtree_end(
            hs,
            hs[kids_upto(parents_of(hs), p, m).last()].level as int,
            kids_upto(parents_of(hs), p, m).last() + 1,
        ),
        forall|t: int|
            1 <= t < kids_upto(parents_of(hs), p, m).len() ==> #[trigger] kids_upto(parents_of(hs), p, m)[t]
                == subtree_end(
                hs,
                hs[kids_upto(parents_of(hs), p, m)[t - 1]].level as int,
                kids_upto(parents_of(hs), p, m)[t - 1] + 1,
            ),
    decreases m,
{
    let par = parents_of(hs);
    let n = hs.len() as int;
    lemma_subtree_end(hs, lvl, lo);
    lemma_parents_below(hs);
    if m == lo {
        if let Some(i) = p {
            lemma_kids_range(par, p, lo);
            if kids_upto(par, p, lo).len() > 0 {
                assert(i < kids_upto(par, p, lo)[0] < lo);
            }
        }
    } else {
        lemma_kids_chain(hs, p, lo, lvl, m - 1);
        let prev = kids_upto(par, p, m - 1);
        let c = m - 1;
        assert(hs[c].level as int > lvl);
        lemma_parent_in_frame(hs, p, lo, lvl, c);
        lemma_subtree_end(hs, hs[c].level as int, c + 1);
        if prev.len() == 0 {
            assert(par[c] == p);
            assert(kids_upto(par, p, m) == prev.push(c));
        } else {
            let k = prev.last();
            let ek = subtree_end(hs, hs[k].level as int, k + 1);
            lemma_subtree_end(hs, hs[k].level as int, k + 1);
            lemma_kids_parent(par, p, m - 1);
            assert(par[k] == p);
            assert(lo <= k < c);
            assert(hs[k].level as int > lvl);
            lemma_parent_in_frame(hs, p, lo, lvl, k);
            if c == ek {
                assert forall|u: int| lo <= u < c implies hs[u].level >= hs[c].level by {
                    if u < k {
                        assert(hs[u].level >= hs[k].level);
                    } else if u > k {
                        assert(hs[u].level as int > hs[k].level as int);
                    }
                }
                assert(par[c] == p);
                let kids = prev.push(c);
                assert(kids_upto(par, p, m) == kids);
                assert forall|t: int| 1 <= t < kids.len() implies #[trigger] kids[t] == subtree_end(
                    hs,
                    hs[kids[t - 1]].level as int,
                    kids[t - 1] + 1,
                ) by {
                    if t < prev.len() {
                        assert(kids[t] == prev[t]);
                        assert(kids[t - 1] == prev[t - 1]);
                    } else {
                        assert(kids[t - 1] == k);
                    }
                }
                assert forall|t: int| 0 <= t < kids.len() implies lo <= #[trigger] kids[t] < m by {
                    if t < prev.len() {
                        assert(kids[t] == prev[t]);
                    }
                }
            } else {
                assert(hs[c].level as int > hs[k].level as int);
                assert(par[c] != p);
                assert(kids_upto(par, p, m) == prev);
            }
        }
    }
}

/// No child of `p` comes after the end of its frame.
proof fn lemma_kids_stop(hs: Seq<HeadingView>, p: Option<int>, lo: int, lvl: int, m: int)
    requires
        child_frame(hs, p, lo, lvl),
        subtree_end(hs, lvl, lo) <= m <= hs.len(),
    ensures
        kids_upto(parents_of(hs), p, m) == kids_upto(parents_of(hs), p, subtree_end(hs, lvl, lo)),
    decreases m - subtree_end(hs, lvl, lo),
{
    if m > subtree_end(hs, lvl, lo) {
        lemma_kids_stop(hs, p, lo, lvl, m - 1);
        lemma_no_kid_beyond(hs, p, lo, lvl, m - 1);
    }
}

/// The subtree of the last child ends where the frame ends.
proof fn lemma_last_kid_end(hs: Seq<HeadingView>, p: Option<int>, lo: int, lvl: int, k: int)
    requires
        child_frame(hs, p, lo, lvl),
        lo <= k < subtree_end(hs, lvl, lo),
        subtree_end(hs, lvl, lo) <= subtree_end(hs, hs[k].level as int, k + 1),
    ensures
        subtree_end(hs, hs[k].level as int, k + 1) == subtree_end(hs, lvl, lo),
{
    lemma_subtree_end(hs, lvl, lo);
    lemma_subtree_end(hs, hs[k].level as int, k + 1);
    let hi = subtree_end(hs, lvl, lo);
    assert(hs[k].level as int > lvl);
    if subtree_end(hs, hs[k].level as int, k + 1) > hi {
        assert(hs[hi].level as int > hs[k].level as int);
    }
}

proof fn lemma_entries_split(md: Seq<char>, hs: Seq<HeadingView>, a: int, b: int, c: int)
    requires
        a <= b <= c,
    ensures
        heading_entries(md, hs, a, b) + heading_entries(md, hs, b, c) == heading_entries(md, hs, a, c),
{
    assert(heading_entries(md, hs, a, b) + heading_entries(md, hs, b, c) =~= heading_entries(md, hs, a, c));
}

/// A section in pre-order is its heading and the headings after it up to the
/// next one of its level or a lower one.
proof fn lemma_preorder_section(md: Seq<char>, hs: Seq<HeadingView>, i: int, s: ParsedSection)
    requires
        section_is(md, hs, i, s),
    ensures
        preorder_section(s) == heading_entries(md, hs, i, subtree_end(hs, hs[i].level as int, i + 1)),
    decreases hs.len() - i, 1int, 0int,
{
    let n = hs.len() as int;
    let par = parents_of(hs);
    let lo = i + 1;
    let lvl = hs[i].level as int;
    let hi = subtree_end(hs, lvl, lo);
    lemma_subtree_end(hs, lvl, lo);
    let kids = kids_upto(par, Some(i), n);
    lemma_kids_stop(hs, Some(i), lo, lvl, n);
    lemma_kids_chain(hs, Some(i), lo, lvl, hi);
    assert forall|j: int| 0 <= j < kids.len() implies lo - 1 < #[trigger] kids[j] < n && section_is(
        md,
        hs,
        kids[j],
        s.children@[j],
    ) by {
        assert(section_is(md, hs, kids[j], s.children@[j]));
    }
    lemma_preorder_group(md, hs, Some(i), lo, lvl, kids, s.children@, kids.len() as int);
    if kids.len() > 0 {
        lemma_last_kid_end(hs, Some(i), lo, lvl, kids.last());
    }
    assert(heading_entries(md, hs, i, hi) =~= seq![section_entry(s)] + heading_entries(md, hs, lo, hi));
}

/// The first `k` children of a frame in pre-order are the headings from the
/// frame's start to the end of the `k`-th child's subtree.
proof fn lemma_preorder_group(
    md: Seq<char>,
    hs: Seq<HeadingView>,
    p: Option<int>,
    lo: int,
    lvl: int,
    kids: Seq<int>,
    cs: Seq<ParsedSection>,
    k: int,
)
    requires
        child_frame(hs, p, lo, lvl),
        kids == kids_upto(parents_of(hs), p, subtree_end(hs, lvl, lo)),
        cs.len() == kids.len(),
        0 <= k <= kids.len(),
        forall|j: int|
            0 <= j < kids.len() ==> lo - 1 < #[trigger] kids[j] < hs.len() && section_is(md, hs, kids[j], cs[j]),
    ensures
        preorder_group(cs, k) == heading_entries(
            md,
            hs,
            lo,
            if k == 0 {
                lo
            } else {
                subtree_end(hs, hs[kids[k - 1]].level as int, kids[k - 1] + 1)
            },
        ),
    decreases hs.len() - lo + 1, 0int, k,
{
    if k > 0 {
        lemma_preorder_group(md, hs, p, lo, lvl, kids, cs, k - 1);
        lemma_subtree_end(hs, lvl, lo);
        lemma_kids_chain(hs, p, lo, lvl, subtree_end(hs, lvl, lo));
        let x = kids[k - 1];
        assert(section_is(md, hs, x, cs[k - 1]));
        lemma_preorder_section(md, hs, x, cs[k - 1]);
        lemma_subtree_end(hs, hs[x].level as int, x + 1);
        if k > 1 {
            assert(kids[k - 1] == subtree_end(hs, hs[kids[k - 2]].level as int, kids[k - 2] + 1));
        }
        lemma_entries_split(md, hs, lo, x, subtree_end(hs, hs[x].level as int, x + 1));
    } else {
        assert(heading_entries(md, hs, lo, lo) =~= Seq::empty());
    }
}

/// Walking a parsed course's sections in pre-order (each section, then its
/// subsections in order) meets every heading of the document exactly once, in
/// document order: the `i`-th section has the `i`-th heading's level and title
/// and that heading's body.
pub proof fn lemma_sections_follow_headings(md: Seq<char>, hint: Option<Seq<char>>, course: ParsedCourse)
    requires
        parsed_course_is(md, hint, course),
        document_headings(md).len() > 0,
    ensures
        preorder_group(course.sections@, course.sections@.len() as int) == heading_entries(
            md,
            document_headings(md),
            0,
            document_headings(md).len() as int,
        ),
{
    let hs = document_headings(md);
    let n = hs.len() as int;
    let roots = kids_upto(parents_of(hs), None, n);
    lemma_subtree_end(hs, -1, 0);
    assert(subtree_end(hs, -1, 0) == n);
    lemma_kids_chain(hs, None, 0, -1, n);
    assert forall|j: int| 0 <= j < roots.len() implies -1 < #[trigger] roots[j] < n && section_is(
        md,
        hs,
        roots[j],
        course.sections@[j],
    ) by {
        assert(section_is(md, hs, roots[j], course.sections@[j]));
    }
    lemma_preorder_group(md, hs, None, 0, -1, roots, course.sections@, roots.len() as int);
    lemma_last_kid_end(hs, None, 0, -1, roots.last());
}

/* Section bodies cover the document */

/// Heading lines are at least 1 and never go down.
spec fn lines_in_order(hs: Seq<HeadingView>) -> bool {
    &&& forall|a: int| 0 <= a < hs.len() ==> #[trigger] hs[a].line >= 1
    &&& forall|a: int, b: int| 0 <= a < b < hs.len() ==> #[trigger] hs[a].line <= #[trigger] hs[b].line
}

proof fn lemma_insert_pos_facts(sorted: Seq<HeadingView>, line: nat)
    requires
        forall|a: int, b: int| 0 <= a < b < sorted.len() ==> #[trigger] sorted[a].line <= #[trigger] sorted[b].line,
    ensures
        0 <= insert_pos(sorted, line) <= sorted.len(),
        forall|a: int| 0 <= a < insert_pos(sorted, line) ==> #[trigger] sorted[a].line <= line,
        forall|a: int| insert_pos(sorted, line) <= a < sorted.len() ==> #[trigger] sorted[a].line > line,
    decreases sorted.len(),
{
    lemma_insert_pos_bound(sorted, line);
    if sorted.len() > 0 {
        if sorted[0].line <= line {
            let rest = sorted.drop_first();
            lemma_insert_pos_facts(rest, line);
            assert forall|a: int| 0 <= a < insert_pos(sorted, line) implies #[trigger] sorted[a].line <= line by {
                if a > 0 {
                    assert(sorted[a] == rest[a - 1]);
                }
            }
            assert forall|a: int| insert_pos(sorted, line) <= a < sorted.len() implies #[trigger] sorted[a].line
                > line by {
                assert(sorted[a] == rest[a - 1]);
            }
        } else {
            assert forall|a: int| 0 <= a < sorted.len() implies #[trigger] sorted[a].line > line by {
                if a > 0 {
                    assert(sorted[0].line <= sorted[a].line);
                }
            }
        }
    }
}

proof fn lemma_sort_by_line_in_order(hs: Seq<HeadingView>)
    requires
        forall|a: int| 0 <= a < hs.len() ==> #[trigger] hs[a].line >= 1,
    ensures
        lines_in_order(sort_by_line(hs)),
    decreases hs.len(),
{
    if hs.len() > 0 {
        let prev = hs.drop_last();
        assert forall|a: int| 0 <= a < prev.len() implies #[trigger] prev[a].line >= 1 by {
            assert(prev[a] == hs[a]);
        }
        lemma_sort_by_line_in_order(prev);
        let sorted = sort_by_line(prev);
        let x = hs.last();
        lemma_insert_pos_facts(sorted, x.line);
        let p = insert_pos(sorted, x.line);
        let out = sorted.insert(p, x);
        assert(sort_by_line(hs) == out);
        assert forall|a: int| 0 <= a < out.len() implies #[trigger] out[a].line >= 1 by {
            if a < p {
                assert(out[a] == sorted[a]);
            } else if a > p {
                assert(out[a] == sorted[a - 1]);
            }
        }
        assert forall|a: int, b: int| 0 <= a < b < out.len() implies #[trigger] out[a].line <= #[trigger] out[b].line by {
            if b < p {
                assert(out[a] == sorted[a] && out[b] == sorted[b]);
            } else if b == p {
                assert(out[a] == sorted[a]);
            } else if a < p {
                assert(out[a] == sorted[a] && out[b] == sorted[b - 1]);
            } else if a == p {
                assert(out[b] == sorted[b - 1]);
            } else {
                assert(out[a] == sorted[a - 1] && out[b] == sorted[b - 1]);
            }
        }
    }
}

proof fn lemma_headings_lines(ev: Seq<EventView>, k: int)
    ensures
        forall|a: int| 0 <= a < headings_upto(ev, k).len() ==> #[trigger] headings_upto(ev, k)[a].line >= 1,
    decreases k,
{
    if k > 0 && k <= ev.len() {
        lemma_headings_lines(ev, k - 1);
        let before = headings_upto(ev, k - 1);
        assert forall|a: int| 0 <= a < headings_upto(ev, k).len() implies #[trigger] headings_upto(ev, k)[a].line
            >= 1 by {
            if a < before.len() {
                assert(headings_upto(ev, k)[a] == before[a]);
            }
        }
    }
}

proof fn lemma_document_lines(md: Seq<char>)
    ensures
        lines_in_order(document_headings(md)),
{
    let ev = markdown_events_of(md);
    lemma_headings_lines(ev, ev.len() as int);
    lemma_sort_by_line_in_order(headings_upto(ev, ev.len() as int));
}

/// Where line `line` (counted from 1) of a document starts; the document's
/// length past its last line.
pub open spec fn line_offset(md: Seq<char>, line: int) -> int {
    if 1 <= line <= line_starts(md).len() {
        line_starts(md)[line - 1]
    } else {
        md.len() as int
    }
}

/// The bodies of the first `k` entries, one after another.
pub open spec fn joined_bodies(es: Seq<(u8, Seq<char>, Seq<char>)>, k: int) -> Seq<char>
    decreases k,
{
    if k <= 0 || k > es.len() {
        Seq::empty()
    } else {
        joined_bodies(es, k - 1) + es[k - 1].2
    }
}

proof fn lemma_line_offset_mono(md: Seq<char>, a: int, b: int)
    requires
        1 <= a <= b,
    ensures
        0 <= line_offset(md, a) <= line_offset(md, b) <= md.len(),
{
    if md.len() > 0 {
        lemma_starts_sorted(md, md.len() as int);
        let o = line_starts(md);
        if b <= o.len() && a < b {
            assert(o[a - 1] < o[b - 1]);
        }
    }
}

/// The body of heading `i` runs from the start of its line to the start of the
/// next heading's line, or to the end of the document.
proof fn lemma_body_slice(md: Seq<char>, hs: Seq<HeadingView>, i: int)
    requires
        lines_in_order(hs),
        0 <= i < hs.len(),
    ensures
        line_offset(md, hs[i].line as int) <= (if i + 1 < hs.len() {
            line_offset(md, hs[i + 1].line as int)
        } else {
            md.len() as int
        }) <= md.len(),
        section_body(md, hs, i) == md.subrange(
            line_offset(md, hs[i].line as int),
            if i + 1 < hs.len() {
                line_offset(md, hs[i + 1].line as int)
            } else {
                md.len() as int
            },
        ),
{
    let o = line_starts(md);
    let l = hs[i].line as int;
    assert(hs[i].line >= 1);
    lemma_line_offset_mono(md, l, l);
    if i + 1 < hs.len() {
        assert(hs[i].line <= hs[i + 1].line);
        assert(hs[i + 1].line >= 1);
        lemma_line_offset_mono(md, l, hs[i + 1].line as int);
    }
    if md.len() == 0 {
        assert(md.subrange(0, 0) =~= Seq::<char>::empty());
    } else {
        lemma_starts_sorted(md, md.len() as int);
        if i + 1 < hs.len() {
            let l2 = hs[i + 1].line as int;
            if l2 - 1 < l {
                assert(l2 == l);
                assert(md.subrange(line_offset(md, l), line_offset(md, l)) =~= Seq::<char>::empty());
            }
        } else if o.len() < l {
            assert(md.subrange(md.len() as int, md.len() as int) =~= Seq::<char>::empty());
        }
    }
}

proof fn lemma_joined_bodies(md: Seq<char>, hs: Seq<HeadingView>, k: int)
    requires
        lines_in_order(hs),
        1 <= k <= hs.len(),
    ensures
        line_offset(md, hs[0].line as int) <= (if k < hs.len() {
            line_offset(md, hs[k].line as int)
        } else {
            md.len() as int
        }),
        joined_bodies(heading_entries(md, hs, 0, hs.len() as int), k) == md.subrange(
            line_offset(md, hs[0].line as int),
            if k < hs.len() {
                line_offset(md, hs[k].line as int)
            } else {
                md.len() as int
            },
        ),
    decreases k,
{
    let es = heading_entries(md, hs, 0, hs.len() as int);
    lemma_body_slice(md, hs, k - 1);
    assert(es[k - 1].2 == section_body(md, hs, k - 1));
    let a = line_offset(md, hs[0].line as int);
    let b = line_offset(md, hs[k - 1].line as int);
    let c = if k < hs.len() {
        line_offset(md, hs[k].line as int)
    } else {
        md.len() as int
    };
    assert(hs[0].line >= 1);
    lemma_line_offset_mono(md, hs[0].line as int, hs[0].line as int);
    if k > 1 {
        lemma_joined_bodies(md, hs, k - 1);
        assert(a <= b <= c);
        assert(md.subrange(a, b) + md.subrange(b, c) =~= md.subrange(a, c));
    } else {
        assert(joined_bodies(es, 0) + es[0].2 =~= es[0].2);
    }
}

/// The bodies of a parsed course's sections, taken in pre-order and put one
/// after another, give back the document from the start of its first
/// heading's line to its end: text before the first heading is in no body, and
/// every other character is in exactly one.
pub proof fn lemma_bodies_cover_document(md: Seq<char>, hint: Option<Seq<char>>, course: ParsedCourse)
    requires
        parsed_course_is(md, hint, course),
        document_headings(md).len() > 0,
    ensures
        joined_bodies(
            preorder_group(course.sections@, course.sections@.len() as int),
            document_headings(md).len() as int,
        ) == md.subrange(line_offset(md, document_headings(md)[0].line as int), md.len() as int),
{
    lemma_sections_follow_headings(md, hint, course);
    lemma_document_lines(md);
    lemma_joined_bodies(md, document_headings(md), document_headings(md).len() as int);
}

} // verus!
