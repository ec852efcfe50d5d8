//! Truncation of table cells at their start, so that the end of long text stays visible.
use vstd::prelude::*;
use vstd::string::StringExecFns;

verus! {

/// The display width of a text, in terminal columns, as `unicode-width` measures it.
pub uninterp spec fn str_width(s: Seq<char>) -> usize;

/// The extended grapheme clusters of a text, in order, as `unicode-segmentation` cuts it.
pub uninterp spec fn grapheme_clusters(s: Seq<char>) -> Seq<Seq<char>>;

/// Measures a text through `UnicodeWidthStr::width`.
#[verifier::external_body]
fn display_width(s: &str) -> (r: usize)
    ensures
        r == str_width(s@),
{
    unicode_width::UnicodeWidthStr::width(s)
}

/// Cuts a text into extended grapheme clusters through `UnicodeSegmentation::graphemes`.
#[verifier::external_body]
fn graphemes(s: &str) -> (r: Vec<String>)
    ensures
        r@.map_values(|g: String| g@) == grapheme_clusters(s@),
{
    unicode_segmentation::UnicodeSegmentation::graphemes(s, true).map(|g| g.to_string()).collect()
}

/// A piece of text with one style.
pub struct StyledSpan<S> {
    pub content: String,
    pub style: S,
}

/// The width of a line: the sum of its spans' widths.
pub open spec fn line_width<S>(spans: Seq<StyledSpan<S>>) -> int
    decreases spans.len(),
{
    if spans.len() == 0 {
        0
    } else {
        line_width(spans.drop_last()) + str_width(spans.last().content@)
    }
}

/// The sum of the widths of grapheme clusters.
pub open spec fn clusters_width(gs: Seq<Seq<char>>) -> int
    decreases gs.len(),
{
    if gs.len() == 0 {
        0
    } else {
        str_width(gs[0]) + clusters_width(gs.drop_first())
    }
}

/// How many clusters, taken from the end, fit in `remaining` columns, taking them one by one
/// until the next one does not fit.
pub open spec fn clusters_that_fit(gs: Seq<Seq<char>>, remaining: int) -> int
    decreases gs.len(),
{
    if gs.len() == 0 || str_width(gs.last()) > remaining {
        0
    } else {
        1 + clusters_that_fit(gs.drop_last(), remaining - str_width(gs.last()))
    }
}

/// The concatenation of clusters.
pub open spec fn concat(gs: Seq<Seq<char>>) -> Seq<char>
    decreases gs.len(),
{
    if gs.len() == 0 {
        Seq::empty()
    } else {
        concat(gs.drop_last()) + gs.last()
    }
}

/// The last clusters of a span that fit in `remaining` columns.
pub open spec fn fitting_tail(content: Seq<char>, remaining: int) -> Seq<Seq<char>> {
    let gs = grapheme_clusters(content);
    let k = clusters_that_fit(gs, remaining);
    gs.subrange(gs.len() - k, gs.len() as int)
}

/// The spans that stay of `spans`, taken from the end while columns remain: of each span, the
/// clusters at its end that fit; a span with nothing that fits is dropped, and once no column
/// remains the earlier spans are dropped too.
pub open spec fn kept_tail<S>(spans: Seq<StyledSpan<S>>, remaining: int) -> Seq<(Seq<char>, S)>
    decreases spans.len(),
{
    if spans.len() == 0 {
        Seq::empty()
    } else {
        let last = spans.last();
        let tail = fitting_tail(last.content@, remaining);
        let left = remaining - clusters_width(tail);
        let piece = if concat(tail).len() > 0 {
            seq![(concat(tail), last.style)]
        } else {
            Seq::empty()
        };
        if left == 0 {
            piece
        } else {
            kept_tail(spans.drop_last(), left) + piece
        }
    }
}

/// The columns that the pieces kept by `kept_tail` take, each piece measured cluster by
/// cluster as the truncation measures it.
pub open spec fn kept_columns<S>(spans: Seq<StyledSpan<S>>, remaining: int) -> int
    decreases spans.len(),
{
    if spans.len() == 0 {
        0
    } else {
        let used = clusters_width(fitting_tail(spans.last().content@, remaining));
        if remaining - used == 0 {
            used
        } else {
            kept_columns(spans.drop_last(), remaining - used) + used
        }
    }
}

proof fn lemma_clusters_width_nonneg(gs: Seq<Seq<char>>)
    ensures
        clusters_width(gs) >= 0,
    decreases gs.len(),
{
    if gs.len() > 0 {
        lemma_clusters_width_nonneg(gs.drop_first());
    }
}

proof fn lemma_clusters_width_push(gs: Seq<Seq<char>>, g: Seq<char>)
    ensures
        clusters_width(gs.push(g)) == clusters_width(gs) + str_width(g),
    decreases gs.len(),
{
    assert(gs.push(g)[0] == if gs.len() == 0 { g } else { gs[0] });
    if gs.len() == 0 {
        assert(gs.push(g).drop_first() =~= Seq::<Seq<char>>::empty());
        assert(clusters_width(Seq::<Seq<char>>::empty()) == 0);
    } else {
        assert(gs.push(g).drop_first() =~= gs.drop_first().push(g));
        lemma_clusters_width_push(gs.drop_first(), g);
    }
}

proof fn lemma_fitting_clusters_fit(gs: Seq<Seq<char>>, remaining: int)
    requires
        remaining >= 0,
    ensures
        0 <= clusters_that_fit(gs, remaining) <= gs.len(),
        0 <= clusters_width(
            gs.subrange(gs.len() - clusters_that_fit(gs, remaining), gs.len() as int),
        ) <= remaining,
    decreases gs.len(),
{
    let k = clusters_that_fit(gs, remaining);
    let tail = gs.subrange(gs.len() - k, gs.len() as int);
    lemma_clusters_width_nonneg(tail);
    if gs.len() == 0 || str_width(gs.last()) > remaining {
        assert(tail =~= Seq::<Seq<char>>::empty());
    } else {
        let rest = gs.drop_last();
        let r2 = remaining - str_width(gs.last());
        lemma_fitting_clusters_fit(rest, r2);
        let k2 = clusters_that_fit(rest, r2);
        assert(tail =~= rest.subrange(rest.len() - k2, rest.len() as int).push(gs.last()));
        lemma_clusters_width_push(rest.subrange(rest.len() - k2, rest.len() as int), gs.last());
    }
}

/// When a line is truncated, what stays of its end after the ellipsis takes at most
/// `width - 1` columns, counted cluster by cluster: with the ellipsis, the line fits in
/// `width` columns.
pub proof fn lemma_truncation_fits<S>(spans: Seq<StyledSpan<S>>, width: usize)
    requires
        width > 0,
    ensures
        0 <= kept_columns(spans, width - 1) <= width - 1,
{
    lemma_kept_columns_bounded(spans, width - 1);
}

proof fn lemma_kept_columns_bounded<S>(spans: Seq<StyledSpan<S>>, remaining: int)
    requires
        remaining >= 0,
    ensures
        0 <= kept_columns(spans, remaining) <= remaining,
    decreases spans.len(),
{
    if spans.len() > 0 {
        let c = spans.last().content@;
        lemma_fitting_clusters_fit(grapheme_clusters(c), remaining);
        let used = clusters_width(fitting_tail(c, remaining));
        if remaining - used != 0 {
            lemma_kept_columns_bounded(spans.drop_last(), remaining - used);
        }
    }
}

/// The view of a line's spans as text and style.
pub open spec fn spans_view<S>(spans: Seq<StyledSpan<S>>) -> Seq<(Seq<char>, S)> {
    spans.map_values(|sp: StyledSpan<S>| (sp.content@, sp.style))
}

/// A line truncated at its start to `width` columns: a line that fits, or a width of 0, leaves
/// it as it is; otherwise an ellipsis comes first and then what stays of its end in
/// `width - 1` columns.
pub open spec fn truncated_line<S>(
    spans: Seq<StyledSpan<S>>,
    width: usize,
    ellipsis_style: S,
) -> Seq<(Seq<char>, S)> {
    if line_width(spans) <= width || width == 0 {
        spans_view(spans)
    } else {
        seq![("…"@, ellipsis_style)] + kept_tail(spans, width - 1)
    }
}


/// The line's width is at most `width`.
fn line_fits<S>(spans: &Vec<StyledSpan<S>>, width: usize) -> (r: bool)
    ensures
        r == (line_width(spans@) <= width),
{
    let mut total: usize = 0;
    let mut i: usize = 0;
    while i < spans.len()
        invariant
            i <= spans@.len(),
            total == line_width(spans@.take(i as int)),
            total <= width,
        decreases spans@.len() - i,
    {
        let w = display_width(spans[i].content.as_str());
        proof {
            assert(spans@.take(i + 1).drop_last() =~= spans@.take(i as int));
        }
        if w > width - total {
            proof {
                lemma_line_width_monotone(spans@, i + 1);
            }
            return false;
        }
        total = total + w;
        i = i + 1;
    }
    proof {
        assert(spans@.take(spans@.len() as int) =~= spans@);
    }
    true
}

proof fn lemma_line_width_monotone<S>(spans: Seq<StyledSpan<S>>, i: int)
    requires
        0 <= i <= spans.len(),
    ensures
        line_width(spans.take(i)) <= line_width(spans),
    decreases spans.len() - i,
{
    if i < spans.len() {
        lemma_line_width_monotone(spans, i + 1);
        assert(spans.take(i + 1).drop_last() =~= spans.take(i));
    } else {
        assert(spans.take(i) =~= spans);
    }
}

/// The sum of a sequence of widths.
pub open spec fn widths_sum(ws: Seq<usize>) -> int
    decreases ws.len(),
{
    if ws.len() == 0 {
        0
    } else {
        ws[0] + widths_sum(ws.drop_first())
    }
}

/// How many widths, taken from the end, fit in `remaining` columns, taking them one by one
/// until the next one does not fit.
pub open spec fn widths_that_fit(ws: Seq<usize>, remaining: int) -> int
    decreases ws.len(),
{
    if ws.len() == 0 || ws.last() > remaining {
        0
    } else {
        1 + widths_that_fit(ws.drop_last(), remaining - ws.last())
    }
}

/// The widths of clusters.
pub open spec fn cluster_widths(gs: Seq<Seq<char>>) -> Seq<usize> {
    gs.map_values(|g: Seq<char>| str_width(g))
}

/// Of the clusters of a text with the given widths, in order, how many at the end fit in
/// `remaining` columns (taken from the end until the next one does not fit), and how many
/// columns they take.
pub fn fit_from_end(widths: &Vec<usize>, remaining: usize) -> (r: (usize, usize))
    ensures
        r.0 == widths_that_fit(widths@, remaining as int),
        r.0 <= widths@.len(),
        r.1 == widths_sum(widths@.subrange(widths@.len() - r.0, widths@.len() as int)),
        r.1 <= remaining,
{
    let ghost ws = widths@;
    let n = widths.len();
    let mut k: usize = 0;
    let mut rem: usize = remaining;
    proof {
        assert(ws.take(n as int) =~= ws);
        assert(ws.subrange(n as int, n as int) =~= Seq::<usize>::empty());
    }
    while k < n
        invariant
            ws == widths@,
            n == ws.len(),
            k <= n,
            rem <= remaining,
            rem == remaining - widths_sum(ws.subrange(n - k, n as int)),
            widths_that_fit(ws, remaining as int) == k + widths_that_fit(ws.take(n - k), rem as int),
        ensures
            k <= n,
            rem == remaining - widths_sum(ws.subrange(n - k, n as int)),
            widths_that_fit(ws, remaining as int) == k,
            rem <= remaining,
        decreases n - k,
    {
        let w = widths[n - 1 - k];
        proof {
            assert(ws.take(n - k).last() == ws[n - 1 - k]);
            assert(ws.take(n - k).drop_last() =~= ws.take(n - k - 1));
        }
        if w > rem {
            proof {
                assert(widths_that_fit(ws.take(n - k), rem as int) == 0);
            }
            break;
        }
        proof {
            let t = ws.subrange(n - k - 1, n as int);
            assert(t.drop_first() =~= ws.subrange(n - k, n as int));
            assert(t[0] == ws[n - 1 - k]);
        }
        rem = rem - w;
        k = k + 1;
        proof {
            if k == n {
                assert(ws.take(0) =~= Seq::<usize>::empty());
            }
        }
    }
    (k, remaining - rem)
}

proof fn lemma_fit_matches(gs: Seq<Seq<char>>, remaining: int)
    ensures
        clusters_that_fit(gs, remaining) == widths_that_fit(cluster_widths(gs), remaining),
    decreases gs.len(),
{
    let ws = cluster_widths(gs);
    if gs.len() > 0 {
        assert(ws.drop_last() =~= cluster_widths(gs.drop_last()));
        lemma_fit_matches(gs.drop_last(), remaining - str_width(gs.last()));
    }
}

proof fn lemma_width_matches(gs: Seq<Seq<char>>)
    ensures
        clusters_width(gs) == widths_sum(cluster_widths(gs)),
    decreases gs.len(),
{
    if gs.len() > 0 {
        assert(cluster_widths(gs).drop_first() =~= cluster_widths(gs.drop_first()));
        lemma_width_matches(gs.drop_first());
    }
}

/// The clusters at the end of `content` that fit in `remaining` columns, joined, and the
/// columns that they take.
fn take_fitting(content: &str, remaining: usize) -> (r: (String, usize))
    ensures
        r.0@ == concat(fitting_tail(content@, remaining as int)),
        r.1 == clusters_width(fitting_tail(content@, remaining as int)),
        r.1 <= remaining,
{
    let gs = graphemes(content);
    let ghost g = grapheme_clusters(content@);
    let n = gs.len();
    let mut widths: Vec<usize> = Vec::new();
    let mut i: usize = 0;
    while i < n
        invariant
            gs@.map_values(|x: String| x@) == g,
            n == g.len(),
            i <= n,
            widths@ == cluster_widths(g.take(i as int)),
        decreases n - i,
    {
        let w = display_width(gs[i].as_str());
        proof {
            assert(g[i as int] == gs@[i as int]@);
        }
        widths.push(w);
        i = i + 1;
        proof {
            assert(widths@ =~= cluster_widths(g.take(i as int)));
        }
    }
    proof {
        assert(g.take(n as int) =~= g);
    }
    let (k, used) = fit_from_end(&widths, remaining);
    proof {
        lemma_fit_matches(g, remaining as int);
        let tail = g.subrange(n - k, n as int);
        assert(cluster_widths(tail) =~= widths@.subrange(n - k, n as int));
        lemma_width_matches(tail);
    }
    let mut out = String::new();
    let mut j: usize = n - k;
    proof {
        assert(g.subrange(n - k, n - k) =~= Seq::<Seq<char>>::empty());
    }
    while j < n
        invariant
            gs@.map_values(|x: String| x@) == g,
            n == g.len(),
            k <= n,
            n - k <= j <= n,
            out@ == concat(g.subrange(n - k, j as int)),
        decreases n - j,
    {
        out.append(gs[j].as_str());
        proof {
            assert(g.subrange(n - k, j + 1).drop_last() =~= g.subrange(n - k, j as int));
            assert(g[j as int] == gs@[j as int]@);
        }
        j = j + 1;
    }
    (out, used)
}


/// Truncates a line at its start to `width` columns: a line that fits, or a width of 0,
/// is left as it is; otherwise it becomes an ellipsis followed by what stays of its end in
/// `width - 1` columns.
pub fn truncate_line_start<S: Copy>(spans: Vec<StyledSpan<S>>, width: usize, ellipsis_style: S) -> (r: Vec<StyledSpan<S>>)
    ensures
        spans_view(r@) == truncated_line(spans@, width, ellipsis_style),
{
    if width == 0 || line_fits(&spans, width) {
        return spans;
    }
    let ghost target = kept_tail(spans@, width - 1);
    let mut acc: Vec<StyledSpan<S>> = Vec::new();
    let mut rem: usize = width - 1;
    let mut i: usize = spans.len();
    proof {
        assert(spans@.take(i as int) =~= spans@);
        assert(i == 0 ==> spans@.take(i as int) =~= Seq::<StyledSpan<S>>::empty());
        assert(kept_tail(spans@.take(i as int), rem as int) + spans_view(acc@) =~= target);
    }
    while i > 0
        invariant_except_break
            kept_tail(spans@.take(i as int), rem as int) + spans_view(acc@) == target,
        invariant
            i <= spans@.len(),
            target == kept_tail(spans@, width - 1),
        ensures
            spans_view(acc@) == target,
        decreases i,
    {
        let st = spans[i - 1].style;
        let (text, used) = take_fitting(spans[i - 1].content.as_str(), rem);
        let left = rem - used;
        let ghost before = acc@;
        proof {
            assert(spans@.take(i as int).drop_last() =~= spans@.take(i - 1));
            assert(spans@.take(i as int).last() == spans@[i - 1]);
        }
        if !text.as_str().is_empty() {
            let ghost tv = text@;
            acc.insert(0, StyledSpan { content: text, style: st });
            proof {
                assert(spans_view(acc@) =~= seq![(tv, st)] + spans_view(before));
            }
        }
        if left == 0 {
            proof {
                assert(spans_view(acc@) =~= target);
            }
            break;
        }
        rem = left;
        i = i - 1;
        proof {
            assert(i == 0 ==> spans@.take(i as int) =~= Seq::<StyledSpan<S>>::empty());
        }
    }
    let mut out: Vec<StyledSpan<S>> = Vec::new();
    out.push(StyledSpan { content: "…".to_owned(), style: ellipsis_style });
    out.append(&mut acc);
    proof {
        assert(spans_view(out@) =~= seq![("…"@, ellipsis_style)] + target);
    }
    out
}

/// Truncates every line of a text at its start to `width` columns.
pub fn truncate_text_start<S: Copy>(lines: &mut Vec<Vec<StyledSpan<S>>>, width: usize, ellipsis_style: S)
    ensures
        final(lines)@.len() == old(lines)@.len(),
        forall|i: int|
            0 <= i < final(lines)@.len() ==> spans_view(#[trigger] final(lines)@[i]@) == truncated_line(
                old(lines)@[i]@,
                width,
                ellipsis_style,
            ),
{
    let n = lines.len();
    let mut i: usize = 0;
    while i < n
        invariant
            n == old(lines)@.len(),
            lines@.len() == n,
            i <= n,
            forall|j: int|
                0 <= j < i ==> spans_view(#[trigger] lines@[j]@) == truncated_line(
                    old(lines)@[j]@,
                    width,
                    ellipsis_style,
                ),
            forall|j: int| i <= j < n ==> #[trigger] lines@[j] == old(lines)@[j],
        decreases n - i,
    {
        let line = lines.remove(i);
        let truncated = truncate_line_start(line, width, ellipsis_style);
        lines.insert(i, truncated);
        i = i + 1;
    }
}

/// The width that a cell is truncated to: its column's width when truncation is on and
/// the column has a fixed length.
pub fn cell_truncation_width(widths: &[Option<u16>], index: usize, truncate_start: bool) -> (r: Option<usize>)
    ensures
        r == (if truncate_start && index < widths@.len() && widths@[index as int] is Some {
            Some(widths@[index as int].unwrap() as usize)
        } else {
            None::<usize>
        }),
{
    if truncate_start && index < widths.len() {
        match widths[index] {
            Some(w) => Some(w as usize),
            None => None,
        }
    } else {
        None
    }
}

} // verus!
