//! Header lines that a multibuffer shows above each of its excerpts.
use vstd::prelude::*;

verus! {

/// A position in the text: a visual row and column.
#[derive(Debug, Clone, Copy, PartialEq, Eq, Structural, Default)]
pub struct Position {
    pub row: usize,
    pub col: usize,
}

/// `s` is sorted in strictly increasing order.
pub open spec fn strictly_increasing(s: Seq<usize>) -> bool {
    forall|i: int, j: int| 0 <= i < j < s.len() ==> s[i] < s[j]
}

/// The anchor of an excerpt that starts at `start` in a text of `len` characters.
pub open spec fn clamp_to(start: usize, len: usize) -> usize {
    if start <= len {
        start
    } else {
        len
    }
}

/// The anchor at `index`, or `usize::MAX` past the last one.
pub open spec fn anchor_at(anchors: Seq<usize>, index: int) -> usize {
    if 0 <= index < anchors.len() {
        anchors[index]
    } else {
        usize::MAX
    }
}

/// The virtual header lines of a multibuffer: one line above the start of each excerpt.
pub struct MultiBufferHeaders {
    anchors: Vec<usize>,
    current: usize,
}

impl MultiBufferHeaders {
    /// The anchors: character indices where a header line goes, in increasing order.
    pub closed spec fn anchors_view(&self) -> Seq<usize> {
        self.anchors@
    }

    /// The index of the next anchor to reach.
    pub closed spec fn current_view(&self) -> int {
        self.current as int
    }

    /// Headers for excerpts that start at `segment_starts`, in a text of `len_chars`
    /// characters: each start is cut to the text's end, and the anchors are sorted with
    /// duplicates dropped.
    pub fn new(segment_starts: &[usize], len_chars: usize) -> (r: MultiBufferHeaders)
        ensures
            strictly_increasing(r.anchors_view()),
            forall|a: usize|
                r.anchors_view().contains(a) <==> exists|i: int|
                    0 <= i < segment_starts@.len() && a == clamp_to(
                        #[trigger] segment_starts@[i],
                        len_chars,
                    ),
            r.current_view() == 0,
    {
        let mut anchors: Vec<usize> = Vec::new();
        let mut i: usize = 0;
        while i < segment_starts.len()
            invariant
                i <= segment_starts@.len(),
                strictly_increasing(anchors@),
                forall|a: usize|
                    anchors@.contains(a) <==> exists|j: int|
                        0 <= j < i && a == clamp_to(#[trigger] segment_starts@[j], len_chars),
            decreases segment_starts@.len() - i,
        {
            let s = segment_starts[i];
            let anchor = if s <= len_chars {
                s
            } else {
                len_chars
            };
            let ghost before = anchors@;
            insert_unique(&mut anchors, anchor);
            proof {
                assert forall|a: usize|
                    anchors@.contains(a) <==> exists|j: int|
                        0 <= j < i + 1 && a == clamp_to(
                            #[trigger] segment_starts@[j],
                            len_chars,
                        ) by {
                    if a == anchor {
                        assert(a == clamp_to(segment_starts@[i as int], len_chars));
                    }
                    if exists|j: int|
                        0 <= j < i + 1 && a == clamp_to(
                            #[trigger] segment_starts@[j],
                            len_chars,
                        ) {
                        let j = choose|j: int|
                            0 <= j < i + 1 && a == clamp_to(
                                #[trigger] segment_starts@[j],
                                len_chars,
                            );
                        if j < i {
                            assert(before.contains(a));
                        }
                    }
                }
            }
            i = i + 1;
        }
        MultiBufferHeaders { anchors, current: 0 }
    }

    /// Moves to the first anchor at or after `char_idx` and returns it, or `usize::MAX`
    /// when there is none.
    pub fn reset_pos(&mut self, char_idx: usize) -> (r: usize)
        requires
            strictly_increasing(old(self).anchors_view()),
        ensures
            final(self).anchors_view() == old(self).anchors_view(),
            0 <= final(self).current_view() <= old(self).anchors_view().len(),
            forall|i: int|
                0 <= i < final(self).current_view() ==> #[trigger] old(self).anchors_view()[i]
                    < char_idx,
            forall|i: int|
                final(self).current_view() <= i < old(self).anchors_view().len()
                    ==> #[trigger] old(self).anchors_view()[i] >= char_idx,
            r == anchor_at(old(self).anchors_view(), final(self).current_view()),
    {
        let mut lo: usize = 0;
        let mut hi: usize = self.anchors.len();
        while lo < hi
            invariant
                strictly_increasing(self.anchors@),
                0 <= lo <= hi <= self.anchors@.len(),
                forall|i: int| 0 <= i < lo ==> #[trigger] self.anchors@[i] < char_idx,
                forall|i: int| hi <= i < self.anchors@.len() ==> #[trigger] self.anchors@[i] >= char_idx,
            decreases hi - lo,
        {
            let mid = lo + (hi - lo) / 2;
            if self.anchors[mid] < char_idx {
                lo = mid + 1;
            } else {
                hi = mid;
            }
        }
        self.current = lo;
        if lo < self.anchors.len() {
            self.anchors[lo]
        } else {
            usize::MAX
        }
    }

    /// Passes the current anchor and returns the next one, or `usize::MAX` when there is
    /// none.
    pub fn process_anchor(&mut self) -> (r: usize)
        requires
            old(self).current_view() < usize::MAX,
        ensures
            final(self).anchors_view() == old(self).anchors_view(),
            final(self).current_view() == old(self).current_view() + 1,
            r == anchor_at(old(self).anchors_view(), final(self).current_view()),
    {
        self.current = self.current + 1;
        if self.current < self.anchors.len() {
            self.anchors[self.current]
        } else {
            usize::MAX
        }
    }

    /// One virtual line goes before `char_idx` when the current anchor is there.
    pub fn insert_virtual_lines_before(
        &mut self,
        char_idx: usize,
        _visual_pos: Position,
        _doc_line: usize,
    ) -> (r: Position)
        ensures
            final(self).anchors_view() == old(self).anchors_view(),
            final(self).current_view() == old(self).current_view(),
            r == (if 0 <= old(self).current_view() < old(self).anchors_view().len()
                && old(self).anchors_view()[old(self).current_view()] == char_idx {
                Position { row: 1, col: 0 }
            } else {
                Position { row: 0, col: 0 }
            }),
    {
        if self.current < self.anchors.len() && self.anchors[self.current] == char_idx {
            Position { row: 1, col: 0 }
        } else {
            Position { row: 0, col: 0 }
        }
    }

    /// No virtual line goes after the end of a line.
    pub fn insert_virtual_lines(
        &mut self,
        _line_end_char_idx: usize,
        _line_end_visual_pos: Position,
        _doc_line: usize,
    ) -> (r: Position)
        ensures
            final(self).anchors_view() == old(self).anchors_view(),
            final(self).current_view() == old(self).current_view(),
            r == (Position { row: 0, col: 0 }),
    {
        Position { row: 0, col: 0 }
    }
}

/// Inserts `x` into a strictly increasing sequence, unless it is already there.
fn insert_unique(v: &mut Vec<usize>, x: usize)
    requires
        strictly_increasing(old(v)@),
    ensures
        strictly_increasing(final(v)@),
        forall|a: usize| final(v)@.contains(a) <==> (old(v)@.contains(a) || a == x),
{
    let mut p: usize = 0;
    while p < v.len() && v[p] < x
        invariant
            v@ == old(v)@,
            p <= v@.len(),
            forall|i: int| 0 <= i < p ==> #[trigger] v@[i] < x,
        decreases v@.len() - p,
    {
        p = p + 1;
    }
    if p < v.len() && v[p] == x {
        proof {
            assert(v@[p as int] == x);
        }
        return;
    }
    let ghost before = v@;
    v.insert(p, x);
    proof {
        assert(v@ == before.insert(p as int, x));
        assert(before == old(v)@);
        assert forall|i: int, j: int| 0 <= i < j < v@.len() implies v@[i] < v@[j] by {
            if j < p {
            } else if i > p {
                assert(v@[i] == before[i - 1] && v@[j] == before[j - 1]);
            } else if i < p && j > p {
                assert(v@[j] == before[j - 1]);
                assert(before[i] < x);
                assert(x < before[p as int]);
                assert(before[p as int] <= before[j - 1]);
            } else if i == p {
                assert(v@[j] == before[j - 1]);
                assert(x < before[p as int]);
                assert(before[p as int] <= before[j - 1]);
            }
        }
        assert forall|a: usize| v@.contains(a) <==> (before.contains(a) || a == x) by {
            if v@.contains(a) {
                let k = choose|k: int| 0 <= k < v@.len() && v@[k] == a;
                if k < p {
                    assert(before[k] == a);
                } else if k > p {
                    assert(before[k - 1] == a);
                }
            }
            if before.contains(a) {
                let k = choose|k: int| 0 <= k < before.len() && before[k] == a;
                if k < p {
                    assert(v@[k] == a);
                } else {
                    assert(v@[k + 1] == a);
                }
            }
            if a == x {
                assert(v@[p as int] == a);
            }
        }
        assert(forall|a: usize| #[trigger] v@.contains(a) <==> (old(v)@.contains(a) || a == x));
    }
}

} // verus!
