//! The layer stack of the editor's screen, with a render cache per layer.
use vstd::prelude::*;
use crate::graphics::{CursorKind, Rect};

verus! {

/// The cell at `(x, y)` of a surface that covers `area`, as an index into its cells
/// stored row by row; this is how the terminal layer's buffer lays out its cells.
pub open spec fn cell_index(area: Rect, x: int, y: int) -> int {
    (y - area.y) * area.width + (x - area.x)
}

/// `inner` lies within `outer`, and `outer` within the `u16` plane.
pub open spec fn rect_within(inner: Rect, outer: Rect) -> bool {
    &&& outer.x + outer.width <= u16::MAX
    &&& outer.y + outer.height <= u16::MAX
    &&& outer.x <= inner.x
    &&& inner.x + inner.width <= outer.x + outer.width
    &&& outer.y <= inner.y
    &&& inner.y + inner.height <= outer.y + outer.height
}

/// The index, in a surface that covers `area`, of the `k`-th cell of `region` in row order.
pub open spec fn region_cell_index(area: Rect, region: Rect, k: int) -> int {
    cell_index(area, region.x + k % (region.width as int), region.y + k / (region.width as int))
}

/// A cell copied out of a surface, with its index there.
pub struct CachedCell<C> {
    pub index: usize,
    pub cell: C,
}

/// What a layer drew into its region the last time it rendered.
pub struct LayerCache<C> {
    area: Option<Rect>,
    region: Option<Rect>,
    cells: Vec<CachedCell<C>>,
}

impl<C: Clone> LayerCache<C> {
    /// The screen area of the cached render, if any.
    pub closed spec fn area_view(&self) -> Option<Rect> {
        self.area
    }

    /// The region of the cached render, if any.
    pub closed spec fn region_view(&self) -> Option<Rect> {
        self.region
    }

    /// The cached cells, with their indices.
    pub closed spec fn cells_view(&self) -> Seq<CachedCell<C>> {
        self.cells@
    }

    /// An empty cache.
    pub fn new() -> (r: LayerCache<C>)
        ensures
            r.area_view() is None,
            r.region_view() is None,
            r.cells_view().len() == 0,
    {
        LayerCache { area: None, region: None, cells: Vec::new() }
    }

    /// Whether the cache holds a render of the given area and region.
    pub fn is_valid_for(&self, area: Rect, region: Option<Rect>) -> (r: bool)
        ensures
            r == (self.area_view() == Some(area) && self.region_view() == region),
    {
        let area_matches = match self.area {
            Some(a) => a == area,
            None => false,
        };
        let region_matches = match (self.region, region) {
            (Some(a), Some(b)) => a == b,
            (None, None) => true,
            _ => false,
        };
        area_matches && region_matches
    }

    /// The region of the cached render, if any.
    pub fn region(&self) -> (r: Option<Rect>)
        ensures
            r == self.region_view(),
    {
        self.region
    }

    /// The number of cached cells.
    pub fn cell_count(&self) -> (r: usize)
        ensures
            r == self.cells_view().len(),
    {
        self.cells.len()
    }

    /// Whether every cached cell lies within a surface of `len` cells.
    pub fn fits_surface(&self, len: usize) -> (r: bool)
        ensures
            r == cells_below(self.cells_view(), len as int),
    {
        let mut k: usize = 0;
        while k < self.cells.len()
            invariant
                k <= self.cells@.len(),
                forall|j: int| 0 <= j < k ==> #[trigger] self.cells@[j].index < len,
            decreases self.cells@.len() - k,
        {
            if self.cells[k].index >= len {
                return false;
            }
            k = k + 1;
        }
        true
    }

    /// Forgets the cached render.
    pub fn invalidate(&mut self)
        ensures
            final(self).area_view() is None,
            final(self).region_view() is None,
            final(self).cells_view().len() == 0,
    {
        self.area = None;
        self.region = None;
        self.cells = Vec::new();
    }

    /// Copies the cells of `region` out of a surface that covers `surface_area`, row by row.
    pub fn capture(&mut self, area: Rect, region: Rect, surface_area: Rect, content: &Vec<C>)
        requires
            rect_within(region, surface_area),
            content@.len() == surface_area.width * surface_area.height,
        ensures
            final(self).area_view() == Some(area),
            final(self).region_view() == Some(region),
            final(self).cells_view().len() == region.width * region.height,
            forall|k: int|
                0 <= k < final(self).cells_view().len() ==> captured_cell(
                    content@,
                    surface_area,
                    region,
                    k,
                    #[trigger] final(self).cells_view()[k],
                ),
    {
        let mut cells: Vec<CachedCell<C>> = Vec::new();
        let clen = content.len();
        let ghost w = region.width as int;
        let top = region.top();
        let bottom = region.bottom();
        let left = region.left();
        let right = region.right();
        let mut y = top;
        while y < bottom
            invariant
                rect_within(region, surface_area),
                content@.len() == surface_area.width * surface_area.height,
                clen == content@.len(),
                w == region.width,
                top == region.y,
                bottom == region.y + region.height,
                left == region.x,
                right == region.x + region.width,
                top <= y <= bottom,
                cells@.len() == (y - top) * w,
                forall|k: int|
                    0 <= k < cells@.len() ==> captured_cell(
                        content@,
                        surface_area,
                        region,
                        k,
                        #[trigger] cells@[k],
                    ),
            decreases bottom - y,
        {
            let mut x = left;
            while x < right
                invariant
                    rect_within(region, surface_area),
                    content@.len() == surface_area.width * surface_area.height,
                    clen == content@.len(),
                    w == region.width,
                    top == region.y,
                    bottom == region.y + region.height,
                    left == region.x,
                    right == region.x + region.width,
                    top <= y < bottom,
                    left <= x <= right,
                    cells@.len() == (y - top) * w + (x - left),
                    forall|k: int|
                        0 <= k < cells@.len() ==> captured_cell(
                            content@,
                            surface_area,
                            region,
                            k,
                            #[trigger] cells@[k],
                        ),
                decreases right - x,
            {
                let ghost k = cells@.len() as int;
                let row = (y - surface_area.y) as usize;
                let col = (x - surface_area.x) as usize;
                let sw = surface_area.width as usize;
                proof {
                    lemma_cell_index_in_bounds(surface_area, region, y as int, x as int, k);
                    assert(row * sw + col < content@.len());
                }
                let index = row * sw + col;
                let cell = content[index].clone();
                let ghost before = cells@;
                cells.push(CachedCell { index, cell });
                proof {
                    assert forall|j: int|
                        0 <= j < cells@.len() implies captured_cell(
                        content@,
                        surface_area,
                        region,
                        j,
                        #[trigger] cells@[j],
                    ) by {
                        if j < k {
                            assert(cells@[j] == before[j]);
                        }
                    }
                }
                x = x + 1;
            }
            proof {
                assert((y - top) * w + (right - left) == (y + 1 - top) * w) by (nonlinear_arith)
                    requires
                        right - left == w,
                ;
            }
            y = y + 1;
        }
        proof {
            assert((bottom - top) * w == region.width * region.height) by (nonlinear_arith)
                requires
                    bottom - top == region.height,
                    w == region.width,
            ;
        }
        self.area = Some(area);
        self.region = Some(region);
        self.cells = cells;
    }

    /// Writes the cached cells back into a surface's cells, at their indices.
    pub fn replay(&self, content: &mut Vec<C>)
        requires
            forall|k: int|
                0 <= k < self.cells_view().len() ==> #[trigger] self.cells_view()[k].index
                    < old(content)@.len(),
        ensures
            final(content)@.len() == old(content)@.len(),
            forall|i: int|
                0 <= i < final(content)@.len() && !written_at(self.cells_view(), i)
                    ==> #[trigger] final(content)@[i] == old(content)@[i],
            forall|k: int|
                0 <= k < self.cells_view().len() && last_write_at(self.cells_view(), k) ==> cloned(
                    self.cells_view()[k].cell,
                    #[trigger] final(content)@[self.cells_view()[k].index as int],
                ),
    {
        let mut n: usize = 0;
        while n < self.cells.len()
            invariant
                n <= self.cells_view().len(),
                self.cells@ == self.cells_view(),
                content@.len() == old(content)@.len(),
                forall|k: int|
                    0 <= k < self.cells_view().len() ==> #[trigger] self.cells_view()[k].index
                        < old(content)@.len(),
                forall|i: int|
                    0 <= i < content@.len() && !written_at(self.cells_view().subrange(0, n as int), i)
                        ==> #[trigger] content@[i] == old(content)@[i],
                forall|k: int|
                    0 <= k < n && last_write_at(self.cells_view().subrange(0, n as int), k)
                        ==> cloned(
                        self.cells_view()[k].cell,
                        #[trigger] content@[self.cells_view()[k].index as int],
                    ),
            decreases self.cells_view().len() - n,
        {
            let ghost before = content@;
            let ghost done = self.cells_view().subrange(0, n as int);
            let ghost next = self.cells_view().subrange(0, n + 1);
            let index = self.cells[n].index;
            let cell = self.cells[n].cell.clone();
            content.set(index, cell);
            proof {
                assert(next =~= done.push(self.cells_view()[n as int]));
                assert forall|i: int|
                    0 <= i < content@.len() && !written_at(next, i) implies #[trigger] content@[i]
                    == old(content)@[i] by {
                    if written_at(done, i) {
                        let k = choose|k: int| 0 <= k < done.len() && #[trigger] done[k].index == i;
                        assert(next[k].index == i);
                    }
                    assert(next[n as int].index == index);
                    assert(i != index);
                    assert(content@[i] == before[i]);
                }
                assert forall|k: int|
                    0 <= k < n + 1 && last_write_at(next, k) implies cloned(
                    self.cells_view()[k].cell,
                    #[trigger] content@[self.cells_view()[k].index as int],
                ) by {
                    if k < n {
                        assert(next[n as int].index != next[k].index);
                        assert(last_write_at(done, k)) by {
                            assert forall|j: int| k < j < done.len() implies #[trigger] done[j].index
                                != done[k].index by {
                                assert(next[j] == done[j]);
                            }
                        }
                    }
                }
                assert(self.cells_view().subrange(0, self.cells_view().len() as int) =~= self.cells_view());
            }
            n = n + 1;
        }
        proof {
            assert(self.cells_view().subrange(0, self.cells_view().len() as int) =~= self.cells_view());
        }
    }
}

/// The `k`-th cached cell of a capture of `region` holds the surface's cell at the `k`-th
/// position of the region, and its index there.
pub open spec fn captured_cell<C: Clone>(
    content: Seq<C>,
    surface_area: Rect,
    region: Rect,
    k: int,
    c: CachedCell<C>,
) -> bool {
    let i = region_cell_index(surface_area, region, k);
    &&& 0 <= i < content.len()
    &&& c.index == i
    &&& cloned(content[i], c.cell)
}

/// Some cached cell is written at index `i`.
pub open spec fn written_at<C>(cells: Seq<CachedCell<C>>, i: int) -> bool {
    exists|k: int| 0 <= k < cells.len() && #[trigger] cells[k].index == i
}

/// No later cached cell is written at the index of the `k`-th.
pub open spec fn last_write_at<C>(cells: Seq<CachedCell<C>>, k: int) -> bool {
    forall|j: int| k < j < cells.len() ==> #[trigger] cells[j].index != cells[k].index
}

proof fn lemma_cell_index_in_bounds(surface_area: Rect, region: Rect, y: int, x: int, k: int)
    requires
        rect_within(region, surface_area),
        region.y <= y < region.y + region.height,
        region.x <= x < region.x + region.width,
        k == (y - region.y) * region.width + (x - region.x),
    ensures
        0 <= (y - surface_area.y) * surface_area.width + (x - surface_area.x) < surface_area.width
            * surface_area.height,
        region_cell_index(surface_area, region, k) == (y - surface_area.y) * surface_area.width + (x
            - surface_area.x),
{
    let row = y - surface_area.y;
    let col = x - surface_area.x;
    let sw = surface_area.width as int;
    let sh = surface_area.height as int;
    assert(0 <= row * sw + col < sh * sw) by (nonlinear_arith)
        requires
            0 <= row < sh,
            0 <= col < sw,
    ;
    assert(sh * sw == surface_area.width * surface_area.height) by (nonlinear_arith)
        requires
            sh == surface_area.height,
            sw == surface_area.width,
    ;
    vstd::arithmetic::div_mod::lemma_fundamental_div_mod_converse(
        k,
        region.width as int,
        y - region.y,
        x - region.x,
    );
}


/// What a layer did with an event, with an optional callback to run on the compositor.
pub enum EventResult<CB> {
    Ignored(Option<CB>),
    Consumed(Option<CB>),
}

/// One step of event bubbling, from the front layer backwards: keeps the layer's callback,
/// if any, and tells whether the layer consumed the event, which stops the bubbling.
pub fn bubble_step<CB>(result: EventResult<CB>, callbacks: &mut Vec<CB>) -> (consumed: bool)
    ensures
        consumed == (result is Consumed),
        final(callbacks)@ == (match result {
            EventResult::Ignored(Some(cb)) => old(callbacks)@.push(cb),
            EventResult::Consumed(Some(cb)) => old(callbacks)@.push(cb),
            _ => old(callbacks)@,
        }),
{
    match result {
        EventResult::Consumed(Some(callback)) => {
            callbacks.push(callback);
            true
        },
        EventResult::Consumed(None) => true,
        EventResult::Ignored(Some(callback)) => {
            callbacks.push(callback);
            false
        },
        EventResult::Ignored(None) => false,
    }
}

/// The view of a macro recording: the register it records into and its keys so far.
pub open spec fn recording_view<R, K>(recording: Option<(R, Vec<K>)>) -> Option<(R, Seq<K>)> {
    match recording {
        Some((register, keys)) => Some((register, keys@)),
        None => None,
    }
}

/// The first step of handling an event: a key event is appended to the macro being
/// recorded, when a recording is on and no macro is replaying; otherwise the recording is
/// left as it is. `key` is the event's key, if the event is a key event.
pub fn record_macro_key<R, K>(recording: &mut Option<(R, Vec<K>)>, replaying: bool, key: Option<K>)
    ensures
        !replaying && key is Some && (*old(recording)) is Some ==> recording_view(*final(recording))
            == Some(((*old(recording)).unwrap().0, (*old(recording)).unwrap().1@.push(key.unwrap()))),
        !(!replaying && key is Some && (*old(recording)) is Some) ==> *final(recording) == *old(
            recording,
        ),
{
    if replaying {
        return;
    }
    match key {
        Some(k) => {
            match recording.take() {
                Some((register, keys)) => {
                    let mut keys = keys;
                    keys.push(k);
                    *recording = Some((register, keys));
                },
                None => {},
            }
        },
        None => {},
    }
}

/// Event bubbling through a stack of layers: the front layer (the last one) is asked first,
/// then the ones behind it, until a layer consumes the event. The callbacks that the asked
/// layers hand back are kept in the order they came.
pub struct EventBubble<CB> {
    remaining: usize,
    consumed: bool,
    callbacks: Vec<CB>,
}

impl<CB> EventBubble<CB> {
    /// How many layers, from the back, have not been asked yet.
    pub closed spec fn remaining_view(&self) -> nat {
        self.remaining as nat
    }

    /// Whether a layer consumed the event.
    pub closed spec fn consumed_view(&self) -> bool {
        self.consumed
    }

    /// The callbacks kept so far.
    pub closed spec fn callbacks_view(&self) -> Seq<CB> {
        self.callbacks@
    }

    /// Bubbling over `layer_count` layers, none asked yet.
    pub fn new(layer_count: usize) -> (r: EventBubble<CB>)
        ensures
            r.remaining_view() == layer_count,
            !r.consumed_view(),
            r.callbacks_view() == Seq::<CB>::empty(),
    {
        EventBubble { remaining: layer_count, consumed: false, callbacks: Vec::new() }
    }

    /// The layer to ask next: the frontmost one not asked yet, none once a layer consumed
    /// the event or every layer was asked.
    pub fn next_layer(&self) -> (r: Option<usize>)
        ensures
            r == (if self.consumed_view() || self.remaining_view() == 0 {
                None
            } else {
                Some((self.remaining_view() - 1) as usize)
            }),
    {
        if self.consumed || self.remaining == 0 {
            None
        } else {
            Some(self.remaining - 1)
        }
    }

    /// Records the answer of the layer that `next_layer` named.
    pub fn record(&mut self, result: EventResult<CB>)
        requires
            !old(self).consumed_view(),
            old(self).remaining_view() > 0,
        ensures
            final(self).remaining_view() == old(self).remaining_view() - 1,
            final(self).consumed_view() == (result is Consumed),
            final(self).callbacks_view() == (match result {
                EventResult::Ignored(Some(cb)) => old(self).callbacks_view().push(cb),
                EventResult::Consumed(Some(cb)) => old(self).callbacks_view().push(cb),
                _ => old(self).callbacks_view(),
            }),
    {
        self.remaining = self.remaining - 1;
        self.consumed = bubble_step(result, &mut self.callbacks);
    }

    /// Whether the event was consumed, and the callbacks to run, in the order they came.
    pub fn finish(self) -> (r: (bool, Vec<CB>))
        ensures
            r.0 == self.consumed_view(),
            r.1@ == self.callbacks_view(),
    {
        (self.consumed, self.callbacks)
    }
}

/// The index of the frontmost answer that holds a position, if any.
pub open spec fn frontmost_with_position<P>(answers: Seq<(Option<P>, CursorKind)>) -> Option<int>
    decreases answers.len(),
{
    if answers.len() == 0 {
        None
    } else if answers.last().0 is Some {
        Some(answers.len() - 1)
    } else {
        frontmost_with_position(answers.drop_last())
    }
}

/// The frontmost answer with a position is the one at the highest index that holds a
/// position, whatever its cursor kind: every answer in front of it holds none, and there is
/// none exactly when no answer holds a position.
pub proof fn lemma_frontmost_with_position<P>(answers: Seq<(Option<P>, CursorKind)>)
    ensures
        match frontmost_with_position(answers) {
            Some(i) => {
                &&& 0 <= i < answers.len()
                &&& answers[i].0 is Some
                &&& forall|j: int| i < j < answers.len() ==> (#[trigger] answers[j]).0 is None
            },
            None => forall|j: int| 0 <= j < answers.len() ==> (#[trigger] answers[j]).0 is None,
        },
        answers.len() > 0 && answers.last().0 is Some ==> frontmost_with_position(answers) == Some(
            answers.len() - 1,
        ),
    decreases answers.len(),
{
    if answers.len() > 0 && answers.last().0 is None {
        let rest = answers.drop_last();
        lemma_frontmost_with_position(rest);
        assert forall|j: int| 0 <= j < rest.len() implies rest[j] == answers[j] by {}
    }
}

/// The cursor of the screen from the answers of its layers, back to front: the answer of
/// the frontmost layer that shows a cursor position, else no position and a hidden cursor.
pub fn topmost_cursor<P>(answers: Vec<(Option<P>, CursorKind)>) -> (r: (Option<P>, CursorKind))
    ensures
        r == (match frontmost_with_position(answers@) {
            Some(i) => answers@[i],
            None => (None, CursorKind::Hidden),
        }),
{
    let ghost all = answers@;
    let mut rest = answers;
    while rest.len() > 0
        invariant
            all == answers@,
            rest@.len() <= all.len(),
            all.subrange(0, rest@.len() as int) == rest@,
            frontmost_with_position(all) == frontmost_with_position(rest@),
        decreases rest@.len(),
    {
        let ghost before = rest@;
        let last = rest.pop().unwrap();
        proof {
            assert(before.drop_last() =~= rest@);
            assert(all.subrange(0, rest@.len() as int) =~= rest@);
            assert(before.last() == last);
            assert(all[before.len() - 1] == before[before.len() - 1]);
        }
        if last.0.is_some() {
            return last;
        }
    }
    (None, CursorKind::Hidden)
}

/// The id of the picker component.
pub const PICKER_ID: &'static str = "picker";

/// Whether a layer's id is `id`.
pub open spec fn has_id(layer_id: Option<Seq<char>>, id: Seq<char>) -> bool {
    layer_id == Some(id)
}

/// The view of a layer's id.
pub open spec fn id_view(id: Option<&'static str>) -> Option<Seq<char>> {
    match id {
        Some(s) => Some(s@),
        None => None,
    }
}

/// Compares an optional id with an id.
fn id_is(layer_id: Option<&'static str>, id: &str) -> (r: bool)
    ensures
        r == has_id(id_view(layer_id), id@),
{
    match layer_id {
        Some(s) => crate::text::str_eq(s, id),
        None => false,
    }
}

/// The layers on screen, back to front, each with its id, its type name and its render cache.
pub struct Compositor<L, C> {
    layers: Vec<L>,
    ids: Vec<Option<&'static str>>,
    type_labels: Vec<&'static str>,
    layer_caches: Vec<LayerCache<C>>,
    area: Rect,
    last_picker: Option<L>,
    full_redraw: bool,
}

impl<L, C: Clone> Compositor<L, C> {
    /// The layers, back to front.
    pub closed spec fn layers_view(&self) -> Seq<L> {
        self.layers@
    }

    /// The ids of the layers.
    pub closed spec fn ids_view(&self) -> Seq<Option<Seq<char>>> {
        self.ids@.map_values(|id: Option<&'static str>| id_view(id))
    }

    /// The type names of the layers.
    pub closed spec fn types_view(&self) -> Seq<Seq<char>> {
        self.type_labels@.map_values(|t: &'static str| t@)
    }

    /// The render cache of each layer.
    pub closed spec fn caches_view(&self) -> Seq<LayerCache<C>> {
        self.layer_caches@
    }

    /// The area of the screen.
    pub closed spec fn area_view(&self) -> Rect {
        self.area
    }

    /// The picker that was closed last, kept to be reopened.
    pub closed spec fn last_picker_view(&self) -> Option<L> {
        self.last_picker
    }

    /// Whether the whole screen must be redrawn.
    pub closed spec fn full_redraw_view(&self) -> bool {
        self.full_redraw
    }

    /// Every layer has exactly one id, type name and cache.
    pub closed spec fn wf(&self) -> bool {
        &&& self.ids@.len() == self.layers@.len()
        &&& self.type_labels@.len() == self.layers@.len()
        &&& self.layer_caches@.len() == self.layers@.len()
    }

    /// In a well-formed compositor each layer has exactly one id, one type name and one
    /// cache.
    pub proof fn lemma_wf_lengths(&self)
        requires
            self.wf(),
        ensures
            self.ids_view().len() == self.layers_view().len(),
            self.types_view().len() == self.layers_view().len(),
            self.caches_view().len() == self.layers_view().len(),
    {
    }

    /// A compositor without layers, covering `area`.
    pub fn new(area: Rect) -> (r: Compositor<L, C>)
        ensures
            r.wf(),
            r.layers_view().len() == 0,
            r.area_view() == area,
            r.last_picker_view() is None,
            !r.full_redraw_view(),
    {
        Compositor {
            layers: Vec::new(),
            ids: Vec::new(),
            type_labels: Vec::new(),
            layer_caches: Vec::new(),
            area,
            last_picker: None,
            full_redraw: false,
        }
    }

    /// The area of the screen.
    pub fn size(&self) -> (r: Rect)
        ensures
            r == self.area_view(),
    {
        self.area
    }

    /// The number of layers.
    pub fn layer_count(&self) -> (r: usize)
        requires
            self.wf(),
        ensures
            r == self.layers_view().len(),
    {
        self.layers.len()
    }

    /// Whether the whole screen must be redrawn.
    pub fn full_redraw(&self) -> (r: bool)
        ensures
            r == self.full_redraw_view(),
    {
        self.full_redraw
    }

    /// Clears the request for a full redraw.
    pub fn clear_full_redraw(&mut self)
        ensures
            !final(self).full_redraw_view(),
            final(self).layers_view() == old(self).layers_view(),
            final(self).ids_view() == old(self).ids_view(),
            final(self).types_view() == old(self).types_view(),
            final(self).caches_view() == old(self).caches_view(),
            final(self).area_view() == old(self).area_view(),
            final(self).wf() == old(self).wf(),
    {
        self.full_redraw = false;
    }

    /// Sets the picker kept for reopening, handing back the one it replaces.
    pub fn replace_last_picker(&mut self, picker: Option<L>) -> (r: Option<L>)
        ensures
            r == old(self).last_picker_view(),
            final(self).last_picker_view() == picker,
            final(self).layers_view() == old(self).layers_view(),
            final(self).ids_view() == old(self).ids_view(),
            final(self).types_view() == old(self).types_view(),
            final(self).caches_view() == old(self).caches_view(),
            final(self).area_view() == old(self).area_view(),
            final(self).wf() == old(self).wf(),
    {
        let mut p = picker;
        std::mem::swap(&mut p, &mut self.last_picker);
        p
    }

    fn invalidate_render_cache(&mut self)
        requires
            old(self).wf(),
        ensures
            final(self).wf(),
            final(self).layers@ == old(self).layers@,
            final(self).ids@ == old(self).ids@,
            final(self).type_labels@ == old(self).type_labels@,
            final(self).area == old(self).area,
            final(self).last_picker == old(self).last_picker,
            final(self).full_redraw == old(self).full_redraw,
            forall|i: int|
                0 <= i < final(self).layer_caches@.len() ==> cache_empty(
                    #[trigger] final(self).layer_caches@[i],
                ),
    {
        let n = self.layer_caches.len();
        let mut i: usize = 0;
        while i < n
            invariant
                n == self.layer_caches@.len(),
                n == self.layers@.len(),
                i <= n,
                self.layers@ == old(self).layers@,
                self.ids@ == old(self).ids@,
                self.type_labels@ == old(self).type_labels@,
                self.area == old(self).area,
                self.last_picker == old(self).last_picker,
                self.full_redraw == old(self).full_redraw,
                self.ids@.len() == n,
                self.type_labels@.len() == n,
                forall|j: int| 0 <= j < i ==> cache_empty(#[trigger] self.layer_caches@[j]),
            decreases n - i,
        {
            let mut cache = self.layer_caches.remove(i);
            cache.invalidate();
            self.layer_caches.insert(i, cache);
            i = i + 1;
        }
    }

    /// Moves the screen to `area`, forgetting every cached render.
    pub fn resize(&mut self, area: Rect)
        requires
            old(self).wf(),
        ensures
            final(self).wf(),
            final(self).area_view() == area,
            final(self).layers_view() == old(self).layers_view(),
            final(self).ids_view() == old(self).ids_view(),
            final(self).types_view() == old(self).types_view(),
            final(self).last_picker_view() == old(self).last_picker_view(),
            final(self).full_redraw_view() == old(self).full_redraw_view(),
            forall|i: int|
                0 <= i < final(self).caches_view().len() ==> cache_empty(
                    #[trigger] final(self).caches_view()[i],
                ),
    {
        self.area = area;
        self.invalidate_render_cache();
    }

    /// Asks for a redraw of the whole screen, forgetting every cached render.
    pub fn need_full_redraw(&mut self)
        requires
            old(self).wf(),
        ensures
            final(self).wf(),
            final(self).full_redraw_view(),
            final(self).area_view() == old(self).area_view(),
            final(self).layers_view() == old(self).layers_view(),
            final(self).ids_view() == old(self).ids_view(),
            final(self).types_view() == old(self).types_view(),
            final(self).last_picker_view() == old(self).last_picker_view(),
            forall|i: int|
                0 <= i < final(self).caches_view().len() ==> cache_empty(
                    #[trigger] final(self).caches_view()[i],
                ),
    {
        self.full_redraw = true;
        self.invalidate_render_cache();
    }

    /// Adds a layer in front of all others, with an empty cache; pushing the picker drops
    /// the picker kept for reopening.
    pub fn push(&mut self, layer: L, id: Option<&'static str>, type_label: &'static str)
        requires
            old(self).wf(),
        ensures
            final(self).wf(),
            final(self).layers_view() == old(self).layers_view().push(layer),
            final(self).ids_view() == old(self).ids_view().push(id_view(id)),
            final(self).types_view() == old(self).types_view().push(type_label@),
            final(self).caches_view().drop_last() == old(self).caches_view(),
            cache_empty(final(self).caches_view().last()),
            final(self).last_picker_view() == (if has_id(id_view(id), PICKER_ID@) {
                None
            } else {
                old(self).last_picker_view()
            }),
            final(self).area_view() == old(self).area_view(),
            final(self).full_redraw_view() == old(self).full_redraw_view(),
    {
        if id_is(id, PICKER_ID) {
            self.last_picker = None;
        }
        self.layers.push(layer);
        self.ids.push(id);
        self.type_labels.push(type_label);
        self.layer_caches.push(LayerCache::new());
        proof {
            assert(self.ids_view() =~= old(self).ids_view().push(id_view(id)));
            assert(self.types_view() =~= old(self).types_view().push(type_label@));
            assert(self.layer_caches@.drop_last() =~= old(self).layer_caches@);
        }
    }

    /// The lowest index (the backmost layer) whose id is `id`.
    pub fn position_of_id(&self, id: &str) -> (r: Option<usize>)
        requires
            self.wf(),
        ensures
            match r {
                Some(i) => i < self.layers_view().len() && has_id(self.ids_view()[i as int], id@)
                    && forall|j: int| 0 <= j < i ==> !has_id(#[trigger] self.ids_view()[j], id@),
                None => forall|j: int|
                    0 <= j < self.layers_view().len() ==> !has_id(
                        #[trigger] self.ids_view()[j],
                        id@,
                    ),
            },
    {
        let mut i: usize = 0;
        while i < self.ids.len()
            invariant
                self.wf(),
                i <= self.ids@.len(),
                forall|j: int| 0 <= j < i ==> !has_id(#[trigger] self.ids_view()[j], id@),
            decreases self.ids@.len() - i,
        {
            if id_is(self.ids[i], id) {
                return Some(i);
            }
            i = i + 1;
        }
        None
    }

    /// The lowest index (the backmost layer) whose type name is `type_label`.
    pub fn position_of_type(&self, type_label: &str) -> (r: Option<usize>)
        requires
            self.wf(),
        ensures
            match r {
                Some(i) => i < self.layers_view().len() && self.types_view()[i as int]
                    == type_label@ && forall|j: int|
                    0 <= j < i ==> #[trigger] self.types_view()[j] != type_label@,
                None => forall|j: int|
                    0 <= j < self.layers_view().len() ==> #[trigger] self.types_view()[j]
                        != type_label@,
            },
    {
        let mut i: usize = 0;
        while i < self.type_labels.len()
            invariant
                self.wf(),
                i <= self.type_labels@.len(),
                forall|j: int| 0 <= j < i ==> #[trigger] self.types_view()[j] != type_label@,
            decreases self.type_labels@.len() - i,
        {
            if crate::text::str_eq(self.type_labels[i], type_label) {
                return Some(i);
            }
            i = i + 1;
        }
        None
    }

    /// Removes the front layer and hands it back.
    pub fn pop(&mut self) -> (r: Option<L>)
        requires
            old(self).wf(),
        ensures
            final(self).wf(),
            old(self).layers_view().len() == 0 ==> r is None && final(self).layers_view()
                == old(self).layers_view(),
            old(self).layers_view().len() > 0 ==> {
                &&& r == Some(old(self).layers_view().last())
                &&& final(self).layers_view() == old(self).layers_view().drop_last()
                &&& final(self).ids_view() == old(self).ids_view().drop_last()
                &&& final(self).types_view() == old(self).types_view().drop_last()
                &&& final(self).caches_view() == old(self).caches_view().drop_last()
            },
            final(self).area_view() == old(self).area_view(),
            final(self).last_picker_view() == old(self).last_picker_view(),
            final(self).full_redraw_view() == old(self).full_redraw_view(),
    {
        if self.layers.len() == 0 {
            return None;
        }
        self.layer_caches.pop();
        self.ids.pop();
        self.type_labels.pop();
        let r = self.layers.pop();
        proof {
            assert(self.ids_view() =~= old(self).ids_view().drop_last());
            assert(self.types_view() =~= old(self).types_view().drop_last());
        }
        r
    }

    /// Removes the layer at index `i`, with its id, type name and cache.
    fn remove_at(&mut self, i: usize) -> (r: L)
        requires
            old(self).wf(),
            i < old(self).layers_view().len(),
        ensures
            final(self).wf(),
            r == old(self).layers_view()[i as int],
            final(self).layers_view() == old(self).layers_view().remove(i as int),
            final(self).ids_view() == old(self).ids_view().remove(i as int),
            final(self).types_view() == old(self).types_view().remove(i as int),
            final(self).caches_view() == old(self).caches_view().remove(i as int),
            final(self).area_view() == old(self).area_view(),
            final(self).last_picker_view() == old(self).last_picker_view(),
            final(self).full_redraw_view() == old(self).full_redraw_view(),
    {
        self.layer_caches.remove(i);
        self.ids.remove(i);
        self.type_labels.remove(i);
        let r = self.layers.remove(i);
        proof {
            assert(self.ids_view() =~= old(self).ids_view().remove(i as int));
            assert(self.types_view() =~= old(self).types_view().remove(i as int));
        }
        r
    }

    /// Removes the backmost layer (the lowest index) whose id is `id`, and hands it back.
    pub fn remove(&mut self, id: &str) -> (r: Option<L>)
        requires
            old(self).wf(),
        ensures
            final(self).wf(),
            match r {
                Some(l) => exists|i: int|
                    0 <= i < old(self).layers_view().len() && first_with_id(
                        old(self).ids_view(),
                        i,
                        id@,
                    ) && l == old(self).layers_view()[i] && final(self).layers_view() == old(self).layers_view().remove(i) && final(self).ids_view() == old(self).ids_view().remove(i)
                        && final(self).types_view() == old(self).types_view().remove(i) && final(self).caches_view()
                        == old(self).caches_view().remove(i),
                None => (forall|j: int|
                    0 <= j < old(self).layers_view().len() ==> !has_id(
                        #[trigger] old(self).ids_view()[j],
                        id@,
                    )) && final(self).layers_view() == old(self).layers_view() && final(self).ids_view()
                    == old(self).ids_view() && final(self).caches_view() == old(self).caches_view(),
            },
            final(self).area_view() == old(self).area_view(),
            final(self).last_picker_view() == old(self).last_picker_view(),
            final(self).full_redraw_view() == old(self).full_redraw_view(),
    {
        match self.position_of_id(id) {
            Some(i) => Some(self.remove_at(i)),
            None => None,
        }
    }

    /// Removes every layer whose type name is `type_label`, keeping the others in order.
    pub fn remove_type(&mut self, type_label: &str)
        requires
            old(self).wf(),
        ensures
            final(self).wf(),
            final(self).layers_view() == kept(
                old(self).layers_view(),
                old(self).types_view(),
                type_label@,
            ),
            final(self).ids_view() == kept(
                old(self).ids_view(),
                old(self).types_view(),
                type_label@,
            ),
            final(self).types_view() == kept(
                old(self).types_view(),
                old(self).types_view(),
                type_label@,
            ),
            final(self).caches_view() == kept(
                old(self).caches_view(),
                old(self).types_view(),
                type_label@,
            ),
            final(self).area_view() == old(self).area_view(),
            final(self).last_picker_view() == old(self).last_picker_view(),
            final(self).full_redraw_view() == old(self).full_redraw_view(),
    {
        let ghost ol = old(self).layers_view();
        let ghost oi = old(self).ids_view();
        let ghost ot = old(self).types_view();
        let ghost oc = old(self).caches_view();
        let ghost label = type_label@;
        let mut idx: usize = 0;
        let ghost mut o: int = 0;
        proof {
            assert(ol.take(0) =~= Seq::<L>::empty());
            assert(oi.take(0) =~= Seq::<Option<Seq<char>>>::empty());
            assert(ot.take(0) =~= Seq::<Seq<char>>::empty());
            assert(oc.take(0) =~= Seq::<LayerCache<C>>::empty());
            assert(ol.skip(0) =~= ol);
            assert(oi.skip(0) =~= oi);
            assert(ot.skip(0) =~= ot);
            assert(oc.skip(0) =~= oc);
        }
        while idx < self.layers.len()
            invariant
                self.wf(),
                label == type_label@,
                ol.len() == ot.len() && oi.len() == ot.len() && oc.len() == ot.len(),
                0 <= o <= ot.len(),
                idx == kept(ot.take(o), ot.take(o), label).len(),
                self.layers_view() == kept(ol.take(o), ot.take(o), label) + ol.skip(o),
                self.ids_view() == kept(oi.take(o), ot.take(o), label) + oi.skip(o),
                self.types_view() == kept(ot.take(o), ot.take(o), label) + ot.skip(o),
                self.caches_view() == kept(oc.take(o), ot.take(o), label) + oc.skip(o),
                self.area_view() == old(self).area_view(),
                self.last_picker_view() == old(self).last_picker_view(),
                self.full_redraw_view() == old(self).full_redraw_view(),
            decreases self.layers_view().len() - idx,
        {
            proof {
                lemma_kept_len(ol.take(o), ot.take(o), label);
                lemma_kept_len(ot.take(o), ot.take(o), label);
                assert(self.types_view()[idx as int] == ot[o]);
                assert(self.types_view()[idx as int] == self.type_labels@[idx as int]@);
                lemma_kept_step(ol, ot, label, o);
                lemma_kept_step(oi, ot, label, o);
                lemma_kept_step(ot, ot, label, o);
                lemma_kept_step(oc, ot, label, o);
            }
            if crate::text::str_eq(self.type_labels[idx], type_label) {
                let ghost bl = self.layers_view();
                let ghost bi = self.ids_view();
                let ghost bt = self.types_view();
                let ghost bc = self.caches_view();
                self.remove_at(idx);
                proof {
                    let kl = kept(ol.take(o), ot.take(o), label);
                    let ki = kept(oi.take(o), ot.take(o), label);
                    let kt = kept(ot.take(o), ot.take(o), label);
                    let kc = kept(oc.take(o), ot.take(o), label);
                    lemma_kept_len(oi.take(o), ot.take(o), label);
                    lemma_kept_len(oc.take(o), ot.take(o), label);
                    assert(bl.remove(idx as int) =~= kl + ol.skip(o + 1));
                    assert(bi.remove(idx as int) =~= ki + oi.skip(o + 1));
                    assert(bt.remove(idx as int) =~= kt + ot.skip(o + 1));
                    assert(bc.remove(idx as int) =~= kc + oc.skip(o + 1));
                    o = o + 1;
                }
            } else {
                proof {
                    let kl = kept(ol.take(o), ot.take(o), label);
                    let ki = kept(oi.take(o), ot.take(o), label);
                    let kt = kept(ot.take(o), ot.take(o), label);
                    let kc = kept(oc.take(o), ot.take(o), label);
                    assert(kl + ol.skip(o) =~= kl.push(ol[o]) + ol.skip(o + 1));
                    assert(ki + oi.skip(o) =~= ki.push(oi[o]) + oi.skip(o + 1));
                    assert(kt + ot.skip(o) =~= kt.push(ot[o]) + ot.skip(o + 1));
                    assert(kc + oc.skip(o) =~= kc.push(oc[o]) + oc.skip(o + 1));
                    o = o + 1;
                }
                idx = idx + 1;
            }
        }
        proof {
            lemma_kept_len(ol.take(o), ot.take(o), label);
            lemma_kept_len(ot.take(o), ot.take(o), label);
            assert(o == ot.len());
            assert(ol.take(o) =~= ol);
            assert(oi.take(o) =~= oi);
            assert(ot.take(o) =~= ot);
            assert(oc.take(o) =~= oc);
            assert(self.layers_view() =~= kept(ol, ot, label));
            assert(self.ids_view() =~= kept(oi, ot, label));
            assert(self.types_view() =~= kept(ot, ot, label));
            assert(self.caches_view() =~= kept(oc, ot, label));
        }
    }

    /// Replaces the first layer whose id is `id` by `layer`, forgetting its cached render;
    /// when no layer has that id, pushes `layer` in front.
    pub fn replace_or_push(
        &mut self,
        id: &'static str,
        layer: L,
        layer_id: Option<&'static str>,
        layer_type: &'static str,
    )
        requires
            old(self).wf(),
        ensures
            final(self).wf(),
            final(self).area_view() == old(self).area_view(),
            final(self).full_redraw_view() == old(self).full_redraw_view(),
            match old(self).first_id_position(id@) {
                Some(i) => {
                    &&& 0 <= i < old(self).layers_view().len()
                    &&& final(self).layers_view().len() == old(self).layers_view().len()
                    &&& final(self).layers_view() == old(self).layers_view().update(i, layer)
                    &&& final(self).ids_view() == old(self).ids_view().update(i, id_view(layer_id))
                    &&& final(self).types_view() == old(self).types_view().update(i, layer_type@)
                    &&& final(self).caches_view().len() == old(self).caches_view().len()
                    &&& cache_empty(final(self).caches_view()[i])
                    &&& forall|j: int|
                        0 <= j < old(self).caches_view().len() && j != i ==> #[trigger] final(self).caches_view()[j] == old(self).caches_view()[j]
                    &&& final(self).last_picker_view() == old(self).last_picker_view()
                },
                None => {
                    &&& final(self).layers_view() == old(self).layers_view().push(layer)
                    &&& final(self).ids_view() == old(self).ids_view().push(id_view(layer_id))
                    &&& final(self).types_view() == old(self).types_view().push(layer_type@)
                    &&& final(self).caches_view().drop_last() == old(self).caches_view()
                    &&& cache_empty(final(self).caches_view().last())
                    &&& final(self).last_picker_view() == (if has_id(
                        id_view(layer_id),
                        PICKER_ID@,
                    ) {
                        None
                    } else {
                        old(self).last_picker_view()
                    })
                },
            },
    {
        match self.position_of_id(id) {
            Some(idx) => {
                self.layers.remove(idx);
                self.layers.insert(idx, layer);
                self.ids.remove(idx);
                self.ids.insert(idx, layer_id);
                self.type_labels.remove(idx);
                self.type_labels.insert(idx, layer_type);
                let mut cache = self.layer_caches.remove(idx);
                cache.invalidate();
                self.layer_caches.insert(idx, cache);
                proof {
                    assert(self.layers@ =~= old(self).layers@.update(idx as int, layer));
                    assert(self.ids@ =~= old(self).ids@.update(idx as int, layer_id));
                    assert(self.type_labels@ =~= old(self).type_labels@.update(
                        idx as int,
                        layer_type,
                    ));
                    assert(self.ids_view() =~= old(self).ids_view().update(
                        idx as int,
                        id_view(layer_id),
                    ));
                    assert(self.types_view() =~= old(self).types_view().update(
                        idx as int,
                        layer_type@,
                    ));
                    assert(self.layer_caches@ =~= old(self).layer_caches@.update(idx as int, cache));
                    let ids = old(self).ids_view();
                    assert(first_with_id(ids, idx as int, id@));
                    let c = choose|c: int|
                        0 <= c < old(self).layers@.len() && first_with_id(ids, c, id@);
                    if c < idx {
                        assert(!has_id(ids[c], id@));
                    }
                    if idx < c {
                        assert(!has_id(ids[idx as int], id@));
                    }
                    assert(old(self).first_id_position(id@) == Some(idx as int));
                }
            },
            None => {
                proof {
                    assert(old(self).first_id_position(id@) is None);
                }
                self.push(layer, layer_id, layer_type);
            },
        }
    }

    /// The lowest index of a layer whose id is `id`: the backmost such layer.
    pub open spec fn first_id_position(&self, id: Seq<char>) -> Option<int> {
        if exists|i: int| 0 <= i < self.ids_view().len() && first_with_id(self.ids_view(), i, id) {
            Some(choose|i: int| 0 <= i < self.ids_view().len() && first_with_id(self.ids_view(), i, id))
        } else {
            None
        }
    }

    /// The position of the first layer with an id is the lowest index whose layer has that
    /// id, and there is none exactly when no layer has it.
    pub proof fn lemma_first_id_position(&self, id: Seq<char>)
        ensures
            match self.first_id_position(id) {
                Some(i) => {
                    &&& 0 <= i < self.ids_view().len()
                    &&& has_id(self.ids_view()[i], id)
                    &&& forall|j: int| 0 <= j < i ==> !has_id(#[trigger] self.ids_view()[j], id)
                },
                None => forall|j: int|
                    0 <= j < self.ids_view().len() ==> !has_id(#[trigger] self.ids_view()[j], id),
            },
    {
        let ids = self.ids_view();
        if self.first_id_position(id) is None {
            assert forall|j: int| 0 <= j < ids.len() implies !has_id(#[trigger] ids[j], id) by {
                if has_id(ids[j], id) {
                    lemma_some_first_with_id(ids, j, id);
                }
            }
        }
    }

    /// Gives mutable access to the layer at index `i`.
    pub fn layer_mut(&mut self, i: usize) -> (r: &mut L)
        requires
            old(self).wf(),
            i < old(self).layers_view().len(),
        ensures
            *r == old(self).layers_view()[i as int],
            final(self).layers_view() == old(self).layers_view().update(i as int, *final(r)),
            final(self).ids_view() == old(self).ids_view(),
            final(self).types_view() == old(self).types_view(),
            final(self).caches_view() == old(self).caches_view(),
            final(self).area_view() == old(self).area_view(),
            final(self).last_picker_view() == old(self).last_picker_view(),
            final(self).full_redraw_view() == old(self).full_redraw_view(),
            final(self).wf(),
    {
        &mut self.layers[i]
    }

    /// Gives access to the layer at index `i`.
    pub fn layer(&self, i: usize) -> (r: &L)
        requires
            self.wf(),
            i < self.layers_view().len(),
        ensures
            *r == self.layers_view()[i as int],
    {
        &self.layers[i]
    }

    /// Whether the cache of layer `i` holds a render of the given area and region.
    pub fn cache_is_valid_for(&self, i: usize, area: Rect, region: Option<Rect>) -> (r: bool)
        requires
            self.wf(),
            i < self.layers_view().len(),
        ensures
            r == (self.caches_view()[i as int].area_view() == Some(area)
                && self.caches_view()[i as int].region_view() == region),
    {
        self.layer_caches[i].is_valid_for(area, region)
    }

    /// Whether every cell cached for layer `i` lies within a surface of `len` cells.
    pub fn cache_fits_surface(&self, i: usize, len: usize) -> (r: bool)
        requires
            self.wf(),
            i < self.layers_view().len(),
        ensures
            r == cells_below(self.caches_view()[i as int].cells_view(), len as int),
    {
        self.layer_caches[i].fits_surface(len)
    }

    /// Starts rendering a frame of `area`: a new area forgets every cached render.
    pub fn begin_render(&mut self, area: Rect)
        requires
            old(self).wf(),
        ensures
            final(self).wf(),
            final(self).area_view() == area,
            final(self).layers_view() == old(self).layers_view(),
            final(self).ids_view() == old(self).ids_view(),
            final(self).types_view() == old(self).types_view(),
            final(self).last_picker_view() == old(self).last_picker_view(),
            final(self).full_redraw_view() == old(self).full_redraw_view(),
            old(self).area_view() == area ==> final(self).caches_view() == old(self).caches_view(),
            old(self).area_view() != area ==> forall|i: int|
                0 <= i < final(self).caches_view().len() ==> cache_empty(
                    #[trigger] final(self).caches_view()[i],
                ),
    {
        if self.area != area {
            self.area = area;
            self.invalidate_render_cache();
        }
    }

    /// Decides how layer `i` reaches the surface: a layer that does not need an update and
    /// whose cache holds a render of this area and region is replayed from the cache, and
    /// `false` is returned; otherwise `true` is returned and the layer must render, after
    /// its cache was forgotten when it owns no region.
    pub fn render_from_cache(
        &mut self,
        i: usize,
        area: Rect,
        should_update: bool,
        region: Option<Rect>,
        content: &mut Vec<C>,
    ) -> (must_render: bool)
        requires
            old(self).wf(),
            i < old(self).layers_view().len(),
            !should_update && old(self).caches_view()[i as int].area_view() == Some(area)
                && old(self).caches_view()[i as int].region_view() == region ==> cells_below(
                old(self).caches_view()[i as int].cells_view(),
                old(content)@.len() as int,
            ),
        ensures
            final(self).wf(),
            final(self).layers_view() == old(self).layers_view(),
            final(self).ids_view() == old(self).ids_view(),
            final(self).types_view() == old(self).types_view(),
            final(self).area_view() == old(self).area_view(),
            final(self).last_picker_view() == old(self).last_picker_view(),
            final(self).full_redraw_view() == old(self).full_redraw_view(),
            final(self).caches_view().len() == old(self).caches_view().len(),
            forall|j: int|
                0 <= j < old(self).caches_view().len() && j != i ==> #[trigger] final(self).caches_view()[j] == old(self).caches_view()[j],
            final(content)@.len() == old(content)@.len(),
            must_render == (should_update || !(old(self).caches_view()[i as int].area_view()
                == Some(area) && old(self).caches_view()[i as int].region_view() == region)),
            !must_render ==> replayed(old(self).caches_view()[i as int].cells_view(), old(content)@, final(content)@),
            must_render ==> final(content)@ == old(content)@,
            must_render && region is None ==> cache_empty(final(self).caches_view()[i as int]),
            !(must_render && region is None) ==> final(self).caches_view()[i as int] == old(self).caches_view()[i as int],
    {
        if !should_update && self.layer_caches[i].is_valid_for(area, region) {
            self.layer_caches[i].replay(content);
            false
        } else {
            if region.is_none() {
                let mut cache = self.layer_caches.remove(i);
                cache.invalidate();
                self.layer_caches.insert(i, cache);
                proof {
                    assert(self.layer_caches@ =~= old(self).layer_caches@.update(i as int, cache));
                }
            }
            true
        }
    }

    /// Records what layer `i`, rendered into `area`, just drew into its region of a surface
    /// that covers `surface_area`.
    pub fn capture_layer(
        &mut self,
        i: usize,
        area: Rect,
        region: Rect,
        surface_area: Rect,
        content: &Vec<C>,
    )
        requires
            old(self).wf(),
            i < old(self).layers_view().len(),
            rect_within(region, surface_area),
            content@.len() == surface_area.width * surface_area.height,
        ensures
            final(self).wf(),
            final(self).layers_view() == old(self).layers_view(),
            final(self).ids_view() == old(self).ids_view(),
            final(self).types_view() == old(self).types_view(),
            final(self).area_view() == old(self).area_view(),
            final(self).last_picker_view() == old(self).last_picker_view(),
            final(self).full_redraw_view() == old(self).full_redraw_view(),
            final(self).caches_view().len() == old(self).caches_view().len(),
            forall|j: int|
                0 <= j < old(self).caches_view().len() && j != i ==> #[trigger] final(self).caches_view()[j] == old(self).caches_view()[j],
            final(self).caches_view()[i as int].area_view() == Some(area),
            final(self).caches_view()[i as int].region_view() == Some(region),
            final(self).caches_view()[i as int].cells_view().len() == region.width * region.height,
            forall|k: int|
                0 <= k < final(self).caches_view()[i as int].cells_view().len() ==> captured_cell(
                    content@,
                    surface_area,
                    region,
                    k,
                    #[trigger] final(self).caches_view()[i as int].cells_view()[k],
                ),
    {
        let mut cache = self.layer_caches.remove(i);
        cache.capture(area, region, surface_area, content);
        self.layer_caches.insert(i, cache);
        proof {
            assert(self.layer_caches@ =~= old(self).layer_caches@.update(i as int, cache));
        }
    }

    /// Whether some layer has the type name `type_label`.
    pub fn has_component(&self, type_label: &str) -> (r: bool)
        requires
            self.wf(),
        ensures
            r == exists|j: int|
                0 <= j < self.layers_view().len() && #[trigger] self.types_view()[j] == type_label@,
    {
        self.position_of_type(type_label).is_some()
    }
}

/// The elements of `xs` whose type name, in the parallel sequence `ts`, is not `label`.
pub open spec fn kept<T>(xs: Seq<T>, ts: Seq<Seq<char>>, label: Seq<char>) -> Seq<T>
    decreases xs.len(),
{
    if xs.len() == 0 {
        Seq::empty()
    } else {
        let rest = kept(xs.drop_last(), ts.drop_last(), label);
        if ts.last() == label {
            rest
        } else {
            rest.push(xs.last())
        }
    }
}

proof fn lemma_kept_len<T>(xs: Seq<T>, ts: Seq<Seq<char>>, label: Seq<char>)
    requires
        xs.len() == ts.len(),
    ensures
        kept(xs, ts, label).len() == kept(ts, ts, label).len(),
        kept(xs, ts, label).len() <= xs.len(),
    decreases xs.len(),
{
    if xs.len() > 0 {
        lemma_kept_len(xs.drop_last(), ts.drop_last(), label);
    }
}

proof fn lemma_kept_step<T>(xs: Seq<T>, ts: Seq<Seq<char>>, label: Seq<char>, o: int)
    requires
        xs.len() == ts.len(),
        0 <= o < xs.len(),
    ensures
        kept(xs.take(o + 1), ts.take(o + 1), label) == (if ts[o] == label {
            kept(xs.take(o), ts.take(o), label)
        } else {
            kept(xs.take(o), ts.take(o), label).push(xs[o])
        }),
{
    assert(xs.take(o + 1).drop_last() =~= xs.take(o));
    assert(ts.take(o + 1).drop_last() =~= ts.take(o));
}

/// When some layer has id `id`, there is a first one.
proof fn lemma_some_first_with_id(ids: Seq<Option<Seq<char>>>, j: int, id: Seq<char>)
    requires
        0 <= j < ids.len(),
        has_id(ids[j], id),
    ensures
        exists|i: int| 0 <= i < ids.len() && first_with_id(ids, i, id),
    decreases j,
{
    if forall|k: int| 0 <= k < j ==> !has_id(#[trigger] ids[k], id) {
        assert(first_with_id(ids, j, id));
    } else {
        let k = choose|k: int| 0 <= k < j && has_id(ids[k], id);
        lemma_some_first_with_id(ids, k, id);
    }
}

/// `i` is the first index whose id is `id`.
pub open spec fn first_with_id(ids: Seq<Option<Seq<char>>>, i: int, id: Seq<char>) -> bool {
    &&& has_id(ids[i], id)
    &&& forall|j: int| 0 <= j < i ==> !has_id(#[trigger] ids[j], id)
}

/// `after` is `before` with the cached cells written back: unwritten cells are kept, and the
/// last cell written at each index is a clone of the cached one.
pub open spec fn replayed<C: Clone>(cells: Seq<CachedCell<C>>, before: Seq<C>, after: Seq<C>) -> bool {
    &&& after.len() == before.len()
    &&& forall|i: int| 0 <= i < after.len() && !written_at(cells, i) ==> #[trigger] after[i] == before[i]
    &&& forall|k: int|
        0 <= k < cells.len() && last_write_at(cells, k) ==> cloned(
            cells[k].cell,
            #[trigger] after[cells[k].index as int],
        )
}

proof fn lemma_region_index_injective(area: Rect, region: Rect, k1: int, k2: int)
    requires
        rect_within(region, area),
        0 <= k1 < region.width * region.height,
        0 <= k2 < region.width * region.height,
        k1 != k2,
    ensures
        region_cell_index(area, region, k1) != region_cell_index(area, region, k2),
{
    let w = region.width as int;
    let aw = area.width as int;
    assert(region.width > 0) by (nonlinear_arith)
        requires
            0 <= k1 < region.width * region.height,
    ;
    vstd::arithmetic::div_mod::lemma_fundamental_div_mod(k1, w);
    vstd::arithmetic::div_mod::lemma_fundamental_div_mod(k2, w);
    let (q1, r1, q2, r2) = (k1 / w, k1 % w, k2 / w, k2 % w);
    let row1 = region.y + q1 - area.y;
    let col1 = region.x + r1 - area.x;
    let row2 = region.y + q2 - area.y;
    let col2 = region.x + r2 - area.x;
    assert(0 <= r1 < w && 0 <= r2 < w);
    assert(0 <= col1 < aw && 0 <= col2 < aw);
    if row1 * aw + col1 == row2 * aw + col2 {
        vstd::arithmetic::div_mod::lemma_fundamental_div_mod_converse(
            row1 * aw + col1,
            aw,
            row1,
            col1,
        );
        vstd::arithmetic::div_mod::lemma_fundamental_div_mod_converse(
            row2 * aw + col2,
            aw,
            row2,
            col2,
        );
        assert(q1 == q2 && r1 == r2);
        assert(k1 == k2);
    }
}

/// Replaying a cache onto a surface puts back, at each cell of the captured region, a clone
/// of the cell captured there, and leaves every other cell of the surface as it was.
pub proof fn lemma_replay_restores_region<C: Clone>(
    captured_from: Seq<C>,
    surface_area: Rect,
    region: Rect,
    cells: Seq<CachedCell<C>>,
    before: Seq<C>,
    after: Seq<C>,
)
    requires
        rect_within(region, surface_area),
        cells.len() == region.width * region.height,
        forall|k: int|
            0 <= k < cells.len() ==> captured_cell(captured_from, surface_area, region, k, #[trigger] cells[k]),
        replayed(cells, before, after),
    ensures
        forall|k: int|
            0 <= k < cells.len() ==> cloned(
                captured_from[region_cell_index(surface_area, region, k)],
                #[trigger] cells[k].cell,
            ) && cloned(cells[k].cell, after[region_cell_index(surface_area, region, k)]),
        forall|i: int|
            0 <= i < after.len() && (forall|k: int|
                0 <= k < cells.len() ==> region_cell_index(surface_area, region, k) != i)
                ==> #[trigger] after[i] == before[i],
{
    assert forall|k: int| 0 <= k < cells.len() implies last_write_at(cells, k) by {
        assert forall|j: int| k < j < cells.len() implies #[trigger] cells[j].index != cells[k].index by {
            lemma_region_index_injective(surface_area, region, k, j);
        }
    }
    assert forall|i: int|
        0 <= i < after.len() && (forall|k: int|
            0 <= k < cells.len() ==> region_cell_index(surface_area, region, k) != i)
            implies #[trigger] after[i] == before[i] by {
        if written_at(cells, i) {
            let k = choose|k: int| 0 <= k < cells.len() && #[trigger] cells[k].index == i;
            assert(region_cell_index(surface_area, region, k) == i);
        }
    }
}

/// Popping right after pushing hands back the pushed layer and leaves the stack as it was.
pub proof fn lemma_push_then_pop<T>(stack: Seq<T>, layer: T)
    ensures
        stack.push(layer).len() > 0,
        stack.push(layer).last() == layer,
        stack.push(layer).drop_last() == stack,
{
    assert(stack.push(layer).drop_last() =~= stack);
}

/// Every cached cell has an index below `n`: replaying the cells fits a surface of `n` cells.
pub open spec fn cells_below<C>(cells: Seq<CachedCell<C>>, n: int) -> bool {
    forall|k: int| 0 <= k < cells.len() ==> #[trigger] cells[k].index < n
}

/// A cache without a render.
pub open spec fn cache_empty<C: Clone>(c: LayerCache<C>) -> bool {
    &&& c.area_view() is None
    &&& c.region_view() is None
    &&& c.cells_view().len() == 0
}

} // verus!
