//! The compositor: the window collection, the z-order stack, cursor, drag
//! and redraw state, and the open/read/write/close operations of clients.
use std::collections::BTreeMap;
use std::collections::VecDeque;
use vstd::prelude::*;

use crate::event::{events_bytes, Event, EVENT_KEY, EVENT_MOUSE, EVENT_SIZE};
use crate::path::{field, i32_or_zero, parse_request, title_of};
use crate::window::{capacity, in_content, in_exit, in_title, overwrite, Window, WindowView};

verus! {

/// Error number of an operation on a handle that is not open.
pub const EBADF: isize = 9;

/// Error number of an operation the protocol does not have.
pub const ENOSYS: isize = 38;

/// Distance between two automatically placed windows, and their margin.
pub const PLACEMENT_STEP: i32 = 20;

/// The error an operation fails with.
#[derive(Clone, Copy, Debug, PartialEq, Eq, Structural)]
pub struct Error {
    pub errno: isize,
}

/// The compositor's state, as plain values.
pub struct SchemeView {
    pub display_width: i32,
    pub display_height: i32,
    pub cursor_x: i32,
    pub cursor_y: i32,
    pub dragging: bool,
    pub drag_x: i32,
    pub drag_y: i32,
    pub next_id: isize,
    pub next_x: i32,
    pub next_y: i32,
    /// Front is topmost and focused.
    pub order: Seq<usize>,
    pub windows: Map<usize, WindowView>,
    pub redraw: bool,
}

/// The compositor: it owns every window and decides what is on screen and
/// who has focus.
pub struct OrbitalScheme {
    display_width: i32,
    display_height: i32,
    cursor_x: i32,
    cursor_y: i32,
    dragging: bool,
    drag_x: i32,
    drag_y: i32,
    next_id: isize,
    next_x: i32,
    next_y: i32,
    order: VecDeque<usize>,
    windows: BTreeMap<usize, Window>,
    redraw: bool,
}

impl View for OrbitalScheme {
    type V = SchemeView;

    closed spec fn view(&self) -> SchemeView {
        SchemeView {
            display_width: self.display_width,
            display_height: self.display_height,
            cursor_x: self.cursor_x,
            cursor_y: self.cursor_y,
            dragging: self.dragging,
            drag_x: self.drag_x,
            drag_y: self.drag_y,
            next_id: self.next_id,
            next_x: self.next_x,
            next_y: self.next_y,
            order: self.order@,
            windows: self.windows@.map_values(|w: Window| w@),
            redraw: self.redraw,
        }
    }
}

/// A placement counter stays where one more step cannot overflow.
pub open spec fn placement_ok(next: i32, limit: i32) -> bool {
    next == PLACEMENT_STEP || (PLACEMENT_STEP <= next && next + PLACEMENT_STEP < limit)
}

impl SchemeView {
    /// `order` holds each open handle exactly once, and nothing else.
    pub open spec fn wf(self) -> bool {
        &&& self.order.no_duplicates()
        &&& forall|i: int| 0 <= i < self.order.len() ==> self.windows.contains_key(#[trigger] self.order[i])
        &&& forall|id: usize| self.windows.contains_key(id) ==> self.order.contains(id)
        &&& forall|id: usize| self.windows.contains_key(id) ==> (#[trigger] self.windows[id]).wf()
        &&& self.next_id >= 1
        &&& placement_ok(self.next_x, self.display_width)
        &&& placement_ok(self.next_y, self.display_height)
    }
}

/// The counter after a placement step: one step on, or back to the margin
/// when the next window would start within a step of the edge.
pub open spec fn advance(next: i32, limit: i32) -> i32 {
    if next + 2 * PLACEMENT_STEP >= limit {
        PLACEMENT_STEP
    } else {
        (next + PLACEMENT_STEP) as i32
    }
}

/// The handle counter after handing out one handle: wraps to 1, never 0.
pub open spec fn next_handle(n: isize) -> isize {
    if n == isize::MAX {
        1
    } else {
        (n + 1) as isize
    }
}

/// The handle `j` steps after `n`, counting up and wrapping from
/// `isize::MAX` back to 1.
pub open spec fn candidate(n: isize, j: int) -> int {
    if n + j <= isize::MAX {
        n + j
    } else {
        n + j - isize::MAX
    }
}

/// Steps from `s.next_id`, starting at `j`, to the first handle not open.
pub open spec fn free_steps(s: SchemeView, j: int) -> int
    decreases isize::MAX - j,
{
    if j >= isize::MAX || !s.windows.contains_key(candidate(s.next_id, j) as usize) {
        j
    } else {
        free_steps(s, j + 1)
    }
}

/// The handle the next window gets: the first one from the counter on that
/// is not open.
pub open spec fn fresh_handle(s: SchemeView) -> usize {
    candidate(s.next_id, free_steps(s, 0)) as usize
}

/// The search for a free handle never goes back.
pub proof fn lemma_free_steps_ge(s: SchemeView, j: int)
    ensures
        free_steps(s, j) >= j,
    decreases isize::MAX - j,
{
    if j < isize::MAX && s.windows.contains_key(candidate(s.next_id, j) as usize) {
        lemma_free_steps_ge(s, j + 1);
    }
}

/// Fewer windows are open than there are handles, so the search for a free
/// handle ends within as many steps as there are open windows.
pub proof fn lemma_free_handle(s: SchemeView, j: int, taken: Seq<usize>)
    requires
        s.wf(),
        s.order.len() < isize::MAX,
        0 <= j <= s.order.len(),
        taken.len() == j,
        forall|t: int| 0 <= t < j ==> taken[t] == candidate(s.next_id, t) as usize,
        forall|t: int| 0 <= t < j ==> s.windows.contains_key(#[trigger] taken[t]),
    ensures
        j <= free_steps(s, j) <= s.order.len(),
        !s.windows.contains_key(candidate(s.next_id, free_steps(s, j)) as usize),
        1 <= candidate(s.next_id, free_steps(s, j)) <= isize::MAX,
    decreases s.order.len() - j,
{
    let c = candidate(s.next_id, j) as usize;
    if s.windows.contains_key(c) {
        let more = taken.push(c);
        assert(more.no_duplicates()) by {
            assert forall|a: int, b: int| 0 <= a < b < more.len() implies more[a] != more[b] by {
                assert(more[a] == candidate(s.next_id, a) as usize);
                assert(more[b] == candidate(s.next_id, b) as usize);
            }
        }
        more.unique_seq_to_set();
        s.order.unique_seq_to_set();
        assert(more.to_set().subset_of(s.order.to_set())) by {
            assert forall|x: usize| more.to_set().contains(x) implies s.order.to_set().contains(x) by {
                let t = choose|t: int| 0 <= t < more.len() && more[t] == x;
                assert(s.windows.contains_key(more[t]));
            }
        }
        vstd::set_lib::lemma_len_subset(more.to_set(), s.order.to_set());
        lemma_free_handle(s, j + 1, more);
    }
}

/// First index at or after `i` where `s` holds `id`, or `s.len()`.
pub open spec fn index_of(s: Seq<usize>, id: usize, i: int) -> int
    decreases s.len() - i,
{
    if i >= s.len() {
        s.len() as int
    } else if s[i] == id {
        i
    } else {
        index_of(s, id, i + 1)
    }
}

/// `s` without `id`.
pub open spec fn without(s: Seq<usize>, id: usize) -> Seq<usize> {
    let i = index_of(s, id, 0);
    if i < s.len() {
        s.remove(i)
    } else {
        s
    }
}

/// A fresh window as plain values; a negative size counts as 0.
pub open spec fn fresh_window(x: i32, y: i32, width: i32, height: i32, title: Seq<char>) -> WindowView {
    WindowView {
        x,
        y,
        width: if width < 0 {
            0
        } else {
            width
        },
        height: if height < 0 {
            0
        } else {
            height
        },
        title,
        data: Seq::empty(),
        events: Seq::empty(),
    }
}

/// The state after opening `path`, and the handle it gets.
pub open spec fn open_step(s: SchemeView, path: Seq<char>) -> (SchemeView, usize) {
    let x = i32_or_zero(field(path, 0));
    let y = i32_or_zero(field(path, 1));
    let auto = x < 0 && y < 0;
    let id = fresh_handle(s);
    let w = fresh_window(
        if auto {
            s.next_x
        } else {
            x
        },
        if auto {
            s.next_y
        } else {
            y
        },
        i32_or_zero(field(path, 2)),
        i32_or_zero(field(path, 3)),
        title_of(path),
    );
    (
        SchemeView {
            next_id: next_handle(id as isize),
            next_x: if auto {
                advance(s.next_x, s.display_width)
            } else {
                s.next_x
            },
            next_y: if auto {
                advance(s.next_y, s.display_height)
            } else {
                s.next_y
            },
            order: seq![id] + s.order,
            windows: s.windows.insert(id, w),
            redraw: true,
            ..s
        },
        id,
    )
}

/// The point falls on the window: its content or its title bar.
pub open spec fn hits(w: WindowView, px: i32, py: i32) -> bool {
    in_content(w, px, py) || in_title(w, px, py)
}

/// Index of the topmost window at or after `i` in `s.order` that the point
/// falls on, or the length of `s.order`.
pub open spec fn scan(s: SchemeView, px: i32, py: i32, i: int) -> int
    decreases s.order.len() - i,
{
    if i >= s.order.len() {
        s.order.len() as int
    } else if hits(s.windows[s.order[i]], px, py) {
        i
    } else {
        scan(s, px, py, i + 1)
    }
}

/// `s` with `e` queued for window `id`.
pub open spec fn deliver(s: SchemeView, id: usize, e: Event) -> SchemeView {
    SchemeView {
        windows: s.windows.insert(id, WindowView { events: s.windows[id].events.push(e), ..s.windows[id] }),
        ..s
    }
}

/// `s` with the window at index `i` of the z-order brought to the front.
pub open spec fn promote(s: SchemeView, i: int) -> SchemeView {
    if 0 < i < s.order.len() {
        SchemeView { order: seq![s.order[i]] + s.order.remove(i), ..s }
    } else {
        s
    }
}

/// `v` limited to the range of `i32`.
pub open spec fn clamp_i32(v: int) -> i32 {
    if v < i32::MIN {
        i32::MIN
    } else if v > i32::MAX {
        i32::MAX
    } else {
        v as i32
    }
}

/// `e` with its position made relative to window `w`.
pub open spec fn localized(e: Event, w: WindowView) -> Event {
    Event { a: (e.a as i32 - w.x) as i64, b: (e.b as i32 - w.y) as i64, ..e }
}

/// The state after a pointer event while dragging.
pub open spec fn drag_step(s: SchemeView, e: Event) -> SchemeView {
    let cx = e.a as i32;
    let cy = e.b as i32;
    if e.c > 0 && s.order.len() > 0 {
        let id = s.order[0];
        let w = s.windows[id];
        SchemeView {
            windows: s.windows.insert(
                id,
                WindowView {
                    x: clamp_i32(w.x + (cx - s.drag_x)),
                    y: clamp_i32(w.y + (cy - s.drag_y)),
                    ..w
                },
            ),
            drag_x: cx,
            drag_y: cy,
            ..s
        }
    } else {
        SchemeView { dragging: false, ..s }
    }
}

/// The state after a pointer event that is not part of a drag: the topmost
/// window under the pointer gets it, and a press focuses that window.
pub open spec fn click_step(s: SchemeView, e: Event) -> SchemeView {
    let cx = e.a as i32;
    let cy = e.b as i32;
    let i = scan(s, cx, cy, 0);
    if i >= s.order.len() {
        s
    } else {
        let id = s.order[i];
        let w = s.windows[id];
        if in_content(w, cx, cy) {
            let t = deliver(s, id, localized(e, w));
            if e.c > 0 {
                promote(t, i)
            } else {
                t
            }
        } else if e.c > 0 {
            if in_exit(w, cx, cy) {
                promote(deliver(s, id, Event::quit_spec()), i)
            } else {
                promote(SchemeView { dragging: true, drag_x: cx, drag_y: cy, ..s }, i)
            }
        } else {
            s
        }
    }
}

/// The state after one input event.
pub open spec fn input_step(s: SchemeView, e: Event) -> SchemeView {
    if e.code == EVENT_KEY {
        if s.order.len() > 0 {
            deliver(s, s.order[0], e)
        } else {
            s
        }
    } else if e.code == EVENT_MOUSE {
        let t = SchemeView { cursor_x: e.a as i32, cursor_y: e.b as i32, redraw: true, ..s };
        if s.dragging {
            drag_step(t, e)
        } else {
            click_step(t, e)
        }
    } else {
        s
    }
}

/// The state after a batch of input events, in order.
pub open spec fn input_steps(s: SchemeView, es: Seq<Event>) -> SchemeView
    decreases es.len(),
{
    if es.len() == 0 {
        s
    } else {
        input_step(input_steps(s, es.drop_last()), es.last())
    }
}

/// How many of `queued` events a buffer of `len` bytes takes.
pub open spec fn read_count(queued: int, len: int) -> int {
    if queued <= len / (EVENT_SIZE as int) {
        queued
    } else {
        len / (EVENT_SIZE as int)
    }
}

/// The state, the caller's buffer and the result after reading window `id`
/// into `buf`.
pub open spec fn read_step(s: SchemeView, id: usize, buf: Seq<u8>) -> (SchemeView, Seq<u8>, Result<usize, Error>) {
    if s.windows.contains_key(id) {
        let w = s.windows[id];
        let n = read_count(w.events.len() as int, buf.len() as int);
        (
            SchemeView { windows: s.windows.insert(id, WindowView { events: w.events.skip(n), ..w }), ..s },
            events_bytes(w.events.take(n)) + buf.skip(n * EVENT_SIZE),
            Ok((n * EVENT_SIZE) as usize),
        )
    } else {
        (s, buf, Err(Error { errno: EBADF }))
    }
}

/// The state and the result after writing `data` into window `id`.
pub open spec fn write_step(s: SchemeView, id: usize, data: Seq<u8>) -> (SchemeView, Result<usize, Error>) {
    if s.windows.contains_key(id) {
        let w = s.windows[id];
        let n = if data.len() <= capacity(w.width, w.height) {
            data.len() as int
        } else {
            capacity(w.width, w.height)
        };
        (
            SchemeView {
                windows: s.windows.insert(id, WindowView { data: overwrite(w.data, data.subrange(0, n)), ..w }),
                redraw: true,
                ..s
            },
            Ok(n as usize),
        )
    } else {
        (s, Err(Error { errno: EBADF }))
    }
}

/// The state after a frame, and the handles to paint, bottommost first,
/// when one is due.
pub open spec fn compose_step(s: SchemeView) -> (SchemeView, Option<Seq<usize>>) {
    if s.redraw {
        (SchemeView { redraw: false, ..s }, Some(s.order.reverse()))
    } else {
        (s, None)
    }
}

/// The state after closing `id`.
pub open spec fn close_step(s: SchemeView, id: usize) -> SchemeView {
    if s.windows.contains_key(id) {
        SchemeView { order: without(s.order, id), windows: s.windows.remove(id), redraw: true, ..s }
    } else {
        s
    }
}

} // verus!

verus! {

/// `index_of` finds `id` where it stands, and only there.
pub proof fn lemma_index_of(s: Seq<usize>, id: usize, i: int)
    requires
        0 <= i <= s.len(),
    ensures
        i <= index_of(s, id, i) <= s.len(),
        index_of(s, id, i) < s.len() ==> s[index_of(s, id, i)] == id,
        forall|j: int| i <= j < index_of(s, id, i) ==> s[j] != id,
    decreases s.len() - i,
{
    if i < s.len() && s[i] != id {
        lemma_index_of(s, id, i + 1);
    }
}

/// Removing a handle from a duplicate-free sequence removes it and nothing else.
pub proof fn lemma_without(s: Seq<usize>, id: usize)
    requires
        s.no_duplicates(),
    ensures
        without(s, id).no_duplicates(),
        forall|x: usize| #[trigger] without(s, id).contains(x) <==> (s.contains(x) && x != id),
        !s.contains(id) ==> without(s, id) == s,
        without(s, id).len() <= s.len(),
{
    lemma_index_of(s, id, 0);
    let i = index_of(s, id, 0);
    if i < s.len() {
        let r = s.remove(i);
        assert forall|x: usize| #[trigger] r.contains(x) <==> (s.contains(x) && x != id) by {
            if r.contains(x) {
                let k = choose|k: int| 0 <= k < r.len() && r[k] == x;
                if k < i {
                    assert(s[k] == x);
                } else {
                    assert(s[k + 1] == x);
                }
            }
            if s.contains(x) && x != id {
                let k = choose|k: int| 0 <= k < s.len() && s[k] == x;
                if k < i {
                    assert(r[k] == x);
                } else {
                    assert(k != i);
                    assert(r[k - 1] == x);
                }
            }
        }
    } else {
        assert(!s.contains(id));
    }
}

/// Takes `id` out of the z-order, wherever it stands.
fn unlink(order: &mut VecDeque<usize>, id: usize)
    ensures
        final(order)@ == without(old(order)@, id),
{
    let ghost s = order@;
    let mut i: usize = 0;
    while i < order.len()
        invariant
            order@ == s,
            s == old(order)@,
            i <= s.len(),
            index_of(s, id, 0) == index_of(s, id, i as int),
        decreases s.len() - i,
    {
        if order[i] == id {
            assert(index_of(s, id, i as int) == i);
            let removed = order.remove(i);
            assert(removed is Some);
            assert(order@ == s.remove(i as int));
            assert(without(s, id) == s.remove(i as int));
            return;
        }
        i = i + 1;
    }
}

impl OrbitalScheme {
    /// The state is consistent.
    pub open spec fn wf(&self) -> bool {
        self@.wf()
    }

    /// A compositor for a display of the given size, with no window yet,
    /// placement counters at the margin and a first frame due.
    pub fn new(display_width: i32, display_height: i32) -> (r: OrbitalScheme)
        ensures
            r.wf(),
            r@ == (SchemeView {
                display_width,
                display_height,
                cursor_x: 0,
                cursor_y: 0,
                dragging: false,
                drag_x: 0,
                drag_y: 0,
                next_id: 1,
                next_x: PLACEMENT_STEP,
                next_y: PLACEMENT_STEP,
                order: Seq::empty(),
                windows: Map::empty(),
                redraw: true,
            }),
    {
        let r = OrbitalScheme {
            display_width,
            display_height,
            cursor_x: 0,
            cursor_y: 0,
            dragging: false,
            drag_x: 0,
            drag_y: 0,
            next_id: 1,
            next_x: PLACEMENT_STEP,
            next_y: PLACEMENT_STEP,
            order: VecDeque::new(),
            windows: BTreeMap::new(),
            redraw: true,
        };
        assert(r@.windows =~= Map::empty());
        r
    }

    /// The first handle from the counter on that is not open.
    fn fresh_handle(&self) -> (r: isize)
        requires
            self.wf(),
            self@.order.len() < isize::MAX,
        ensures
            r as int == candidate(self@.next_id, free_steps(self@, 0)),
            r >= 1,
            r as usize == fresh_handle(self@),
            !self@.windows.contains_key(r as usize),
    {
        proof {
            lemma_free_handle(self@, 0, Seq::empty());
        }
        let mut id = self.next_id;
        let ghost mut j: int = 0;
        while self.windows.contains_key(&(id as usize))
            invariant
                self.wf(),
                self@.order.len() < isize::MAX,
                0 <= j <= free_steps(self@, 0) <= self@.order.len(),
                free_steps(self@, 0) == free_steps(self@, j),
                id as int == candidate(self@.next_id, j),
                !self@.windows.contains_key(candidate(self@.next_id, free_steps(self@, 0)) as usize),
            decreases free_steps(self@, 0) - j,
        {
            proof {
                lemma_free_steps_ge(self@, j + 1);
            }
            id = if id == isize::MAX {
                1
            } else {
                id + 1
            };
            proof {
                j = j + 1;
            }
        }
        id
    }

    /// Opens a window as `path` asks (see `crate::path`) and returns its
    /// handle; the window starts topmost and focused. Handles count up from
    /// 1, wrap back to 1, and skip any handle that is still open.
    pub fn open_path(&mut self, path: &Vec<char>) -> (r: usize)
        requires
            old(self).wf(),
            old(self)@.order.len() < isize::MAX,
        ensures
            final(self).wf(),
            (final(self)@, r) == open_step(old(self)@, path@),
            !old(self)@.windows.contains_key(r),
    {
        let req = parse_request(path);
        let mut x = req.x;
        let mut y = req.y;
        let handle = self.fresh_handle();
        let id = handle as usize;
        self.next_id = if handle == isize::MAX {
            1
        } else {
            handle + 1
        };
        if x < 0 && y < 0 {
            x = self.next_x;
            y = self.next_y;
            self.next_x = if self.next_x as i64 + 2 * PLACEMENT_STEP as i64 >= self.display_width as i64 {
                PLACEMENT_STEP
            } else {
                self.next_x + PLACEMENT_STEP
            };
            self.next_y = if self.next_y as i64 + 2 * PLACEMENT_STEP as i64 >= self.display_height as i64 {
                PLACEMENT_STEP
            } else {
                self.next_y + PLACEMENT_STEP
            };
        }
        proof {
            assert(!old(self)@.order.contains(id));
        }
        self.order.push_front(id);
        let w = Window::new(x, y, req.width, req.height, req.title);
        assert(w@.data =~= Seq::empty());
        assert(w@.events =~= Seq::empty());
        assert(w@ == fresh_window(x, y, req.width, req.height, title_of(path@)));
        self.windows.insert(id, w);
        self.redraw = true;
        proof {
            let (t, rid) = open_step(old(self)@, path@);
            lemma_open_wf(old(self)@, path@);
            assert(self@.order =~= t.order);
            assert(self@.windows =~= t.windows);
        }
        id
    }

    /// Opens a window as `path` asks (see `crate::path`); never fails.
    /// `flags` and `mode` are accepted and not used.
    /// Fewer than `isize::MAX` windows can be open at once (each takes
    /// memory), which leaves a handle free for every new one.
    pub fn open(&mut self, path: &str, flags: usize, mode: usize) -> (r: Result<usize, Error>)
        requires
            old(self).wf(),
            old(self)@.order.len() < isize::MAX,
        ensures
            final(self).wf(),
            (final(self)@, r->Ok_0) == open_step(old(self)@, path@),
            !old(self)@.windows.contains_key(r->Ok_0),
            r is Ok,
    {
        let n = path.unicode_len();
        let mut chars: Vec<char> = Vec::new();
        let mut i: usize = 0;
        while i < n
            invariant
                n == path@.len(),
                i <= n,
                chars@ == path@.subrange(0, i as int),
            decreases n - i,
        {
            chars.push(path.get_char(i));
            i = i + 1;
            assert(chars@ =~= path@.subrange(0, i as int));
        }
        assert(chars@ =~= path@);
        Ok(self.open_path(&chars))
    }

    /// Closes window `id`: 0 when it was open, else a bad-handle error.
    pub fn close(&mut self, id: usize) -> (r: Result<usize, Error>)
        requires
            old(self).wf(),
        ensures
            final(self).wf(),
            final(self)@ == close_step(old(self)@, id),
            r == if old(self)@.windows.contains_key(id) {
                Ok::<usize, Error>(0)
            } else {
                Err(Error { errno: EBADF })
            },
    {
        proof {
            lemma_without(self.order@, id);
        }
        unlink(&mut self.order, id);
        let removed = self.windows.remove(&id);
        match removed {
            Some(_) => {
                self.redraw = true;
                proof {
                    let s = old(self)@;
                    assert(self@.windows =~= s.windows.remove(id));
                    assert(self@ == close_step(s, id));
                    assert forall|k: usize| self@.windows.contains_key(k) implies self@.order.contains(k) by {
                        assert(s.order.contains(k));
                    }
                    assert forall|i: int| 0 <= i < self@.order.len() implies self@.windows.contains_key(
                        #[trigger] self@.order[i],
                    ) by {
                        assert(self@.order.contains(self@.order[i]));
                    }
                }
                Ok(0)
            },
            None => {
                proof {
                    let s = old(self)@;
                    assert(!s.order.contains(id));
                    assert(self@.windows =~= s.windows);
                }
                Err(Error { errno: EBADF })
            },
        }
    }

    /// Hands the queued events of window `id` to its client (see
    /// `Window::read`); a bad-handle error when `id` is not open.
    pub fn read(&mut self, id: usize, buf: &mut [u8]) -> (r: Result<usize, Error>)
        requires
            old(self).wf(),
        ensures
            final(self).wf(),
            (final(self)@, final(buf)@, r) == read_step(old(self)@, id, old(buf)@),
    {
        match self.windows.remove(&id) {
            Some(mut w) => {
                let r = w.read(buf);
                self.windows.insert(id, w);
                proof {
                    let s = old(self)@;
                    let wv = s.windows[id];
                    assert(wv == old(self).windows@[id]@);
                    let n = read_count(wv.events.len() as int, old(buf)@.len() as int);
                    assert(w@ == WindowView { events: wv.events.skip(n), ..wv });
                    assert(self@.windows =~= s.windows.insert(id, w@));
                    assert(buf@ =~= buf@.subrange(0, r as int) + buf@.skip(r as int));
                    assert forall|k: usize| self@.windows.contains_key(k) implies (#[trigger] self@.windows[k]).wf() by {
                        if k != id {
                            assert(s.windows[k].wf());
                        }
                    }
                }
                Ok(r)
            },
            None => {
                assert(self@.windows =~= old(self)@.windows);
                Err(Error { errno: EBADF })
            },
        }
    }

    /// Writes `buf` into the content of window `id` (see `Window::write`) and
    /// schedules a redraw; a bad-handle error when `id` is not open.
    pub fn write(&mut self, id: usize, buf: &[u8]) -> (r: Result<usize, Error>)
        requires
            old(self).wf(),
        ensures
            final(self).wf(),
            (final(self)@, r) == write_step(old(self)@, id, buf@),
    {
        match self.windows.remove(&id) {
            Some(mut w) => {
                proof {
                    assert(old(self)@.windows[id].wf());
                }
                let r = w.write(buf);
                self.windows.insert(id, w);
                self.redraw = true;
                proof {
                    let s = old(self)@;
                    let wv = s.windows[id];
                    assert(self@.windows =~= s.windows.insert(id, w@));
                    assert forall|k: usize| self@.windows.contains_key(k) implies (#[trigger] self@.windows[k]).wf() by {
                        if k != id {
                            assert(s.windows[k].wf());
                        }
                    }
                }
                Ok(r)
            },
            None => {
                assert(self@.windows =~= old(self)@.windows);
                Err(Error { errno: EBADF })
            },
        }
    }

    /// Ends a frame: when a redraw is due, clears it and returns the open
    /// handles in paint order, bottommost first (the last one is focused);
    /// otherwise returns `None`.
    pub fn compose(&mut self) -> (r: Option<Vec<usize>>)
        requires
            old(self).wf(),
        ensures
            final(self).wf(),
            final(self)@ == compose_step(old(self)@).0,
            r is Some <==> compose_step(old(self)@).1 is Some,
            r is Some ==> r->Some_0@ == compose_step(old(self)@).1->Some_0,
    {
        if !self.redraw {
            return None;
        }
        self.redraw = false;
        let mut out: Vec<usize> = Vec::new();
        let n = self.order.len();
        let mut k: usize = 0;
        while k < n
            invariant
                n == self@.order.len(),
                k <= n,
                out@ == self@.order.reverse().subrange(0, k as int),
            decreases n - k,
        {
            out.push(self.order[n - 1 - k]);
            k = k + 1;
            assert(out@ =~= self@.order.reverse().subrange(0, k as int));
        }
        assert(out@ =~= self@.order.reverse());
        Some(out)
    }

    /// The open handles, topmost first.
    pub fn order(&self) -> (r: Vec<usize>)
        ensures
            r@ == self@.order,
    {
        let mut out: Vec<usize> = Vec::new();
        let mut i: usize = 0;
        while i < self.order.len()
            invariant
                i <= self@.order.len(),
                out@ == self@.order.subrange(0, i as int),
            decreases self@.order.len() - i,
        {
            out.push(self.order[i]);
            i = i + 1;
            assert(out@ =~= self@.order.subrange(0, i as int));
        }
        assert(out@ =~= self@.order);
        out
    }

    /// Window `id`, when it is open.
    pub fn window(&self, id: usize) -> (r: Option<&Window>)
        ensures
            r is Some <==> self@.windows.contains_key(id),
            r is Some ==> r->Some_0@ == self@.windows[id],
    {
        self.windows.get(&id)
    }

    /// Where the pointer was last seen.
    pub fn cursor(&self) -> (r: (i32, i32))
        ensures
            r == (self@.cursor_x, self@.cursor_y),
    {
        (self.cursor_x, self.cursor_y)
    }

    /// Where the next automatically placed window goes.
    pub fn next_placement(&self) -> (r: (i32, i32))
        ensures
            r == (self@.next_x, self@.next_y),
    {
        (self.next_x, self.next_y)
    }

    /// A window is being moved with the pointer.
    pub fn is_dragging(&self) -> (r: bool)
        ensures
            r == self@.dragging,
    {
        self.dragging
    }

    /// A frame is due.
    pub fn needs_redraw(&self) -> (r: bool)
        ensures
            r == self@.redraw,
    {
        self.redraw
    }

    /// Queues `e` for window `id`.
    fn deliver(&mut self, id: usize, e: Event)
        requires
            old(self).wf(),
            old(self)@.windows.contains_key(id),
        ensures
            final(self).wf(),
            final(self)@ == deliver(old(self)@, id, e),
    {
        let mut w = self.windows.remove(&id).unwrap();
        w.event(e);
        self.windows.insert(id, w);
        proof {
            let s = old(self)@;
            assert(w@ == WindowView { events: s.windows[id].events.push(e), ..s.windows[id] });
            assert(self@.windows =~= deliver(s, id, e).windows);
            assert forall|k: usize| self@.windows.contains_key(k) implies (#[trigger] self@.windows[k]).wf() by {
                if k != id {
                    assert(s.windows[k].wf());
                } else {
                    assert(s.windows[id].wf());
                }
            }
        }
    }

    /// Brings the window at index `i` of the z-order to the front.
    fn promote(&mut self, i: usize)
        requires
            old(self).wf(),
            i < old(self)@.order.len(),
        ensures
            final(self).wf(),
            final(self)@ == promote(old(self)@, i as int),
    {
        if i > 0 {
            let id = self.order.remove(i).unwrap();
            self.order.push_front(id);
            proof {
                lemma_promote_wf(old(self)@, i as int);
                assert(self@.order =~= promote(old(self)@, i as int).order);
            }
        }
    }

    /// Index of the topmost window the point falls on, or the number of
    /// windows when it falls on none.
    fn hit(&self, px: i32, py: i32) -> (r: usize)
        requires
            self.wf(),
        ensures
            r as int == scan(self@, px, py, 0),
            r <= self@.order.len(),
    {
        let mut i: usize = 0;
        while i < self.order.len()
            invariant
                self.wf(),
                i <= self@.order.len(),
                scan(self@, px, py, 0) == scan(self@, px, py, i as int),
            decreases self@.order.len() - i,
        {
            let id = self.order[i];
            let w = self.windows.get(&id).unwrap();
            assert(w@ == self@.windows[id]);
            if w.contains(px, py) || w.title_contains(px, py) {
                return i;
            }
            i = i + 1;
        }
        i
    }

    /// Handles one input event: a key goes to the focused window; the
    /// pointer moves the cursor, drags the focused window, or goes to the
    /// topmost window under it, which a press focuses.
    pub fn input(&mut self, e: Event)
        requires
            old(self).wf(),
        ensures
            final(self).wf(),
            final(self)@ == input_step(old(self)@, e),
    {
        if e.code == EVENT_KEY {
            if self.order.len() > 0 {
                let id = self.order[0];
                self.deliver(id, e);
            }
        } else if e.code == EVENT_MOUSE {
            let cx = e.a as i32;
            let cy = e.b as i32;
            self.cursor_x = cx;
            self.cursor_y = cy;
            self.redraw = true;
            assert(self@ == SchemeView { cursor_x: cx, cursor_y: cy, redraw: true, ..old(self)@ });
            assert(self@.wf());
            if self.dragging {
                if e.c > 0 && self.order.len() > 0 {
                    let id = self.order[0];
                    let mut w = self.windows.remove(&id).unwrap();
                    w.x = clamp(w.x as i64 + (cx as i64 - self.drag_x as i64));
                    w.y = clamp(w.y as i64 + (cy as i64 - self.drag_y as i64));
                    self.windows.insert(id, w);
                    self.drag_x = cx;
                    self.drag_y = cy;
                    proof {
                        let s = old(self)@;
                        let t = SchemeView { cursor_x: cx, cursor_y: cy, redraw: true, ..s };
                        assert(self@.windows =~= drag_step(t, e).windows);
                        assert forall|k: usize| self@.windows.contains_key(k) implies (#[trigger] self@.windows[k]).wf() by {
                            if k != id {
                                assert(s.windows[k].wf());
                            } else {
                                assert(s.windows[id].wf());
                            }
                        }
                    }
                } else {
                    self.dragging = false;
                }
            } else {
                let i = self.hit(cx, cy);
                if i < self.order.len() {
                    let id = self.order[i];
                    let w = self.windows.get(&id).unwrap();
                    if w.contains(cx, cy) {
                        let local = Event { a: cx as i64 - w.x as i64, b: cy as i64 - w.y as i64, ..e };
                        self.deliver(id, local);
                        if e.c > 0 {
                            self.promote(i);
                        }
                    } else if e.c > 0 {
                        if w.exit_contains(cx, cy) {
                            self.deliver(id, Event::quit());
                        } else {
                            self.dragging = true;
                            self.drag_x = cx;
                            self.drag_y = cy;
                        }
                        self.promote(i);
                    }
                }
            }
        }
    }

    /// Handles a batch of input events, in order.
    pub fn input_all(&mut self, events: &Vec<Event>)
        requires
            old(self).wf(),
        ensures
            final(self).wf(),
            final(self)@ == input_steps(old(self)@, events@),
    {
        let mut i: usize = 0;
        while i < events.len()
            invariant
                self.wf(),
                i <= events@.len(),
                self@ == input_steps(old(self)@, events@.subrange(0, i as int)),
            decreases events@.len() - i,
        {
            self.input(events[i]);
            proof {
                assert(events@.subrange(0, i + 1).drop_last() =~= events@.subrange(0, i as int));
            }
            i = i + 1;
        }
        assert(events@.subrange(0, i as int) =~= events@);
    }
}

/// `v` limited to the range of `i32`.
fn clamp(v: i64) -> (r: i32)
    ensures
        r == clamp_i32(v as int),
{
    if v < i32::MIN as i64 {
        i32::MIN
    } else if v > i32::MAX as i64 {
        i32::MAX
    } else {
        v as i32
    }
}

} // verus!

verus! {

/// A state with the same z-order, the same handles and well-formed windows
/// is consistent when the first one is.
pub proof fn lemma_same_shape_wf(s: SchemeView, t: SchemeView)
    requires
        s.wf(),
        t.order == s.order,
        t.windows.dom() == s.windows.dom(),
        forall|id: usize| t.windows.contains_key(id) ==> (#[trigger] t.windows[id]).wf(),
        t.next_id == s.next_id,
        t.next_x == s.next_x,
        t.next_y == s.next_y,
        t.display_width == s.display_width,
        t.display_height == s.display_height,
    ensures
        t.wf(),
{
}

/// Bringing a window to the front keeps the state consistent.
pub proof fn lemma_promote_wf(s: SchemeView, i: int)
    requires
        s.wf(),
        0 <= i < s.order.len(),
    ensures
        promote(s, i).wf(),
        promote(s, i).windows == s.windows,
        promote(s, i).order.len() == s.order.len(),
        promote(s, i).order[0] == s.order[i],
{
    if i > 0 {
        let o = s.order;
        let t = promote(s, i);
        assert(forall|k: int| 0 <= k < o.remove(i).len() ==> o.remove(i)[k] == (if k < i { o[k] } else { o[k + 1] }));
        assert forall|k: usize| t.windows.contains_key(k) implies t.order.contains(k) by {
            assert(o.contains(k));
            let j = choose|j: int| 0 <= j < o.len() && o[j] == k;
            if j < i {
                assert(t.order[j + 1] == k);
            } else if j > i {
                assert(t.order[j] == k);
            } else {
                assert(t.order[0] == k);
            }
        }
        assert forall|a: int| 0 <= a < t.order.len() implies t.windows.contains_key(#[trigger] t.order[a]) by {
            if a == 0 {
            } else if a - 1 < i {
                assert(t.order[a] == o[a - 1]);
            } else {
                assert(t.order[a] == o[a]);
            }
        }
        assert forall|a: int, b: int| 0 <= a < b < t.order.len() implies t.order[a] != t.order[b] by {
            let ia = if a == 0 { i } else if a - 1 < i { a - 1 } else { a };
            let ib = if b - 1 < i { b - 1 } else { b };
            assert(t.order[a] == o[ia]);
            assert(t.order[b] == o[ib]);
        }
    }
}

/// The scan ends within the z-order or just past it.
pub proof fn lemma_scan_bounds(s: SchemeView, px: i32, py: i32, i: int)
    requires
        0 <= i <= s.order.len(),
    ensures
        i <= scan(s, px, py, i) <= s.order.len(),
    decreases s.order.len() - i,
{
    if i < s.order.len() {
        lemma_scan_bounds(s, px, py, i + 1);
    }
}

/// Queuing an event for an open window keeps the state consistent.
pub proof fn lemma_deliver_wf(s: SchemeView, id: usize, e: Event)
    requires
        s.wf(),
        s.windows.contains_key(id),
    ensures
        deliver(s, id, e).wf(),
        deliver(s, id, e).windows.dom() == s.windows.dom(),
        deliver(s, id, e).order == s.order,
{
    let t = deliver(s, id, e);
    assert(t.windows.dom() =~= s.windows.dom());
    assert(s.windows[id].wf());
    lemma_same_shape_wf(s, t);
}

/// An input event keeps the state consistent, adds no handle, and leaves
/// the handle counter and the number of windows alone.
pub proof fn lemma_input_wf(s: SchemeView, e: Event)
    requires
        s.wf(),
    ensures
        input_step(s, e).wf(),
        input_step(s, e).windows.dom() == s.windows.dom(),
        input_step(s, e).order.len() == s.order.len(),
        input_step(s, e).next_id == s.next_id,
{
    let r = input_step(s, e);
    if e.code == EVENT_KEY {
        if s.order.len() > 0 {
            lemma_deliver_wf(s, s.order[0], e);
        }
    } else if e.code == EVENT_MOUSE {
        let px = e.a as i32;
        let py = e.b as i32;
        let t = SchemeView { cursor_x: px, cursor_y: py, redraw: true, ..s };
        lemma_same_shape_wf(s, t);
        if s.dragging {
            if e.c > 0 && s.order.len() > 0 {
                let id = s.order[0];
                assert(r.windows.dom() =~= s.windows.dom());
                assert(s.windows[id].wf());
                lemma_same_shape_wf(s, r);
            }
        } else {
            let i = scan(t, px, py, 0);
            lemma_scan_bounds(t, px, py, 0);
            if i < t.order.len() {
                let id = t.order[i];
                let w = t.windows[id];
                if in_content(w, px, py) {
                    lemma_deliver_wf(t, id, localized(e, w));
                    if e.c > 0 {
                        lemma_promote_wf(deliver(t, id, localized(e, w)), i);
                    }
                } else if e.c > 0 {
                    if in_exit(w, px, py) {
                        lemma_deliver_wf(t, id, Event::quit_spec());
                        lemma_promote_wf(deliver(t, id, Event::quit_spec()), i);
                    } else {
                        let u = SchemeView { dragging: true, drag_x: px, drag_y: py, ..t };
                        lemma_same_shape_wf(t, u);
                        lemma_promote_wf(u, i);
                    }
                }
            }
        }
    }
}

/// Opening a window keeps the state consistent and adds exactly its handle.
pub proof fn lemma_open_wf(s: SchemeView, path: Seq<char>)
    requires
        s.wf(),
        s.order.len() < isize::MAX,
    ensures
        open_step(s, path).0.wf(),
        !s.windows.contains_key(open_step(s, path).1),
        open_step(s, path).0.windows.dom() == s.windows.dom().insert(open_step(s, path).1),
        open_step(s, path).0.order.len() == s.order.len() + 1,
        open_step(s, path).0.order[0] == open_step(s, path).1,
{
    lemma_free_handle(s, 0, Seq::empty());
    let (t, id) = open_step(s, path);
    assert(!s.order.contains(id));
    assert(t.windows.dom() =~= s.windows.dom().insert(id));
    assert forall|k: usize| t.windows.contains_key(k) implies t.order.contains(k) by {
        if k != id {
            assert(s.order.contains(k));
            assert(t.order[1 + s.order.index_of(k)] == k);
        } else {
            assert(t.order[0] == k);
        }
    }
    assert forall|i: int| 0 <= i < t.order.len() implies t.windows.contains_key(#[trigger] t.order[i]) by {
        if i > 0 {
            assert(s.order.contains(t.order[i]));
        }
    }
    assert forall|a: int, b: int| 0 <= a < b < t.order.len() implies t.order[a] != t.order[b] by {
        if a == 0 {
            assert(s.order.contains(t.order[b]));
        }
    }
    assert forall|k: usize| t.windows.contains_key(k) implies (#[trigger] t.windows[k]).wf() by {
        if k != id {
            assert(s.windows[k].wf());
        } else {
            vstd::arithmetic::mul::lemma_mul_nonnegative(t.windows[k].width as int, t.windows[k].height as int);
            assert(capacity(t.windows[k].width, t.windows[k].height) >= 0) by (nonlinear_arith)
                requires
                    t.windows[k].width >= 0,
                    t.windows[k].height >= 0,
            ;
        }
    }
    let x = i32_or_zero(field(path, 0));
    let y = i32_or_zero(field(path, 1));
    if x < 0 && y < 0 {
        assert(placement_ok(t.next_x, t.display_width));
        assert(placement_ok(t.next_y, t.display_height));
    }
}

/// Closing keeps the state consistent and removes at most its handle.
pub proof fn lemma_close_wf(s: SchemeView, id: usize)
    requires
        s.wf(),
    ensures
        close_step(s, id).wf(),
        close_step(s, id).windows.dom() == s.windows.dom().remove(id),
        close_step(s, id).order.len() <= s.order.len(),
        close_step(s, id).next_id == s.next_id,
{
    lemma_without(s.order, id);
    let t = close_step(s, id);
    if s.windows.contains_key(id) {
        assert(t.windows.dom() =~= s.windows.dom().remove(id));
        assert forall|k: usize| t.windows.contains_key(k) implies t.order.contains(k) by {
            assert(s.order.contains(k));
        }
        assert forall|i: int| 0 <= i < t.order.len() implies t.windows.contains_key(#[trigger] t.order[i]) by {
            assert(t.order.contains(t.order[i]));
        }
    } else {
        assert(!s.order.contains(id));
        assert(t.windows.dom() =~= s.windows.dom().remove(id));
    }
}

/// Reading and writing keep the state consistent and its handles as they are.
pub proof fn lemma_read_write_wf(s: SchemeView, id: usize, buf: Seq<u8>)
    requires
        s.wf(),
    ensures
        read_step(s, id, buf).0.wf(),
        read_step(s, id, buf).0.windows.dom() == s.windows.dom(),
        read_step(s, id, buf).0.order == s.order,
        read_step(s, id, buf).0.next_id == s.next_id,
        write_step(s, id, buf).0.wf(),
        write_step(s, id, buf).0.windows.dom() == s.windows.dom(),
        write_step(s, id, buf).0.order == s.order,
        write_step(s, id, buf).0.next_id == s.next_id,
{
    if s.windows.contains_key(id) {
        let w = s.windows[id];
        assert(w.wf());
        let r = read_step(s, id, buf).0;
        assert(r.windows.dom() =~= s.windows.dom());
        lemma_same_shape_wf(s, r);
        let t = write_step(s, id, buf).0;
        assert(t.windows.dom() =~= s.windows.dom());
        lemma_same_shape_wf(s, t);
    }
}

} // verus!
