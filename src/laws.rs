//! Properties that hold across operations of the compositor.
use vstd::prelude::*;

use crate::event::{Event, EVENT_MOUSE};
use crate::path::{field, i32_or_zero};
use crate::scheme::{
    candidate, lemma_close_wf, lemma_input_wf, lemma_open_wf, lemma_read_write_wf, lemma_scan_bounds, close_step, compose_step, free_steps, index_of, lemma_free_handle, input_step, input_steps, open_step, read_step, scan, write_step,
    Error, SchemeView, EBADF, PLACEMENT_STEP,
};
use crate::window::in_content;

verus! {

/// The state after opening each of `paths` in turn, and the handles they got.
pub open spec fn open_all(s: SchemeView, paths: Seq<Seq<char>>) -> (SchemeView, Seq<usize>)
    decreases paths.len(),
{
    if paths.len() == 0 {
        (s, Seq::empty())
    } else {
        let (t, ids) = open_all(s, paths.drop_last());
        let (u, id) = open_step(t, paths.last());
        (u, ids.push(id))
    }
}

/// While every open handle is below the counter and the counter does not
/// wrap, a run of opens hands out consecutive handles, so they are pairwise
/// distinct and increasing.
pub proof fn lemma_handles_increase(s: SchemeView, paths: Seq<Seq<char>>)
    requires
        s.next_id >= 1,
        s.next_id + paths.len() <= isize::MAX,
        forall|k: usize| s.windows.contains_key(k) ==> k < s.next_id,
    ensures
        open_all(s, paths).0.next_id == s.next_id + paths.len(),
        forall|k: usize| open_all(s, paths).0.windows.contains_key(k) ==> k < open_all(s, paths).0.next_id,
        open_all(s, paths).1.len() == paths.len(),
        forall|i: int| 0 <= i < paths.len() ==> #[trigger] open_all(s, paths).1[i] == s.next_id + i,
        forall|i: int, j: int|
            0 <= i < j < paths.len() ==> open_all(s, paths).1[i] < open_all(s, paths).1[j],
    decreases paths.len(),
{
    if paths.len() > 0 {
        lemma_handles_increase(s, paths.drop_last());
        let t = open_all(s, paths.drop_last()).0;
        assert(!t.windows.contains_key(candidate(t.next_id, 0) as usize));
        assert(free_steps(t, 0) == 0);
    }
}

/// Opening a window and closing its handle leaves the z-order and the
/// windows as they were: a new window never takes an open handle.
pub proof fn lemma_open_then_close(s: SchemeView, path: Seq<char>)
    requires
        s.wf(),
        s.order.len() < isize::MAX,
    ensures
        !s.windows.contains_key(open_step(s, path).1),
        close_step(open_step(s, path).0, open_step(s, path).1).order == s.order,
        close_step(open_step(s, path).0, open_step(s, path).1).windows == s.windows,
{
    lemma_free_handle(s, 0, Seq::empty());
    let (t, h) = open_step(s, path);
    assert(!s.order.contains(h));
    assert(t.order[0] == h);
    assert(index_of(t.order, h, 0) == 0);
    assert(t.order.remove(0) =~= s.order);
    assert(t.windows.remove(h) =~= s.windows);
}

/// A new window starts topmost and focused.
pub proof fn lemma_open_focuses(s: SchemeView, path: Seq<char>)
    ensures
        open_step(s, path).0.order[0] == open_step(s, path).1,
        open_step(s, path).0.windows.contains_key(open_step(s, path).1),
{
}

/// The scan depends on the z-order and the windows alone.
proof fn lemma_scan_same(s: SchemeView, t: SchemeView, px: i32, py: i32, i: int)
    requires
        s.order == t.order,
        s.windows == t.windows,
    ensures
        scan(s, px, py, i) == scan(t, px, py, i),
    decreases s.order.len() - i,
{
    if i < s.order.len() {
        lemma_scan_same(s, t, px, py, i + 1);
    }
}

/// The scan stops at or before any window at or after `i` that the point
/// falls on.
proof fn lemma_scan_stops(s: SchemeView, px: i32, py: i32, i: int, k: int)
    requires
        0 <= i <= k < s.order.len(),
        in_content(s.windows[s.order[k]], px, py),
    ensures
        i <= scan(s, px, py, i) <= k,
    decreases k - i,
{
    if i < k && !crate::scheme::hits(s.windows[s.order[i]], px, py) {
        lemma_scan_stops(s, px, py, i + 1, k);
    }
}

/// A press, when no drag is under way, focuses the topmost window under
/// the pointer.
pub proof fn lemma_click_focuses(s: SchemeView, e: Event)
    requires
        !s.dragging,
        e.code == EVENT_MOUSE,
        e.c > 0,
        scan(s, e.a as i32, e.b as i32, 0) < s.order.len(),
    ensures
        input_step(s, e).order[0] == s.order[scan(s, e.a as i32, e.b as i32, 0)],
        input_step(s, e).order.len() == s.order.len(),
{
    let t = SchemeView { cursor_x: e.a as i32, cursor_y: e.b as i32, redraw: true, ..s };
    lemma_scan_same(s, t, e.a as i32, e.b as i32, 0);
    lemma_scan_bounds(s, e.a as i32, e.b as i32, 0);
}

/// Of two windows under the pointer, only the upper one gets a pointer
/// event: the lower one's queue is left as it was. When the upper one is
/// the topmost window, it gets the event, in its own coordinates.
pub proof fn lemma_occlusion(s: SchemeView, e: Event, i: int, j: int)
    requires
        s.wf(),
        !s.dragging,
        e.code == EVENT_MOUSE,
        0 <= i < j < s.order.len(),
        in_content(s.windows[s.order[i]], e.a as i32, e.b as i32),
    ensures
        input_step(s, e).windows[s.order[j]] == s.windows[s.order[j]],
        i == 0 ==> input_step(s, e).windows[s.order[0]].events == s.windows[s.order[0]].events.push(
            crate::scheme::localized(e, s.windows[s.order[0]]),
        ),
{
    let px = e.a as i32;
    let py = e.b as i32;
    let t = SchemeView { cursor_x: px, cursor_y: py, redraw: true, ..s };
    lemma_scan_same(s, t, px, py, 0);
    lemma_scan_stops(s, px, py, 0, i);
    let k = scan(s, px, py, 0);
    assert(s.order[k] != s.order[j]);
    if i == 0 {
        assert(k == 0);
    }
}

/// `read`, `write` and `close` fail with a bad-handle error on a handle that
/// is not open, and change nothing.
pub proof fn lemma_bad_handle(s: SchemeView, id: usize, buf: Seq<u8>, data: Seq<u8>)
    requires
        !s.windows.contains_key(id),
    ensures
        read_step(s, id, buf) == (s, buf, Err::<usize, Error>(Error { errno: EBADF })),
        write_step(s, id, data) == (s, Err::<usize, Error>(Error { errno: EBADF })),
        close_step(s, id) == s,
{
}

/// Once closed, a handle is bad: a second `close`, a `read` or a `write`
/// on it fails.
pub proof fn lemma_closed_handle_is_bad(s: SchemeView, id: usize, buf: Seq<u8>, data: Seq<u8>)
    ensures
        !close_step(s, id).windows.contains_key(id),
        read_step(close_step(s, id), id, buf).2 == Err::<usize, Error>(Error { errno: EBADF }),
        write_step(close_step(s, id), id, data).1 == Err::<usize, Error>(Error { errno: EBADF }),
        close_step(close_step(s, id), id) == close_step(s, id),
{
}

/// A path whose first two fields are negative asks for automatic placement.
pub open spec fn asks_auto(path: Seq<char>) -> bool {
    i32_or_zero(field(path, 0)) < 0 && i32_or_zero(field(path, 1)) < 0
}

/// Three automatically placed windows, with room on the display, cascade:
/// each starts one step right of and below the one before.
pub proof fn lemma_cascade(s: SchemeView, first: Seq<char>, second: Seq<char>, third: Seq<char>)
    requires
        asks_auto(first),
        asks_auto(second),
        asks_auto(third),
        s.next_x + 3 * PLACEMENT_STEP < s.display_width,
        s.next_y + 3 * PLACEMENT_STEP < s.display_height,
    ensures
        ({
            let (s1, h1) = open_step(s, first);
            let (s2, h2) = open_step(s1, second);
            let (s3, h3) = open_step(s2, third);
            &&& s2.windows[h2].x == s.next_x + PLACEMENT_STEP
            &&& s2.windows[h2].y == s.next_y + PLACEMENT_STEP
            &&& s3.windows[h3].x == s.next_x + 2 * PLACEMENT_STEP
            &&& s3.windows[h3].y == s.next_y + 2 * PLACEMENT_STEP
            &&& s1.windows[h1].x == s.next_x
            &&& s1.windows[h1].y == s.next_y
        }),
{
}

/// A frame clears the redraw flag, so with no input, write, open or close
/// before the next one (reads are allowed), the next frame paints nothing.
pub proof fn lemma_redraw_idempotent(s: SchemeView, id: usize, buf: Seq<u8>)
    ensures
        compose_step(compose_step(s).0).1 is None,
        input_steps(compose_step(s).0, Seq::empty()) == compose_step(s).0,
        compose_step(read_step(compose_step(s).0, id, buf).0).1 is None,
{
}

} // verus!

verus! {

/// One operation a client or the display asks of the compositor.
pub enum Request {
    Open(Seq<char>),
    Read(usize, Seq<u8>),
    Write(usize, Seq<u8>),
    Close(usize),
    Input(Event),
}

/// The state after one request, and the handle it opened, if any.
pub open spec fn apply(s: SchemeView, r: Request) -> (SchemeView, Option<usize>) {
    match r {
        Request::Open(p) => (open_step(s, p).0, Some(open_step(s, p).1)),
        Request::Read(id, b) => (read_step(s, id, b).0, None),
        Request::Write(id, b) => (write_step(s, id, b).0, None),
        Request::Close(id) => (close_step(s, id), None),
        Request::Input(e) => (input_step(s, e), None),
    }
}

/// The state after a run of requests, and the handles opened, in order.
pub open spec fn run(s: SchemeView, rs: Seq<Request>) -> (SchemeView, Seq<usize>)
    decreases rs.len(),
{
    if rs.len() == 0 {
        (s, Seq::empty())
    } else {
        let (t, hs) = run(s, rs.drop_last());
        let (u, h) = apply(t, rs.last());
        (
            u,
            match h {
                Some(x) => hs.push(x),
                None => hs,
            },
        )
    }
}

/// Any run of opens, closes, reads, writes and input keeps `order` holding
/// each open handle exactly once; a handle is open afterwards only if it
/// was before or the run opened it.
pub proof fn lemma_run_wf(s: SchemeView, rs: Seq<Request>)
    requires
        s.wf(),
        s.order.len() + rs.len() < isize::MAX,
    ensures
        run(s, rs).0.wf(),
        run(s, rs).0.order.len() <= s.order.len() + rs.len(),
        forall|k: usize| #[trigger]
            run(s, rs).0.windows.contains_key(k) ==> s.windows.contains_key(k) || run(
                s,
                rs,
            ).1.contains(k),
    decreases rs.len(),
{
    if rs.len() > 0 {
        let rest = rs.drop_last();
        lemma_run_wf(s, rest);
        let (t, hs) = run(s, rest);
        let (u, h) = run(s, rs);
        match rs.last() {
            Request::Open(p) => {
                lemma_open_wf(t, p);
                assert forall|k: usize| #[trigger] u.windows.contains_key(k) implies s.windows.contains_key(k) || h.contains(k) by {
                    if k != open_step(t, p).1 {
                        assert(t.windows.contains_key(k));
                        if hs.contains(k) {
                            let i = choose|i: int| 0 <= i < hs.len() && hs[i] == k;
                            assert(h[i] == k);
                        }
                    } else {
                        assert(h[hs.len() as int] == k);
                    }
                }
            },
            Request::Read(id, b) => {
                lemma_read_write_wf(t, id, b);
            },
            Request::Write(id, b) => {
                lemma_read_write_wf(t, id, b);
            },
            Request::Close(id) => {
                lemma_close_wf(t, id);
            },
            Request::Input(e) => {
                lemma_input_wf(t, e);
            },
        }
    }
}

/// While every open handle is below the counter and the counter cannot
/// wrap, the handles that a run opens, whatever else it does in between,
/// increase strictly, so they are pairwise distinct.
pub proof fn lemma_run_handles_increase(s: SchemeView, rs: Seq<Request>)
    requires
        s.wf(),
        s.order.len() + rs.len() < isize::MAX,
        s.next_id + rs.len() <= isize::MAX,
        forall|k: usize| s.windows.contains_key(k) ==> k < s.next_id,
    ensures
        s.next_id <= run(s, rs).0.next_id <= s.next_id + rs.len(),
        forall|k: usize| run(s, rs).0.windows.contains_key(k) ==> k < run(s, rs).0.next_id,
        forall|i: int| 0 <= i < run(s, rs).1.len() ==> s.next_id <= #[trigger] run(s, rs).1[i] < run(s, rs).0.next_id,
        forall|i: int, j: int|
            0 <= i < j < run(s, rs).1.len() ==> run(s, rs).1[i] < run(s, rs).1[j],
    decreases rs.len(),
{
    if rs.len() > 0 {
        let rest = rs.drop_last();
        lemma_run_handles_increase(s, rest);
        lemma_run_wf(s, rest);
        let (t, hs) = run(s, rest);
        match rs.last() {
            Request::Open(p) => {
                assert(!t.windows.contains_key(candidate(t.next_id, 0) as usize));
                assert(free_steps(t, 0) == 0);
            },
            Request::Read(id, b) => {
                lemma_read_write_wf(t, id, b);
            },
            Request::Write(id, b) => {
                lemma_read_write_wf(t, id, b);
            },
            Request::Close(id) => {
                lemma_close_wf(t, id);
            },
            Request::Input(e) => {
                lemma_input_wf(t, e);
            },
        }
    }
}

/// A handle that is not open (never opened, or closed) stays bad through
/// any run that does not open it again: `close`, `read` and `write` on it
/// fail and change nothing.
pub proof fn lemma_bad_handle_stays_bad(
    s: SchemeView,
    rs: Seq<Request>,
    id: usize,
    buf: Seq<u8>,
    data: Seq<u8>,
)
    requires
        s.wf(),
        s.order.len() + rs.len() < isize::MAX,
        !s.windows.contains_key(id),
        !run(s, rs).1.contains(id),
    ensures
        close_step(run(s, rs).0, id) == run(s, rs).0,
        read_step(run(s, rs).0, id, buf) == (run(s, rs).0, buf, Err::<usize, Error>(Error { errno: EBADF })),
        write_step(run(s, rs).0, id, data) == (run(s, rs).0, Err::<usize, Error>(Error { errno: EBADF })),
{
    lemma_run_wf(s, rs);
    assert(!run(s, rs).0.windows.contains_key(id));
}

/// A request that changes nothing on screen: a read, or a write or close
/// of a handle that is not open.
pub open spec fn quiet(s: SchemeView, r: Request) -> bool {
    match r {
        Request::Read(_, _) => true,
        Request::Write(id, _) => !s.windows.contains_key(id),
        Request::Close(id) => !s.windows.contains_key(id),
        _ => false,
    }
}

/// Every request of the run is quiet in the state it meets.
pub open spec fn quiet_run(s: SchemeView, rs: Seq<Request>) -> bool
    decreases rs.len(),
{
    rs.len() == 0 || (quiet_run(s, rs.drop_last()) && quiet(run(s, rs.drop_last()).0, rs.last()))
}

/// One turn of the loop: the input events, then the requests, then a frame.
pub open spec fn iteration(s: SchemeView, events: Seq<Event>, rs: Seq<Request>) -> (SchemeView, Option<Seq<usize>>) {
    compose_step(run(input_steps(s, events), rs).0)
}

/// Quiet requests leave the redraw flag as it was.
proof fn lemma_quiet_keeps_redraw(s: SchemeView, rs: Seq<Request>)
    requires
        quiet_run(s, rs),
    ensures
        run(s, rs).0.redraw == s.redraw,
    decreases rs.len(),
{
    if rs.len() > 0 {
        lemma_quiet_keeps_redraw(s, rs.drop_last());
    }
}

/// After any turn of the loop, a turn with no input event and only quiet
/// requests paints nothing.
pub proof fn lemma_idle_iteration(
    s: SchemeView,
    events: Seq<Event>,
    rs: Seq<Request>,
    idle: Seq<Request>,
)
    requires
        quiet_run(iteration(s, events, rs).0, idle),
    ensures
        iteration(iteration(s, events, rs).0, Seq::empty(), idle).1 is None,
{
    let t = iteration(s, events, rs).0;
    assert(input_steps(t, Seq::empty()) == t);
    lemma_quiet_keeps_redraw(t, idle);
}

} // verus!
