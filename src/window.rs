//! One client's window: its rectangle, title, pixels and pending events.
use std::collections::VecDeque;
use vstd::prelude::*;

use crate::event::{event_bytes, events_bytes, Event, EVENT_SIZE};

verus! {

/// Height of the title bar drawn above a window's content.
pub const TITLE_HEIGHT: i32 = 18;

/// Width of the close button at the right end of the title bar.
pub const EXIT_WIDTH: i32 = 10;

/// A window: content rectangle at `(x, y)`, a title, the pixel bytes a
/// client has written (the rest of its `4 * width * height` bytes are
/// blank), and the events waiting for its client.
pub struct Window {
    pub x: i32,
    pub y: i32,
    pub width: i32,
    pub height: i32,
    pub title: Vec<char>,
    pub data: Vec<u8>,
    pub events: VecDeque<Event>,
}

/// What a window is, as plain values.
pub struct WindowView {
    pub x: i32,
    pub y: i32,
    pub width: i32,
    pub height: i32,
    pub title: Seq<char>,
    pub data: Seq<u8>,
    pub events: Seq<Event>,
}

impl View for Window {
    type V = WindowView;

    open spec fn view(&self) -> WindowView {
        WindowView {
            x: self.x,
            y: self.y,
            width: self.width,
            height: self.height,
            title: self.title@,
            data: self.data@,
            events: self.events@,
        }
    }
}

impl WindowView {
    /// Sizes are never negative and written content fits the window.
    pub open spec fn wf(self) -> bool {
        &&& self.width >= 0
        &&& self.height >= 0
        &&& self.data.len() <= capacity(self.width, self.height)
    }
}

/// Bytes of pixel content a window of this size holds.
pub open spec fn capacity(width: i32, height: i32) -> int {
    4 * width * height
}

/// `b` written at offset 0 over `old`.
pub open spec fn overwrite(old: Seq<u8>, b: Seq<u8>) -> Seq<u8> {
    if b.len() >= old.len() {
        b
    } else {
        b + old.skip(b.len() as int)
    }
}

/// The point lies in the content rectangle.
pub open spec fn in_content(w: WindowView, px: i32, py: i32) -> bool {
    w.x <= px < w.x + w.width && w.y <= py < w.y + w.height
}

/// The point lies in the title bar above the content rectangle.
pub open spec fn in_title(w: WindowView, px: i32, py: i32) -> bool {
    w.x <= px < w.x + w.width && w.y - TITLE_HEIGHT <= py < w.y
}

/// The point lies on the close button of the title bar.
pub open spec fn in_exit(w: WindowView, px: i32, py: i32) -> bool {
    in_title(w, px, py) && w.x + w.width - EXIT_WIDTH <= px
}

impl Window {
    /// Sizes are never negative and written content fits the window.
    pub open spec fn wf(&self) -> bool {
        self@.wf()
    }

    /// A window with blank content and no events; a negative size counts as 0.
    pub fn new(x: i32, y: i32, width: i32, height: i32, title: Vec<char>) -> (w: Window)
        ensures
            w.wf(),
            w.x == x,
            w.y == y,
            w.width == if width < 0 {
                0
            } else {
                width
            },
            w.height == if height < 0 {
                0
            } else {
                height
            },
            w.title@ == title@,
            w.data@.len() == 0,
            w.events@.len() == 0,
    {
        let width = if width < 0 {
            0
        } else {
            width
        };
        let height = if height < 0 {
            0
        } else {
            height
        };
        proof {
            vstd::arithmetic::mul::lemma_mul_nonnegative(width as int, height as int);
            vstd::arithmetic::mul::lemma_mul_nonnegative(4, width * height);
            assert(capacity(width, height) == 4 * (width * height)) by (nonlinear_arith);
        }
        Window { x, y, width, height, title, data: Vec::new(), events: VecDeque::new() }
    }

    /// The point lies within the content rectangle.
    pub fn contains(&self, px: i32, py: i32) -> (r: bool)
        ensures
            r == in_content(self@, px, py),
    {
        let x = self.x as i64;
        let y = self.y as i64;
        x <= px as i64 && (px as i64) < x + self.width as i64 && y <= py as i64 && (py as i64)
            < y + self.height as i64
    }

    /// The point lies within the title bar above the content rectangle.
    pub fn title_contains(&self, px: i32, py: i32) -> (r: bool)
        ensures
            r == in_title(self@, px, py),
    {
        let x = self.x as i64;
        let y = self.y as i64;
        x <= px as i64 && (px as i64) < x + self.width as i64 && y - TITLE_HEIGHT as i64
            <= py as i64 && (py as i64) < y
    }

    /// The point lies on the close button of the title bar.
    pub fn exit_contains(&self, px: i32, py: i32) -> (r: bool)
        ensures
            r == in_exit(self@, px, py),
    {
        self.title_contains(px, py) && self.x as i64 + self.width as i64 - EXIT_WIDTH as i64
            <= px as i64
    }

    /// Queues `e` for the client.
    pub fn event(&mut self, e: Event)
        ensures
            final(self).events@ == old(self).events@.push(e),
            final(self).x == old(self).x,
            final(self).y == old(self).y,
            final(self).width == old(self).width,
            final(self).height == old(self).height,
            final(self).title@ == old(self).title@,
            final(self).data@ == old(self).data@,
    {
        self.events.push_back(e);
    }

    /// Hands out as many queued events as fit in `buf`, oldest first, and
    /// returns the number of bytes written; 0 when none is queued.
    pub fn read(&mut self, buf: &mut [u8]) -> (r: usize)
        ensures
            ({
                let n = if old(self).events@.len() <= old(buf)@.len() as int / (EVENT_SIZE as int) {
                    old(self).events@.len() as int
                } else {
                    old(buf)@.len() as int / (EVENT_SIZE as int)
                };
                &&& r == n * EVENT_SIZE
                &&& final(self).events@ == old(self).events@.skip(n)
                &&& final(buf)@.len() == old(buf)@.len()
                &&& final(buf)@.subrange(0, r as int) == events_bytes(old(self).events@.take(n))
                &&& final(buf)@.skip(r as int) == old(buf)@.skip(r as int)
            }),
            final(self).x == old(self).x,
            final(self).y == old(self).y,
            final(self).width == old(self).width,
            final(self).height == old(self).height,
            final(self).title@ == old(self).title@,
            final(self).data@ == old(self).data@,
    {
        let ghost queued = self.events@;
        let ghost initial = buf@;
        let len = buf.len();
        let mut i: usize = 0;
        let ghost mut k: int = 0;
        while self.events.len() > 0 && buf.len() - i >= EVENT_SIZE
            invariant
                i == k * EVENT_SIZE,
                0 <= k <= queued.len(),
                i <= buf@.len(),
                len == buf@.len(),
                buf@.len() == initial.len(),
                self.events@ == queued.skip(k),
                buf@.subrange(0, i as int) == events_bytes(queued.take(k)),
                buf@.skip(i as int) == initial.skip(i as int),
                k <= initial.len() as int / (EVENT_SIZE as int),
                self.x == old(self).x,
                self.y == old(self).y,
                self.width == old(self).width,
                self.height == old(self).height,
                self.title@ == old(self).title@,
                self.data@ == old(self).data@,
            decreases queued.len() - k,
        {
            let e = self.events.pop_front().unwrap();
            let bytes = e.to_bytes();
            let ghost before = buf@;
            let mut j: usize = 0;
            while j < EVENT_SIZE
                invariant
                    i + EVENT_SIZE <= buf@.len(),
                    len == buf@.len(),
                    buf@.len() == before.len(),
                    bytes@.len() == EVENT_SIZE,
                    j <= EVENT_SIZE,
                    forall|t: int| 0 <= t < i ==> buf@[t] == before[t],
                    forall|t: int| i + EVENT_SIZE <= t < buf@.len() ==> buf@[t] == before[t],
                    forall|t: int| 0 <= t < j ==> buf@[i + t] == bytes@[t],
                decreases EVENT_SIZE - j,
            {
                buf[i + j] = bytes[j];
                j = j + 1;
            }
            proof {
                assert(queued.take(k + 1).drop_last() =~= queued.take(k));
                assert(queued.take(k + 1).last() == e);
                assert(buf@.subrange(0, i + EVENT_SIZE) =~= before.subrange(0, i as int)
                    + event_bytes(e));
                assert forall|t: int| 0 <= t < buf@.len() - (i + EVENT_SIZE) implies #[trigger] buf@.skip(
                    i + EVENT_SIZE,
                )[t] == initial.skip(i + EVENT_SIZE)[t] by {
                    assert(before.skip(i as int)[EVENT_SIZE + t] == initial.skip(i as int)[EVENT_SIZE
                        + t]);
                }
                assert(buf@.skip(i + EVENT_SIZE) =~= initial.skip(i + EVENT_SIZE));
                assert(queued.skip(k + 1) =~= queued.skip(k).drop_first());
                assert((k + 1) * EVENT_SIZE <= initial.len()) by (nonlinear_arith)
                    requires
                        i == k * EVENT_SIZE,
                        i + EVENT_SIZE <= initial.len(),
                ;
                vstd::arithmetic::div_mod::lemma_div_is_ordered(
                    (k + 1) * EVENT_SIZE,
                    initial.len() as int,
                    EVENT_SIZE as int,
                );
                vstd::arithmetic::div_mod::lemma_div_multiples_vanish(k + 1, EVENT_SIZE as int);
            }
            i = i + EVENT_SIZE;
            proof {
                k = k + 1;
            }
        }
        proof {
            if queued.len() > k {
                assert(buf@.len() - i < EVENT_SIZE);
                vstd::arithmetic::div_mod::lemma_fundamental_div_mod(
                    initial.len() as int,
                    EVENT_SIZE as int,
                );
                assert(initial.len() as int / (EVENT_SIZE as int) <= k) by (nonlinear_arith)
                    requires
                        initial.len() - k * EVENT_SIZE < EVENT_SIZE,
                        initial.len() == EVENT_SIZE * (initial.len() as int / (EVENT_SIZE as int))
                            + initial.len() as int % (EVENT_SIZE as int),
                        initial.len() as int % (EVENT_SIZE as int) >= 0,
                ;
            }
        }
        i
    }

    /// Copies `buf` into the content from offset 0, dropping what does not
    /// fit, and returns the number of bytes taken.
    pub fn write(&mut self, buf: &[u8]) -> (r: usize)
        requires
            old(self).wf(),
        ensures
            final(self).wf(),
            r as int == if buf@.len() <= capacity(old(self).width, old(self).height) {
                buf@.len() as int
            } else {
                capacity(old(self).width, old(self).height)
            },
            final(self).data@ == overwrite(old(self).data@, buf@.subrange(0, r as int)),
            final(self).x == old(self).x,
            final(self).y == old(self).y,
            final(self).width == old(self).width,
            final(self).height == old(self).height,
            final(self).title@ == old(self).title@,
            final(self).events@ == old(self).events@,
    {
        proof {
            assert((self.width as u64) * (self.height as u64) <= 0x3FFF_FFFF_0000_0001) by (
            nonlinear_arith)
                requires
                    0 <= self.width <= 0x7FFF_FFFF,
                    0 <= self.height <= 0x7FFF_FFFF,
            ;
        }
        let area: u64 = (self.width as u64) * (self.height as u64);
        let cap: u64 = 4 * area;
        proof {
            assert(cap == capacity(self.width, self.height)) by (nonlinear_arith)
                requires
                    area == self.width * self.height,
                    cap == 4 * area,
            ;
        }
        let n: usize = if (buf.len() as u64) <= cap {
            buf.len()
        } else {
            cap as usize
        };
        let ghost prior = self.data@;
        let mut i: usize = 0;
        while i < n
            invariant
                n <= buf@.len(),
                n <= cap,
                i <= n,
                self.data@.len() == if prior.len() > i {
                    prior.len() as int
                } else {
                    i as int
                },
                forall|t: int| 0 <= t < i ==> self.data@[t] == buf@[t],
                forall|t: int| i <= t < prior.len() ==> self.data@[t] == prior[t],
                self.x == old(self).x,
                self.y == old(self).y,
                self.width == old(self).width,
                self.height == old(self).height,
                self.title@ == old(self).title@,
                self.events@ == old(self).events@,
            decreases n - i,
        {
            if i < self.data.len() {
                self.data.set(i, buf[i]);
            } else {
                self.data.push(buf[i]);
            }
            i = i + 1;
        }
        assert(self.data@ =~= overwrite(prior, buf@.subrange(0, n as int)));
        n
    }
}

} // verus!
