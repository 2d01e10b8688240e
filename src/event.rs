//! Input events as they flow from the display to windows and on to clients.
use vstd::prelude::*;

use crate::bytes::{le_bytes, push_word};

verus! {

/// Event code of a keyboard event.
pub const EVENT_KEY: i64 = 107;

/// Event code of a pointer event: `a`, `b` are the position, `c > 0` means
/// the primary button is held.
pub const EVENT_MOUSE: i64 = 109;

/// Event code of a request to close a window.
pub const EVENT_QUIT: i64 = 113;

/// Number of bytes an event occupies when handed to a client.
pub const EVENT_SIZE: usize = 40;

/// One input event: a code and four argument slots.
#[derive(Clone, Copy, Debug, PartialEq, Eq, Structural)]
pub struct Event {
    pub code: i64,
    pub a: i64,
    pub b: i64,
    pub c: i64,
    pub d: i64,
}

impl Event {
    /// The event that asks a window's client to close it.
    pub open spec fn quit_spec() -> Event {
        Event { code: EVENT_QUIT, a: 0, b: 0, c: 0, d: 0 }
    }

    /// The event that asks a window's client to close it.
    pub fn quit() -> (e: Event)
        ensures
            e == Event::quit_spec(),
    {
        Event { code: EVENT_QUIT, a: 0, b: 0, c: 0, d: 0 }
    }
}

} // verus!

verus! {

/// The bytes a client reads for `e`: its five words, little-endian.
pub open spec fn event_bytes(e: Event) -> Seq<u8> {
    le_bytes(e.code as u64) + le_bytes(e.a as u64) + le_bytes(e.b as u64) + le_bytes(
        e.c as u64,
    ) + le_bytes(e.d as u64)
}

/// The bytes of a run of events, one after another.
pub open spec fn events_bytes(es: Seq<Event>) -> Seq<u8>
    decreases es.len(),
{
    if es.len() == 0 {
        Seq::empty()
    } else {
        events_bytes(es.drop_last()) + event_bytes(es.last())
    }
}

impl Event {
    /// The bytes a client reads for this event.
    pub fn to_bytes(&self) -> (r: Vec<u8>)
        ensures
            r@ == event_bytes(*self),
            r@.len() == EVENT_SIZE,
    {
        let mut out: Vec<u8> = Vec::new();
        push_word(&mut out, self.code as u64);
        push_word(&mut out, self.a as u64);
        push_word(&mut out, self.b as u64);
        push_word(&mut out, self.c as u64);
        push_word(&mut out, self.d as u64);
        assert(out@ =~= event_bytes(*self));
        out
    }
}

} // verus!
