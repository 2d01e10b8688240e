//! Fixed-size request/response records of the client protocol, and their
//! dispatch to the compositor.
use vstd::prelude::*;

use crate::bytes::{le_bytes, le_value, lemma_le_round_trip, push_word, read_word};
use crate::scheme::{
    close_step, open_step, read_step, write_step, Error, OrbitalScheme, SchemeView, EBADF, ENOSYS,
};

verus! {

/// Operation selector of `read`.
pub const SYS_READ: u64 = 3;

/// Operation selector of `write`.
pub const SYS_WRITE: u64 = 4;

/// Operation selector of `open`.
pub const SYS_OPEN: u64 = 5;

/// Operation selector of `close`.
pub const SYS_CLOSE: u64 = 6;

/// Number of bytes in one packet.
pub const PACKET_SIZE: usize = 40;

/// One request, and after handling it the response: an operation, the
/// handle it addresses, two argument slots and a result slot. The result is
/// a count or handle, or the negated error number as a two's-complement word.
#[derive(Clone, Copy, Debug, PartialEq, Eq, Structural)]
pub struct Packet {
    pub op: u64,
    pub id: u64,
    pub a: u64,
    pub b: u64,
    pub result: u64,
}

/// The bytes of a packet on the socket.
pub open spec fn packet_bytes(p: Packet) -> Seq<u8> {
    le_bytes(p.op) + le_bytes(p.id) + le_bytes(p.a) + le_bytes(p.b) + le_bytes(p.result)
}

/// The packet that `b` holds: only a full packet's worth of bytes holds one.
pub open spec fn packet_of(b: Seq<u8>) -> Option<Packet> {
    if b.len() == PACKET_SIZE {
        Some(
            Packet {
                op: le_value(b, 0),
                id: le_value(b, 8),
                a: le_value(b, 16),
                b: le_value(b, 24),
                result: le_value(b, 32),
            },
        )
    } else {
        None
    }
}

/// The word a result is reported as.
pub open spec fn result_word(r: Result<usize, Error>) -> u64 {
    match r {
        Ok(n) => n as u64,
        Err(e) => (-(e.errno as int)) as u64,
    }
}

/// Reading back the bytes of a packet gives the packet.
pub proof fn lemma_packet_round_trip(p: Packet)
    ensures
        packet_of(packet_bytes(p)) == Some(p),
{
    let b = packet_bytes(p);
    lemma_le_round_trip(p.op);
    lemma_le_round_trip(p.id);
    lemma_le_round_trip(p.a);
    lemma_le_round_trip(p.b);
    lemma_le_round_trip(p.result);
    assert(le_value(b, 0) == le_value(le_bytes(p.op), 0));
    assert(le_value(b, 8) == le_value(le_bytes(p.id), 0));
    assert(le_value(b, 16) == le_value(le_bytes(p.a), 0));
    assert(le_value(b, 24) == le_value(le_bytes(p.b), 0));
    assert(le_value(b, 32) == le_value(le_bytes(p.result), 0));
}

impl Packet {
    /// The packet that `b` holds, when it is exactly one packet long.
    pub fn from_bytes(b: &[u8]) -> (r: Option<Packet>)
        ensures
            r == packet_of(b@),
    {
        if b.len() != PACKET_SIZE {
            return None;
        }
        Some(
            Packet {
                op: read_word(b, 0),
                id: read_word(b, 8),
                a: read_word(b, 16),
                b: read_word(b, 24),
                result: read_word(b, 32),
            },
        )
    }

    /// The bytes of this packet on the socket.
    pub fn to_bytes(&self) -> (r: Vec<u8>)
        ensures
            r@ == packet_bytes(*self),
            r@.len() == PACKET_SIZE,
    {
        let mut out: Vec<u8> = Vec::new();
        push_word(&mut out, self.op);
        push_word(&mut out, self.id);
        push_word(&mut out, self.a);
        push_word(&mut out, self.b);
        push_word(&mut out, self.result);
        assert(out@ =~= packet_bytes(*self));
        out
    }
}

/// The word a result is reported as.
fn result_to_word(r: Result<usize, Error>) -> (w: u64)
    ensures
        w == result_word(r),
{
    match r {
        Ok(n) => n as u64,
        Err(e) => (-(e.errno as i128)) as u64,
    }
}

/// What the bytes of a path read as.
pub uninterp spec fn utf8_text(b: Seq<u8>) -> Seq<char>;

/// Relies on `String::from_utf8_lossy`: the text of `b`, with each invalid
/// sequence replaced by U+FFFD; it depends on the bytes alone.
#[verifier::external_body]
fn decode_path(b: &[u8]) -> (r: std::string::String)
    ensures
        r@ == utf8_text(b@),
{
    std::string::String::from_utf8_lossy(b).into_owned()
}

impl OrbitalScheme {
    /// Carries out the request in `packet` and stores its result there.
    /// `buf` is the client memory that the request's argument slots name:
    /// the path for `open`, the destination of `read`, the source of `write`.
    pub fn handle(&mut self, packet: &mut Packet, buf: &mut [u8])
        requires
            old(self).wf(),
            old(self)@.order.len() < isize::MAX,
        ensures
            final(self).wf(),
            ({
                let s = old(self)@;
                let p = *old(packet);
                let id = p.id as usize;
                if p.op == SYS_OPEN {
                    let (t, h) = open_step(s, utf8_text(old(buf)@));
                    &&& final(self)@ == t
                    &&& *final(packet) == Packet { result: h as u64, ..p }
                    &&& final(buf)@ == old(buf)@
                } else if p.op == SYS_READ {
                    let (t, b, r) = read_step(s, id, old(buf)@);
                    &&& final(self)@ == t
                    &&& *final(packet) == Packet { result: result_word(r), ..p }
                    &&& final(buf)@ == b
                } else if p.op == SYS_WRITE {
                    let (t, r) = write_step(s, id, old(buf)@);
                    &&& final(self)@ == t
                    &&& *final(packet) == Packet { result: result_word(r), ..p }
                    &&& final(buf)@ == old(buf)@
                } else if p.op == SYS_CLOSE {
                    &&& final(self)@ == close_step(s, id)
                    &&& *final(packet) == Packet {
                        result: result_word(
                            if s.windows.contains_key(id) {
                                Ok(0)
                            } else {
                                Err(Error { errno: EBADF })
                            },
                        ),
                        ..p
                    }
                    &&& final(buf)@ == old(buf)@
                } else {
                    &&& final(self)@ == s
                    &&& *final(packet) == Packet { result: result_word(Err(Error { errno: ENOSYS })), ..p }
                    &&& final(buf)@ == old(buf)@
                }
            }),
    {
        let id = packet.id as usize;
        let r = if packet.op == SYS_OPEN {
            let path = decode_path(buf);
            self.open(path.as_str(), 0, 0)
        } else if packet.op == SYS_READ {
            self.read(id, buf)
        } else if packet.op == SYS_WRITE {
            self.write(id, buf)
        } else if packet.op == SYS_CLOSE {
            self.close(id)
        } else {
            Err(Error { errno: ENOSYS })
        };
        packet.result = result_to_word(r);
    }
}

} // verus!
