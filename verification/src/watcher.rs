use vstd::prelude::*;

verus! {

/// Message type of a netlink no-op message.
pub const NLMSG_NOOP: u16 = 1;
/// Message type of a netlink error message.
pub const NLMSG_ERROR: u16 = 2;
/// Message type of the last message of a multipart reply.
pub const NLMSG_DONE: u16 = 3;
/// The connector index of the process-events connector.
pub const CN_IDX_PROC: u32 = 1;
/// The connector value of the process-events connector.
pub const CN_VAL_PROC: u32 = 1;
/// The operation that subscribes to process events.
pub const PROC_CN_MCAST_LISTEN: u32 = 1;
/// The event kind of an `exec`.
pub const PROC_EVENT_EXEC: u32 = 0x0000_0002;
/// The event kind of an exit.
pub const PROC_EVENT_EXIT: u32 = 0x8000_0000;
/// The size of a connector message header.
pub const CN_MSG_HEADER_LEN: usize = 20;
/// The size of the header of a process event.
pub const PROC_EVENT_HEADER_LEN: usize = 16;
/// The size of a netlink message header.
pub const NLMSG_HEADER_LEN: usize = 16;
/// The length of the subscription message.
pub const SUBSCRIBE_LEN: u32 = 40;

/// A process event that the watcher reports.
#[derive(Clone, Copy, Debug, PartialEq, Eq, Structural)]
pub enum Event {
    Exec { pid: u32 },
    Exit { pid: u32 },
}

/// The order in which the bytes of an integer lie in memory.
#[derive(Clone, Copy, Debug, PartialEq, Eq, Structural)]
pub enum ByteOrder {
    Little,
    Big,
}

/// The value of two bytes in the given order.
pub open spec fn decode_u16(b: Seq<u8>, order: ByteOrder) -> u16
    recommends
        b.len() == 2,
{
    match order {
        ByteOrder::Little => (b[0] as nat + b[1] as nat * 256) as u16,
        ByteOrder::Big => (b[1] as nat + b[0] as nat * 256) as u16,
    }
}

/// The value of four bytes in the given order.
pub open spec fn decode_u32(b: Seq<u8>, order: ByteOrder) -> u32
    recommends
        b.len() == 4,
{
    match order {
        ByteOrder::Little => (b[0] as nat + b[1] as nat * 256 + b[2] as nat * 65536 + b[3] as nat
            * 16777216) as u32,
        ByteOrder::Big => (b[3] as nat + b[2] as nat * 256 + b[1] as nat * 65536 + b[0] as nat
            * 16777216) as u32,
    }
}

/// The two bytes of `v` in the given order.
pub open spec fn encode_u16(v: u16, order: ByteOrder) -> Seq<u8> {
    let lo = (v % 256) as u8;
    let hi = (v / 256) as u8;
    match order {
        ByteOrder::Little => seq![lo, hi],
        ByteOrder::Big => seq![hi, lo],
    }
}

/// The four bytes of `v` in the given order.
pub open spec fn encode_u32(v: u32, order: ByteOrder) -> Seq<u8> {
    let b0 = (v % 256) as u8;
    let b1 = ((v / 256) % 256) as u8;
    let b2 = ((v / 65536) % 256) as u8;
    let b3 = (v / 16777216) as u8;
    match order {
        ByteOrder::Little => seq![b0, b1, b2, b3],
        ByteOrder::Big => seq![b3, b2, b1, b0],
    }
}

/// Decoding what was encoded gives the value back, in either order.
pub proof fn lemma_u32_round_trip(v: u32, order: ByteOrder)
    ensures
        encode_u32(v, order).len() == 4,
        decode_u32(encode_u32(v, order), order) == v,
{
    let b0 = v % 256;
    let b1 = (v / 256) % 256;
    let b2 = (v / 65536) % 256;
    let b3 = v / 16777216;
    assert((v % 256) + ((v / 256) % 256) * 256 + ((v / 65536) % 256) * 65536 + (v / 16777216)
        * 16777216 == v) by (bit_vector);
    assert(v / 16777216 < 256) by (bit_vector);
    assert((b0 as u8) as nat == b0 && (b1 as u8) as nat == b1 && (b2 as u8) as nat == b2 && (
    b3 as u8) as nat == b3);
}

/// Decoding what was encoded gives the value back, in either order.
pub proof fn lemma_u16_round_trip(v: u16, order: ByteOrder)
    ensures
        encode_u16(v, order).len() == 2,
        decode_u16(encode_u16(v, order), order) == v,
{
    let lo = v % 256;
    let hi = v / 256;
    assert((v % 256) + (v / 256) * 256 == v) by (bit_vector);
    assert(v / 256 < 256) by (bit_vector);
    assert((lo as u8) as nat == lo && (hi as u8) as nat == hi);
}

/// The memory representation of the `u16` value 1, as `u16::to_ne_bytes` gives it: by its
/// documentation, the bytes in the machine's native order, so `[1, 0]` or `[0, 1]`.
#[verifier::external_body]
fn ne_bytes_of_one() -> (r: [u8; 2])
    ensures
        r@ == seq![1u8, 0u8] || r@ == seq![0u8, 1u8],
{
    1u16.to_ne_bytes()
}

/// The byte order in which `b`, the memory representation of the `u16` value 1, is laid
/// out.
pub fn order_from_ne_one(b: [u8; 2]) -> (r: ByteOrder)
    requires
        b@ == seq![1u8, 0u8] || b@ == seq![0u8, 1u8],
    ensures
        encode_u16(1, r) == b@,
{
    if b[0] == 1 {
        assert(encode_u16(1, ByteOrder::Little) =~= b@);
        ByteOrder::Little
    } else {
        assert(encode_u16(1, ByteOrder::Big) =~= b@);
        ByteOrder::Big
    }
}

/// The byte order of this machine, which netlink messages use: the order in which
/// `u16::to_ne_bytes` lays out the value 1. Which one it is depends on the machine.
pub fn native_order() -> (r: ByteOrder) {
    order_from_ne_one(ne_bytes_of_one())
}

/// The `u32` at `off` in `b`, when four bytes stand there.
pub open spec fn u32_at_spec(b: Seq<u8>, off: int, order: ByteOrder) -> Option<u32> {
    if 0 <= off && off + 4 <= b.len() {
        Some(decode_u32(b.subrange(off, off + 4), order))
    } else {
        None
    }
}

fn read_u16(b: &[u8], off: usize, order: ByteOrder) -> (r: u16)
    requires
        off + 2 <= b@.len(),
    ensures
        r == decode_u16(b@.subrange(off as int, off + 2), order),
{
    let x0 = b[off] as u16;
    let x1 = b[off + 1] as u16;
    match order {
        ByteOrder::Little => x0 + x1 * 256,
        ByteOrder::Big => x1 + x0 * 256,
    }
}

/// The `u32` at `off` in `b`, or `None` when `b` ends before four bytes.
pub fn u32_at(b: &[u8], off: usize, order: ByteOrder) -> (r: Option<u32>)
    requires
        off <= usize::MAX - 4,
    ensures
        r == u32_at_spec(b@, off as int, order),
{
    if off + 4 > b.len() {
        return None;
    }
    let x0 = b[off] as u32;
    let x1 = b[off + 1] as u32;
    let x2 = b[off + 2] as u32;
    let x3 = b[off + 3] as u32;
    let v = match order {
        ByteOrder::Little => x0 + x1 * 256 + x2 * 65536 + x3 * 16777216,
        ByteOrder::Big => x3 + x2 * 256 + x1 * 65536 + x0 * 16777216,
    };
    Some(v)
}

/// The event that a connector payload reports, if it reports an `exec`, or the exit of a
/// whole process (its main thread).
pub open spec fn proc_event_spec(payload: Seq<u8>, order: ByteOrder) -> Option<Event> {
    if payload.len() < CN_MSG_HEADER_LEN + PROC_EVENT_HEADER_LEN + 8 {
        None
    } else {
        let pe = payload.subrange(CN_MSG_HEADER_LEN as int, payload.len() as int);
        let what = decode_u32(pe.subrange(0, 4), order);
        let process_pid = decode_u32(pe.subrange(16, 20), order);
        let process_tgid = decode_u32(pe.subrange(20, 24), order);
        if what == PROC_EVENT_EXEC {
            Some(Event::Exec { pid: process_tgid })
        } else if what == PROC_EVENT_EXIT && process_pid == process_tgid {
            Some(Event::Exit { pid: process_tgid })
        } else {
            None
        }
    }
}

/// Reads the process event in a connector payload: an `exec` gives its thread group, an
/// exit gives it only when the whole process exited. Anything else gives `None`.
pub fn parse_proc_event(payload: &[u8], order: ByteOrder) -> (r: Option<Event>)
    ensures
        r == proc_event_spec(payload@, order),
{
    if payload.len() < CN_MSG_HEADER_LEN {
        return None;
    }
    let pe = slice_from(payload, CN_MSG_HEADER_LEN);
    let what = match u32_at(pe, 0, order) {
        Some(v) => v,
        None => return None,
    };
    let process_pid = match u32_at(pe, PROC_EVENT_HEADER_LEN, order) {
        Some(v) => v,
        None => return None,
    };
    let process_tgid = match u32_at(pe, PROC_EVENT_HEADER_LEN + 4, order) {
        Some(v) => v,
        None => return None,
    };
    assert(pe@.subrange(0, 4) =~= payload@.subrange(CN_MSG_HEADER_LEN as int, payload@.len() as int).subrange(0, 4));
    if what == PROC_EVENT_EXEC {
        Some(Event::Exec { pid: process_tgid })
    } else if what == PROC_EVENT_EXIT && process_pid == process_tgid {
        Some(Event::Exit { pid: process_tgid })
    } else {
        None
    }
}

/// `n` rounded up to a multiple of four: the alignment of netlink messages.
pub open spec fn align4(n: nat) -> nat {
    ((n + 3) / 4) * 4
}

/// The events in a netlink datagram, read from offset `off` on: each message whose
/// header fits and whose length field is sane is read, no-op and error messages are
/// skipped, and reading stops at the first message that does not fit.
pub open spec fn events_from(buf: Seq<u8>, off: nat, order: ByteOrder) -> Seq<Event>
    decreases buf.len() + 4 - off,
{
    if off + NLMSG_HEADER_LEN > buf.len() {
        Seq::empty()
    } else {
        let o = off as int;
        let len = decode_u32(buf.subrange(o, o + 4), order) as nat;
        let ntype = decode_u16(buf.subrange(o + 4, o + 6), order);
        if len < NLMSG_HEADER_LEN || off + len > buf.len() {
            Seq::empty()
        } else {
            let here = if ntype != NLMSG_NOOP && ntype != NLMSG_ERROR {
                proc_event_spec(buf.subrange(o + NLMSG_HEADER_LEN, o + len), order)
            } else {
                None
            };
            let rest = events_from(buf, off + align4(len), order);
            match here {
                Some(e) => seq![e] + rest,
                None => rest,
            }
        }
    }
}

/// The process events in a datagram received from the proc connector, in order.
#[verifier::rlimit(60)]
pub fn parse_events(buf: &[u8], order: ByteOrder) -> (events: Vec<Event>)
    ensures
        events@ == events_from(buf@, 0, order),
{
    let mut events: Vec<Event> = Vec::new();
    let n = buf.len();
    let mut off: usize = 0;
    while off <= n && n - off >= NLMSG_HEADER_LEN
        invariant
            n == buf@.len(),
            events@ + events_from(buf@, off as nat, order) == events_from(buf@, 0, order),
        decreases n + 4 - off,
    {
        let len32 = match u32_at(buf, off, order) {
            Some(v) => v,
            None => {
                return events;
            },
        };
        let len = len32 as usize;
        let ntype = read_u16(buf, off + 4, order);
        if len < NLMSG_HEADER_LEN || len > n - off {
            proof {
                assert(events_from(buf@, off as nat, order) == Seq::<Event>::empty());
                assert(events@ + Seq::<Event>::empty() =~= events@);
            }
            return events;
        }
        let ghost prev = events@;
        let ghost here = if ntype != NLMSG_NOOP && ntype != NLMSG_ERROR {
            proc_event_spec(buf@.subrange(off + NLMSG_HEADER_LEN, off + len), order)
        } else {
            None
        };
        if ntype != NLMSG_NOOP && ntype != NLMSG_ERROR {
            let payload = slice_subrange(buf, off + NLMSG_HEADER_LEN, off + len);
            match parse_proc_event(payload, order) {
                Some(event) => {
                    events.push(event);
                },
                None => {},
            }
        }
        let pad = (4 - len % 4) % 4;
        proof {
            let rest = events_from(buf@, (off + align4(len as nat)) as nat, order);
            assert(len + pad == align4(len as nat));
            match here {
                Some(e) => {
                    assert(events@ =~= prev.push(e));
                    assert(prev + (seq![e] + rest) =~= events@ + rest);
                },
                None => {
                    assert(events@ == prev);
                },
            }
        }
        if pad > n - off - len {
            proof {
                let next = (off + len + pad) as nat;
                assert(events_from(buf@, next, order) == Seq::<Event>::empty());
                assert(events@ + Seq::<Event>::empty() =~= events@);
            }
            return events;
        }
        off = off + len + pad;
    }
    proof {
        assert(events_from(buf@, off as nat, order) == Seq::<Event>::empty());
        assert(events@ + Seq::<Event>::empty() =~= events@);
    }
    events
}

proof fn lemma_align4(n: nat)
    ensures
        n <= align4(n) <= n + 3,
{
    assert(n <= ((n + 3) / 4) * 4 <= n + 3) by (nonlinear_arith);
}

/// A datagram carries at most one event per 60 bytes: each event needs a netlink header,
/// a connector header and a process event of its own.
pub proof fn lemma_events_bound(buf: Seq<u8>, off: nat, order: ByteOrder)
    ensures
        60 * events_from(buf, off, order).len() <= if off <= buf.len() {
            buf.len() - off
        } else {
            0
        },
    decreases buf.len() + 4 - off,
{
    if off + NLMSG_HEADER_LEN <= buf.len() {
        let o = off as int;
        let len = decode_u32(buf.subrange(o, o + 4), order) as nat;
        if len >= NLMSG_HEADER_LEN && off + len <= buf.len() {
            lemma_align4(len);
            lemma_events_bound(buf, off + align4(len), order);
            let ntype = decode_u16(buf.subrange(o + 4, o + 6), order);
            if ntype != NLMSG_NOOP && ntype != NLMSG_ERROR {
                let payload = buf.subrange(o + NLMSG_HEADER_LEN, o + len);
                if proc_event_spec(payload, order) is Some {
                    assert(payload.len() >= 44);
                }
            }
        }
    }
}

/// Whether `a`, from `off` on, is a run of whole netlink messages: each header fits, its
/// length is at least a header's, and the message, padded to four bytes, ends within `a`.
pub open spec fn framed(a: Seq<u8>, off: nat, order: ByteOrder) -> bool
    decreases a.len() + 4 - off,
{
    if off == a.len() {
        true
    } else if off + NLMSG_HEADER_LEN > a.len() {
        false
    } else {
        let o = off as int;
        let len = decode_u32(a.subrange(o, o + 4), order) as nat;
        len >= NLMSG_HEADER_LEN && off + align4(len) <= a.len() && framed(
            a,
            off + align4(len),
            order,
        )
    }
}

/// Whether `r` does not begin with a whole netlink message: it is shorter than a header,
/// or its length field is below a header's size or beyond its end.
pub open spec fn malformed_start(r: Seq<u8>, order: ByteOrder) -> bool {
    ||| r.len() < NLMSG_HEADER_LEN
    ||| decode_u32(r.subrange(0, 4), order) < NLMSG_HEADER_LEN
    ||| decode_u32(r.subrange(0, 4), order) > r.len()
}

proof fn lemma_stops_at(a: Seq<u8>, r: Seq<u8>, off: nat, order: ByteOrder)
    requires
        off <= a.len(),
        framed(a, off, order),
        malformed_start(r, order),
    ensures
        events_from(a + r, off, order) == events_from(a, off, order),
    decreases a.len() + 4 - off,
{
    let b = a + r;
    let o = off as int;
    if off == a.len() {
        if off + NLMSG_HEADER_LEN <= b.len() {
            assert(b.subrange(o, o + 4) =~= r.subrange(0, 4));
        }
    } else {
        let len = decode_u32(a.subrange(o, o + 4), order) as nat;
        lemma_align4(len);
        assert(b.subrange(o, o + 4) =~= a.subrange(o, o + 4));
        assert(b.subrange(o + 4, o + 6) =~= a.subrange(o + 4, o + 6));
        assert(b.subrange(o + NLMSG_HEADER_LEN, o + len) =~= a.subrange(
            o + NLMSG_HEADER_LEN,
            o + len,
        ));
        lemma_stops_at(a, r, off + align4(len), order);
    }
}

/// Reading stops at the first message that is cut short or whose length is wrong: after a
/// run of whole messages `a`, nothing of what follows is read when it does not begin with a
/// whole message.
pub proof fn lemma_parse_stops_at_malformed(a: Seq<u8>, r: Seq<u8>, order: ByteOrder)
    requires
        framed(a, 0, order),
        malformed_start(r, order),
    ensures
        events_from(a + r, 0, order) == events_from(a, 0, order),
{
    lemma_stops_at(a, r, 0, order);
}

/// The subscription message: a netlink header of length `SUBSCRIBE_LEN` and type
/// `NLMSG_DONE` from `pid`, a connector header addressed to the process-events connector
/// with a payload of four bytes, and the `PROC_CN_MCAST_LISTEN` operation.
pub open spec fn subscribe_spec(pid: u32, order: ByteOrder) -> Seq<u8> {
    encode_u32(SUBSCRIBE_LEN, order) + encode_u16(NLMSG_DONE, order) + encode_u16(0, order)
        + encode_u32(0, order) + encode_u32(pid, order) + encode_u32(CN_IDX_PROC, order)
        + encode_u32(CN_VAL_PROC, order) + encode_u32(0, order) + encode_u32(0, order)
        + encode_u16(4, order) + encode_u16(0, order) + encode_u32(PROC_CN_MCAST_LISTEN, order)
}

fn push_u16(buf: &mut Vec<u8>, v: u16, order: ByteOrder)
    ensures
        final(buf)@ == old(buf)@ + encode_u16(v, order),
{
    let lo = (v % 256) as u8;
    let hi = (v / 256) as u8;
    match order {
        ByteOrder::Little => {
            buf.push(lo);
            buf.push(hi);
        },
        ByteOrder::Big => {
            buf.push(hi);
            buf.push(lo);
        },
    }
    assert(final(buf)@ =~= old(buf)@ + encode_u16(v, order));
}

fn push_u32(buf: &mut Vec<u8>, v: u32, order: ByteOrder)
    ensures
        final(buf)@ == old(buf)@ + encode_u32(v, order),
{
    let b0 = (v % 256) as u8;
    let b1 = ((v / 256) % 256) as u8;
    let b2 = ((v / 65536) % 256) as u8;
    let b3 = (v / 16777216) as u8;
    match order {
        ByteOrder::Little => {
            buf.push(b0);
            buf.push(b1);
            buf.push(b2);
            buf.push(b3);
        },
        ByteOrder::Big => {
            buf.push(b3);
            buf.push(b2);
            buf.push(b1);
            buf.push(b0);
        },
    }
    assert(final(buf)@ =~= old(buf)@ + encode_u32(v, order));
}

/// The message that subscribes the socket of process `pid` to process events.
pub fn subscribe_msg(pid: u32, order: ByteOrder) -> (msg: Vec<u8>)
    ensures
        msg@ == subscribe_spec(pid, order),
{
    let mut buf: Vec<u8> = Vec::new();
    push_u32(&mut buf, SUBSCRIBE_LEN, order);
    push_u16(&mut buf, NLMSG_DONE, order);
    push_u16(&mut buf, 0, order);
    push_u32(&mut buf, 0, order);
    push_u32(&mut buf, pid, order);
    push_u32(&mut buf, CN_IDX_PROC, order);
    push_u32(&mut buf, CN_VAL_PROC, order);
    push_u32(&mut buf, 0, order);
    push_u32(&mut buf, 0, order);
    push_u16(&mut buf, 4, order);
    push_u16(&mut buf, 0, order);
    push_u32(&mut buf, PROC_CN_MCAST_LISTEN, order);
    assert(buf@ =~= subscribe_spec(pid, order));
    buf
}

/// The subscription message is as long as its header says, it is of type `NLMSG_DONE`,
/// and it carries the sender's `pid` and the listen operation where the kernel reads them.
pub proof fn lemma_subscribe_header(pid: u32, order: ByteOrder)
    ensures
        subscribe_spec(pid, order).len() == SUBSCRIBE_LEN,
        u32_at_spec(subscribe_spec(pid, order), 0, order) == Some(SUBSCRIBE_LEN),
        decode_u16(subscribe_spec(pid, order).subrange(4, 6), order) == NLMSG_DONE,
        u32_at_spec(subscribe_spec(pid, order), 12, order) == Some(pid),
        u32_at_spec(subscribe_spec(pid, order), 36, order) == Some(PROC_CN_MCAST_LISTEN),
{
    let m = subscribe_spec(pid, order);
    let p1 = encode_u32(SUBSCRIBE_LEN, order) + encode_u16(NLMSG_DONE, order);
    let p2 = p1 + encode_u16(0, order) + encode_u32(0, order);
    let p3 = p2 + encode_u32(pid, order);
    let p4 = p3 + encode_u32(CN_IDX_PROC, order) + encode_u32(CN_VAL_PROC, order) + encode_u32(
        0,
        order,
    ) + encode_u32(0, order) + encode_u16(4, order) + encode_u16(0, order);
    assert(p1.len() == 6);
    assert(p2.len() == 12);
    assert(p3.len() == 16);
    assert(p4.len() == 36);
    assert(m == p4 + encode_u32(PROC_CN_MCAST_LISTEN, order));
    assert(p3.subrange(12, 16) =~= encode_u32(pid, order));
    assert(p4.subrange(12, 16) =~= p3.subrange(12, 16));
    assert(p1.subrange(0, 4) =~= encode_u32(SUBSCRIBE_LEN, order));
    assert(p1.subrange(4, 6) =~= encode_u16(NLMSG_DONE, order));
    assert(p4.subrange(0, 6) =~= p1);
    lemma_u32_round_trip(SUBSCRIBE_LEN, order);
    lemma_u32_round_trip(pid, order);
    lemma_u32_round_trip(PROC_CN_MCAST_LISTEN, order);
    lemma_u16_round_trip(NLMSG_DONE, order);
    assert(m.subrange(0, 4) =~= encode_u32(SUBSCRIBE_LEN, order));
    assert(m.subrange(4, 6) =~= encode_u16(NLMSG_DONE, order));
    assert(m.subrange(12, 16) =~= encode_u32(pid, order));
    assert(m.subrange(36, 40) =~= encode_u32(PROC_CN_MCAST_LISTEN, order));
}

/// The bytes of `b` from `start` on.
fn slice_from(b: &[u8], start: usize) -> (r: &[u8])
    requires
        start <= b@.len(),
    ensures
        r@ == b@.subrange(start as int, b@.len() as int),
{
    slice_subrange(b, start, b.len())
}

/// The bytes of `b` from `start` to `end`.
fn slice_subrange(b: &[u8], start: usize, end: usize) -> (r: &[u8])
    requires
        start <= end <= b@.len(),
    ensures
        r@ == b@.subrange(start as int, end as int),
{
    vstd::slice::slice_subrange(b, start, end)
}

} // verus!
