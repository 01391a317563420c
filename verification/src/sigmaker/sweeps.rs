//! What is read off a sweep of a region is what decoding there gives.

use crate::sigmaker::decode;
use crate::sigmaker::identity;
use crate::sigmaker::identity::{FeatV, GatherV, ID_WINDOW};
use crate::sigmaker::types::ImageInput;
use crate::x86;
use vstd::prelude::*;

verus! {

/// The instruction at `ip` is the same whether it is decoded with all of the region behind it or with
/// only what a window holds, and none where the window cuts it off.
pub open spec fn cut_alike(img: &ImageInput, full: Seq<u8>, cut: Seq<u8>, ip: u64) -> bool {
    let bits = decode::mode(img.arch);
    let whole = x86::head_of(bits, full, ip);
    let part = x86::head_of(bits, cut, ip);
    if decode::decodable(whole, full) && whole.len <= cut.len() {
        decode::decodable(part, cut) && part.len == whole.len && identity::feat(img, cut, ip)
            == identity::feat(img, full, ip)
    } else {
        !decode::decodable(part, cut)
    }
}

/// The window at offset `pos` of the region `b` reads what the region holds, and the decoder goes by the
/// bytes of each instruction alone.
pub open spec fn window_alike(img: &ImageInput, b: Seq<u8>, region_base: int, pos: int) -> bool {
    let w = img.bytes(region_base + pos, ID_WINDOW as nat);
    &&& 0 <= pos
    &&& pos + ID_WINDOW <= b.len()
    &&& w == b.subrange(pos, pos + ID_WINDOW)
    &&& forall|q: int|
        0 <= q < ID_WINDOW ==> cut_alike(
            img,
            b.skip(pos + q),
            #[trigger] w.skip(q),
            (region_base + pos + q) as u64,
        )
}

proof fn replay_goes_by_the_rest(
    events: Seq<(usize, Option<FeatV>)>,
    j: int,
    expected: int,
    ip0: int,
    end_ip: int,
    g: GatherV,
)
    requires
        0 <= j <= events.len(),
    ensures
        identity::replay_from(events, j, expected, ip0, end_ip, g) == identity::replay_from(
            events.skip(j),
            0,
            expected,
            ip0,
            end_ip,
            g,
        ),
    decreases events.len() - j,
{
    let rest = events.skip(j);
    if j < events.len() && g.mnemonics.len() < identity::ID_MAX_INSTRS {
        assert(rest[0] == events[j]);
        if let Some(f) = events[j].1 {
            if f.ip == expected && f.ip + f.len <= end_ip {
                let next = identity::absorbed(g, f, ip0, end_ip);
                replay_goes_by_the_rest(events, j + 1, expected + f.len, ip0, end_ip, next);
                replay_goes_by_the_rest(rest, 1, expected + f.len, ip0, end_ip, next);
                assert(rest.skip(1) =~= events.skip(j + 1));
            }
        }
    }
}

/// The offset that the sweep stops at first from `pos` on, and the rest of the sweep behind it.
proof fn first_event(img: &ImageInput, b: Seq<u8>, region_base: int, pos: int)
    requires
        0 <= pos < b.len(),
    ensures
        ({
            let events = identity::events_from(img, b, region_base, pos);
            let ip = (region_base + pos) as u64;
            let h = x86::head_of(decode::mode(img.arch), b.skip(pos), ip);
            &&& events.len() > 0
            &&& events[0].0 == (region_base - img.base + pos) as usize
            &&& if decode::decodable(h, b.skip(pos)) {
                events[0].1 == Some(identity::feat(img, b.skip(pos), ip)) && events.skip(1)
                    == identity::events_from(img, b, region_base, pos + h.len)
            } else {
                events[0].1 is None && events.skip(1) == identity::events_from(
                    img,
                    b,
                    region_base,
                    pos + 1,
                )
            }
        }),
{
    let events = identity::events_from(img, b, region_base, pos);
    let ip = (region_base + pos) as u64;
    let h = x86::head_of(decode::mode(img.arch), b.skip(pos), ip);
    if decode::decodable(h, b.skip(pos)) {
        assert(events.skip(1) =~= identity::events_from(img, b, region_base, pos + h.len));
    } else {
        assert(events.skip(1) =~= identity::events_from(img, b, region_base, pos + 1));
    }
}

proof fn replay_is_gathering(
    img: &ImageInput,
    b: Seq<u8>,
    region_base: int,
    pos: int,
    q: int,
    g: GatherV,
)
    requires
        window_alike(img, b, region_base, pos),
        0 <= region_base,
        region_base + b.len() <= u64::MAX,
        0 <= q <= ID_WINDOW,
    ensures
        ({
            let ip0 = (region_base + pos) as u64;
            identity::replay_from(
                identity::events_from(img, b, region_base, pos + q),
                0,
                ip0 + q,
                ip0 as int,
                ip0 + ID_WINDOW,
                g,
            ) == identity::gather_from(
                img,
                img.bytes(region_base + pos, ID_WINDOW as nat),
                ip0,
                q,
                g,
            )
        }),
    decreases ID_WINDOW - q,
{
    let ip0 = (region_base + pos) as u64;
    let w = img.bytes(region_base + pos, ID_WINDOW as nat);
    let end_ip = ip0 + ID_WINDOW;
    let ip = (ip0 + q) as u64;
    let events = identity::events_from(img, b, region_base, pos + q);
    if pos + q < b.len() {
        first_event(img, b, region_base, pos + q);
        let full = b.skip(pos + q);
        let h = x86::head_of(decode::mode(img.arch), full, ip);
        assert((region_base + (pos + q)) as u64 == ip);
        if q < ID_WINDOW {
            assert(cut_alike(img, full, w.skip(q), (region_base + pos + q) as u64));
            if decode::decodable(h, full) && h.len <= ID_WINDOW - q && g.mnemonics.len()
                < identity::ID_MAX_INSTRS {
                let f = identity::feat(img, full, ip);
                let next = identity::absorbed(g, f, ip0 as int, end_ip);
                replay_goes_by_the_rest(events, 1, ip0 + q + h.len, ip0 as int, end_ip, next);
                replay_is_gathering(img, b, region_base, pos, q + h.len, next);
            }
        }
    }
}

/// Where event `e` of a sweep from `pos` stops.
proof fn event_offset(img: &ImageInput, b: Seq<u8>, region_base: int, pos: int, e: int) -> (at: int)
    requires
        0 <= pos,
        0 <= e < identity::events_from(img, b, region_base, pos).len(),
    ensures
        pos <= at < b.len(),
        identity::events_from(img, b, region_base, pos)[e].0 == (region_base - img.base + at) as usize,
        identity::events_from(img, b, region_base, pos).skip(e) == identity::events_from(
            img,
            b,
            region_base,
            at,
        ),
    decreases e,
{
    let events = identity::events_from(img, b, region_base, pos);
    first_event(img, b, region_base, pos);
    if e == 0 {
        assert(events.skip(0) =~= events);
        pos
    } else {
        let h = x86::head_of(
            decode::mode(img.arch),
            b.skip(pos),
            (region_base + pos) as u64,
        );
        let next = if decode::decodable(h, b.skip(pos)) {
            pos + h.len
        } else {
            pos + 1
        };
        let rest = identity::events_from(img, b, region_base, next);
        assert(events.skip(1) == rest);
        assert(rest[e - 1] == events[e]);
        let at = event_offset(img, b, region_base, next, e - 1);
        assert(events.skip(e) =~= rest.skip(e - 1));
        at
    }
}

/// The identity read off a sweep is the identity of the function there, as long as the source gives the
/// window the bytes that it gives the region, and the decoder tells each instruction by its own bytes.
pub proof fn swept_identities_are_those_decoded(
    img: &ImageInput,
    region_base: int,
    region_size: int,
    e: int,
)
    requires
        img.base <= region_base,
        0 <= region_size,
        region_base + region_size <= u64::MAX,
        region_base + region_size <= usize::MAX,
        img.bytes(region_base, region_size as nat).len() <= region_size,
        0 <= e < identity::events_of(img, region_base, region_size).len(),
    ensures
        ({
            let events = identity::events_of(img, region_base, region_size);
            let b = img.bytes(region_base, region_size as nat);
            let rva = events[e].0;
            window_alike(img, b, region_base, img.base + rva - region_base) ==> identity::replayed(
                img,
                region_base + region_size,
                events,
                e,
            ) == identity::identity_at(img, rva as int)
        }),
{
    let b = img.bytes(region_base, region_size as nat);
    let events = identity::events_of(img, region_base, region_size);
    let rva = events[e].0;
    let at = event_offset(img, b, region_base, 0, e);
    let ip0 = (img.base + rva) as u64;
    if window_alike(img, b, region_base, img.base + rva - region_base) && ip0 + ID_WINDOW
        <= region_base + region_size {
        let g = identity::gather_start(ip0);
        assert(img.base + rva - region_base == at);
        replay_is_gathering(img, b, region_base, at, 0, g);
        replay_goes_by_the_rest(events, e, ip0 as int, ip0 as int, ip0 + ID_WINDOW, g);
        assert(events.skip(e)[0] == events[e]);
    }
}

}
