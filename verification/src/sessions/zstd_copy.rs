//! What a copy of a zstd session log reads back as: how the frame reader
//! splits a buffer that continues another, and the round trip of a copy
//! through the decoder.

use vstd::prelude::*;
use crate::sessions::codec::{
    build_copy_spec, committed_events, decode_frames, decode_zstd_spec, events_text, flatten,
    frames_from, lemma_copy_text, lemma_next_magic, magic_at, next_magic, parse_header_spec,
    zstd_encoded, zstd_frame_plain, zstd_magic, CodecErrorView, DecodedView,
};
use crate::text::is_blank;
use vstd::utf8::{decode_utf8, encode_utf8, valid_utf8};

verus! {

/* ------------------------------- spec ------------------------------- */

/// Byte ranges moved `o` bytes further on.
pub open spec fn shift_ranges(o: int, r: Seq<(int, int)>) -> Seq<(int, int)> {
    r.map_values(|p: (int, int)| (p.0 + o, p.1 + o))
}

/// `data` compresses into one frame that starts with the magic and that the
/// frame reader decompresses back into `data`.
pub open spec fn frame_reads_back(data: Seq<u8>) -> bool {
    match zstd_encoded(data, 3) {
        Ok(f) => magic_at(f, 0) && zstd_frame_plain(f) == Ok::<Seq<u8>, Seq<char>>(data),
        Err(_) => false,
    }
}

/// No frame magic starts strictly between `lo` and `hi`.
pub open spec fn no_magic_within(c: Seq<u8>, lo: int, hi: int) -> bool {
    forall|p: int| lo < p < hi ==> !magic_at(c, p)
}

/* ------------------------------ lemmas ------------------------------ */

proof fn lemma_magic_shift(a: Seq<u8>, s: Seq<u8>, p: int)
    requires
        0 <= p,
    ensures
        magic_at(a + s, a.len() + p) == magic_at(s, p),
{
    if p + 4 <= s.len() {
        assert((a + s).subrange(a.len() + p, a.len() + p + 4) =~= s.subrange(p, p + 4));
    }
}

proof fn lemma_magic_prefix(a: Seq<u8>, s: Seq<u8>, p: int)
    requires
        0 <= p,
        p + 4 <= a.len(),
    ensures
        magic_at(a + s, p) == magic_at(a, p),
{
    assert((a + s).subrange(p, p + 4) =~= a.subrange(p, p + 4));
}

proof fn lemma_next_magic_shift(a: Seq<u8>, s: Seq<u8>, i: int)
    requires
        0 <= i,
    ensures
        next_magic(a + s, a.len() + i) == (match next_magic(s, i) {
            Some(x) => Some(a.len() + x),
            None => None,
        }),
    decreases s.len() - i,
{
    lemma_magic_shift(a, s, i);
    if i + 4 <= s.len() && !magic_at(s, i) {
        lemma_next_magic_shift(a, s, i + 1);
    }
}

/// The first magic at or after `i` is at `j` when none comes before it.
proof fn lemma_next_magic_at(buf: Seq<u8>, i: int, j: int)
    requires
        0 <= i <= j,
        magic_at(buf, j),
        forall|p: int| i <= p < j ==> !magic_at(buf, p),
    ensures
        next_magic(buf, i) == Some(j),
    decreases j - i,
{
    if i < j {
        assert(!magic_at(buf, i));
        lemma_next_magic_at(buf, i + 1, j);
    }
}

proof fn lemma_next_magic_none(buf: Seq<u8>, i: int)
    requires
        0 <= i,
        forall|p: int| i <= p ==> !magic_at(buf, p),
    ensures
        next_magic(buf, i) is None,
    decreases buf.len() - i,
{
    if i + 4 <= buf.len() {
        assert(!magic_at(buf, i));
        lemma_next_magic_none(buf, i + 1);
    }
}

/// Splitting a buffer that continues another: the frames found in the
/// continuation are its own, moved by the length of what precedes it.
proof fn lemma_frames_shift(a: Seq<u8>, s: Seq<u8>, i: int)
    requires
        0 <= i,
    ensures
        frames_from(a + s, a.len() + i) == shift_ranges(a.len() as int, frames_from(s, i)),
    decreases s.len() - i,
{
    let o = a.len() as int;
    lemma_next_magic_shift(a, s, i);
    if i + 4 <= s.len() {
        match next_magic(s, i) {
            None => {
                assert(shift_ranges(o, frames_from(s, i)) =~= Seq::<(int, int)>::empty());
            },
            Some(x) => {
                lemma_next_magic(s, i);
                lemma_next_magic_shift(a, s, x + 4);
                let n = match next_magic(s, x + 4) {
                    Some(y) => y,
                    None => s.len() as int,
                };
                lemma_next_magic(s, x + 4);
                lemma_frames_shift(a, s, n);
                assert(frames_from(s, i) == seq![(x, n)] + frames_from(s, n));
                assert(shift_ranges(o, seq![(x, n)] + frames_from(s, n)) =~= seq![(x + o, n + o)]
                    + shift_ranges(o, frames_from(s, n)));
            },
        }
    } else {
        assert(shift_ranges(o, frames_from(s, i)) =~= Seq::<(int, int)>::empty());
    }
}

/// Every frame found from `i` on lies within the buffer, after `i`.
proof fn lemma_frames_bounds(s: Seq<u8>, i: int)
    requires
        0 <= i,
    ensures
        forall|k: int|
            0 <= k < frames_from(s, i).len() ==> i <= (#[trigger] frames_from(s, i)[k]).0 < frames_from(
                s,
                i,
            )[k].1 <= s.len(),
    decreases s.len() - i,
{
    if i + 4 <= s.len() {
        if let Some(x) = next_magic(s, i) {
            lemma_next_magic(s, i);
            lemma_next_magic(s, x + 4);
            let n = match next_magic(s, x + 4) {
                Some(y) => y,
                None => s.len() as int,
            };
            lemma_frames_bounds(s, n);
            let f = frames_from(s, i);
            assert(f == seq![(x, n)] + frames_from(s, n));
            assert forall|k: int| 0 <= k < f.len() implies i <= (#[trigger] f[k]).0 < f[k].1 <= s.len() by {
                if k > 0 {
                    assert(f[k] == frames_from(s, n)[k - 1]);
                }
            }
        }
    }
}

/// Decoding frames of a buffer that continues another: frames past the
/// first `m` ranges, all inside the continuation, decode as the
/// continuation's own.
proof fn lemma_decode_frames_shift(
    a: Seq<u8>,
    s: Seq<u8>,
    p: Seq<(int, int)>,
    r: Seq<(int, int)>,
    k: int,
)
    requires
        0 <= k,
        forall|j: int| 0 <= j < r.len() ==> 0 <= (#[trigger] r[j]).0 <= r[j].1 <= s.len(),
    ensures
        decode_frames(a + s, p + shift_ranges(a.len() as int, r), p.len() + k) == decode_frames(
            s,
            r,
            k,
        ),
    decreases r.len() - k,
{
    let o = a.len() as int;
    let all = p + shift_ranges(o, r);
    if k < r.len() {
        assert(all[p.len() + k] == (r[k].0 + o, r[k].1 + o));
        assert((a + s).subrange(r[k].0 + o, r[k].1 + o) =~= s.subrange(r[k].0, r[k].1));
        lemma_decode_frames_shift(a, s, p, r, k + 1);
        assert(p.len() + k + 1 == p.len() + (k + 1));
    }
}

proof fn lemma_flatten_prepend(x: Seq<u8>, r: Seq<Seq<u8>>)
    ensures
        flatten(seq![x] + r) == x + flatten(r),
    decreases r.len(),
{
    if r.len() == 0 {
        assert(seq![x] + r =~= seq![x]);
        assert(seq![x].drop_last() =~= Seq::<Seq<u8>>::empty());
        assert(seq![x].last() == x);
        assert(flatten(seq![x].drop_last()) =~= Seq::<u8>::empty());
        assert(flatten(seq![x]) == flatten(seq![x].drop_last()) + x);
        assert(flatten(seq![x]) =~= x);
        assert(flatten(r) =~= Seq::<u8>::empty());
        assert(x + flatten(r) =~= x);
    } else {
        lemma_flatten_prepend(x, r.drop_last());
        assert((seq![x] + r).drop_last() =~= seq![x] + r.drop_last());
        assert((seq![x] + r).last() == r.last());
        assert(x + flatten(r) =~= x + flatten(r.drop_last()) + r.last());
    }
}

/// The frames found from a magic cover the rest of the buffer, back to back.
proof fn lemma_frames_cover(buf: Seq<u8>, i: int)
    requires
        magic_at(buf, i),
    ensures
        flatten(frames_from(buf, i).map_values(|r: (int, int)| buf.subrange(r.0, r.1)))
            == buf.subrange(i, buf.len() as int),
    decreases buf.len() - i,
{
    lemma_next_magic_at(buf, i, i);
    lemma_next_magic(buf, i + 4);
    let n = match next_magic(buf, i + 4) {
        Some(y) => y,
        None => buf.len() as int,
    };
    let f = frames_from(buf, i);
    let rest = frames_from(buf, n);
    assert(f == seq![(i, n)] + rest);
    let g = |r: (int, int)| buf.subrange(r.0, r.1);
    assert(f.map_values(g) =~= seq![buf.subrange(i, n)] + rest.map_values(g));
    lemma_flatten_prepend(buf.subrange(i, n), rest.map_values(g));
    if n < buf.len() {
        lemma_frames_cover(buf, n);
        assert(buf.subrange(i, n) + buf.subrange(n, buf.len() as int) =~= buf.subrange(
            i,
            buf.len() as int,
        ));
    } else {
        assert(rest =~= Seq::<(int, int)>::empty());
        assert(rest.map_values(g) =~= Seq::<Seq<u8>>::empty());
        assert(flatten(rest.map_values(g)) =~= Seq::<u8>::empty());
        assert(buf.subrange(i, n) + Seq::<u8>::empty() =~= buf.subrange(i, buf.len() as int));
    }
}

/// The frames of a buffer made of one frame `h` (magic first, no other
/// magic before the end of `h`) followed by `rest`, which starts with a
/// magic: the frame of `h`, then the frames of `rest`, moved.
proof fn lemma_frames_after_head(h: Seq<u8>, rest: Seq<u8>)
    requires
        magic_at(h, 0),
        magic_at(rest, 0),
        no_magic_within(h + rest, 0, h.len() as int),
    ensures
        frames_from(h + rest, 0) == seq![(0int, h.len() as int)] + shift_ranges(
            h.len() as int,
            frames_from(rest, 0),
        ),
{
    let c = h + rest;
    lemma_magic_prefix(h, rest, 0);
    lemma_magic_shift(h, rest, 0);
    lemma_next_magic_at(c, 0, 0);
    lemma_next_magic_at(c, 4, h.len() as int);
    lemma_frames_shift(h, rest, 0);
    assert(frames_from(c, 0) == seq![(0int, h.len() as int)] + frames_from(c, h.len() as int));
}

/// A lone frame: magic first, no other magic in it.
proof fn lemma_frames_single(f: Seq<u8>)
    requires
        magic_at(f, 0),
        no_magic_within(f, 0, f.len() as int),
    ensures
        frames_from(f, 0) == seq![(0int, f.len() as int)],
{
    lemma_next_magic_at(f, 0, 0);
    assert forall|p: int| 4 <= p implies !magic_at(f, p) by {
        if p < f.len() {
            assert(0 < p < f.len());
        }
    }
    lemma_next_magic_none(f, 4);
    assert(frames_from(f, f.len() as int) =~= Seq::<(int, int)>::empty());
    assert(frames_from(f, 0) =~= seq![(0int, f.len() as int)]);
}

/// A copy of a zstd session log reads back as what it was built from: the
/// new header line parses to the header, and the events are exactly the
/// source's committed events, byte for byte. Given what the compressor and
/// the frame reader are taken to do with what the copy compresses — each
/// frame starts with the magic and decompresses back into what was
/// compressed — and that no magic appears inside a frame the copy writes.
pub proof fn lemma_zstd_copy_round_trip(buf: Seq<u8>, generation: nat, line: Seq<char>)
    requires
        decode_zstd_spec(buf, generation) is Ok,
        forall|j: int| 0 <= j < line.len() ==> line[j] != '\n',
        !is_blank(line),
        parse_header_spec(line, generation) is Ok,
        frame_reads_back(encode_utf8(line).push(10u8)),
        ({
            let d = decode_zstd_spec(buf, generation)->Ok_0;
            d.tail_frames is None && d.event_bytes.len() > 0 ==> frame_reads_back(d.event_bytes)
        }),
        ({
            let d = decode_zstd_spec(buf, generation)->Ok_0;
            let h = zstd_encoded(encode_utf8(line).push(10u8), 3)->Ok_0;
            let c = build_copy_spec(d, line)->Ok_0;
            build_copy_spec(d, line) is Ok ==> no_magic_within(c, 0, h.len() as int) && (
            d.tail_frames is None ==> no_magic_within(c, h.len() as int, c.len() as int))
        }),
    ensures
        ({
            let d = decode_zstd_spec(buf, generation)->Ok_0;
            let c = build_copy_spec(d, line)->Ok_0;
            let back = decode_zstd_spec(c, generation)->Ok_0;
            &&& build_copy_spec(d, line) is Ok
            &&& decode_zstd_spec(c, generation) is Ok
            &&& back.header == parse_header_spec(line, generation)->Ok_0
            &&& back.header_line == line
            &&& back.events == d.events
            &&& back.event_bytes == d.event_bytes
        }),
{
    let d = decode_zstd_spec(buf, generation)->Ok_0;
    let hb = encode_utf8(line).push(10u8);
    let h = zstd_encoded(hb, 3)->Ok_0;
    let eb = d.event_bytes;
    let r = frames_from(buf, 0);
    let ps = decode_frames(buf, r, 0)->Ok_0;
    let all = flatten(ps);
    let text = decode_utf8(all);
    assert(d.events == committed_events(text));
    assert(eb == encode_utf8(events_text(d.events)));
    lemma_copy_text(text, line);
    let target = hb + eb;
    assert(target == encode_utf8(line).push(10u8) + encode_utf8(events_text(committed_events(text))));
    // The copy's frames decode to the header line, then to the event bytes.
    match d.tail_frames {
        Some(t) => {
            let c = h + t;
            assert(build_copy_spec(d, line) == Ok::<Seq<u8>, CodecErrorView>(c));
            lemma_next_magic(buf, 0);
            let s0 = next_magic(buf, 0)->0;
            lemma_next_magic(buf, s0 + 4);
            let e0 = match next_magic(buf, s0 + 4) {
                Some(y) => y,
                None => buf.len() as int,
            };
            assert(r == seq![(s0, e0)] + frames_from(buf, e0));
            if next_magic(buf, s0 + 4) is None {
                assert(frames_from(buf, e0) =~= Seq::<(int, int)>::empty());
            }
            assert(magic_at(buf, e0));
            let tail_ranges = frames_from(buf, e0);
            assert(r.subrange(1, r.len() as int) =~= tail_ranges);
            lemma_frames_cover(buf, e0);
            assert(r.subrange(1, r.len() as int).map_values(|q: (int, int)| buf.subrange(q.0, q.1))
                =~= tail_ranges.map_values(|q: (int, int)| buf.subrange(q.0, q.1)));
            assert(t == buf.subrange(e0, buf.len() as int));
            let pre = buf.take(e0);
            assert(buf =~= pre + t);
            let f = frames_from(t, 0);
            lemma_frames_shift(pre, t, 0);
            lemma_frames_bounds(t, 0);
            assert(r == seq![(s0, e0)] + shift_ranges(e0, f));
            lemma_decode_frames_shift(pre, t, seq![(s0, e0)], f, 0);
            let rest = decode_frames(t, f, 0)->Ok_0;
            assert(decode_frames(buf, r, 1) == decode_frames(t, f, 0));
            let p0 = zstd_frame_plain(buf.subrange(s0, e0))->Ok_0;
            assert(ps == seq![p0] + rest);
            // The copy.
            lemma_magic_shift(pre, t, 0);
            lemma_frames_after_head(h, t);
            let cr = frames_from(c, 0);
            assert(c.subrange(0, h.len() as int) =~= h);
            lemma_decode_frames_shift(h, t, seq![(0int, h.len() as int)], f, 0);
            assert(decode_frames(c, cr, 1) == decode_frames(t, f, 0));
            assert(decode_frames(c, cr, 0) == Ok::<Seq<Seq<u8>>, Seq<char>>(seq![hb] + rest));
            lemma_flatten_prepend(hb, rest);
            lemma_flatten_prepend(p0, rest);
            assert((p0 + flatten(rest)).skip(p0.len() as int) =~= flatten(rest));
            assert(flatten(rest) == eb);
            assert(flatten(seq![hb] + rest) == target);
        },
        None => {
            if eb.len() > 0 {
                let ev = zstd_encoded(eb, 3)->Ok_0;
                let c = h + ev;
                assert(build_copy_spec(d, line) == Ok::<Seq<u8>, CodecErrorView>(c));
                lemma_frames_after_head(h, ev);
                assert forall|p: int| 0 < p < ev.len() implies !magic_at(ev, p) by {
                    lemma_magic_shift(h, ev, p);
                }
                lemma_frames_single(ev);
                let cr = frames_from(c, 0);
                assert(shift_ranges(h.len() as int, seq![(0int, ev.len() as int)]) =~= seq![
                    (h.len() as int, (h.len() + ev.len()) as int),
                ]);
                assert(cr == seq![(0int, h.len() as int), (h.len() as int, (h.len() + ev.len()) as int)]);
                assert(c.subrange(0, h.len() as int) =~= h);
                assert(c.subrange(h.len() as int, (h.len() + ev.len()) as int) =~= ev);
                assert(decode_frames(c, cr, 2) == Ok::<Seq<Seq<u8>>, Seq<char>>(Seq::empty()));
                assert(decode_frames(c, cr, 1) == Ok::<Seq<Seq<u8>>, Seq<char>>(seq![eb] + Seq::<Seq<u8>>::empty()));
                assert(decode_frames(c, cr, 0) == Ok::<Seq<Seq<u8>>, Seq<char>>(seq![hb] + (seq![eb] + Seq::<Seq<u8>>::empty())));
                assert(seq![eb] + Seq::<Seq<u8>>::empty() =~= seq![eb]);
                lemma_flatten_prepend(eb, Seq::<Seq<u8>>::empty());
                lemma_flatten_prepend(hb, seq![eb]);
                assert(flatten(Seq::<Seq<u8>>::empty()) =~= Seq::<u8>::empty());
                assert(eb + Seq::<u8>::empty() =~= eb);
                assert(flatten(seq![hb] + seq![eb]) == target);
            } else {
                let c = h;
                assert(build_copy_spec(d, line) == Ok::<Seq<u8>, CodecErrorView>(c));
                lemma_frames_single(h);
                let cr = frames_from(c, 0);
                assert(c.subrange(0, h.len() as int) =~= h);
                assert(decode_frames(c, cr, 1) == Ok::<Seq<Seq<u8>>, Seq<char>>(Seq::empty()));
                assert(decode_frames(c, cr, 0) == Ok::<Seq<Seq<u8>>, Seq<char>>(seq![hb] + Seq::<Seq<u8>>::empty()));
                lemma_flatten_prepend(hb, Seq::<Seq<u8>>::empty());
                assert(flatten(Seq::<Seq<u8>>::empty()) =~= Seq::<u8>::empty());
                assert(eb =~= Seq::<u8>::empty());
                assert(hb + Seq::<u8>::empty() =~= target);
            }
        },
    }
}

} // verus!
