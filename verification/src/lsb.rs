//! The least-significant-bit codec: embeds a framed payload into the LSBs of
//! an image's color channels along a pixel traversal, and recovers it again.

use vstd::prelude::*;
use crate::data::{
    assemble8,
    bits_of,
    crc32,
    crc32_of,
    hash_key,
    key_view,
    package_data,
    packaged,
    seed_of_key,
    word_of_bytes,
    BatchIterator,
    BitIterator,
};
use crate::errors::{AppError, AppErrorKind};
use crate::image::{chan_index, lemma_u32_mul_bound, Image};
use crate::pixel::{
    coord_at,
    rand_ok_upto,
    rand_state,
    rand_step_ok,
    PixelIterator,
    TraversalMode,
};

verus! {

/// Payload lengths at or above this many bytes ask for an explicit go-ahead
/// before extraction carries on.
pub const LARGE_MESSAGE_LEN: u32 = 1048576;

/// A payload of `len` bytes fits a `w` x `h` image: the framed message, one
/// bit per color channel, needs no more channels than the image has.
pub open spec fn fits(len: nat, w: u32, h: u32) -> bool {
    &&& len <= u32::MAX
    &&& 8 * (len + 8) <= 3 * ((w as int) * (h as int))
}

/// The flat buffer index of the channel that carries bit `p` of the stream:
/// channel `p % 3` of the pixel visited at step `p / 3`.
pub open spec fn bit_chan(mode: TraversalMode, seed: u64, w: u32, h: u32, p: int) -> int {
    let c = coord_at(mode, seed, w, h, (p / 3) as nat);
    chan_index(w, c.0, c.1, p % 3)
}

/// Bit `p` of the stream an image yields under a traversal: the LSB of the
/// channel that carries it.
pub open spec fn stream_bit(
    d: Seq<u8>,
    mode: TraversalMode,
    seed: u64,
    w: u32,
    h: u32,
    p: int,
) -> u8 {
    d[bit_chan(mode, seed, w, h, p)] & 1
}

/// The byte formed by stream bits `off .. off + 8`, MSB-first.
pub open spec fn stream_byte(
    d: Seq<u8>,
    mode: TraversalMode,
    seed: u64,
    w: u32,
    h: u32,
    off: int,
) -> u8 {
    assemble8(
        stream_bit(d, mode, seed, w, h, off),
        stream_bit(d, mode, seed, w, h, off + 1),
        stream_bit(d, mode, seed, w, h, off + 2),
        stream_bit(d, mode, seed, w, h, off + 3),
        stream_bit(d, mode, seed, w, h, off + 4),
        stream_bit(d, mode, seed, w, h, off + 5),
        stream_bit(d, mode, seed, w, h, off + 6),
        stream_bit(d, mode, seed, w, h, off + 7),
    )
}

/// The big-endian 32-bit word formed by stream bits `off .. off + 32`.
pub open spec fn stream_word(
    d: Seq<u8>,
    mode: TraversalMode,
    seed: u64,
    w: u32,
    h: u32,
    off: int,
) -> u32 {
    word_of_bytes(
        stream_byte(d, mode, seed, w, h, off),
        stream_byte(d, mode, seed, w, h, off + 8),
        stream_byte(d, mode, seed, w, h, off + 16),
        stream_byte(d, mode, seed, w, h, off + 24),
    )
}

/// How many pixels carry `nbits` bits, three to a pixel.
pub open spec fn pixels_for(nbits: int) -> int {
    (nbits + 2) / 3
}

/// Buffer index `i` is one of the channels the first `nbits` stream bits use.
pub open spec fn bit_written(
    mode: TraversalMode,
    seed: u64,
    w: u32,
    h: u32,
    nbits: int,
    i: int,
) -> bool {
    exists|p: int| 0 <= p < nbits && #[trigger] bit_chan(mode, seed, w, h, p) == i
}

/// A channel byte with its LSB overwritten by `b`.
pub open spec fn lsb_set(v: u8, b: u8) -> u8 {
    (v & 0xfe) | b
}

/// Stream bits `lo .. hi` of `newd` hold the corresponding bits of `framed`,
/// each in the LSB of its channel with the upper bits kept from `oldd`.
pub open spec fn holds_bits(
    mode: TraversalMode,
    seed: u64,
    w: u32,
    h: u32,
    framed: Seq<u8>,
    oldd: Seq<u8>,
    newd: Seq<u8>,
    lo: int,
    hi: int,
) -> bool {
    forall|p: int|
        lo <= p < hi ==> newd[#[trigger] bit_chan(mode, seed, w, h, p)] == lsb_set(
            oldd[bit_chan(mode, seed, w, h, p)],
            bits_of(framed, p),
        )
}

/// Every byte outside the channels of the first `bound` stream bits is the
/// same in `newd` as in `oldd`.
pub open spec fn keeps_rest(
    mode: TraversalMode,
    seed: u64,
    w: u32,
    h: u32,
    bound: int,
    oldd: Seq<u8>,
    newd: Seq<u8>,
) -> bool {
    forall|i: int|
        0 <= i < oldd.len() && !bit_written(mode, seed, w, h, bound, i) ==> newd[i] == oldd[i]
}

/// How an embedded image relates to the cover image: every channel that
/// carries a bit of the framed payload holds that bit in its LSB with its
/// upper bits kept, every other byte is untouched, and the traversal's first
/// `pixels_for` coordinates lie in the grid and never repeat.
pub open spec fn embedded_rel(
    oldd: Seq<u8>,
    newd: Seq<u8>,
    w: u32,
    h: u32,
    payload: Seq<u8>,
    mode: TraversalMode,
    seed: u64,
) -> bool {
    let framed = packaged(payload);
    let nbits = (8 * framed.len()) as int;
    &&& newd.len() == oldd.len()
    &&& holds_bits(mode, seed, w, h, framed, oldd, newd, 0, nbits)
    &&& keeps_rest(mode, seed, w, h, nbits, oldd, newd)
    &&& forall|t: int|
        0 <= t < pixels_for(nbits) ==> (#[trigger] coord_at(mode, seed, w, h, t as nat)).0 < w
            && coord_at(mode, seed, w, h, t as nat).1 < h
    &&& forall|t1: int, t2: int|
        0 <= t1 < t2 < pixels_for(nbits) ==> #[trigger] coord_at(mode, seed, w, h, t1 as nat)
            != #[trigger] coord_at(mode, seed, w, h, t2 as nat)
}

/// Packing in-range coordinates into cell indices is injective.
proof fn lemma_cell_injective(x1: int, y1: int, x2: int, y2: int, w: int)
    by (nonlinear_arith)
    requires
        0 <= x1 < w,
        0 <= x2 < w,
        0 <= y1,
        0 <= y2,
        !(x1 == x2 && y1 == y2),
    ensures
        y1 * w + x1 != y2 * w + x2,
{
}

/// Distinct stream bits use distinct channels, as long as the coordinates of
/// the pixels they ride on are in range and distinct.
proof fn lemma_bit_chan_distinct(
    mode: TraversalMode,
    seed: u64,
    w: u32,
    h: u32,
    p1: int,
    p2: int,
)
    requires
        0 <= p1,
        0 <= p2,
        p1 != p2,
        coord_at(mode, seed, w, h, (p1 / 3) as nat).0 < w,
        coord_at(mode, seed, w, h, (p1 / 3) as nat).1 < h,
        coord_at(mode, seed, w, h, (p2 / 3) as nat).0 < w,
        coord_at(mode, seed, w, h, (p2 / 3) as nat).1 < h,
        p1 / 3 != p2 / 3 ==> coord_at(mode, seed, w, h, (p1 / 3) as nat) != coord_at(
            mode,
            seed,
            w,
            h,
            (p2 / 3) as nat,
        ),
    ensures
        bit_chan(mode, seed, w, h, p1) != bit_chan(mode, seed, w, h, p2),
{
    let c1 = coord_at(mode, seed, w, h, (p1 / 3) as nat);
    let c2 = coord_at(mode, seed, w, h, (p2 / 3) as nat);
    vstd::arithmetic::div_mod::lemma_fundamental_div_mod(p1, 3);
    vstd::arithmetic::div_mod::lemma_fundamental_div_mod(p2, 3);
    vstd::arithmetic::div_mod::lemma_mod_bound(p1, 3);
    vstd::arithmetic::div_mod::lemma_mod_bound(p2, 3);
    if p1 / 3 == p2 / 3 {
        assert(p1 % 3 != p2 % 3);
    } else {
        lemma_cell_injective(c1.0 as int, c1.1 as int, c2.0 as int, c2.1 as int, w as int);
    }
}

/// The coordinates of the first `n` traversal steps, or `None` when the
/// random strategy found no fresh coordinate within the retry limit.
fn take_coords(mode: TraversalMode, seed: u64, w: u32, h: u32, n: usize) -> (r: Option<
    Vec<(u32, u32)>,
>)
    requires
        w >= 1,
        h >= 1,
        n <= (w as int) * (h as int),
    ensures
        match r {
            Some(v) => {
                &&& v@.len() == n
                &&& forall|t: int|
                    0 <= t < n ==> #[trigger] v@[t] == coord_at(mode, seed, w, h, t as nat)
                &&& forall|t: int| 0 <= t < n ==> (#[trigger] v@[t]).0 < w && v@[t].1 < h
                &&& forall|t1: int, t2: int| 0 <= t1 < t2 < n ==> v@[t1] != v@[t2]
                &&& (mode == TraversalMode::Random ==> rand_ok_upto(seed, w, h, n as nat))
            },
            None => mode == TraversalMode::Random && !rand_ok_upto(seed, w, h, n as nat),
        },
{
    let mut it = PixelIterator::build(mode, seed, w, h);
    let mut v: Vec<(u32, u32)> = Vec::new();
    let mut t: usize = 0;
    while t < n
        invariant
            it.wf(),
            it.mode() == mode,
            it.width() == w,
            it.height() == h,
            mode == TraversalMode::Random ==> it.seed() == seed,
            it.count() == t as nat,
            w >= 1,
            h >= 1,
            n <= (w as int) * (h as int),
            v@.len() == t,
            t <= n,
            forall|s: int| 0 <= s < t ==> #[trigger] v@[s] == coord_at(mode, seed, w, h, s as nat),
            forall|s: int| 0 <= s < t ==> (#[trigger] v@[s]).0 < w && v@[s].1 < h,
            forall|s1: int, s2: int| 0 <= s1 < s2 < t ==> v@[s1] != v@[s2],
            mode == TraversalMode::Random ==> rand_ok_upto(seed, w, h, t as nat),
        decreases n - t,
    {
        let ghost pre_count = it.count();
        let ghost pre_seed = it.seed();
        match it.next() {
            Some(c) => {
                proof {
                    if mode == TraversalMode::Sequential {
                        assert(c == coord_at(mode, seed, w, h, pre_count)) by {
                            assert(coord_at(mode, it.seed(), w, h, pre_count) == coord_at(
                                mode,
                                seed,
                                w,
                                h,
                                pre_count,
                            ));
                        }
                    }
                }
                v.push(c);
                t = t + 1;
                proof {
                    if mode == TraversalMode::Random {
                        assert(rand_ok_upto(seed, w, h, t as nat)) by {
                            assert(forall|tt: nat|
                                tt < t as nat ==> rand_step_ok(
                                    seed,
                                    (#[trigger] rand_state(seed, w, h, tt)).0,
                                    w,
                                    h,
                                    rand_state(seed, w, h, tt).1,
                                ));
                        }
                    }
                    assert forall|s1: int, s2: int| 0 <= s1 < s2 < t implies v@[s1] != v@[
                    s2] by {
                        if s2 == t - 1 {
                            assert(coord_at(mode, pre_seed, w, h, s1 as nat) == coord_at(
                                mode,
                                seed,
                                w,
                                h,
                                s1 as nat,
                            ));
                        }
                    }
                }
            },
            None => {
                proof {
                    if mode == TraversalMode::Sequential {
                        assert(false);
                    }
                }
                return None;
            },
        }
    }
    Some(v)
}

/// Overwrites the LSB of channel `ch` of the pixel at `(x, y)` with `b`.
fn write_bit(img: &mut Image, x: u32, y: u32, ch: usize, b: u8)
    requires
        old(img).wf(),
        x < old(img).width(),
        y < old(img).height(),
        ch < 3,
    ensures
        final(img).wf(),
        final(img).width() == old(img).width(),
        final(img).height() == old(img).height(),
        final(img).bytes() == old(img).bytes().update(
            chan_index(old(img).width(), x, y, ch as int),
            ((old(img).bytes()[chan_index(old(img).width(), x, y, ch as int)] & 0xfe) | (b
                & 1)) as u8,
        ),
    {
    let cur = img.get_channel(x, y, ch);
    img.set_channel(x, y, ch, cur & 0xfe | (b & 1));
}


/// Writes one triplet of bits into the three color channels of the pixel at
/// `(x, y)`: a `Some` slot overwrites that channel's LSB, a `None` slot (the
/// padded tail of the last triplet) leaves the channel untouched; the alpha
/// channel is never touched.
fn embed_pixel(img: &mut Image, x: u32, y: u32, trip: &Vec<Option<u8>>)
    requires
        old(img).wf(),
        x < old(img).width(),
        y < old(img).height(),
        trip@.len() == 3,
    ensures
        final(img).wf(),
        final(img).width() == old(img).width(),
        final(img).height() == old(img).height(),
        final(img).bytes().len() == old(img).bytes().len(),
        forall|c: int|
            0 <= c < 3 ==> final(img).bytes()[chan_index(old(img).width(), x, y, c)] == (match trip@[c] {
                Some(b) => ((old(img).bytes()[chan_index(old(img).width(), x, y, c)] & 0xfe) | (b
                    & 1)) as u8,
                None => old(img).bytes()[chan_index(old(img).width(), x, y, c)],
            }),
        forall|i: int|
            0 <= i < old(img).bytes().len() && i != chan_index(old(img).width(), x, y, 0) && i
                != chan_index(old(img).width(), x, y, 1) && i != chan_index(
                old(img).width(),
                x,
                y,
                2,
            ) ==> final(img).bytes()[i] == old(img).bytes()[i],
{
    proof {
        crate::image::lemma_image_size(*old(img));
        crate::image::lemma_chan_index_bound(old(img).width(), old(img).height(), x, y, 0);
        crate::image::lemma_chan_index_bound(old(img).width(), old(img).height(), x, y, 1);
        crate::image::lemma_chan_index_bound(old(img).width(), old(img).height(), x, y, 2);
    }
    if let Some(b) = trip[0] {
        write_bit(img, x, y, 0, b);
    }
    if let Some(b) = trip[1] {
        write_bit(img, x, y, 1, b);
    }
    if let Some(b) = trip[2] {
        write_bit(img, x, y, 2, b);
    }
}

pub open spec fn embed_fails(len: nat, w: u32, h: u32, mode: TraversalMode, seed: u64) -> bool {
    ||| !fits(len, w, h)
    ||| (mode == TraversalMode::Random && !rand_ok_upto(
        seed,
        w,
        h,
        pixels_for((8 * (len + 8)) as int) as nat,
    ))
}

/// What `embed` guarantees of the image and its result: on success the
/// embedded relation between the old and the new buffer, on failure an
/// untouched buffer and a `DataOverflow` error; and it fails exactly when
/// `embed_fails` says so.
pub open spec fn embed_post(
    oldb: Seq<u8>,
    newb: Seq<u8>,
    w: u32,
    h: u32,
    payload: Seq<u8>,
    mode: TraversalMode,
    seed: u64,
    r: Result<(), AppError>,
) -> bool {
    &&& (match r {
        Ok(_) => {
            &&& fits(payload.len(), w, h)
            &&& embedded_rel(oldb, newb, w, h, payload, mode, seed)
        },
        Err(e) => {
            &&& newb == oldb
            &&& e.kind() == AppErrorKind::DataOverflow
        },
    })
    &&& (r is Err) == embed_fails(payload.len(), w, h, mode, seed)
}

/// Embeds a payload into the LSBs of the image's color channels, visiting
/// pixels in the order the mode and key determine. The image is bit-for-bit
/// untouched on any failure, and a failure is exactly an oversized payload
/// or a random traversal that found no fresh pixel within the retry limit.
#[verifier::spinoff_prover]
pub fn embed(img: &mut Image, secret_data: &[u8], key: Option<&String>, mode: TraversalMode) -> (r:
    Result<(), AppError>)
    requires
        old(img).wf(),
    ensures
        final(img).wf(),
        final(img).width() == old(img).width(),
        final(img).height() == old(img).height(),
        embed_post(old(img).bytes(), final(img).bytes(), old(img).width(), old(img).height(),
            secret_data@, mode, seed_of_key(key_view(key)), r),
{
    let w = img.get_width();
    let h = img.get_height();
    proof {
        lemma_u32_mul_bound(w as int, h as int);
    }
    let wh: u64 = (w as u64) * (h as u64);
    let ghost seedg = seed_of_key(key_view(key));
    let ghost lenl = secret_data@.len();
    let ghost nbits: int = (8 * (lenl + 8)) as int;

    let len_ok = (secret_data.len() as u128) <= 0xFFFF_FFFFu128;
    let cap_ok = len_ok && 8 * ((secret_data.len() as u128) + 8) <= 3 * (wh as u128);
    if !cap_ok {
        return Err(AppError::new(AppErrorKind::DataOverflow, "Data is too long".to_owned()));
    }
    proof {
        assert(fits(lenl, w, h));
        assert(w >= 1 && h >= 1) by (nonlinear_arith)
            requires
                8 * (lenl + 8) <= 3 * ((w as int) * (h as int)),
                lenl >= 0,
        ;
    }
    let npix64: u64 = (8 * ((secret_data.len() as u64) + 8) + 2) / 3;
    let blen = img.byte_len();
    proof {
        assert(npix64 as int == pixels_for(nbits));
        vstd::arithmetic::div_mod::lemma_div_is_ordered(
            nbits + 2,
            3 * ((w as int) * (h as int)) + 2,
            3,
        );
        vstd::arithmetic::div_mod::lemma_fundamental_div_mod_converse(
            3 * ((w as int) * (h as int)) + 2,
            3,
            (w as int) * (h as int),
            2,
        );
        assert(pixels_for(nbits) <= (w as int) * (h as int));
        crate::image::lemma_image_size(*img);
        assert(blen == 4 * ((w as int) * (h as int)));
        vstd::arithmetic::div_mod::lemma_fundamental_div_mod(nbits + 2, 3);
        vstd::arithmetic::div_mod::lemma_mod_bound(nbits + 2, 3);
        assert(3 * pixels_for(nbits) >= nbits);
        assert(3 * pixels_for(nbits) <= nbits + 2);
    }
    let npix: usize = npix64 as usize;
    let seed = hash_key(key);
    let coords = match take_coords(mode, seed, w, h, npix) {
        Some(v) => v,
        None => {
            return Err(
                AppError::new(
                    AppErrorKind::DataOverflow,
                    "no unused pixel left for the payload".to_owned(),
                ),
            );
        },
    };
    proof {
        assert forall|s1: int, s2: int| 0 <= s1 < s2 < npix implies #[trigger] coord_at(
            mode,
            seedg,
            w,
            h,
            s1 as nat,
        ) != #[trigger] coord_at(mode, seedg, w, h, s2 as nat) by {
            assert(coords@[s1] == coord_at(mode, seedg, w, h, s1 as nat));
            assert(coords@[s2] == coord_at(mode, seedg, w, h, s2 as nat));
            assert(coords@[s1] != coords@[s2]);
        }
        assert forall|s: int| 0 <= s < npix implies (#[trigger] coord_at(mode, seedg, w, h, s as nat)).0
            < w && coord_at(mode, seedg, w, h, s as nat).1 < h by {
            assert(coords@[s] == coord_at(mode, seedg, w, h, s as nat));
        }
    }
    let data = package_data(secret_data);
    let secret_bits = BitIterator::new(data.as_slice());
    let mut bit_triplet = BatchIterator::new(secret_bits, 3);
    let ghost oldd = img.bytes();
    let ghost framed = packaged(secret_data@);
    let mut t: usize = 0;
    while t < npix
        invariant
            img.wf(),
            img.width() == w,
            img.height() == h,
            w >= 1,
            h >= 1,
            t <= npix,
            npix as int == pixels_for(nbits),
            nbits == 8 * (lenl + 8),
            lenl == secret_data@.len(),
            lenl <= u32::MAX,
            3 * (npix as int) >= nbits,
            3 * (npix as int) <= nbits + 2,
            seed == seedg,
            framed == packaged(secret_data@),
            framed.len() == lenl + 8,
            bit_triplet.wf(),
            bit_triplet.bytes() == framed,
            bit_triplet.batch_size() == 3,
            bit_triplet.pos() == (if 3 * (t as int) <= nbits {
                3 * (t as int)
            } else {
                nbits
            }),
            coords@.len() == npix,
            forall|s: int|
                0 <= s < npix ==> #[trigger] coords@[s] == coord_at(mode, seedg, w, h, s as nat),
            forall|s: int|
                0 <= s < npix ==> (#[trigger] coord_at(mode, seedg, w, h, s as nat)).0 < w
                    && coord_at(mode, seedg, w, h, s as nat).1 < h,
            forall|s1: int, s2: int|
                0 <= s1 < s2 < npix ==> #[trigger] coord_at(mode, seedg, w, h, s1 as nat)
                    != #[trigger] coord_at(mode, seedg, w, h, s2 as nat),
            img.bytes().len() == oldd.len(),
            oldd.len() == 4 * ((w as int) * (h as int)),
            oldd == old(img).bytes(),
            holds_bits(mode, seedg, w, h, framed, oldd, img.bytes(), 0, (if 3 * (t as int)
                <= nbits { 3 * (t as int) } else { nbits })),
            keeps_rest(mode, seedg, w, h, (if 3 * (t as int) <= nbits { 3 * (t as int) } else {
                nbits }), oldd, img.bytes()),
        decreases npix - t,
    {
        proof {
            assert(3 * (t as int) < nbits);
        }
        let trip_opt = bit_triplet.next();
        let trip = match trip_opt {
            Some(v) => v,
            None => {
                proof {
                    assert(false);
                }
                return Ok(());
            },
        };
        let c = coords[t];
        let ghost before = img.bytes();
        embed_pixel(img, c.0, c.1, &trip);
        proof {
            lemma_embed_step(
                mode,
                seedg,
                w,
                h,
                framed,
                nbits,
                npix as int,
                t as int,
                c,
                trip@,
                oldd,
                before,
                img.bytes(),
            );
        }
        t = t + 1;
    }
    proof {
        assert(embedded_rel(oldd, img.bytes(), w, h, secret_data@, mode, seedg));
    }
    Ok(())
}

/// One pixel's worth of writes keeps the embedding invariant: bits up to
/// `3 * (t + 1)` (capped at `nbits`) are in place and every other byte still
/// holds its old value.
#[verifier::spinoff_prover]
proof fn lemma_embed_step(
    mode: TraversalMode,
    seed: u64,
    w: u32,
    h: u32,
    framed: Seq<u8>,
    nbits: int,
    npix: int,
    t: int,
    c: (u32, u32),
    trip: Seq<Option<u8>>,
    oldd: Seq<u8>,
    before: Seq<u8>,
    after: Seq<u8>,
)
    requires
        nbits == 8 * framed.len(),
        0 <= t < npix,
        3 * t < nbits,
        3 * npix <= nbits + 2,
        c == coord_at(mode, seed, w, h, t as nat),
        c.0 < w,
        c.1 < h,
        forall|s: int|
            0 <= s < npix ==> (#[trigger] coord_at(mode, seed, w, h, s as nat)).0 < w && coord_at(
                mode,
                seed,
                w,
                h,
                s as nat,
            ).1 < h,
        forall|s1: int, s2: int|
            0 <= s1 < s2 < npix ==> #[trigger] coord_at(mode, seed, w, h, s1 as nat)
                != #[trigger] coord_at(mode, seed, w, h, s2 as nat),
        trip.len() == 3,
        forall|k: int|
            0 <= k < 3 ==> trip[k] == (if 3 * t + k < nbits {
                Some(bits_of(framed, 3 * t + k))
            } else {
                None
            }),
        oldd.len() == 4 * ((w as int) * (h as int)),
        oldd.len() == before.len(),
        before.len() == after.len(),
        holds_bits(mode, seed, w, h, framed, oldd, before, 0, 3 * t),
        keeps_rest(mode, seed, w, h, 3 * t, oldd, before),
        forall|k: int|
            0 <= k < 3 ==> after[chan_index(w, c.0, c.1, k)] == (match trip[k] {
                Some(b) => ((before[chan_index(w, c.0, c.1, k)] & 0xfe) | (b & 1)) as u8,
                None => before[chan_index(w, c.0, c.1, k)],
            }),
        forall|i: int|
            0 <= i < before.len() && i != chan_index(w, c.0, c.1, 0) && i != chan_index(
                w,
                c.0,
                c.1,
                1,
            ) && i != chan_index(w, c.0, c.1, 2) ==> after[i] == before[i],
    ensures
        holds_bits(mode, seed, w, h, framed, oldd, after, 0, (if 3 * (t + 1) <= nbits { 3 * (t
            + 1) } else { nbits })),
        keeps_rest(mode, seed, w, h, (if 3 * (t + 1) <= nbits { 3 * (t + 1) } else { nbits }),
            oldd, after),
{
    let b3t = 3 * t;
    let bound = if 3 * (t + 1) <= nbits { 3 * (t + 1) } else { nbits };
    assert forall|k: int| 0 <= k < 3 implies #[trigger] ((b3t + k) / 3) == t && (b3t + k) % 3
        == k by {
        vstd::arithmetic::div_mod::lemma_fundamental_div_mod_converse(b3t + k, 3, t, k);
    }
    assert forall|k: int| 0 <= k < 3 implies #[trigger] bit_chan(mode, seed, w, h, b3t + k)
        == chan_index(w, c.0, c.1, k) by {
        assert(coord_at(mode, seed, w, h, ((b3t + k) / 3) as nat) == c);
    }
    assert forall|p: int| 0 <= p < b3t implies !is_pixel_chan(mode, seed, w, h, t, c, p) by {
        vstd::arithmetic::div_mod::lemma_fundamental_div_mod(p, 3);
        vstd::arithmetic::div_mod::lemma_mod_bound(p, 3);
        vstd::arithmetic::div_mod::lemma_multiply_divide_lt(p, 3, t);
        assert(0 <= p / 3 < t);
        assert(coord_at(mode, seed, w, h, (p / 3) as nat) != coord_at(mode, seed, w, h, t as nat));
        assert forall|k: int| 0 <= k < 3 implies #[trigger] bit_chan(mode, seed, w, h, p)
            != chan_index(w, c.0, c.1, k) by {
            lemma_bit_chan_distinct(mode, seed, w, h, p, b3t + k);
        }
    }
    assert forall|p: int| b3t <= p < b3t + 3 && p < nbits implies after[#[trigger] bit_chan(
        mode,
        seed,
        w,
        h,
        p,
    )] == lsb_set(oldd[bit_chan(mode, seed, w, h, p)], bits_of(framed, p)) by {
        let k = p - b3t;
        assert(trip[k] == Some(bits_of(framed, p)));
        crate::image::lemma_chan_index_bound(w, h, c.0, c.1, k);
        assert(0 <= bit_chan(mode, seed, w, h, p) < oldd.len());
        crate::data::lemma_bit_is_binary(framed[p / 8], (7 - (p % 8)) as u8);
        assert(bits_of(framed, p) & 1 == bits_of(framed, p));
        assert(!bit_written(mode, seed, w, h, b3t, bit_chan(mode, seed, w, h, p))) by {
            if bit_written(mode, seed, w, h, b3t, bit_chan(mode, seed, w, h, p)) {
                let q = choose|q: int|
                    0 <= q < b3t && #[trigger] bit_chan(mode, seed, w, h, q) == bit_chan(
                        mode,
                        seed,
                        w,
                        h,
                        p,
                    );
                assert(!is_pixel_chan(mode, seed, w, h, t, c, q));
                assert(bit_chan(mode, seed, w, h, q) != chan_index(w, c.0, c.1, k));
            }
        }
        assert(before[bit_chan(mode, seed, w, h, p)] == oldd[bit_chan(mode, seed, w, h, p)]);
        assert(bit_chan(mode, seed, w, h, p) == chan_index(w, c.0, c.1, k));
    }
    assert forall|p: int| 0 <= p < bound implies after[#[trigger] bit_chan(mode, seed, w, h, p)]
        == lsb_set(oldd[bit_chan(mode, seed, w, h, p)], bits_of(framed, p)) by {
        if p < b3t {
            assert(before[bit_chan(mode, seed, w, h, p)] == lsb_set(
                oldd[bit_chan(mode, seed, w, h, p)],
                bits_of(framed, p),
            ));
            assert(!is_pixel_chan(mode, seed, w, h, t, c, p));
            vstd::arithmetic::div_mod::lemma_fundamental_div_mod(p, 3);
            vstd::arithmetic::div_mod::lemma_mod_bound(p, 3);
            vstd::arithmetic::div_mod::lemma_multiply_divide_lt(p, 3, t);
            assert(0 <= p / 3 < npix);
            crate::image::lemma_chan_index_bound(
                w,
                h,
                coord_at(mode, seed, w, h, (p / 3) as nat).0,
                coord_at(mode, seed, w, h, (p / 3) as nat).1,
                p % 3,
            );
            assert(0 <= bit_chan(mode, seed, w, h, p) < oldd.len());
            assert(after[bit_chan(mode, seed, w, h, p)] == before[bit_chan(mode, seed, w, h, p)]);
        }
    }
    assert forall|i: int|
        0 <= i < oldd.len() && !bit_written(mode, seed, w, h, bound, i) implies after[i] == oldd[
    i] by {
        assert(!bit_written(mode, seed, w, h, b3t, i)) by {
            if bit_written(mode, seed, w, h, b3t, i) {
                let q = choose|q: int|
                    0 <= q < b3t && #[trigger] bit_chan(mode, seed, w, h, q) == i;
                assert(0 <= q < bound);
            }
        }
        assert(before[i] == oldd[i]);
        if i == chan_index(w, c.0, c.1, 0) || i == chan_index(w, c.0, c.1, 1) || i == chan_index(
            w,
            c.0,
            c.1,
            2,
        ) {
            let k = choose|k: int| 0 <= k < 3 && i == chan_index(w, c.0, c.1, k);
            assert(bit_chan(mode, seed, w, h, b3t + k) == i);
            assert(3 * t + k >= nbits) by {
                if 3 * t + k < nbits {
                    assert(0 <= b3t + k < bound);
                    assert(bit_written(mode, seed, w, h, bound, i));
                }
            }
            assert(trip[k] is None);
            assert(after[i] == before[i]);
        } else {
            assert(after[i] == before[i]);
        }
    }
}

/// Stream bit `p` lands on one of the three channels of pixel `t` at `c`.
spec fn is_pixel_chan(
    mode: TraversalMode,
    seed: u64,
    w: u32,
    h: u32,
    t: int,
    c: (u32, u32),
    p: int,
) -> bool {
    ||| bit_chan(mode, seed, w, h, p) == chan_index(w, c.0, c.1, 0)
    ||| bit_chan(mode, seed, w, h, p) == chan_index(w, c.0, c.1, 1)
    ||| bit_chan(mode, seed, w, h, p) == chan_index(w, c.0, c.1, 2)
}


/// The result extraction must produce from an image under a traversal: reject
/// grids that cannot hold even an empty frame, reject an unworkable random
/// traversal, gate large lengths behind `allow_large`, reject lengths that
/// overrun the image, and otherwise hand the payload back exactly when its
/// CRC-32 matches the stored one.
pub open spec fn extract_spec(
    d: Seq<u8>,
    w: u32,
    h: u32,
    mode: TraversalMode,
    seed: u64,
    allow_large: bool,
) -> Result<Seq<u8>, AppErrorKind> {
    if 3 * ((w as int) * (h as int)) < 64 {
        Err(AppErrorKind::DataOverflow)
    } else if mode == TraversalMode::Random && !rand_ok_upto(seed, w, h, 11) {
        Err(AppErrorKind::DataOverflow)
    } else {
        let len = stream_word(d, mode, seed, w, h, 0);
        if len >= LARGE_MESSAGE_LEN && !allow_large {
            Err(AppErrorKind::UserStopped)
        } else if 8 * ((len as int) + 8) > 3 * ((w as int) * (h as int)) {
            Err(AppErrorKind::DataOverflow)
        } else if mode == TraversalMode::Random && !rand_ok_upto(
            seed,
            w,
            h,
            pixels_for(8 * ((len as int) + 8)) as nat,
        ) {
            Err(AppErrorKind::DataOverflow)
        } else {
            let payload = Seq::new(
                len as nat,
                |i: int| stream_byte(d, mode, seed, w, h, 32 + 8 * i),
            );
            let stored = stream_word(d, mode, seed, w, h, 32 + 8 * (len as int));
            if stored == crc32_of(payload) {
                Ok(payload)
            } else {
                Err(AppErrorKind::CRCMismatch)
            }
        }
    }
}

/// `extract`'s result agrees with `extract_spec`, value and error kind alike.
pub open spec fn extract_post(
    d: Seq<u8>,
    w: u32,
    h: u32,
    mode: TraversalMode,
    seed: u64,
    allow_large: bool,
    r: Result<Vec<u8>, AppError>,
) -> bool {
    match (r, extract_spec(d, w, h, mode, seed, allow_large)) {
        (Ok(v), Ok(p)) => v@ == p,
        (Err(e), Err(k)) => e.kind() == k,
        _ => false,
    }
}

/// The channel LSBs along the given coordinates, three bits per pixel in
/// R, G, B order.
fn collect_stream(
    img: &Image,
    coords: &Vec<(u32, u32)>,
    Ghost(mode): Ghost<TraversalMode>,
    Ghost(seed): Ghost<u64>,
) -> (r: Vec<u8>)
    requires
        img.wf(),
        forall|t: int|
            0 <= t < coords@.len() ==> #[trigger] coords@[t] == coord_at(
                mode,
                seed,
                img.width(),
                img.height(),
                t as nat,
            ),
        forall|t: int|
            0 <= t < coords@.len() ==> (#[trigger] coords@[t]).0 < img.width() && coords@[t].1
                < img.height(),
        coords@.len() <= (img.width() as int) * (img.height() as int),
    ensures
        r@.len() == 3 * coords@.len(),
        forall|q: int|
            0 <= q < r@.len() ==> #[trigger] r@[q] == stream_bit(
                img.bytes(),
                mode,
                seed,
                img.width(),
                img.height(),
                q,
            ),
{
    let ghost w = img.width();
    let ghost h = img.height();
    let blen = img.byte_len();
    proof {
        crate::image::lemma_image_size(*img);
        assert(blen == 4 * ((w as int) * (h as int)));
    }
    let mut bits: Vec<u8> = Vec::new();
    let mut t: usize = 0;
    while t < coords.len()
        invariant
            img.wf(),
            w == img.width(),
            h == img.height(),
            t <= coords@.len(),
            coords@.len() * 3 <= usize::MAX,
            forall|s: int|
                0 <= s < coords@.len() ==> #[trigger] coords@[s] == coord_at(
                    mode,
                    seed,
                    w,
                    h,
                    s as nat,
                ),
            forall|s: int|
                0 <= s < coords@.len() ==> (#[trigger] coords@[s]).0 < w && coords@[s].1 < h,
            bits@.len() == 3 * t,
            forall|q: int|
                0 <= q < bits@.len() ==> #[trigger] bits@[q] == stream_bit(
                    img.bytes(),
                    mode,
                    seed,
                    w,
                    h,
                    q,
                ),
        decreases coords@.len() - t,
    {
        let c = coords[t];
        let b0 = img.get_channel(c.0, c.1, 0) & 1;
        let b1 = img.get_channel(c.0, c.1, 1) & 1;
        let b2 = img.get_channel(c.0, c.1, 2) & 1;
        bits.push(b0);
        bits.push(b1);
        bits.push(b2);
        proof {
            lemma_stream_triple(img.bytes(), mode, seed, w, h, t as int, c);
        }
        t = t + 1;
    }
    bits
}

/// Stream bits `3t .. 3t + 3` read the three color channels of the pixel
/// visited at step `t`.
proof fn lemma_stream_triple(
    d: Seq<u8>,
    mode: TraversalMode,
    seed: u64,
    w: u32,
    h: u32,
    t: int,
    c: (u32, u32),
)
    requires
        0 <= t,
        c == coord_at(mode, seed, w, h, t as nat),
    ensures
        forall|k: int|
            0 <= k < 3 ==> #[trigger] stream_bit(d, mode, seed, w, h, 3 * t + k) == (d[chan_index(
                w,
                c.0,
                c.1,
                k,
            )] & 1),
{
    assert forall|k: int| 0 <= k < 3 implies #[trigger] stream_bit(d, mode, seed, w, h, 3 * t + k)
        == (d[chan_index(w, c.0, c.1, k)] & 1) by {
        vstd::arithmetic::div_mod::lemma_fundamental_div_mod_converse(3 * t + k, 3, t, k);
        assert(coord_at(mode, seed, w, h, ((3 * t + k) / 3) as nat) == c);
    }
}

/// The byte formed by eight bits of the stream buffer, MSB-first.
fn byte_from_bits(bits: &Vec<u8>, off: usize) -> (r: u8)
    requires
        off + 8 <= bits@.len(),
    ensures
        r == assemble8(
            bits@[off as int],
            bits@[off + 1],
            bits@[off + 2],
            bits@[off + 3],
            bits@[off + 4],
            bits@[off + 5],
            bits@[off + 6],
            bits@[off + 7],
        ),
{
    proof {
        assert(bits.len() == bits@.len());
    }
    ((bits[off] & 1) << 7) | ((bits[off + 1] & 1) << 6) | ((bits[off + 2] & 1) << 5) | ((bits[off
        + 3] & 1) << 4) | ((bits[off + 4] & 1) << 3) | ((bits[off + 5] & 1) << 2) | ((bits[off + 6]
        & 1) << 1) | (bits[off + 7] & 1)
}

/// The big-endian 32-bit word formed by 32 bits of the stream buffer.
fn word_from_bits(bits: &Vec<u8>, off: usize) -> (r: u32)
    requires
        off + 32 <= bits@.len(),
    ensures
        r == word_of_bytes(
            assemble8(
                bits@[off as int],
                bits@[off + 1],
                bits@[off + 2],
                bits@[off + 3],
                bits@[off + 4],
                bits@[off + 5],
                bits@[off + 6],
                bits@[off + 7],
            ),
            assemble8(
                bits@[off + 8],
                bits@[off + 9],
                bits@[off + 10],
                bits@[off + 11],
                bits@[off + 12],
                bits@[off + 13],
                bits@[off + 14],
                bits@[off + 15],
            ),
            assemble8(
                bits@[off + 16],
                bits@[off + 17],
                bits@[off + 18],
                bits@[off + 19],
                bits@[off + 20],
                bits@[off + 21],
                bits@[off + 22],
                bits@[off + 23],
            ),
            assemble8(
                bits@[off + 24],
                bits@[off + 25],
                bits@[off + 26],
                bits@[off + 27],
                bits@[off + 28],
                bits@[off + 29],
                bits@[off + 30],
                bits@[off + 31],
            ),
        ),
{
    proof {
        assert(bits.len() == bits@.len());
    }
    let b0 = byte_from_bits(bits, off);
    let b1 = byte_from_bits(bits, off + 8);
    let b2 = byte_from_bits(bits, off + 16);
    let b3 = byte_from_bits(bits, off + 24);
    ((b0 as u32) << 24) | ((b1 as u32) << 16) | ((b2 as u32) << 8) | (b3 as u32)
}

/// Recovers the payload embedded in the image's channel LSBs, if its CRC-32
/// checks out. Lengths at or above `LARGE_MESSAGE_LEN` go through only with
/// `allow_large`; a caller without that consent gets a `UserStopped` error
/// and can ask the operator before trying again.
#[verifier::rlimit(100)]
#[verifier::spinoff_prover]
pub fn extract(img: &Image, key: Option<&String>, mode: TraversalMode, allow_large: bool) -> (r:
    Result<Vec<u8>, AppError>)
    requires
        img.wf(),
    ensures
        extract_post(
            img.bytes(),
            img.width(),
            img.height(),
            mode,
            seed_of_key(key_view(key)),
            allow_large,
            r,
        ),
{
    let w = img.get_width();
    let h = img.get_height();
    let ghost seedg = seed_of_key(key_view(key));
    let ghost d = img.bytes();
    proof {
        lemma_u32_mul_bound(w as int, h as int);
        crate::image::lemma_image_size(*img);
    }
    let wh: u64 = (w as u64) * (h as u64);
    if 3 * (wh as u128) < 64 {
        return Err(
            AppError::new(
                AppErrorKind::DataOverflow,
                "the image is too small to hold a message".to_owned(),
            ),
        );
    }
    proof {
        assert(w >= 1 && h >= 1) by (nonlinear_arith)
            requires
                3 * ((w as int) * (h as int)) >= 64,
        ;
        assert(11 <= (w as int) * (h as int));
    }
    let seed = hash_key(key);
    let coords1 = match take_coords(mode, seed, w, h, 11) {
        Some(v) => v,
        None => {
            return Err(
                AppError::new(
                    AppErrorKind::DataOverflow,
                    "no unused pixel left while reading the length".to_owned(),
                ),
            );
        },
    };
    let bits1 = collect_stream(img, &coords1, Ghost(mode), Ghost(seedg));
    let message_len = word_from_bits(&bits1, 0);
    proof {
        assert(message_len == stream_word(d, mode, seedg, w, h, 0));
    }
    if message_len >= LARGE_MESSAGE_LEN && !allow_large {
        return Err(AppError::new(AppErrorKind::UserStopped, "Operation stopped by user".to_owned()));
    }
    if 8 * ((message_len as u128) + 8) > 3 * (wh as u128) {
        return Err(
            AppError::new(
                AppErrorKind::DataOverflow,
                "the detected message does not fit the image".to_owned(),
            ),
        );
    }
    let ghost nbits: int = 8 * ((message_len as int) + 8);
    let npix64: u64 = (8 * ((message_len as u64) + 8) + 2) / 3;
    let blen = img.byte_len();
    proof {
        assert(npix64 as int == pixels_for(nbits));
        vstd::arithmetic::div_mod::lemma_div_is_ordered(
            nbits + 2,
            3 * ((w as int) * (h as int)) + 2,
            3,
        );
        vstd::arithmetic::div_mod::lemma_fundamental_div_mod_converse(
            3 * ((w as int) * (h as int)) + 2,
            3,
            (w as int) * (h as int),
            2,
        );
        assert(pixels_for(nbits) <= (w as int) * (h as int));
        assert(blen == 4 * ((w as int) * (h as int)));
        vstd::arithmetic::div_mod::lemma_fundamental_div_mod(nbits + 2, 3);
        vstd::arithmetic::div_mod::lemma_mod_bound(nbits + 2, 3);
        assert(3 * pixels_for(nbits) >= nbits);
        assert(3 * pixels_for(nbits) <= nbits + 2);
    }
    let npix: usize = npix64 as usize;
    let coords = match take_coords(mode, seed, w, h, npix) {
        Some(v) => v,
        None => {
            return Err(
                AppError::new(
                    AppErrorKind::DataOverflow,
                    "no unused pixel left while reading the message".to_owned(),
                ),
            );
        },
    };
    let bits = collect_stream(img, &coords, Ghost(mode), Ghost(seedg));
    parse_message(&bits, message_len, Ghost(d), Ghost(mode), Ghost(seedg), Ghost(w), Ghost(h))
}

/// Rebuilds the payload from the collected stream bits and checks its CRC-32
/// against the stored trailer; the payload is handed back only on a match.
fn parse_message(
    bits: &Vec<u8>,
    message_len: u32,
    Ghost(d): Ghost<Seq<u8>>,
    Ghost(mode): Ghost<TraversalMode>,
    Ghost(seed): Ghost<u64>,
    Ghost(w): Ghost<u32>,
    Ghost(h): Ghost<u32>,
)
 -> (r: Result<Vec<u8>, AppError>)
    requires
        bits@.len() >= 64 + 8 * (message_len as int),
        forall|q: int|
            0 <= q < bits@.len() ==> #[trigger] bits@[q] == stream_bit(d, mode, seed, w, h, q),
    ensures
        ({
            let payload = Seq::new(
                message_len as nat,
                |j: int| stream_byte(d, mode, seed, w, h, 32 + 8 * j),
            );
            let stored = stream_word(d, mode, seed, w, h, 32 + 8 * (message_len as int));
            match r {
                Ok(v) => v@ == payload && stored == crc32_of(payload),
                Err(e) => e.kind() == AppErrorKind::CRCMismatch && stored != crc32_of(payload),
            }
        }),
{
    let mlen: usize = message_len as usize;
    let mut secret: Vec<u8> = Vec::new();
    let mut i: usize = 0;
    proof {
        assert(bits.len() == bits@.len());
    }
    while i < mlen
        invariant
            i <= mlen,
            mlen == message_len,
            bits@.len() >= 64 + 8 * (message_len as int),
            bits@.len() <= usize::MAX,
            forall|q: int|
                0 <= q < bits@.len() ==> #[trigger] bits@[q] == stream_bit(d, mode, seed, w, h, q),
            secret@.len() == i,
            forall|j: int|
                0 <= j < i ==> #[trigger] secret@[j] == stream_byte(d, mode, seed, w, h, 32 + 8
                    * j),
        decreases mlen - i,
    {
        let b = byte_from_bits(&bits, 32 + 8 * i);
        secret.push(b);
        proof {
            assert(secret@[i as int] == stream_byte(d, mode, seed, w, h, 32 + 8 * (i as int)));
        }
        i = i + 1;
    }
    let crc_read = word_from_bits(&bits, 32 + 8 * mlen);
    let crc_calc = crc32(secret.as_slice());
    let ghost payload = Seq::new(
        message_len as nat,
        |j: int| stream_byte(d, mode, seed, w, h, 32 + 8 * j),
    );
    proof {
        assert(secret@ =~= payload);
        assert(crc_read == stream_word(d, mode, seed, w, h, 32 + 8 * (message_len as int)));
    }
    if crc_read == crc_calc {
        Ok(secret)
    } else {
        Err(AppError::new(AppErrorKind::CRCMismatch, "CRC32 mismatch: invalid data".to_owned()))
    }
}


/// Round trip: an image that `embed` produced yields, under the same mode and
/// seed and with large lengths allowed, exactly the embedded payload.
#[verifier::rlimit(100)]
#[verifier::spinoff_prover]
pub proof fn lemma_embed_extract_roundtrip(
    oldd: Seq<u8>,
    newd: Seq<u8>,
    w: u32,
    h: u32,
    payload: Seq<u8>,
    mode: TraversalMode,
    seed: u64,
)
    requires
        fits(payload.len(), w, h),
        mode == TraversalMode::Random ==> rand_ok_upto(
            seed,
            w,
            h,
            pixels_for((8 * (payload.len() + 8)) as int) as nat,
        ),
        embedded_rel(oldd, newd, w, h, payload, mode, seed),
    ensures
        extract_spec(newd, w, h, mode, seed, true) == Result::<Seq<u8>, AppErrorKind>::Ok(payload),
{
    let framed = packaged(payload);
    let len = payload.len() as int;
    let len32 = payload.len() as u32;
    let crc = crc32_of(payload);
    let nbits = 8 * (len + 8);
    assert(framed.len() == len + 8);
    assert(nbits == 8 * framed.len());

    // every embedded bit reads back from its channel's LSB
    assert forall|p: int| 0 <= p < nbits implies #[trigger] stream_bit(newd, mode, seed, w, h, p)
        == bits_of(framed, p) by {
        crate::data::lemma_bit_is_binary(framed[p / 8], (7 - (p % 8)) as u8);
        crate::data::lemma_lsb_set_reads(
            oldd[bit_chan(mode, seed, w, h, p)],
            bits_of(framed, p),
        );
    }

    // every framed byte reads back from its eight stream bits
    assert forall|k: int| 0 <= k && 8 * k + 8 <= nbits implies #[trigger] stream_byte(
        newd,
        mode,
        seed,
        w,
        h,
        8 * k,
    ) == framed[k] by {
        assert forall|j: int| 0 <= j < 8 implies stream_bit(newd, mode, seed, w, h, 8 * k + j)
            == crate::data::bit_of(framed[k], j) by {
            vstd::arithmetic::div_mod::lemma_fundamental_div_mod_converse(8 * k + j, 8, k, j);
            assert(bits_of(framed, 8 * k + j) == crate::data::bit_of(framed[k], j));
        }
        crate::data::lemma_byte_reassemble(framed[k]);
    }

    // the length field
    assert(framed[0] == (len32 >> 24) as u8 && framed[1] == (len32 >> 16) as u8 && framed[2] == (
    len32 >> 8) as u8 && framed[3] == len32 as u8);
    assert(stream_byte(newd, mode, seed, w, h, 8 * (0 as int)) == framed[0 as int]);
    assert(stream_byte(newd, mode, seed, w, h, 8 * (1 as int)) == framed[1 as int]);
    assert(stream_byte(newd, mode, seed, w, h, 8 * (2 as int)) == framed[2 as int]);
    assert(stream_byte(newd, mode, seed, w, h, 8 * (3 as int)) == framed[3 as int]);
    crate::data::lemma_word_roundtrip(len32);
    assert(stream_word(newd, mode, seed, w, h, 0) == len32);

    // the gates of extraction all pass
    assert(3 * ((w as int) * (h as int)) >= 64);
    assert(pixels_for(nbits) >= 22) by {
        vstd::arithmetic::div_mod::lemma_div_is_ordered(66, nbits + 2, 3);
    }
    if mode == TraversalMode::Random {
        assert(rand_ok_upto(seed, w, h, 11)) by {
            assert(forall|t: nat|
                t < 11 ==> t < pixels_for(nbits) as nat && rand_step_ok(
                    seed,
                    (#[trigger] rand_state(seed, w, h, t)).0,
                    w,
                    h,
                    rand_state(seed, w, h, t).1,
                ));
        }
    }

    // the recovered payload is the embedded one
    let recovered = Seq::new(len32 as nat, |i: int| stream_byte(newd, mode, seed, w, h, 32 + 8 * i));
    assert forall|i: int| 0 <= i < len implies recovered[i] == payload[i] by {
        assert(32 + 8 * i == 8 * (4 + i));
        assert(framed[4 + i] == payload[i]);
        assert(stream_byte(newd, mode, seed, w, h, 8 * (4 + i)) == framed[4 + i]);
    }
    assert(recovered =~= payload);

    // the stored checksum is the payload's
    assert(framed[len + 4] == (crc >> 24) as u8 && framed[len + 5] == (crc >> 16) as u8 && framed[
    len + 6] == (crc >> 8) as u8 && framed[len + 7] == crc as u8);
    assert(32 + 8 * len == 8 * (len + 4));
    assert(stream_byte(newd, mode, seed, w, h, 8 * (len + 4)) == framed[len + 4]);
    assert(stream_byte(newd, mode, seed, w, h, 8 * (len + 5)) == framed[len + 5]);
    assert(stream_byte(newd, mode, seed, w, h, 8 * (len + 6)) == framed[len + 6]);
    assert(stream_byte(newd, mode, seed, w, h, 8 * (len + 7)) == framed[len + 7]);
    assert(8 * (len + 4) + 8 == 8 * (len + 5) && 8 * (len + 4) + 16 == 8 * (len + 6) && 8 * (len
        + 4) + 24 == 8 * (len + 7));
    crate::data::lemma_word_roundtrip(crc);
    assert(stream_word(newd, mode, seed, w, h, 32 + 8 * len) == crc);
    assert(crc32_of(recovered) == crc);
}

} // verus!
