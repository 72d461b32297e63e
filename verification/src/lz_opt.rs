//! The exhaustive LZSS encoder: for each group it tries all four window layouts, finds the
//! longest (then nearest) match at every position by scanning the whole window, and keeps
//! the layout that packs the most input bytes per output byte.
use vstd::prelude::*;
use crate::bytes::{be32_bytes, be16_bytes, spliced, write_be_u16, write_be_u32};
use crate::lz::{LzItem, LzError, CompressFit, LzssDecoded, items_size, items_bytes, items_flag, item_bytes, item_code, item_valid, items_valid, group_valid, group_bytes, lz_window, lz_max_len, compress_result_matches, decode_from, spec_lzss_decode, lemma_decode_group, lemma_items_prefix, lemma_items_size_lower, lemma_items_flag_bits, lemma_bv_group_flag, lemma_group_bytes_bound, lemma_output_bound_step};

verus! {

/// How many bytes from `r` on agree between `x[pos..]` and `x[j..]`, counting no further
/// than `l`.
pub open spec fn match_run(x: Seq<u8>, pos: int, j: int, r: int, l: int) -> int
    decreases l - r,
{
    if r >= l {
        l
    } else if x[pos + r] != x[j + r] {
        r
    } else {
        match_run(x, pos, j, r + 1, l)
    }
}

/// The longest match for `pos` among the candidates `j - 1` down to `lo`, nearest first,
/// starting from the best `(ml, mj)` (length and distance) found so far; a later candidate
/// wins only with a strictly longer match.
pub open spec fn best_from(x: Seq<u8>, pos: int, j: int, lo: int, l: int, ml: int, mj: int) -> (
    int,
    int,
)
    decreases j - lo,
{
    if j <= lo {
        (ml, mj)
    } else {
        let rr = match_run(x, pos, j - 1, 0, l);
        if rr > ml {
            best_from(x, pos, j - 1, lo, l, rr, pos - (j - 1))
        } else {
            best_from(x, pos, j - 1, lo, l, ml, mj)
        }
    }
}

/// The lowest candidate position for `pos` in layout `t`.
pub open spec fn opt_low(pos: int, t: u32) -> int {
    if pos < lz_window(t) {
        0
    } else {
        pos - lz_window(t)
    }
}

/// The longest match length allowed at `pos` in layout `t`.
pub open spec fn opt_limit(x: Seq<u8>, pos: int, t: u32) -> int {
    if x.len() - pos < lz_max_len(t) {
        x.len() - pos
    } else {
        lz_max_len(t)
    }
}

/// The item the exhaustive encoder emits at `pos` in layout `t`: the best match when it is
/// at least three bytes long, else the literal byte.
pub open spec fn opt_item(x: Seq<u8>, pos: int, t: u32) -> LzItem {
    let (ml, mj) = best_from(x, pos, pos, opt_low(pos, t), opt_limit(x, pos, t), 0, 0);
    if ml < 3 {
        LzItem::Literal(x[pos])
    } else {
        LzItem::Match(ml as u32, mj as u32)
    }
}

/// The first `i` items of the group that layout `t` gives at `p0`; fewer when they reach
/// the end of `x`.
pub open spec fn opt_trial(x: Seq<u8>, p0: int, t: u32, i: int) -> Seq<LzItem>
    decreases i,
{
    if i <= 0 {
        Seq::empty()
    } else {
        let prev = opt_trial(x, p0, t, i - 1);
        let p = p0 + items_size(prev);
        if p >= x.len() {
            prev
        } else {
            prev.push(opt_item(x, p, t))
        }
    }
}

/// A group of `u` input bytes in `c` output bytes packs better than one of `ou` in `oc`: it
/// has the higher ratio of input bytes to output bytes, counting the four flag bytes.
pub open spec fn opt_better(u: int, c: int, ou: int, oc: int) -> bool {
    u * (4 + oc) > ou * (4 + c)
}

/// The layout chosen at `p0`, trying layouts `t` to `3` against the best so far: `ou`
/// bytes packed in `oc` by layout `ot`.
pub open spec fn opt_choose(x: Seq<u8>, p0: int, t: u32, ou: int, oc: int, ot: u32) -> u32
    decreases 4 - t,
{
    if t >= 4 {
        ot
    } else {
        let items = opt_trial(x, p0, t, 30);
        let u = items_size(items);
        let c = items_bytes(items, t).len() as int;
        if opt_better(u, c, ou, oc) {
            opt_choose(x, p0, (t + 1) as u32, u, c, t)
        } else {
            opt_choose(x, p0, (t + 1) as u32, ou, oc, ot)
        }
    }
}

/// The layout of the group at `p0`.
pub open spec fn opt_layout(x: Seq<u8>, p0: int) -> u32 {
    opt_choose(x, p0, 0, 0, 0, 0)
}

/// The items of the group at `p0`.
pub open spec fn opt_group(x: Seq<u8>, p0: int) -> Seq<LzItem> {
    opt_trial(x, p0, opt_layout(x, p0), 30)
}

/// The exhaustive encoding of `x` from input position `p` on.
pub open spec fn opt_compress_from(x: Seq<u8>, p: int) -> Seq<u8>
    decreases x.len() - p,
{
    if p < 0 || p >= x.len() {
        Seq::empty()
    } else {
        let items = opt_group(x, p);
        let t = opt_layout(x, p);
        proof {
            lemma_opt_layout(x, p);
            lemma_opt_trial(x, p, t, 30);
        }
        group_bytes(items, t) + opt_compress_from(x, p + items_size(items))
    }
}

/// The exhaustive encoding of `x`.
pub open spec fn spec_lzss_compress_optimized(x: Seq<u8>) -> Seq<u8> {
    opt_compress_from(x, 0)
}

/// How the exhaustive encoding of `x` from input position `p` on fits a buffer of `b`
/// bytes of which `w` are already written.
pub open spec fn opt_fit_from(x: Seq<u8>, p: int, w: int, b: int) -> CompressFit
    decreases x.len() - p,
{
    if p < 0 || p >= x.len() {
        CompressFit::Fits
    } else if w + 4 > b {
        CompressFit::FlagOutOfBounds
    } else {
        let items = opt_group(x, p);
        let t = opt_layout(x, p);
        proof {
            lemma_opt_layout(x, p);
            lemma_opt_trial(x, p, t, 30);
        }
        if w + group_bytes(items, t).len() > b {
            CompressFit::Overflow
        } else {
            opt_fit_from(x, p + items_size(items), w + group_bytes(items, t).len(), b)
        }
    }
}

/// How the exhaustive encoding of `x` fits a buffer of `b` bytes.
pub open spec fn spec_lzss_optimized_fit(x: Seq<u8>, b: int) -> CompressFit {
    opt_fit_from(x, 0, 0, b)
}

/// What comparing `r` bytes leaves to compare: the run only grows, stays within `l`, and
/// covers bytes that agree.
pub proof fn lemma_match_run(x: Seq<u8>, pos: int, j: int, r: int, l: int)
    requires
        0 <= j,
        0 <= r <= l,
        pos + l <= x.len(),
        j < pos,
        forall|k: int| 0 <= k < r ==> #[trigger] x[j + k] == x[pos + k],
    ensures
        r <= match_run(x, pos, j, r, l) <= l,
        forall|k: int| 0 <= k < match_run(x, pos, j, r, l) ==> #[trigger] x[j + k] == x[pos + k],
    decreases l - r,
{
    if r < l && x[pos + r] == x[j + r] {
        lemma_match_run(x, pos, j, r + 1, l);
    }
}

/// A found match agrees with the input and lies in the window.
pub open spec fn match_ok(x: Seq<u8>, pos: int, lo: int, l: int, ml: int, mj: int) -> bool {
    ml == 0 || (1 <= ml <= l && lo <= pos - mj < pos && forall|k: int|
        0 <= k < ml ==> #[trigger] x[pos - mj + k] == x[pos + k])
}

/// The search keeps a match that agrees with the input and lies in the window.
pub proof fn lemma_best_from(x: Seq<u8>, pos: int, j: int, lo: int, l: int, ml: int, mj: int)
    requires
        0 <= lo <= j <= pos,
        0 <= l,
        pos + l <= x.len(),
        match_ok(x, pos, lo, l, ml, mj),
    ensures
        match_ok(
            x,
            pos,
            lo,
            l,
            best_from(x, pos, j, lo, l, ml, mj).0,
            best_from(x, pos, j, lo, l, ml, mj).1,
        ),
        best_from(x, pos, j, lo, l, ml, mj).0 >= ml,
    decreases j - lo,
{
    if j > lo {
        let rr = match_run(x, pos, j - 1, 0, l);
        lemma_match_run(x, pos, j - 1, 0, l);
        if rr > ml {
            assert forall|k: int| 0 <= k < rr implies #[trigger] x[pos - (pos - (j - 1)) + k]
                == x[pos + k] by {
                assert(x[(j - 1) + k] == x[pos + k]);
            }
            lemma_best_from(x, pos, j - 1, lo, l, rr, pos - (j - 1));
        } else {
            lemma_best_from(x, pos, j - 1, lo, l, ml, mj);
        }
    }
}

/// The item at a position inside `x` is right there.
pub proof fn lemma_opt_item(x: Seq<u8>, pos: int, t: u32)
    requires
        0 <= pos < x.len(),
        t < 4,
    ensures
        item_valid(x, pos, opt_item(x, pos, t), t),
{
    let lo = opt_low(pos, t);
    let l = opt_limit(x, pos, t);
    lemma_best_from(x, pos, pos, lo, l, 0, 0);
    let (ml, mj) = best_from(x, pos, pos, lo, l, 0, 0);
    if ml >= 3 {
        assert(ml <= 34);
        assert(mj <= lz_window(t));
        assert((ml as u32) as int == ml);
        assert((mj as u32) as int == mj);
        assert forall|r: int| 0 <= r < ml implies #[trigger] x[pos - mj + r] == x[pos + r] by {}
    }
}

/// The group a layout gives at `p0` is right, stands for at least one byte, and has thirty
/// items unless it reaches the end of `x`.
pub proof fn lemma_opt_trial(x: Seq<u8>, p0: int, t: u32, i: int)
    requires
        0 <= p0 < x.len(),
        t < 4,
        0 <= i <= 30,
    ensures
        items_valid(x, p0, opt_trial(x, p0, t, i), t),
        opt_trial(x, p0, t, i).len() <= i,
        opt_trial(x, p0, t, i).len() == i || p0 + items_size(opt_trial(x, p0, t, i)) == x.len(),
        p0 + items_size(opt_trial(x, p0, t, i)) <= x.len(),
        i >= 1 ==> items_size(opt_trial(x, p0, t, i)) >= 1,
        i >= 1 ==> group_valid(x, p0, opt_trial(x, p0, t, i), t) || i < 30,
        i == 30 ==> group_valid(x, p0, opt_trial(x, p0, t, i), t),
    decreases i,
{
    if i > 0 {
        lemma_opt_trial(x, p0, t, i - 1);
        let prev = opt_trial(x, p0, t, i - 1);
        let p = p0 + items_size(prev);
        lemma_items_size_lower(x, p0, prev, t);
        if p < x.len() {
            lemma_opt_item(x, p, t);
            let cur = prev.push(opt_item(x, p, t));
            assert(cur.drop_last() =~= prev);
        }
        lemma_items_size_lower(x, p0, opt_trial(x, p0, t, i), t);
    }
}

/// The layout chosen is one of the four.
pub proof fn lemma_opt_choose(x: Seq<u8>, p0: int, t: u32, ou: int, oc: int, ot: u32)
    requires
        t <= 4,
        ot < 4,
    ensures
        opt_choose(x, p0, t, ou, oc, ot) < 4,
    decreases 4 - t,
{
    if t < 4 {
        let items = opt_trial(x, p0, t, 30);
        let u = items_size(items);
        let c = items_bytes(items, t).len() as int;
        if opt_better(u, c, ou, oc) {
            lemma_opt_choose(x, p0, (t + 1) as u32, u, c, t);
        } else {
            lemma_opt_choose(x, p0, (t + 1) as u32, ou, oc, ot);
        }
    }
}

/// The layout of a group is one of the four.
pub proof fn lemma_opt_layout(x: Seq<u8>, p0: int)
    ensures
        opt_layout(x, p0) < 4,
{
    lemma_opt_choose(x, p0, 0, 0, 0, 0);
}


proof fn lemma_opt_stream(x: Seq<u8>, c: Seq<u8>, p: int, w: int, d: int)
    requires
        0 <= p < x.len(),
        0 <= w <= c.len(),
        c.subrange(w, c.len() as int) == opt_compress_from(x, p),
        d >= x.len(),
    ensures
        decode_from(c, w, x.take(p), 0, 0, 0, x.len() as int, d, false) == LzssDecoded::Done(x),
    decreases x.len() - p,
{
    let items = opt_group(x, p);
    let t = opt_layout(x, p);
    lemma_opt_layout(x, p);
    lemma_opt_trial(x, p, t, 30);
    let g = group_bytes(items, t);
    let rest = opt_compress_from(x, p + items_size(items));
    assert(opt_compress_from(x, p) == g + rest);
    assert(c.subrange(w, c.len() as int).len() == c.len() - w);
    assert((g + rest).len() == g.len() + rest.len());
    assert(w + g.len() <= c.len());
    assert(c.subrange(w, w + g.len()) =~= g) by {
        assert forall|r: int| 0 <= r < g.len() implies c.subrange(w, w + g.len())[r] == g[r] by {
            assert(c.subrange(w, c.len() as int)[r] == (g + rest)[r]);
        }
    }
    lemma_decode_group(x, c, w, p, items, t, d, 0, 0);
    if p + items_size(items) < x.len() {
        assert(c.subrange(w + g.len(), c.len() as int) =~= rest) by {
            assert forall|r: int| 0 <= r < rest.len() implies c.subrange(w + g.len(), c.len() as int)[r] == rest[r] by {
                assert(c.subrange(w, c.len() as int)[g.len() + r] == (g + rest)[g.len() + r]);
            }
        }
        lemma_opt_stream(x, c, p + items_size(items), w + g.len(), d);
    }
}

/// Round trip: decoding the exhaustive encoding of a non-empty input, into a buffer at
/// least as long, stopping at the input's length, gives back the input.
pub proof fn lemma_lzss_optimized_roundtrip(x: Seq<u8>, d: int)
    requires
        0 < x.len(),
        d >= x.len(),
    ensures
        spec_lzss_decode(spec_lzss_compress_optimized(x), x.len() as int, d, false)
            == LzssDecoded::Done(x),
{
    let c = spec_lzss_compress_optimized(x);
    assert(c.subrange(0, c.len() as int) =~= c);
    lemma_opt_stream(x, c, 0, 0, d);
    assert(x.take(0) =~= Seq::<u8>::empty());
}


proof fn lemma_layout_params(t: u32)
    requires
        t < 4,
    ensures
        (0x3fffu32 >> t) as int + 1 == lz_window(t),
        ((1u32 << (16 - (14 - t)) as u32) - 1 + 3) as int == lz_max_len(t),
        4 <= (1u32 << (16 - (14 - t)) as u32) <= 32,
{
    if t == 0 {
        assert((0x3fffu32 >> 0u32) == 0x3fff && (1u32 << 2u32) == 4) by (bit_vector);
    } else if t == 1 {
        assert((0x3fffu32 >> 1u32) == 0x1fff && (1u32 << 3u32) == 8) by (bit_vector);
    } else if t == 2 {
        assert((0x3fffu32 >> 2u32) == 0xfff && (1u32 << 4u32) == 16) by (bit_vector);
    } else {
        assert((0x3fffu32 >> 3u32) == 0x7ff && (1u32 << 5u32) == 32) by (bit_vector);
    }
}

/// The longest, then nearest, match for `pos` in layout `t`, as (length, distance).
fn opt_longest_match(buf: &[u8], s: usize, pos: usize, t: u32) -> (r: (u32, u32))
    requires
        s <= buf@.len(),
        pos < s,
        s < 0x8000_0000,
        t < 4,
    ensures
        r.0 as int == best_from(
            buf@.take(s as int),
            pos as int,
            pos as int,
            opt_low(pos as int, t),
            opt_limit(buf@.take(s as int), pos as int, t),
            0,
            0,
        ).0,
        r.1 as int == best_from(
            buf@.take(s as int),
            pos as int,
            pos as int,
            opt_low(pos as int, t),
            opt_limit(buf@.take(s as int), pos as int, t),
            0,
            0,
        ).1,
{
    let ghost x = buf@.take(s as int);
    let temp_mask: u32 = 0x3fffu32 >> t;
    let temp_wlog: u32 = 14 - t;
    proof {
        lemma_layout_params(t);
    }
    let temp_mlen: u32 = (1u32 << (16 - temp_wlog)) - 1 + 3;
    let win: usize = temp_mask as usize + 1;
    let lo: usize = if pos < win {
        0
    } else {
        pos - win
    };
    let mut l: usize = s - pos;
    if l > temp_mlen as usize {
        l = temp_mlen as usize;
    }
    assert(lo as int == opt_low(pos as int, t));
    assert(l as int == opt_limit(x, pos as int, t));
    let mut ml: usize = 0;
    let mut mj: usize = 0;
    let mut j: usize = pos;
    while j > lo
        invariant
            lo <= j <= pos,
            pos < s,
            pos + l <= s,
            s <= buf@.len(),
            x == buf@.take(s as int),
            l <= 34,
            ml <= l,
            mj <= pos - lo,
            pos - lo <= 0x4000,
            best_from(x, pos as int, pos as int, lo as int, l as int, 0, 0) == best_from(
                x,
                pos as int,
                j as int,
                lo as int,
                l as int,
                ml as int,
                mj as int,
            ),
        decreases j,
    {
        j = j - 1;
        let mut r: usize = 0;
        while r < l && buf[pos + r] == buf[j + r]
            invariant
                r <= l,
                pos + l <= s,
                j < pos,
                s <= buf@.len(),
                x == buf@.take(s as int),
                match_run(x, pos as int, j as int, 0, l as int) == match_run(
                    x,
                    pos as int,
                    j as int,
                    r as int,
                    l as int,
                ),
            decreases l - r,
        {
            assert(x[pos + r] == buf@[pos + r] && x[j + r] == buf@[j + r]);
            r = r + 1;
        }
        proof {
            if r < l {
                assert(x[pos + r] == buf@[pos + r] && x[j + r] == buf@[j + r]);
            }
        }
        assert(match_run(x, pos as int, j as int, r as int, l as int) == r);
        if r > ml {
            ml = r;
            mj = pos - j;
        }
    }
    (ml as u32, mj as u32)
}

/// One trial of layout `t` at `p0`: returns the group's flag bits, how many input bytes it
/// packs and how many item bytes it takes, and notes each reference's length and distance
/// in column `t` of the tables.
fn opt_run_trial(
    buf: &[u8],
    s: usize,
    p0: usize,
    t: u32,
    distances: &mut Vec<u32>,
    lengths: &mut Vec<u32>,
) -> (r: (u32, u32, u32))
    requires
        s <= buf@.len(),
        p0 < s,
        s < 0x8000_0000,
        t < 4,
        old(distances)@.len() == 120,
        old(lengths)@.len() == 120,
    ensures
        r.0 == items_flag(opt_trial(buf@.take(s as int), p0 as int, t, 30)),
        r.1 as int == items_size(opt_trial(buf@.take(s as int), p0 as int, t, 30)),
        r.2 as int == items_bytes(opt_trial(buf@.take(s as int), p0 as int, t, 30), t).len(),
        r.2 <= 60,
        final(distances)@.len() == 120,
        final(lengths)@.len() == 120,
        forall|i: int|
            #![trigger opt_trial(buf@.take(s as int), p0 as int, t, 30)[i]]
            0 <= i < opt_trial(buf@.take(s as int), p0 as int, t, 30).len() ==> (opt_trial(
                buf@.take(s as int),
                p0 as int,
                t,
                30,
            )[i] matches LzItem::Match(l, d) ==> final(lengths)@[i * 4 + t] == l && final(distances)@[i * 4 + t] == d),
        forall|k: int|
            0 <= k < 120 && k % 4 != t ==> final(lengths)@[k] == old(lengths)@[k] && final(distances)@[k] == old(distances)@[k],
{
    let ghost x = buf@.take(s as int);
    let ghost d0 = distances@;
    let ghost l0 = lengths@;
    let mut i: usize = 0;
    while i < 30
        invariant
            i <= 30,
            t < 4,
            distances@.len() == 120,
            lengths@.len() == 120,
            forall|k: int|
                0 <= k < 120 && k % 4 != t ==> lengths@[k] == l0[k] && distances@[k] == d0[k],
        decreases 30 - i,
    {
        distances.set(i * 4 + t as usize, 0);
        lengths.set(i * 4 + t as usize, 1);
        i = i + 1;
    }
    let mut flag: u32 = 0;
    let mut ulen: u32 = 0;
    let mut clen: u32 = 0;
    let mut dpos: usize = p0;
    let mut i: usize = 0;
    assert(opt_trial(x, p0 as int, t, 0) =~= Seq::<LzItem>::empty());
    while i < 30
        invariant
            i <= 30,
            t < 4,
            p0 < s,
            s <= buf@.len(),
            s < 0x8000_0000,
            x == buf@.take(s as int),
            distances@.len() == 120,
            lengths@.len() == 120,
            forall|k: int|
                0 <= k < 120 && k % 4 != t ==> lengths@[k] == l0[k] && distances@[k] == d0[k],
            dpos as int == p0 + items_size(opt_trial(x, p0 as int, t, i as int)),
            dpos <= s,
            dpos < s ==> opt_trial(x, p0 as int, t, i as int).len() == i,
            opt_trial(x, p0 as int, t, i as int).len() <= i,
            flag == items_flag(opt_trial(x, p0 as int, t, i as int)),
            ulen as int == items_size(opt_trial(x, p0 as int, t, i as int)),
            clen as int == items_bytes(opt_trial(x, p0 as int, t, i as int), t).len(),
            clen <= 2 * i,
            forall|k: int|
                #![trigger opt_trial(x, p0 as int, t, i as int)[k]]
                0 <= k < opt_trial(x, p0 as int, t, i as int).len() ==> (opt_trial(
                    x,
                    p0 as int,
                    t,
                    i as int,
                )[k] matches LzItem::Match(l, d) ==> lengths@[k * 4 + t] == l && distances@[k * 4
                    + t] == d),
        decreases 30 - i,
    {
        let ghost prev = opt_trial(x, p0 as int, t, i as int);
        proof {
            lemma_opt_trial(x, p0 as int, t, i as int);
            lemma_opt_trial(x, p0 as int, t, i + 1);
        }
        if dpos < s {
            let (ml, mj) = opt_longest_match(buf, s, dpos, t);
            let ghost cur = opt_trial(x, p0 as int, t, i + 1);
            assert(cur == prev.push(opt_item(x, dpos as int, t)));
            assert(cur.drop_last() =~= prev);
            proof {
                lemma_opt_item(x, dpos as int, t);
            }
            if ml < 3 {
                ulen = ulen + 1;
                dpos = dpos + 1;
                clen = clen + 1;
            } else {
                distances.set(i * 4 + t as usize, mj);
                lengths.set(i * 4 + t as usize, ml);
                flag = flag | (1u32 << (31 - i as u32));
                ulen = ulen + ml;
                dpos = dpos + ml as usize;
                clen = clen + 2;
            }
            assert forall|k: int|
                #![trigger cur[k]]
                0 <= k < cur.len() implies (cur[k] matches LzItem::Match(l, d) ==> lengths@[k * 4
                + t] == l && distances@[k * 4 + t] == d) by {
                if k < prev.len() {
                    assert(cur[k] == prev[k]);
                }
            }
        } else {
            assert(opt_trial(x, p0 as int, t, i + 1) == prev);
        }
        i = i + 1;
    }
    (flag, ulen, clen)
}


proof fn lemma_item_bounds(l: u32, d: u32, t: u32)
    requires
        t < 4,
        3 <= l <= lz_max_len(t),
        1 <= d <= lz_window(t),
    ensures
        ((l - 3) as u32) < (4u32 << t),
        ((d - 1) as u32) < (0x4000u32 >> t),
{
    if t == 0 {
        assert((4u32 << 0u32) == 4 && (0x4000u32 >> 0u32) == 0x4000) by (bit_vector);
    } else if t == 1 {
        assert((4u32 << 1u32) == 8 && (0x4000u32 >> 1u32) == 0x2000) by (bit_vector);
    } else if t == 2 {
        assert((4u32 << 2u32) == 16 && (0x4000u32 >> 2u32) == 0x1000) by (bit_vector);
    } else {
        assert((4u32 << 3u32) == 32 && (0x4000u32 >> 3u32) == 0x800) by (bit_vector);
    }
}

proof fn lemma_bv_code_sum(l3: u32, d1: u32, t: u32)
    requires
        t < 4,
        l3 < (4u32 << t),
        d1 < (0x4000u32 >> t),
    ensures
        ((l3 << (14 - t) as u32) as u16) as u32 + ((d1 & (0x3fffu32 >> t)) as u16) as u32
            <= 0xffff,
        (((l3 << (14 - t) as u32) as u16) as u32 + ((d1 & (0x3fffu32 >> t)) as u16) as u32) as u16
            == ((l3 << (14 - t) as u32) | d1) as u16,
{
    assert(((l3 << (14 - t) as u32) as u16) as u32 + ((d1 & (0x3fffu32 >> t)) as u16) as u32
        <= 0xffff && (((l3 << (14 - t) as u32) as u16) as u32 + ((d1 & (0x3fffu32 >> t)) as u16)
        as u32) as u16 == ((l3 << (14 - t) as u32) | d1) as u16) by (bit_vector)
        requires
            t < 4,
            l3 < (4u32 << t),
            d1 < (0x4000u32 >> t),
    ;
}

/// Writes the items of the trial of layout `t` at `dpos`, read back from the tables, after
/// the group's flags at `w`; returns where the output and the input stand after the group.
/// A full buffer stops the writing with `LzError::WriteZero`, the bytes that fit written.
fn opt_emit_group(
    buf: &[u8],
    s: usize,
    dpos: usize,
    t: u32,
    opt_flag: u32,
    distances: &Vec<u32>,
    lengths: &Vec<u32>,
    out: &mut [u8],
    w: usize,
) -> (r: Result<(usize, usize), LzError>)
    requires
        s <= buf@.len(),
        dpos < s,
        s < 0x8000_0000,
        t < 4,
        opt_flag == items_flag(opt_trial(buf@.take(s as int), dpos as int, t, 30)) | t,
        distances@.len() == 120,
        lengths@.len() == 120,
        forall|i: int|
            #![trigger opt_trial(buf@.take(s as int), dpos as int, t, 30)[i]]
            0 <= i < opt_trial(buf@.take(s as int), dpos as int, t, 30).len() ==> (opt_trial(
                buf@.take(s as int),
                dpos as int,
                t,
                30,
            )[i] matches LzItem::Match(l, d) ==> lengths@[i * 4 + t] == l && distances@[i * 4
                + t] == d),
        w + 4 <= old(out)@.len(),
    ensures
        final(out)@.len() == old(out)@.len(),
        match r {
            Ok((c2, p2)) => {
                &&& c2 == w + 4 + items_bytes(
                    opt_trial(buf@.take(s as int), dpos as int, t, 30),
                    t,
                ).len()
                &&& p2 == dpos + items_size(opt_trial(buf@.take(s as int), dpos as int, t, 30))
                &&& c2 <= old(out)@.len()
                &&& final(out)@ == spliced(
                    old(out)@,
                    w + 4,
                    items_bytes(opt_trial(buf@.take(s as int), dpos as int, t, 30), t),
                )
            },
            Err(e) => {
                &&& e == LzError::WriteZero
                &&& w + 4 + items_bytes(opt_trial(buf@.take(s as int), dpos as int, t, 30), t).len()
                    > old(out)@.len()
                &&& final(out)@ == old(out)@.take(w + 4) + items_bytes(
                    opt_trial(buf@.take(s as int), dpos as int, t, 30),
                    t,
                ).take(old(out)@.len() - w - 4)
            },
        },
{
    let ghost x = buf@.take(s as int);
    let ghost items = opt_trial(x, dpos as int, t, 30);
    let ghost ib = items_bytes(items, t);
    let ghost before = out@;
    let b = out.len();
    let temp_wlog: u32 = 14 - t;
    let temp_mask: u32 = 0x3fffu32 >> t;
    proof {
        lemma_opt_trial(x, dpos as int, t, 30);
        lemma_items_flag_bits(items);
        assert(items.take(0) =~= Seq::<LzItem>::empty());
        assert(out@ =~= before.take(w + 4) + items_bytes(items.take(0), t) + before.skip(w + 4));
    }
    let mut cpos: usize = w + 4;
    let mut p: usize = dpos;
    let mut i: usize = 0;
    let ghost mut jj: int = 0;
    while i < 30
        invariant
            s <= buf@.len(),
            dpos < s,
            s < 0x8000_0000,
            t < 4,
            temp_wlog == 14 - t,
            temp_mask == 0x3fffu32 >> t,
            x == buf@.take(s as int),
            items == opt_trial(x, dpos as int, t, 30),
            ib == items_bytes(items, t),
            group_valid(x, dpos as int, items, t),
            opt_flag == items_flag(items) | t,
            items_flag(items) & 3u32 == 0,
            forall|bb: u32|
                bb < 30 ==> ((items_flag(items) >> (31 - bb) as u32) & 1u32 == 1u32) == (bb
                    < items.len() && items[bb as int] is Match),
            distances@.len() == 120,
            lengths@.len() == 120,
            forall|k: int|
                #![trigger items[k]]
                0 <= k < items.len() ==> (items[k] matches LzItem::Match(l, d) ==> lengths@[k * 4
                    + t] == l && distances@[k * 4 + t] == d),
            b == before.len(),
            b == out@.len(),
            w + 4 <= b,
            before == old(out)@,
            i <= 30,
            0 <= jj <= i,
            jj <= items.len(),
            jj < i ==> jj == items.len(),
            p as int == dpos + items_size(items.take(jj)),
            cpos as int == w + 4 + items_bytes(items.take(jj), t).len(),
            cpos <= b,
            out@ == before.take(w + 4) + items_bytes(items.take(jj), t) + before.skip(cpos as int),
        decreases 30 - i,
    {
        proof {
            lemma_items_prefix(x, dpos as int, items, t, jj);
            if jj < items.len() {
                lemma_items_prefix(x, dpos as int, items, t, jj + 1);
            }
        }
        if p < s {
            let ghost a = items.take(jj + 1);
            let ghost it = items[jj];
            let ghost ibj = items_bytes(items.take(jj), t);
            proof {
                if jj == items.len() {
                    lemma_items_size_lower(x, dpos as int, items, t);
                    assert(items.take(jj) =~= items);
                    assert(false);
                }
                assert(jj == i);
                assert(a.drop_last() =~= items.take(jj));
                assert(a.last() == it);
                assert(item_valid(x, p as int, it, t));
                lemma_bv_group_flag(items_flag(items), t, i as u32);
                assert(((opt_flag & (1u32 << (31 - i as u32) as u32)) != 0) == ((opt_flag >> (31
                    - i as u32) as u32) & 1u32 == 1u32)) by (bit_vector)
                    requires
                        i < 30,
                ;
                assert(items_bytes(a, t) == ibj + item_bytes(it, t));
                assert(ib.take(items_bytes(a, t).len() as int) == items_bytes(a, t));
            }
            if (opt_flag & (1u32 << (31 - i as u32))) != 0 {
                assert(it is Match);
                let ml: u32 = lengths[i * 4 + t as usize];
                let mj: u32 = distances[i * 4 + t as usize];
                assert(it == LzItem::Match(ml, mj));
                proof {
                    lemma_item_bounds(ml, mj, t);
                    lemma_bv_code_sum((ml - 3) as u32, (mj - 1) as u32, t);
                }
                let code: u16 = (((ml - 3) << temp_wlog) as u16) + (((mj - 1) & temp_mask) as u16);
                assert(code == item_code(ml, mj, t));
                if b - cpos >= 2 {
                    let ghost prev = out@;
                    write_be_u16(out, cpos, code);
                    proof {
                        assert(out@ =~= before.take(w + 4) + items_bytes(a, t) + before.skip(cpos + 2));
                    }
                    cpos = cpos + 2;
                    p = p + ml as usize;
                } else {
                    proof {
                        assert(ib.take(b - w - 4) =~= ibj + be16_bytes(code).take(b - cpos));
                    }
                    if b - cpos == 1 {
                        out[cpos] = (code >> 8) as u8;
                        assert(out@ =~= before.take(w + 4) + ib.take(b - w - 4));
                    } else {
                        assert(out@ =~= before.take(w + 4) + ib.take(b - w - 4));
                    }
                    return Err(LzError::WriteZero);
                }
            } else {
                assert(it is Literal);
                let byte = buf[p];
                assert(it == LzItem::Literal(byte));
                if cpos < b {
                    out[cpos] = byte;
                    proof {
                        assert(out@ =~= before.take(w + 4) + items_bytes(a, t) + before.skip(cpos + 1));
                    }
                    cpos = cpos + 1;
                    p = p + 1;
                } else {
                    proof {
                        assert(ib.take(b - w - 4) =~= ibj);
                        assert(out@ =~= before.take(w + 4) + ib.take(b - w - 4));
                    }
                    return Err(LzError::WriteZero);
                }
            }
            proof {
                jj = jj + 1;
            }
        } else {
            proof {
                if jj < items.len() {
                    lemma_items_prefix(x, dpos as int, items, t, jj + 1);
                    let a = items.take(jj + 1);
                    assert(a.drop_last() =~= items.take(jj));
                    assert(item_valid(x, p as int, items[jj], t));
                    assert(a.last() == items[jj]);
                    assert(false);
                }
            }
        }
        i = i + 1;
    }
    proof {
        if jj < items.len() {
            assert(jj == 30);
            assert(false);
        }
        assert(items.take(jj) =~= items);
    }
    Ok((cpos, p))
}


/// Encodes the first `decompressed_buffer_size` bytes of `decompressed_buffer` with the
/// exhaustive LZSS encoder into `compressed_buffer` and returns the stream's length. When
/// the buffer fills up the call ends with `LzError::WriteZero`, the bytes that fit written;
/// when a group's four flag bytes do not fit, with `LzError::FlagOutOfBounds`.
pub fn lzss_compress_optimized_checked(
    decompressed_buffer: &[u8],
    decompressed_buffer_size: usize,
    compressed_buffer: &mut [u8],
) -> (r: Result<usize, LzError>)
    requires
        decompressed_buffer_size <= decompressed_buffer@.len(),
        decompressed_buffer_size < 0x8000_0000,
    ensures
        compress_result_matches(
            spec_lzss_compress_optimized(decompressed_buffer@.take(decompressed_buffer_size as int)),
            spec_lzss_optimized_fit(
                decompressed_buffer@.take(decompressed_buffer_size as int),
                old(compressed_buffer)@.len() as int,
            ),
            r,
            old(compressed_buffer)@,
            final(compressed_buffer)@,
        ),
{
    let s = decompressed_buffer_size;
    let ghost x = decompressed_buffer@.take(s as int);
    let ghost full = spec_lzss_compress_optimized(x);
    let ghost before = compressed_buffer@;
    let b = compressed_buffer.len();
    let ghost fit = spec_lzss_optimized_fit(x, b as int);
    let mut distances: Vec<u32> = Vec::new();
    let mut lengths: Vec<u32> = Vec::new();
    let mut k: usize = 0;
    while k < 120
        invariant
            k <= 120,
            distances@.len() == k,
            lengths@.len() == k,
        decreases 120 - k,
    {
        distances.push(0);
        lengths.push(0);
        k = k + 1;
    }
    let mut dpos: usize = 0;
    let mut cpos: usize = 0;
    assert(compressed_buffer@.take(0) + opt_compress_from(x, 0) =~= full);
    while dpos < s
        invariant
            s == decompressed_buffer_size,
            s <= decompressed_buffer@.len(),
            s < 0x8000_0000,
            x == decompressed_buffer@.take(s as int),
            full == spec_lzss_compress_optimized(x),
            fit == spec_lzss_optimized_fit(x, b as int),
            before == old(compressed_buffer)@,
            b == before.len(),
            b == compressed_buffer@.len(),
            dpos <= s,
            cpos <= b,
            full == compressed_buffer@.take(cpos as int) + opt_compress_from(x, dpos as int),
            fit == opt_fit_from(x, dpos as int, cpos as int, b as int),
            compressed_buffer@.skip(cpos as int) == before.skip(cpos as int),
            distances@.len() == 120,
            lengths@.len() == 120,
        decreases s - dpos,
    {
        let w = cpos;
        let mut opt_flag: u32 = 0;
        let mut opt_u: u32 = 0;
        let mut opt_c: u32 = 0;
        let mut t: u32 = 0;
        assert(0u32 & 3u32 == 0) by (bit_vector);
        while t < 4
            invariant
                t <= 4,
                s <= decompressed_buffer@.len(),
                s < 0x8000_0000,
                dpos < s,
                x == decompressed_buffer@.take(s as int),
                distances@.len() == 120,
                lengths@.len() == 120,
                opt_layout(x, dpos as int) == opt_choose(
                    x,
                    dpos as int,
                    t,
                    opt_u as int,
                    opt_c as int,
                    opt_flag & 3u32,
                ),
                opt_c <= 60,
                opt_u < 0x8000_0000,
                opt_flag & 3u32 < 4,
                t == 0 ==> opt_u == 0 && opt_c == 0 && opt_flag & 3u32 == 0,
                t > 0 ==> (opt_flag & 3u32) < t,
                t > 0 ==> opt_flag == items_flag(opt_trial(x, dpos as int, opt_flag & 3u32, 30)) | (
                opt_flag & 3u32),
                t > 0 ==> forall|i: int|
                    #![trigger opt_trial(x, dpos as int, opt_flag & 3u32, 30)[i]]
                    0 <= i < opt_trial(x, dpos as int, opt_flag & 3u32, 30).len() ==> (opt_trial(
                        x,
                        dpos as int,
                        opt_flag & 3u32,
                        30,
                    )[i] matches LzItem::Match(l, d) ==> lengths@[i * 4 + (opt_flag & 3u32)] == l
                        && distances@[i * 4 + (opt_flag & 3u32)] == d),
            decreases 4 - t,
        {
            let ghost old_opt = opt_flag;
            let ghost ot = opt_flag & 3u32;
            let ghost l_before = lengths@;
            let ghost d_before = distances@;
            let (flag, ulen, clen) = opt_run_trial(
                decompressed_buffer,
                s,
                dpos,
                t,
                &mut distances,
                &mut lengths,
            );
            let ghost items = opt_trial(x, dpos as int, t, 30);
            proof {
                lemma_opt_trial(x, dpos as int, t, 30);
                lemma_items_flag_bits(items);
                lemma_bv_group_flag(items_flag(items), t, 0);
            }
            assert(ulen < 0x8000_0000);
            assert((ulen as u64) * (4 + opt_c as u64) <= 0x8000_0000u64 * 64) by (nonlinear_arith)
                requires
                    ulen < 0x8000_0000,
                    opt_c <= 60,
            ;
            assert((opt_u as u64) * (4 + clen as u64) <= 0x8000_0000u64 * 64) by (nonlinear_arith)
                requires
                    opt_u < 0x8000_0000,
                    clen <= 60,
            ;
            if (ulen as u64) * (4 + opt_c as u64) > (opt_u as u64) * (4 + clen as u64) {
                opt_u = ulen;
                opt_c = clen;
                opt_flag = flag | t;
            } else {
                proof {
                    if t > 0 {
                        let oitems = opt_trial(x, dpos as int, ot, 30);
                        lemma_opt_trial(x, dpos as int, ot, 30);
                        assert forall|i: int|
                            #![trigger oitems[i]]
                            0 <= i < oitems.len() implies (oitems[i] matches LzItem::Match(l, d)
                            ==> lengths@[i * 4 + ot] == l && distances@[i * 4 + ot] == d) by {
                            assert((i * 4 + ot) % 4 == ot as int) by (nonlinear_arith)
                                requires
                                    ot < 4,
                                    i >= 0,
                            ;
                            assert(0 <= i * 4 + ot < 120) by (nonlinear_arith)
                                requires
                                    ot < 4,
                                    0 <= i < 30,
                            ;
                        }
                    }
                }
            }
            t = t + 1;
        }
        let tt: u32 = opt_flag & 3;
        let ghost items = opt_trial(x, dpos as int, tt, 30);
        let ghost g = group_bytes(items, tt);
        let ghost rest = opt_compress_from(x, dpos + items_size(items));
        proof {
            lemma_opt_layout(x, dpos as int);
            lemma_opt_trial(x, dpos as int, tt, 30);
            assert(opt_compress_from(x, dpos as int) == g + rest);
        }
        if b - w < 4 {
            assert(fit == CompressFit::FlagOutOfBounds);
            return Err(LzError::FlagOutOfBounds);
        }
        let ghost prev = compressed_buffer@;
        write_be_u32(compressed_buffer, w, opt_flag);
        let ghost mid = compressed_buffer@;
        match opt_emit_group(
            decompressed_buffer,
            s,
            dpos,
            tt,
            opt_flag,
            &distances,
            &lengths,
            compressed_buffer,
            w,
        ) {
            Ok((c2, p2)) => {
                proof {
                    let ib = items_bytes(items, tt);
                    assert(compressed_buffer@.take(c2 as int) =~= prev.take(w as int) + g);
                    assert(full =~= compressed_buffer@.take(c2 as int) + rest);
                    assert(compressed_buffer@.skip(c2 as int) =~= before.skip(c2 as int)) by {
                        assert(prev.skip(w as int) == before.skip(w as int));
                        assert forall|r: int| 0 <= r < b - c2 implies compressed_buffer@.skip(c2 as int)[r] == before.skip(c2 as int)[r] by {
                            assert(prev.skip(w as int)[c2 - w + r] == before.skip(w as int)[c2 - w + r]);
                        }
                    }
                }
                cpos = c2;
                dpos = p2;
            },
            Err(e) => {
                proof {
                    let ib = items_bytes(items, tt);
                    assert(fit == CompressFit::Overflow);
                    assert(full.take(b as int) =~= prev.take(w as int) + be32_bytes(opt_flag) + ib.take(b - w - 4));
                    assert(mid.take(w + 4) =~= prev.take(w as int) + be32_bytes(opt_flag));
                    assert(compressed_buffer@ =~= full.take(b as int));
                }
                return Err(e);
            },
        }
    }
    proof {
        assert(opt_compress_from(x, dpos as int) == Seq::<u8>::empty());
        assert(full =~= compressed_buffer@.take(cpos as int));
        assert(compressed_buffer@ =~= full + before.skip(cpos as int));
    }
    Ok(cpos)
}

/// Encodes the first `decompressed_buffer_size` bytes of `decompressed_buffer` with the
/// exhaustive LZSS encoder into `compressed_buffer` and returns the stream's length; when
/// the buffer fills up the call ends with `LzError::WriteZero`, the bytes that fit written.
/// Every group's four flag bytes must fit the buffer.
pub fn lzss_compress_optimized(
    decompressed_buffer: &[u8],
    decompressed_buffer_size: usize,
    compressed_buffer: &mut [u8],
    _compressed_buffer_size: usize,
) -> (r: Result<usize, LzError>)
    requires
        decompressed_buffer_size <= decompressed_buffer@.len(),
        decompressed_buffer_size < 0x8000_0000,
        !(spec_lzss_optimized_fit(
            decompressed_buffer@.take(decompressed_buffer_size as int),
            old(compressed_buffer)@.len() as int,
        ) is FlagOutOfBounds),
    ensures
        compress_result_matches(
            spec_lzss_compress_optimized(decompressed_buffer@.take(decompressed_buffer_size as int)),
            spec_lzss_optimized_fit(
                decompressed_buffer@.take(decompressed_buffer_size as int),
                old(compressed_buffer)@.len() as int,
            ),
            r,
            old(compressed_buffer)@,
            final(compressed_buffer)@,
        ),
        r != Err::<usize, LzError>(LzError::FlagOutOfBounds),
{
    lzss_compress_optimized_checked(decompressed_buffer, decompressed_buffer_size, compressed_buffer)
}


/// The exhaustive encoder's output from `p` on takes at most the bytes it stands for and
/// four flag bytes for every thirty of them (rounded up).
pub proof fn lemma_opt_output_bound(x: Seq<u8>, p: int)
    requires
        0 <= p <= x.len(),
    ensures
        opt_compress_from(x, p).len() <= (x.len() - p) + 4 * ((x.len() - p + 29) / 30),
    decreases x.len() - p,
{
    if p < x.len() {
        let items = opt_group(x, p);
        let t = opt_layout(x, p);
        lemma_opt_layout(x, p);
        lemma_opt_trial(x, p, t, 30);
        lemma_group_bytes_bound(x, p, items, t);
        let g = items_size(items);
        lemma_opt_output_bound(x, p + g);
        lemma_output_bound_step(x.len() - p, g, group_bytes(items, t).len() as int, opt_compress_from(x, p + g).len() as int);
    }
}

/// The exhaustive encoding of `n` bytes takes at most `n + 4⌈n/30⌉` bytes.
pub proof fn lemma_lzss_optimized_size(x: Seq<u8>)
    ensures
        spec_lzss_compress_optimized(x).len() <= x.len() + 4 * ((x.len() + 29) / 30),
{
    lemma_opt_output_bound(x, 0);
}


/// An encoding that fits the room left fits it group by group.
pub proof fn lemma_opt_fit_from(x: Seq<u8>, p: int, w: int, b: int)
    requires
        0 <= p <= x.len(),
        w + opt_compress_from(x, p).len() <= b,
    ensures
        opt_fit_from(x, p, w, b) == CompressFit::Fits,
    decreases x.len() - p,
{
    if p < x.len() {
        let items = opt_group(x, p);
        let t = opt_layout(x, p);
        lemma_opt_layout(x, p);
        lemma_opt_trial(x, p, t, 30);
        let g = group_bytes(items, t);
        assert(g.len() >= 4);
        lemma_opt_fit_from(x, p + items_size(items), w + g.len(), b);
    }
}

/// The exhaustive encoding of four bytes or more fits a buffer of twice their length.
pub proof fn lemma_lzss_optimized_fits(x: Seq<u8>)
    requires
        x.len() >= 4,
    ensures
        spec_lzss_optimized_fit(x, (2 * x.len()) as int) == CompressFit::Fits,
{
    let n = x.len() as int;
    lemma_lzss_optimized_size(x);
    assert(4 * ((n + 29) / 30) <= n);
    lemma_opt_fit_from(x, 0, 0, 2 * n);
}

} // verus!
