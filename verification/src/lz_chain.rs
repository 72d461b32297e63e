//! The hash-chain LZSS encoder: it finds matches among the earlier positions that start
//! with the same two bytes, inside a sliding window of the last `0x8000` positions, and
//! picks a window layout per group by trying the layouts from the widest matches down.
use vstd::prelude::*;
use crate::bytes::{be32_bytes, spliced, spec_be_u16, read_be_u16};
use crate::lz::{LzItem, LzError, LzssDecoded, items_size, items_bytes, items_flag, item_bytes, item_code, item_valid, items_valid, group_valid, group_bytes, lz_window, lz_max_len, decode_from, spec_lzss_decode, lemma_decode_group, lemma_items_prefix, lemma_items_size_lower, lemma_items_bytes_prefix, lemma_items_size_upper, put_result, put_u8, put_be_u16, put_be_u32, lemma_group_bytes_bound, lemma_output_bound_step};

verus! {

/// The two bytes at `p`, most significant first: the key of the chain that `p` is on.
pub open spec fn hc_key(x: Seq<u8>, p: int) -> u16 {
    spec_be_u16(x, p)
}

/// How far the match of `q` against `p` extends from `j` on, stopping at the first
/// difference or at `rem`.
pub open spec fn hc_ext(x: Seq<u8>, q: int, p: int, j: int, rem: int) -> int
    decreases rem - j,
{
    if j >= rem {
        j
    } else if x[p + j] != x[q + j] {
        j
    } else {
        hc_ext(x, q, p, j + 1, rem)
    }
}

/// The best match for `q` among the positions below `hi` down to `lo`, nearest first,
/// given the best `(ml, mp)` (length and source position) so far: a candidate counts when
/// it has `q`'s key and agrees on the third byte; a strictly longer match replaces the
/// best, and one of the full length `rem` ends the search.
pub open spec fn hc_best(x: Seq<u8>, q: int, hi: int, lo: int, rem: int, ml: int, mp: int) -> (
    int,
    int,
)
    decreases hi - lo,
{
    if hi <= lo {
        (ml, mp)
    } else {
        let p = hi - 1;
        if hc_key(x, p) == hc_key(x, q) && x[q + 2] == x[p + 2] {
            let e = hc_ext(x, q, p, 3, rem);
            if ml < e {
                if e == rem {
                    (e, p)
                } else {
                    hc_best(x, q, p, lo, rem, e, p)
                }
            } else {
                hc_best(x, q, p, lo, rem, ml, mp)
            }
        } else {
            hc_best(x, q, p, lo, rem, ml, mp)
        }
    }
}

/// The lowest candidate for `q` in layout `li` when the positions below `flo` have left
/// the window.
pub open spec fn hc_low(q: int, li: u32, flo: int) -> int {
    let w = if q < lz_window(li) {
        0
    } else {
        q - lz_window(li)
    };
    if w < flo {
        flo
    } else {
        w
    }
}

/// The longest match allowed at `q` in layout `li` for an input of `s` bytes.
pub open spec fn hc_rem(s: int, q: int, li: u32) -> int {
    if lz_max_len(li) < s - q {
        lz_max_len(li)
    } else {
        s - q
    }
}

/// The item the hash-chain encoder emits at `q` in layout `li`.
pub open spec fn hc_item(x: Seq<u8>, s: int, q: int, li: u32, flo: int) -> LzItem {
    let rem = hc_rem(s, q, li);
    if rem <= 2 {
        LzItem::Literal(x[q])
    } else {
        let (ml, mp) = hc_best(x, q, q, hc_low(q, li, flo), rem, 2, 0);
        if ml == 2 {
            LzItem::Literal(x[q])
        } else {
            LzItem::Match(ml as u32, (q - mp) as u32)
        }
    }
}

/// The first `i` items of the packet of layout `li` at `q0`; fewer when they reach `s`.
pub open spec fn hc_trial(x: Seq<u8>, s: int, q0: int, li: u32, flo: int, i: int) -> Seq<LzItem>
    decreases i,
{
    if i <= 0 {
        Seq::empty()
    } else {
        let prev = hc_trial(x, s, q0, li, flo, i - 1);
        let q = q0 + items_size(prev);
        if q >= s {
            prev
        } else {
            prev.push(hc_item(x, s, q, li, flo))
        }
    }
}

/// The packet of layout `li` at `q0`.
pub open spec fn hc_packet(x: Seq<u8>, s: int, q0: int, li: u32, flo: int) -> Seq<LzItem> {
    hc_trial(x, s, q0, li, flo, 30)
}

/// The packet of layout `li` at `q0` holds thirty items and stops short of the end.
pub open spec fn hc_full(x: Seq<u8>, s: int, q0: int, li: u32, flo: int) -> bool {
    q0 + items_size(hc_packet(x, s, q0, li, flo)) < s
}

/// The layout chosen at `q0`: layout 3 unless its packet is full and packs at most 540
/// bytes; then the narrower layouts are tried in turn while the best so far packs at most
/// 300, then 180, bytes.
pub open spec fn hc_layout(x: Seq<u8>, s: int, q0: int, flo: int) -> u32 {
    let t3 = items_size(hc_packet(x, s, q0, 3, flo));
    if !(hc_full(x, s, q0, 3, flo) && t3 <= 540) {
        3
    } else if !hc_full(x, s, q0, 2, flo) {
        2
    } else {
        let t2 = items_size(hc_packet(x, s, q0, 2, flo));
        let l: u32 = if t2 <= t3 {
            3
        } else {
            2
        };
        let tl = if t2 <= t3 {
            t3
        } else {
            t2
        };
        if tl > 300 {
            l
        } else if !hc_full(x, s, q0, 1, flo) {
            1
        } else {
            let t1 = items_size(hc_packet(x, s, q0, 1, flo));
            let l2: u32 = if t1 > tl {
                1
            } else {
                l
            };
            let tl2 = if t1 > tl {
                t1
            } else {
                tl
            };
            if tl2 <= 180 && items_size(hc_packet(x, s, q0, 0, flo)) >= tl2 {
                0
            } else {
                l2
            }
        }
    }
}

/// The hash-chain encoding of the first `s` bytes of `x` from position `q` on, where `f`
/// is the end of the window's last refill and `k` the bytes left before the next one.
pub open spec fn hc_compress_from(x: Seq<u8>, s: int, q: int, f: int, k: int) -> Seq<u8>
    decreases s - q,
{
    if q < 0 || q >= s || x.len() != s + 2 {
        Seq::empty()
    } else {
        let flo = f - 0x8000;
        let li = hc_layout(x, s, q, flo);
        let items = hc_packet(x, s, q, li, flo);
        let tsz = items_size(items);
        proof {
            lemma_hc_layout(x, s, q, flo);
            lemma_hc_trial(x, s, q, li, flo, 30);
        }
        let k1 = k - tsz;
        let f2 = if k1 < 0 {
            if s < f + 0x1000 {
                s
            } else {
                f + 0x1000
            }
        } else {
            f
        };
        let k2 = if k1 < 0 {
            k1 + 0x1000
        } else {
            k1
        };
        group_bytes(items, li) + hc_compress_from(x, s, q + tsz, f2, k2)
    }
}

/// The hash-chain encoding of the first `s` bytes of `x`, which holds two more bytes.
pub open spec fn spec_lzss_compress(x: Seq<u8>, s: int) -> Seq<u8> {
    hc_compress_from(x, s, 0, 0x8000, 0x7000)
}

/// Equal keys mean equal first two bytes.
pub proof fn lemma_hc_key(x: Seq<u8>, p: int, q: int)
    requires
        0 <= p,
        0 <= q,
        p + 1 < x.len(),
        q + 1 < x.len(),
        hc_key(x, p) == hc_key(x, q),
    ensures
        x[p] == x[q],
        x[p + 1] == x[q + 1],
{
    let a = x[p];
    let b = x[p + 1];
    let c = x[q];
    let d = x[q + 1];
    assert(a == c && b == d) by (bit_vector)
        requires
            ((a as u16) << 8u16) | (b as u16) == ((c as u16) << 8u16) | (d as u16),
    ;
}

/// The extension stays within `rem` and covers agreeing bytes.
pub proof fn lemma_hc_ext(x: Seq<u8>, q: int, p: int, j: int, rem: int)
    requires
        0 <= p < q,
        j <= rem,
        q + rem <= x.len(),
        forall|r: int| 0 <= r < j ==> #[trigger] x[p + r] == x[q + r],
    ensures
        j <= hc_ext(x, q, p, j, rem) <= rem,
        forall|r: int| 0 <= r < hc_ext(x, q, p, j, rem) ==> #[trigger] x[p + r] == x[q + r],
    decreases rem - j,
{
    if j < rem && x[p + j] == x[q + j] {
        lemma_hc_ext(x, q, p, j + 1, rem);
    }
}

/// A match of the search agrees with the input and lies in the window.
pub open spec fn hc_match_ok(x: Seq<u8>, q: int, lo: int, rem: int, ml: int, mp: int) -> bool {
    ml == 2 || (3 <= ml <= rem && lo <= mp < q && forall|r: int|
        0 <= r < ml ==> #[trigger] x[mp + r] == x[q + r])
}

/// The search keeps a match that agrees with the input and lies in the window.
pub proof fn lemma_hc_best(x: Seq<u8>, q: int, hi: int, lo: int, rem: int, ml: int, mp: int)
    requires
        0 <= lo <= hi <= q,
        3 <= rem,
        q + rem <= x.len(),
        q + 1 < x.len(),
        hc_match_ok(x, q, lo, rem, ml, mp),
    ensures
        hc_match_ok(
            x,
            q,
            lo,
            rem,
            hc_best(x, q, hi, lo, rem, ml, mp).0,
            hc_best(x, q, hi, lo, rem, ml, mp).1,
        ),
    decreases hi - lo,
{
    if hi > lo {
        let p = hi - 1;
        if hc_key(x, p) == hc_key(x, q) && x[q + 2] == x[p + 2] {
            lemma_hc_key(x, p, q);
            assert forall|r: int| 0 <= r < 3 implies #[trigger] x[p + r] == x[q + r] by {
                if r == 0 {
                } else if r == 1 {
                } else {
                }
            }
            lemma_hc_ext(x, q, p, 3, rem);
            let e = hc_ext(x, q, p, 3, rem);
            if ml < e {
                if e != rem {
                    lemma_hc_best(x, q, p, lo, rem, e, p);
                }
            } else {
                lemma_hc_best(x, q, p, lo, rem, ml, mp);
            }
        } else {
            lemma_hc_best(x, q, p, lo, rem, ml, mp);
        }
    }
}

/// The item at a position below `s` is right there, for the first `s` bytes of `x`.
pub proof fn lemma_hc_item(x: Seq<u8>, s: int, q: int, li: u32, flo: int)
    requires
        0 <= q < s,
        x.len() == s + 2,
        li < 4,
    ensures
        item_valid(x.take(s), q, hc_item(x, s, q, li, flo), li),
{
    let rem = hc_rem(s, q, li);
    if rem > 2 {
        let lo = hc_low(q, li, flo);
        let lo2 = if lo > q {
            q
        } else {
            lo
        };
        if lo <= q {
            lemma_hc_best(x, q, q, lo, rem, 2, 0);
            let (ml, mp) = hc_best(x, q, q, lo, rem, 2, 0);
            if ml != 2 {
                let d = q - mp;
                assert(((ml as u32) as int) == ml);
                assert(((d as u32) as int) == d);
                assert forall|r: int| 0 <= r < ml implies #[trigger] x.take(s)[q - d + r] == x.take(
                    s,
                )[q + r] by {
                    assert(x[mp + r] == x[q + r]);
                }
            }
        } else {
            assert(hc_best(x, q, q, lo, rem, 2, 0) == (2int, 0int));
        }
    }
}

/// The `n` bytes of `x` from `p` are those from `q`.
pub open spec fn agree(x: Seq<u8>, q: int, p: int, n: int) -> bool {
    forall|r: int| 0 <= r < n ==> #[trigger] x[p + r] == x[q + r]
}

/// The extension stops at the first byte where the two positions differ, or at `rem`.
pub proof fn lemma_hc_ext_stops(x: Seq<u8>, q: int, p: int, j: int, rem: int)
    requires
        0 <= p < q,
        j <= rem,
        q + rem <= x.len(),
    ensures
        hc_ext(x, q, p, j, rem) < rem ==> x[p + hc_ext(x, q, p, j, rem)] != x[q + hc_ext(x, q, p, j, rem)],
    decreases rem - j,
{
    if j < rem && x[p + j] == x[q + j] {
        lemma_hc_ext_stops(x, q, p, j + 1, rem);
    }
}

/// The search below `hi` down to `lo` finds the longest match there, and of the longest the
/// nearest: it keeps the match given unless one strictly longer exists, and then it returns
/// a position that agrees for the length returned, with no nearer position agreeing that
/// far; no position in the range agrees for one byte more than the length returned.
#[verifier::spinoff_prover]
#[verifier::rlimit(40)]
pub proof fn lemma_hc_best_longest(x: Seq<u8>, q: int, hi: int, lo: int, rem: int, ml: int, mp: int)
    requires
        0 <= lo <= hi <= q,
        3 <= rem,
        q + rem <= x.len(),
        2 <= ml <= rem,
    ensures
        ({
            let (ml2, mp2) = hc_best(x, q, hi, lo, rem, ml, mp);
            &&& ml <= ml2 <= rem
            &&& ml2 == ml ==> mp2 == mp
            &&& ml2 > ml ==> lo <= mp2 < hi && agree(x, q, mp2, ml2) && forall|p: int|
                mp2 < p < hi ==> !#[trigger] agree(x, q, p, ml2)
            &&& ml2 < rem ==> forall|p: int| lo <= p < hi ==> !#[trigger] agree(x, q, p, ml2 + 1)
        }),
    decreases hi - lo,
{
    if hi > lo {
        let p = hi - 1;
        let (ml2, mp2) = hc_best(x, q, hi, lo, rem, ml, mp);
        if hc_key(x, p) == hc_key(x, q) && x[q + 2] == x[p + 2] {
            lemma_hc_key(x, p, q);
            assert forall|r: int| 0 <= r < 3 implies #[trigger] x[p + r] == x[q + r] by {
                if r == 0 {
                } else if r == 1 {
                } else {
                }
            }
            lemma_hc_ext(x, q, p, 3, rem);
            lemma_hc_ext_stops(x, q, p, 3, rem);
            let e = hc_ext(x, q, p, 3, rem);
            assert(agree(x, q, p, e));
            if ml < e {
                if e != rem {
                    lemma_hc_best_longest(x, q, p, lo, rem, e, p);
                    assert(!agree(x, q, p, e + 1)) by {
                        assert(x[p + e] != x[q + e]);
                    }
                    if ml2 > e {
                        assert(!agree(x, q, p, ml2)) by {
                            assert(x[p + e] != x[q + e]);
                        }
                    }
                    if ml2 < rem {
                        assert(!agree(x, q, p, ml2 + 1)) by {
                            assert(x[p + e] != x[q + e]);
                        }
                    }
                }
            } else {
                lemma_hc_best_longest(x, q, p, lo, rem, ml, mp);
                if e < rem {
                    if ml2 > ml {
                        assert(!agree(x, q, p, ml2)) by {
                            assert(x[p + e] != x[q + e]);
                        }
                    }
                    if ml2 < rem {
                        assert(!agree(x, q, p, ml2 + 1)) by {
                            assert(x[p + e] != x[q + e]);
                        }
                    }
                }
            }
        } else {
            lemma_hc_best_longest(x, q, p, lo, rem, ml, mp);
            assert(!agree(x, q, p, 3)) by {
                if agree(x, q, p, 3) {
                    assert(x[p + 0] == x[q + 0]);
                    assert(x[p + 1] == x[q + 1]);
                    assert(x[p + 2] == x[q + 2]);
                    assert(hc_key(x, p) == hc_key(x, q));
                }
            }
            assert forall|n: int| n >= 3 implies !#[trigger] agree(x, q, p, n) by {
                if agree(x, q, p, n) {
                    assert forall|r: int| 0 <= r < 3 implies #[trigger] x[p + r] == x[q + r] by {
                        assert(x[p + r] == x[q + r]);
                    }
                }
            }
        }
    }
}

/// The hash-chain encoder's item at `q` is the longest back reference into the window (the
/// positions from `hc_low` up to `q`), of at least three bytes and at most the length allowed,
/// to the nearest position that agrees that far; it is a literal only when no position of
/// the window starts with the same three bytes as `q`, or fewer than three bytes are left.
/// The window reaches back the layout's window size (not past the last refill), and the
/// length allowed is the layout's longest match or what is left of the input, the smaller.
#[verifier::spinoff_prover]
#[verifier::rlimit(40)]
pub proof fn lemma_hc_item_longest(x: Seq<u8>, s: int, q: int, li: u32, flo: int)
    requires
        0 <= q < s,
        x.len() == s + 2,
        li < 4,
    ensures
        hc_rem(s, q, li) <= lz_max_len(li),
        hc_rem(s, q, li) <= s - q,
        hc_rem(s, q, li) == lz_max_len(li) || hc_rem(s, q, li) == s - q,
        0 <= hc_low(q, li, flo),
        flo <= hc_low(q, li, flo),
        q - lz_window(li) <= hc_low(q, li, flo),
        hc_low(q, li, flo) == 0 || hc_low(q, li, flo) == flo || hc_low(q, li, flo) == q - lz_window(li),
        ({
            let rem = hc_rem(s, q, li);
            let lo = hc_low(q, li, flo);
            match hc_item(x, s, q, li, flo) {
                LzItem::Literal(b) => b == x[q] && (rem >= 3 ==> forall|p: int| lo <= p < q ==> !#[trigger] agree(x, q, p, 3)),
                LzItem::Match(l, d) => {
                    &&& 3 <= l <= rem
                    &&& 1 <= d
                    &&& lo <= q - d
                    &&& agree(x, q, q - d, l as int)
                    &&& (l < rem ==> forall|p: int| lo <= p < q ==> !#[trigger] agree(x, q, p, l + 1))
                    &&& forall|p: int| q - d < p < q ==> !#[trigger] agree(x, q, p, l as int)
                },
            }
        }),
{
    let rem = hc_rem(s, q, li);
    let lo = hc_low(q, li, flo);
    if rem > 2 && lo <= q {
        lemma_hc_best_longest(x, q, q, lo, rem, 2, 0);
        let (ml, mp) = hc_best(x, q, q, lo, rem, 2, 0);
        if ml == 2 {
            assert forall|p: int| lo <= p < q implies !#[trigger] agree(x, q, p, 3) by {
                assert(!agree(x, q, p, ml + 1));
            }
        } else {
            assert(((ml as u32) as int) == ml);
            assert((((q - mp) as u32) as int) == q - mp);
            assert(q - (q - mp) == mp);
        }
    } else if rem > 2 {
        assert(hc_best(x, q, q, lo, rem, 2, 0) == (2int, 0int));
    }
}

/// Each item of a packet is the item the encoder picks (as `lemma_hc_item_longest` states it)
/// at the position where the items before it end.
pub proof fn lemma_hc_trial_items(x: Seq<u8>, s: int, q0: int, li: u32, flo: int, i: int)
    ensures
        hc_trial(x, s, q0, li, flo, i).len() <= if i < 0 { 0 } else { i },
        forall|k: int| 0 <= k < hc_trial(x, s, q0, li, flo, i).len() ==> #[trigger] hc_trial(x, s, q0, li, flo, i)[k]
            == hc_item(x, s, q0 + items_size(hc_trial(x, s, q0, li, flo, i).take(k)), li, flo),
    decreases i,
{
    if i > 0 {
        lemma_hc_trial_items(x, s, q0, li, flo, i - 1);
        let prev = hc_trial(x, s, q0, li, flo, i - 1);
        let t = hc_trial(x, s, q0, li, flo, i);
        if q0 + items_size(prev) < s {
            assert forall|k: int| 0 <= k < t.len() implies #[trigger] t[k] == hc_item(
                x,
                s,
                q0 + items_size(t.take(k)),
                li,
                flo,
            ) by {
                if k < prev.len() {
                    assert(t.take(k) =~= prev.take(k));
                } else {
                    assert(t.take(k) =~= prev);
                }
            }
        }
    }
}

/// The packet of a layout at `q0` is right for the first `s` bytes of `x`, stands for at
/// least one byte, and has thirty items unless it reaches `s`.
pub proof fn lemma_hc_trial(x: Seq<u8>, s: int, q0: int, li: u32, flo: int, i: int)
    requires
        0 <= q0 < s,
        x.len() == s + 2,
        li < 4,
        0 <= i <= 30,
    ensures
        items_valid(x.take(s), q0, hc_trial(x, s, q0, li, flo, i), li),
        hc_trial(x, s, q0, li, flo, i).len() <= i,
        hc_trial(x, s, q0, li, flo, i).len() == i || q0 + items_size(
            hc_trial(x, s, q0, li, flo, i),
        ) == s,
        q0 + items_size(hc_trial(x, s, q0, li, flo, i)) <= s,
        i >= 1 ==> items_size(hc_trial(x, s, q0, li, flo, i)) >= 1,
        i == 30 ==> group_valid(x.take(s), q0, hc_trial(x, s, q0, li, flo, i), li),
    decreases i,
{
    let xs = x.take(s);
    if i > 0 {
        lemma_hc_trial(x, s, q0, li, flo, i - 1);
        let prev = hc_trial(x, s, q0, li, flo, i - 1);
        let q = q0 + items_size(prev);
        lemma_items_size_lower(xs, q0, prev, li);
        if q < s {
            lemma_hc_item(x, s, q, li, flo);
            let cur = prev.push(hc_item(x, s, q, li, flo));
            assert(cur.drop_last() =~= prev);
        }
        lemma_items_size_lower(xs, q0, hc_trial(x, s, q0, li, flo, i), li);
    }
}

/// The layout chosen is one of the four.
pub proof fn lemma_hc_layout(x: Seq<u8>, s: int, q0: int, flo: int)
    ensures
        hc_layout(x, s, q0, flo) < 4,
{
}


proof fn lemma_hc_stream(x: Seq<u8>, s: int, c: Seq<u8>, q: int, f: int, k: int, w: int, d: int)
    requires
        0 <= q < s,
        x.len() == s + 2,
        0 <= w <= c.len(),
        c.subrange(w, c.len() as int) == hc_compress_from(x, s, q, f, k),
        d >= s,
    ensures
        decode_from(c, w, x.take(s).take(q), 0, 0, 0, s, d, false) == LzssDecoded::Done(x.take(s)),
    decreases s - q,
{
    let xs = x.take(s);
    let flo = f - 0x8000;
    let li = hc_layout(x, s, q, flo);
    let items = hc_packet(x, s, q, li, flo);
    let tsz = items_size(items);
    lemma_hc_layout(x, s, q, flo);
    lemma_hc_trial(x, s, q, li, flo, 30);
    let k1 = k - tsz;
    let f2 = if k1 < 0 {
        if s < f + 0x1000 {
            s
        } else {
            f + 0x1000
        }
    } else {
        f
    };
    let k2 = if k1 < 0 {
        k1 + 0x1000
    } else {
        k1
    };
    let g = group_bytes(items, li);
    let rest = hc_compress_from(x, s, q + tsz, f2, k2);
    assert(hc_compress_from(x, s, q, f, k) == g + rest);
    assert(c.subrange(w, c.len() as int).len() == c.len() - w);
    assert((g + rest).len() == g.len() + rest.len());
    assert(c.subrange(w, w + g.len()) =~= g) by {
        assert forall|r: int| 0 <= r < g.len() implies c.subrange(w, w + g.len())[r] == g[r] by {
            assert(c.subrange(w, c.len() as int)[r] == (g + rest)[r]);
        }
    }
    assert(xs.len() == s);
    lemma_decode_group(xs, c, w, q, items, li, d, 0, 0);
    if q + tsz < s {
        assert(c.subrange(w + g.len(), c.len() as int) =~= rest) by {
            assert forall|r: int| 0 <= r < rest.len() implies c.subrange(
                w + g.len(),
                c.len() as int,
            )[r] == rest[r] by {
                assert(c.subrange(w, c.len() as int)[g.len() + r] == (g + rest)[g.len() + r]);
            }
        }
        lemma_hc_stream(x, s, c, q + tsz, f2, k2, w + g.len(), d);
    }
}

/// Round trip: decoding the hash-chain encoding of the first `s` bytes of `x` (which holds
/// two bytes more), into a buffer of at least `s` bytes, stopping at `s`, gives back those
/// bytes.
pub proof fn lemma_lzss_roundtrip(x: Seq<u8>, s: int, d: int)
    requires
        0 < s,
        x.len() == s + 2,
        d >= s,
    ensures
        spec_lzss_decode(spec_lzss_compress(x, s), s, d, false) == LzssDecoded::Done(x.take(s)),
{
    let c = spec_lzss_compress(x, s);
    assert(c.subrange(0, c.len() as int) =~= c);
    lemma_hc_stream(x, s, c, 0, 0x8000, 0x7000, 0, d);
    assert(x.take(s).take(0) =~= Seq::<u8>::empty());
}


/// `v` is a right chain link for position `p`: `usize::MAX` when no earlier position has
/// `p`'s key, else the nearest earlier position that has it.
pub open spec fn chain_link_ok(x: Seq<u8>, p: int, v: usize) -> bool {
    if v == usize::MAX {
        forall|p2: int| 0 <= p2 < p ==> #[trigger] hc_key(x, p2) != hc_key(x, p)
    } else {
        &&& v < p
        &&& hc_key(x, v as int) == hc_key(x, p)
        &&& forall|p2: int| v < p2 < p ==> #[trigger] hc_key(x, p2) != hc_key(x, p)
    }
}

/// `h` is a right chain head for key `v` over the positions below `p`.
pub open spec fn chain_head_ok(x: Seq<u8>, p: int, v: int, h: usize) -> bool {
    if h == usize::MAX {
        forall|p2: int| 0 <= p2 < p ==> #[trigger] hc_key(x, p2) != v
    } else {
        &&& h < p
        &&& hc_key(x, h as int) == v
        &&& forall|p2: int| h < p2 < p ==> #[trigger] hc_key(x, p2) != v
    }
}

/// Every position below `s` has a right chain link.
pub open spec fn chains_ok(x: Seq<u8>, s: int, links: Seq<usize>) -> bool {
    &&& links.len() == s
    &&& forall|p: int| 0 <= p < s ==> chain_link_ok(x, p, #[trigger] links[p])
}

/// Links each position below `s` to the nearest earlier position with the same key.
fn hc_build_chains(buf: &[u8], s: usize) -> (links: Vec<usize>)
    requires
        s + 2 <= buf@.len(),
    ensures
        chains_ok(buf@, s as int, links@),
{
    let ghost x = buf@;
    let mut head: Vec<usize> = Vec::new();
    let mut v: usize = 0;
    while v < 0x10000
        invariant
            v <= 0x10000,
            head@.len() == v,
            forall|i: int| 0 <= i < v ==> head@[i] == usize::MAX,
        decreases 0x10000 - v,
    {
        head.push(usize::MAX);
        v = v + 1;
    }
    let mut links: Vec<usize> = Vec::new();
    let mut p: usize = 0;
    while p < s
        invariant
            p <= s,
            s + 2 <= buf@.len(),
            x == buf@,
            head@.len() == 0x10000,
            links@.len() == p,
            forall|i: int| 0 <= i < p ==> chain_link_ok(x, i, #[trigger] links@[i]),
            forall|k: int| 0 <= k < 0x10000 ==> chain_head_ok(x, p as int, k, #[trigger] head@[k]),
        decreases s - p,
    {
        let key: u16 = read_be_u16(buf, p);
        assert(key == hc_key(x, p as int));
        let h = head[key as usize];
        assert(chain_head_ok(x, p as int, key as int, h));
        links.push(h);
        head.set(key as usize, p);
        proof {
            assert forall|k: int| 0 <= k < 0x10000 implies chain_head_ok(x, p + 1, k, #[trigger] head@[k]) by {
                if k != key as int {
                    assert(chain_head_ok(x, p as int, k, head@[k]));
                }
            }
        }
        p = p + 1;
    }
    links
}

proof fn lemma_hc_skip(x: Seq<u8>, q: int, hi: int, lo2: int, lo: int, rem: int, ml: int, mp: int)
    requires
        lo <= lo2 <= hi,
        forall|p2: int| lo2 <= p2 < hi ==> #[trigger] hc_key(x, p2) != hc_key(x, q),
    ensures
        hc_best(x, q, hi, lo, rem, ml, mp) == hc_best(x, q, lo2, lo, rem, ml, mp),
    decreases hi - lo2,
{
    if hi > lo2 {
        assert(hc_key(x, hi - 1) != hc_key(x, q));
        lemma_hc_skip(x, q, hi - 1, lo2, lo, rem, ml, mp);
    }
}

/// The longest, then nearest, match for `q` in layout `li` along `q`'s chain, as
/// (length, source position); `(2, 0)` when there is none of three bytes or more.
fn hc_longest(buf: &[u8], s: usize, q: usize, li: u32, f: u64, links: &Vec<usize>) -> (r: (
    usize,
    usize,
))
    requires
        buf@.len() == s + 2,
        q < s,
        s < 0x8000_0000,
        li < 4,
        chains_ok(buf@, s as int, links@),
        hc_rem(s as int, q as int, li) >= 3,
        f < 0x1_0000_0000,
    ensures
        r.0 as int == hc_best(
            buf@,
            q as int,
            q as int,
            hc_low(q as int, li, f - 0x8000),
            hc_rem(s as int, q as int, li),
            2,
            0,
        ).0,
        r.1 as int == hc_best(
            buf@,
            q as int,
            q as int,
            hc_low(q as int, li, f - 0x8000),
            hc_rem(s as int, q as int, li),
            2,
            0,
        ).1,
{
    let ghost x = buf@;
    proof {
        if li == 0 {
            assert((0x4000u32 >> 0u32) == 0x4000 && (4u32 << 0u32) == 4) by (bit_vector);
        } else if li == 1 {
            assert((0x4000u32 >> 1u32) == 0x2000 && (4u32 << 1u32) == 8) by (bit_vector);
        } else if li == 2 {
            assert((0x4000u32 >> 2u32) == 0x1000 && (4u32 << 2u32) == 16) by (bit_vector);
        } else {
            assert((0x4000u32 >> 3u32) == 0x800 && (4u32 << 3u32) == 32) by (bit_vector);
        }
    }
    let win: usize = (0x4000u32 >> li) as usize;
    let mlen: usize = ((4u32 << li) + 2) as usize;
    let rem: usize = if mlen < s - q {
        mlen
    } else {
        s - q
    };
    let w: usize = if q < win {
        0
    } else {
        q - win
    };
    let lo: usize = if f >= 0x8000 && (f - 0x8000) as usize > w {
        (f - 0x8000) as usize
    } else {
        w
    };
    assert(lo as int == hc_low(q as int, li, f - 0x8000));
    assert(rem as int == hc_rem(s as int, q as int, li));
    let ghost target = hc_best(x, q as int, q as int, lo as int, rem as int, 2, 0);
    let mut ml: usize = 2;
    let mut mp: usize = 0;
    let mut done = false;
    let mut cur: usize = links[q];
    let ghost mut hi: int = q as int;
    assert(chain_link_ok(x, q as int, links@[q as int]));
    while !done && cur != usize::MAX && cur >= lo
        invariant
            x == buf@,
            buf@.len() == s + 2,
            q < s,
            rem >= 3,
            q + rem <= s,
            rem <= 34,
            chains_ok(x, s as int, links@),
            ml <= rem,
            mp < q || ml == 2,
            done ==> target == (ml as int, mp as int),
            !done ==> target == hc_best(x, q as int, hi, lo as int, rem as int, ml as int, mp as int),
            !done ==> hi <= q,
            !done ==> cur == usize::MAX || (cur < hi && hc_key(x, cur as int) == hc_key(x, q as int)),
            !done ==> forall|p2: int| 0 <= p2 && (cur == usize::MAX || cur < p2) && p2 < hi ==> #[trigger] hc_key(x, p2) != hc_key(x, q as int),
        decreases (if done || cur == usize::MAX { 0 } else { cur + 1 }),
    {
        proof {
            lemma_hc_skip(x, q as int, hi, cur + 1, lo as int, rem as int, ml as int, mp as int);
        }
        let ghost ml0 = ml;
        let ghost mp0 = mp;
        if buf[q + 2] == buf[cur + 2] {
            let mut j: usize = 3;
            while j < rem && buf[cur + j] == buf[q + j]
                invariant
                    3 <= j <= rem,
                    cur < q,
                    q + rem <= s,
                    buf@.len() == s + 2,
                    x == buf@,
                    hc_ext(x, q as int, cur as int, 3, rem as int) == hc_ext(
                        x,
                        q as int,
                        cur as int,
                        j as int,
                        rem as int,
                    ),
                decreases rem - j,
            {
                j = j + 1;
            }
            assert(hc_ext(x, q as int, cur as int, j as int, rem as int) == j);
            if ml < j {
                if j == rem {
                    ml = rem;
                    mp = cur;
                    done = true;
                } else {
                    ml = j;
                    mp = cur;
                }
            }
        }
        if !done {
            let next = links[cur];
            proof {
                assert(chain_link_ok(x, cur as int, links@[cur as int]));
                hi = cur as int;
            }
            cur = next;
        }
    }
    proof {
        if !done {
            let lo2 = lo as int;
            if cur != usize::MAX {
                assert(cur < lo);
            }
            if lo2 <= hi {
                lemma_hc_skip(x, q as int, hi, lo2, lo as int, rem as int, ml as int, mp as int);
            }
        }
    }
    (ml, mp)
}


/// The packet of layout `li` at `q0`: its items, whether it holds thirty items and stops
/// short of the end, and how many input bytes it packs.
fn hc_encode_packet(buf: &[u8], s: usize, q0: usize, li: u32, f: u64, links: &Vec<usize>) -> (r: (
    Vec<LzItem>,
    bool,
    usize,
))
    requires
        buf@.len() == s + 2,
        q0 < s,
        s < 0x8000_0000,
        li < 4,
        chains_ok(buf@, s as int, links@),
        f < 0x1_0000_0000,
    ensures
        r.0@ == hc_packet(buf@, s as int, q0 as int, li, f - 0x8000),
        r.1 == hc_full(buf@, s as int, q0 as int, li, f - 0x8000),
        r.2 as int == items_size(r.0@),
{
    let ghost x = buf@;
    let ghost flo = f - 0x8000;
    proof {
        if li == 0 {
            assert((4u32 << 0u32) == 4) by (bit_vector);
        } else if li == 1 {
            assert((4u32 << 1u32) == 8) by (bit_vector);
        } else if li == 2 {
            assert((4u32 << 2u32) == 16) by (bit_vector);
        } else {
            assert((4u32 << 3u32) == 32) by (bit_vector);
        }
    }
    let mlen: usize = ((4u32 << li) + 2) as usize;
    assert(mlen as int == lz_max_len(li));
    let mut items: Vec<LzItem> = Vec::new();
    let mut q: usize = q0;
    let mut i: usize = 0;
    assert(hc_trial(x, s as int, q0 as int, li, flo, 0) =~= Seq::<LzItem>::empty());
    while i < 30
        invariant
            x == buf@,
            buf@.len() == s + 2,
            q0 < s,
            s < 0x8000_0000,
            li < 4,
            mlen as int == lz_max_len(li),
            chains_ok(x, s as int, links@),
            f < 0x1_0000_0000,
            flo == f - 0x8000,
            i <= 30,
            items@ == hc_trial(x, s as int, q0 as int, li, flo, i as int),
            q as int == q0 + items_size(items@),
            q0 <= q <= s,
        decreases 30 - i,
    {
        proof {
            lemma_hc_trial(x, s as int, q0 as int, li, flo, i as int);
            lemma_hc_trial(x, s as int, q0 as int, li, flo, i + 1);
        }
        let ghost prev = items@;
        if q < s {
            let rem: usize = if mlen < s - q {
                mlen
            } else {
                s - q
            };
            assert(rem as int == hc_rem(s as int, q as int, li));
            let it = if rem <= 2 {
                LzItem::Literal(buf[q])
            } else {
                let (ml, mp) = hc_longest(buf, s, q, li, f, links);
                if ml == 2 {
                    LzItem::Literal(buf[q])
                } else {
                    proof {
                        lemma_hc_best(x, q as int, q as int, hc_low(q as int, li, flo), rem as int, 2, 0);
                    }
                    LzItem::Match(ml as u32, (q - mp) as u32)
                }
            };
            assert(it == hc_item(x, s as int, q as int, li, flo));
            items.push(it);
            assert(items@.drop_last() =~= prev);
            let sz: usize = match it {
                LzItem::Literal(_) => 1,
                LzItem::Match(l, _) => l as usize,
            };
            q = q + sz;
        } else {
            assert(hc_trial(x, s as int, q0 as int, li, flo, i + 1) == prev);
        }
        i = i + 1;
    }
    let full = q < s;
    (items, full, q - q0)
}

/// Writes a group: its flags with layout `li`, then its items, as a cursor over the buffer
/// does from `w` on.
fn hc_emit_group(items: &Vec<LzItem>, li: u32, out: &mut [u8], w: usize) -> (r: Result<
    usize,
    LzError,
>)
    requires
        w <= old(out)@.len(),
        li < 4,
        items@.len() <= 30,
        forall|i: int|
            0 <= i < items@.len() ==> (#[trigger] items@[i] matches LzItem::Match(l, d) ==> 3
                <= l <= lz_max_len(li) && 1 <= d <= lz_window(li)),
    ensures
        put_result(old(out)@, final(out)@, w as int, group_bytes(items@, li), r),
{
    let ghost before = out@;
    let ghost g = group_bytes(items@, li);
    let mut flag: u32 = 0;
    let n = items.len();
    let mut i: usize = 0;
    assert(items@.take(0) =~= Seq::<LzItem>::empty());
    while i < n
        invariant
            n == items@.len(),
            n <= 30,
            i <= n,
            flag == items_flag(items@.take(i as int)),
        decreases n - i,
    {
        let ghost a = items@.take(i + 1);
        assert(a.drop_last() =~= items@.take(i as int));
        assert(a.last() == items@[i as int]);
        match items[i] {
            LzItem::Match(_, _) => {
                assert((0x8000_0000u32 >> (i as u32)) == (1u32 << ((31 - i) as u32))) by (bit_vector)
                    requires
                        i < 30,
                ;
                flag = flag | (0x8000_0000u32 >> (i as u32));
            },
            LzItem::Literal(_) => {},
        }
        i = i + 1;
    }
    assert(items@.take(n as int) =~= items@);
    let mut cpos = match put_be_u32(out, w, flag | li) {
        Ok(c) => c,
        Err(e) => {
            assert(g.take(before.len() - w) =~= be32_bytes(flag | li).take(before.len() - w));
            return Err(e);
        },
    };
    let ghost fb = be32_bytes(flag | li);
    let mut i: usize = 0;
    assert(items_bytes(items@.take(0), li) =~= Seq::<u8>::empty());
    assert(out@ =~= before.take(w as int) + fb + items_bytes(items@.take(0), li) + before.skip(cpos as int));
    while i < n
        invariant
            n == items@.len(),
            n <= 30,
            i <= n,
            li < 4,
            w <= before.len(),
            before == old(out)@,
            out@.len() == before.len(),
            g == group_bytes(items@, li),
            fb == be32_bytes(flag | li),
            g == fb + items_bytes(items@, li),
            cpos as int == w + 4 + items_bytes(items@.take(i as int), li).len(),
            cpos <= before.len(),
            out@ == before.take(w as int) + fb + items_bytes(items@.take(i as int), li) + before.skip(
                cpos as int,
            ),
            forall|k: int|
                0 <= k < items@.len() ==> (#[trigger] items@[k] matches LzItem::Match(l, d) ==> 3
                    <= l <= lz_max_len(li) && 1 <= d <= lz_window(li)),
        decreases n - i,
    {
        let ghost a = items@.take(i + 1);
        let ghost ibi = items_bytes(items@.take(i as int), li);
        proof {
            assert(a.drop_last() =~= items@.take(i as int));
            assert(a.last() == items@[i as int]);
            lemma_items_bytes_prefix(items@, li, i + 1);
        }
        let ghost ib = item_bytes(items@[i as int], li);
        assert(items_bytes(a, li) == ibi + ib);
        let ghost mid = out@;
        let res = match items[i] {
            LzItem::Literal(byte) => put_u8(out, cpos, byte),
            LzItem::Match(l, d) => {
                proof {
                    lemma_item_bounds_chain(l, d, li);
                    lemma_bv_code_plus((l - 3) as u32, (d - 1) as u32, li);
                }
                let code: u16 = (((l - 3) << (14 - li)) + (d - 1)) as u16;
                assert(code == item_code(l, d, li));
                put_be_u16(out, cpos, code)
            },
        };
        match res {
            Ok(c2) => {
                assert(out@ =~= before.take(w as int) + fb + items_bytes(a, li) + before.skip(c2 as int));
                cpos = c2;
            },
            Err(e) => {
                proof {
                    let ia = items_bytes(items@, li);
                    let ab = items_bytes(a, li);
                    let bl = before.len() as int;
                    assert(ia.take(ab.len() as int) == ab);
                    assert(ia.take(bl - w - 4) =~= ab.take(bl - w - 4));
                    assert(g.take(bl - w) =~= fb + ia.take(bl - w - 4));
                    assert(ab.take(bl - w - 4) =~= ibi + ib.take(bl - cpos));
                    assert(g.take(bl - w) =~= fb + ibi + ib.take(bl - cpos));
                    assert(out@ =~= before.take(w as int) + g.take(before.len() - w));
                }
                return Err(e);
            },
        }
        i = i + 1;
    }
    assert(items@.take(n as int) =~= items@);
    assert(out@ =~= crate::bytes::spliced(before, w as int, g));
    Ok(cpos)
}

proof fn lemma_item_bounds_chain(l: u32, d: u32, t: u32)
    requires
        t < 4,
        3 <= l <= lz_max_len(t),
        1 <= d <= lz_window(t),
    ensures
        ((l - 3) as u32) < (4u32 << t),
        ((d - 1) as u32) < (0x4000u32 >> t),
{
    if t == 0 {
        assert((4u32 << 0u32) == 4 && (0x4000u32 >> 0u32) == 0x4000) by (bit_vector);
    } else if t == 1 {
        assert((4u32 << 1u32) == 8 && (0x4000u32 >> 1u32) == 0x2000) by (bit_vector);
    } else if t == 2 {
        assert((4u32 << 2u32) == 16 && (0x4000u32 >> 2u32) == 0x1000) by (bit_vector);
    } else {
        assert((4u32 << 3u32) == 32 && (0x4000u32 >> 3u32) == 0x800) by (bit_vector);
    }
}

proof fn lemma_bv_code_plus(l3: u32, d1: u32, t: u32)
    requires
        t < 4,
        l3 < (4u32 << t),
        d1 < (0x4000u32 >> t),
    ensures
        (l3 << (14 - t) as u32) as int + d1 as int <= 0xffff,
        ((l3 << (14 - t) as u32) + d1) as u16 == ((l3 << (14 - t) as u32) | d1) as u16,
{
    assert((l3 << (14 - t) as u32) as int + d1 as int <= 0xffff && ((l3 << (14 - t) as u32) + d1) as u16
        == ((l3 << (14 - t) as u32) | d1) as u16) by (bit_vector)
        requires
            t < 4,
            l3 < (4u32 << t),
            d1 < (0x4000u32 >> t),
    ;
}


/// How a call of the hash-chain encoder ends, given the whole stream `full`: `before` and
/// `after` are the output buffer before and after the call.
pub open spec fn chain_result_matches(
    full: Seq<u8>,
    r: Result<usize, LzError>,
    before: Seq<u8>,
    after: Seq<u8>,
) -> bool {
    if full.len() <= before.len() {
        r == Ok::<usize, LzError>(full.len() as usize) && after == full + before.skip(
            full.len() as int,
        )
    } else {
        r == Err::<usize, LzError>(LzError::WriteZero) && after == full.take(before.len() as int)
    }
}

/// Encodes the first `uncompressed_buffer_size` bytes of `uncompressed_buffer` (which holds
/// two bytes more, so that every position has a two-byte key) with the hash-chain LZSS
/// encoder into `compressed_buffer`, and returns the stream's length; when the buffer fills
/// up, the call ends with `LzError::WriteZero`, the bytes that fit written.
#[verifier::spinoff_prover]
#[verifier::rlimit(40)]
pub fn lzss_compress(
    uncompressed_buffer: &[u8],
    uncompressed_buffer_size: usize,
    compressed_buffer: &mut [u8],
    _compressed_buffer_size: usize,
) -> (r: Result<usize, LzError>)
    requires
        uncompressed_buffer@.len() == uncompressed_buffer_size + 2,
        uncompressed_buffer_size < 0x8000_0000,
    ensures
        chain_result_matches(
            spec_lzss_compress(uncompressed_buffer@, uncompressed_buffer_size as int),
            r,
            old(compressed_buffer)@,
            final(compressed_buffer)@,
        ),
{
    let s = uncompressed_buffer_size;
    let ghost x = uncompressed_buffer@;
    let ghost full = spec_lzss_compress(x, s as int);
    let ghost before = compressed_buffer@;
    let b = compressed_buffer.len();
    let links = hc_build_chains(uncompressed_buffer, s);
    let mut q: usize = 0;
    let mut f: u64 = 0x8000;
    let mut k: i64 = 0x7000;
    let mut cpos: usize = 0;
    assert(compressed_buffer@.take(0) + hc_compress_from(x, s as int, 0, 0x8000, 0x7000) =~= full);
    while q < s
        invariant
            s == uncompressed_buffer_size,
            x == uncompressed_buffer@,
            x.len() == s + 2,
            s < 0x8000_0000,
            chains_ok(x, s as int, links@),
            full == spec_lzss_compress(x, s as int),
            before == old(compressed_buffer)@,
            b == before.len(),
            b == compressed_buffer@.len(),
            q <= s,
            cpos <= b,
            f < 0x1_0000_0000,
            f <= 0x9000 || f <= s,
            0 <= k <= 0x7000,
            full == compressed_buffer@.take(cpos as int) + hc_compress_from(
                x,
                s as int,
                q as int,
                f as int,
                k as int,
            ),
            compressed_buffer@.skip(cpos as int) == before.skip(cpos as int),
        decreases s - q,
    {
        let ghost flo = f - 0x8000;
        let (p3, full3, t3) = hc_encode_packet(uncompressed_buffer, s, q, 3, f, &links);
        let len: u32;
        let chosen: Vec<LzItem>;
        let total: usize;
        if !(full3 && t3 <= 540) {
            len = 3;
            chosen = p3;
            total = t3;
        } else {
            let (p2, full2, t2) = hc_encode_packet(uncompressed_buffer, s, q, 2, f, &links);
            if !full2 {
                len = 2;
                chosen = p2;
                total = t2;
            } else {
                let (l, tl, pl) = if t2 <= t3 {
                    (3u32, t3, p3)
                } else {
                    (2u32, t2, p2)
                };
                if tl > 300 {
                    len = l;
                    chosen = pl;
                    total = tl;
                } else {
                    let (p1, full1, t1) = hc_encode_packet(uncompressed_buffer, s, q, 1, f, &links);
                    if !full1 {
                        len = 1;
                        chosen = p1;
                        total = t1;
                    } else {
                        let (l2, tl2, pl2) = if t1 > tl {
                            (1u32, t1, p1)
                        } else {
                            (l, tl, pl)
                        };
                        if tl2 <= 180 {
                            let (p0, _full0, t0) = hc_encode_packet(
                                uncompressed_buffer,
                                s,
                                q,
                                0,
                                f,
                                &links,
                            );
                            if t0 >= tl2 {
                                len = 0;
                                chosen = p0;
                                total = t0;
                            } else {
                                len = l2;
                                chosen = pl2;
                                total = tl2;
                            }
                        } else {
                            len = l2;
                            chosen = pl2;
                            total = tl2;
                        }
                    }
                }
            }
        }
        assert(len == hc_layout(x, s as int, q as int, flo));
        assert(chosen@ == hc_packet(x, s as int, q as int, len, flo));
        let ghost items = chosen@;
        let ghost g = group_bytes(items, len);
        proof {
            lemma_hc_layout(x, s as int, q as int, flo);
            lemma_hc_trial(x, s as int, q as int, len, flo, 30);
            lemma_items_size_upper(x.take(s as int), q as int, items, len);
            assert forall|i: int|
                0 <= i < items.len() implies (#[trigger] items[i] matches LzItem::Match(l, d) ==> 3
                <= l <= lz_max_len(len) && 1 <= d <= lz_window(len)) by {
                lemma_items_prefix(x.take(s as int), q as int, items, len, i + 1);
                let a = items.take(i + 1);
                assert(a.drop_last() =~= items.take(i));
                assert(a.last() == items[i]);
            }
        }
        let ghost rest_q = (q + total) as int;
        let ghost k1 = k - total;
        let ghost f2 = if k1 < 0 {
            if s < f + 0x1000 {
                s as int
            } else {
                f + 0x1000
            }
        } else {
            f as int
        };
        let ghost k2 = if k1 < 0 {
            k1 + 0x1000
        } else {
            k1
        };
        let ghost rest = hc_compress_from(x, s as int, rest_q, f2, k2);
        assert(hc_compress_from(x, s as int, q as int, f as int, k as int) == g + rest);
        let ghost prev = compressed_buffer@;
        match hc_emit_group(&chosen, len, compressed_buffer, cpos) {
            Ok(c2) => {
                proof {
                    assert(compressed_buffer@.take(c2 as int) =~= prev.take(cpos as int) + g);
                    assert(full =~= compressed_buffer@.take(c2 as int) + rest);
                    assert(compressed_buffer@.skip(c2 as int) =~= before.skip(c2 as int)) by {
                        assert forall|r: int| 0 <= r < b - c2 implies compressed_buffer@.skip(
                            c2 as int,
                        )[r] == before.skip(c2 as int)[r] by {
                            assert(prev.skip(cpos as int)[c2 - cpos + r] == before.skip(
                                cpos as int,
                            )[c2 - cpos + r]);
                        }
                    }
                }
                cpos = c2;
            },
            Err(e) => {
                proof {
                    assert(full.len() > b);
                    assert(full.take(b as int) =~= prev.take(cpos as int) + g.take(b - cpos));
                }
                return Err(e);
            },
        }
        q = q + total;
        k = k - total as i64;
        if k < 0 {
            let window_size_1: u64 = if (s as u64) < f + 0x1000 {
                s as u64
            } else {
                f + 0x1000
            };
            f = window_size_1;
            k = k + 0x1000;
        }
    }
    proof {
        assert(hc_compress_from(x, s as int, q as int, f as int, k as int) == Seq::<u8>::empty());
        assert(full =~= compressed_buffer@.take(cpos as int));
        assert(compressed_buffer@ =~= full + before.skip(cpos as int));
    }
    Ok(cpos)
}


/// The hash-chain encoder's output from `q` on takes at most the bytes it stands for and
/// four flag bytes for every thirty of them (rounded up).
pub proof fn lemma_hc_output_bound(x: Seq<u8>, s: int, q: int, f: int, k: int)
    requires
        0 <= q <= s,
        x.len() == s + 2,
    ensures
        hc_compress_from(x, s, q, f, k).len() <= (s - q) + 4 * ((s - q + 29) / 30),
    decreases s - q,
{
    if q < s {
        let flo = f - 0x8000;
        let li = hc_layout(x, s, q, flo);
        let items = hc_packet(x, s, q, li, flo);
        lemma_hc_layout(x, s, q, flo);
        lemma_hc_trial(x, s, q, li, flo, 30);
        lemma_group_bytes_bound(x.take(s), q, items, li);
        let g = items_size(items);
        let k1 = k - g;
        let f2 = if k1 < 0 {
            if s < f + 0x1000 {
                s
            } else {
                f + 0x1000
            }
        } else {
            f
        };
        let k2 = if k1 < 0 {
            k1 + 0x1000
        } else {
            k1
        };
        lemma_hc_output_bound(x, s, q + g, f2, k2);
        lemma_output_bound_step(s - q, g, group_bytes(items, li).len() as int, hc_compress_from(x, s, q + g, f2, k2).len() as int);
    }
}

/// The hash-chain encoding of the first `s` bytes of `x` takes at most `s + 4⌈s/30⌉` bytes.
pub proof fn lemma_lzss_size(x: Seq<u8>, s: int)
    requires
        0 <= s,
        x.len() == s + 2,
    ensures
        spec_lzss_compress(x, s).len() <= s + 4 * ((s + 29) / 30),
{
    lemma_hc_output_bound(x, s, 0, 0x8000, 0x7000);
}

} // verus!
