//! Laws of the block schedule: what the blocks of a channel are in terms of its
//! input alone, and how the input may be cut up without changing them.
use crate::channel::{
    close_column, drained, feed, flowed, fresh, lemma_feed_well_formed, padding, silence,
    BlockView, Geometry, Schedule,
};
use vstd::arithmetic::div_mod::{
    lemma_div_is_ordered, lemma_fundamental_div_mod, lemma_fundamental_div_mod_converse,
};
use vstd::prelude::*;

verus! {

/// Feeding one stretch of samples after another is feeding them at once.
pub proof fn law_flow_in_pieces(s: Schedule, a: Seq<i32>, b: Seq<i32>)
    ensures
        flowed(s, a + b).0 == flowed(flowed(s, a).0, b).0,
        flowed(s, a + b).1 == flowed(s, a).1 + flowed(flowed(s, a).0, b).1,
    decreases b.len(),
{
    if b.len() == 0 {
        assert(a + b =~= a);
        assert(flowed(s, a).1 + Seq::<BlockView>::empty() =~= flowed(s, a).1);
    } else {
        law_flow_in_pieces(s, a, b.drop_last());
        assert((a + b).drop_last() =~= a + b.drop_last());
        assert((a + b).last() == b.last());
        let mid = flowed(s, a).0;
        let (t, blocks) = flowed(mid, b.drop_last());
        let more = feed(t, b.last()).1;
        assert(flowed(s, a).1 + blocks + more =~= flowed(s, a).1 + (blocks + more));
    }
}

/// The samples that are left of the input once the leading ones are left out.
pub open spec fn heard(geom: Geometry, xs: Seq<i32>) -> Seq<i32> {
    if xs.len() <= geom.skip {
        Seq::empty()
    } else {
        xs.skip(geom.skip as int)
    }
}

/// Hops that `n` samples complete when the image has room for all their columns.
pub open spec fn hops(geom: Geometry, n: int) -> int {
    if n < geom.margin() {
        0
    } else {
        (n - geom.margin()) / (geom.step_size as int)
    }
}

/// Hops after which a channel stops: those of all the columns that the image has
/// room for and of one more.
pub open spec fn last_hop(geom: Geometry) -> int {
    (geom.x_size + 1) * geom.block_steps
}

/// The frame of hop `k`: the samples from `k` hops on, moved right by the lead,
/// with silence before the first sample and after the last.
pub open spec fn frame_at(geom: Geometry, xs: Seq<i32>, k: int) -> Seq<i32> {
    Seq::new(
        geom.dft_size as nat,
        |j: int|
            {
                let p = k * geom.step_size + j - geom.lead();
                if 0 <= p < xs.len() {
                    xs[p]
                } else {
                    0i32
                }
            },
    )
}

/// Samples that the window of hop `k` reaches before the start of the input.
pub open spec fn reach_at(geom: Geometry, k: int) -> int {
    if geom.lead() > k * geom.step_size {
        geom.lead() - k * geom.step_size
    } else {
        0
    }
}

/// Samples that the frame of hop `k` reaches beyond an input of `n` samples.
pub open spec fn overrun_at(geom: Geometry, n: int, k: int) -> int {
    (k + 1) * geom.step_size + geom.margin() - n
}

/// The `end` of the window of hop `k`, for an input of `n` samples: how far the
/// window reaches before the input (positive) while the input lasts, and how far
/// beyond it (negative) for the hops that the trailing zeros complete.
pub open spec fn end_at(geom: Geometry, n: int, k: int) -> int {
    if k < hops(geom, n) {
        reach_at(geom, k)
    } else if overrun_at(geom, n, k) > geom.dft_size {
        -geom.dft_size
    } else {
        -overrun_at(geom, n, k)
    }
}

/// The window that hop `k` has to have built: none when the last one will do.
pub open spec fn window_at(geom: Geometry, n: int, k: int) -> Option<int> {
    let before = if k == 0 {
        0
    } else {
        end_at(geom, n, k - 1)
    };
    if end_at(geom, n, k) != before {
        Some(end_at(geom, n, k))
    } else {
        None
    }
}

/// Whether hop `k` completes a column that the image has room for.
pub open spec fn column_at(geom: Geometry, k: int) -> bool {
    let bs = geom.block_steps as int;
    (k + 1) % bs == 0 && (k + 1) / bs != geom.x_size + 1
}

/// The block of hop `k` of an input `xs` that may have ended before it.
pub open spec fn block_at(geom: Geometry, xs: Seq<i32>, k: int) -> BlockView {
    BlockView {
        frame: frame_at(geom, xs, k),
        window: window_at(geom, xs.len() as int, k),
        column: column_at(geom, k),
    }
}

/// How the counters and the frames of a channel follow from the samples it has
/// heard.
spec fn framed(geom: Geometry, ys: Seq<i32>, s: Schedule, blocks: Seq<BlockView>) -> bool {
    let b = blocks.len() as int;
    &&& s.geom == geom
    &&& s.buf.len() == geom.dft_size
    &&& s.cols * geom.block_steps + s.block_num == b
    &&& 0 <= s.cols
    &&& (geom.x_size >= 0 ==> s.cols <= geom.x_size)
    &&& forall|k: int|
        0 <= k < b ==> (#[trigger] blocks[k]).frame == frame_at(geom, ys, k) && blocks[k].column
            == column_at(geom, k)
    &&& if s.truncated {
        &&& s.cols == geom.x_size
        &&& s.block_num == geom.block_steps
        &&& b * geom.step_size + geom.margin() <= ys.len()
    } else {
        &&& 0 <= s.block_num < geom.block_steps
        &&& b * geom.step_size + geom.margin() + s.read == ys.len()
        &&& s.read < geom.step_size
        &&& b > 0 ==> 0 <= s.read
        &&& forall|j: int|
            0 <= j < geom.dft_size - geom.step_size + s.read ==> #[trigger] s.buf[j] == frame_at(
                geom,
                ys,
                b,
            )[j]
    }
}

/// Frames that are complete do not change when a further sample arrives.
proof fn lemma_frame_extends(geom: Geometry, ys: Seq<i32>, y: i32, k: int)
    requires
        geom.well_formed(),
        0 <= k,
        (k + 1) * geom.step_size + geom.margin() <= ys.len(),
    ensures
        frame_at(geom, ys.push(y), k) == frame_at(geom, ys, k),
{
    assert((k + 1) * geom.step_size == k * geom.step_size + geom.step_size) by (nonlinear_arith);
    assert(frame_at(geom, ys.push(y), k) =~= frame_at(geom, ys, k));
}

/// One more sample keeps counters and frames as they should be.
proof fn lemma_feed_framed(
    geom: Geometry,
    ys: Seq<i32>,
    y: i32,
    s: Schedule,
    blocks: Seq<BlockView>,
)
    requires
        geom.well_formed(),
        framed(geom, ys, s, blocks),
        s.skip == 0,
    ensures
        framed(geom, ys.push(y), feed(s, y).0, blocks + feed(s, y).1),
        feed(s, y).0.skip == 0,
{
    let b = blocks.len() as int;
    let step = geom.step_size as int;
    let zs = ys.push(y);
    assert forall|k: int| 0 <= k < b implies frame_at(geom, zs, k) == frame_at(geom, ys, k) by {
        assert((k + 1) * step <= b * step) by (nonlinear_arith)
            requires
                k + 1 <= b,
                step >= 1,
        ;
        lemma_frame_extends(geom, ys, y, k);
    }
    let (u, more) = feed(s, y);
    if s.truncated {
        assert(blocks + more =~= blocks);
    } else {
        let t = Schedule {
            buf: s.buf.update(geom.dft_size - step + s.read, y),
            read: s.read + 1,
            end: s.end - 1,
            ..s
        };
        assert(b == 0 ==> b * step == 0) by (nonlinear_arith);
        assert forall|j: int| 0 <= j < geom.dft_size - step + t.read implies #[trigger] t.buf[j]
            == frame_at(geom, zs, b)[j] by {
            if j < geom.dft_size - step + s.read {
                assert(s.buf[j] == frame_at(geom, ys, b)[j]);
            }
        }
        if t.read < step {
            assert(blocks + more =~= blocks);
        } else {
            let bs = geom.block_steps as int;
            let all = blocks + more;
            assert(t.buf =~= frame_at(geom, zs, b));
            assert((b + 1) * step == b * step + step) by (nonlinear_arith);
            assert((s.cols + 1) * bs == s.cols * bs + bs) by (nonlinear_arith);
            if s.block_num + 1 == bs {
                lemma_fundamental_div_mod_converse(b + 1, bs, s.cols + 1, 0);
            } else {
                lemma_fundamental_div_mod_converse(b + 1, bs, s.cols, s.block_num + 1);
            }
            assert forall|k: int| 0 <= k < all.len() implies (#[trigger] all[k]).frame == frame_at(
                geom,
                zs,
                k,
            ) && all[k].column == column_at(geom, k) by {
                if k < b {
                    assert(all[k] == blocks[k]);
                }
            }
            if !u.truncated {
                assert forall|j: int| 0 <= j < geom.dft_size - step implies #[trigger] u.buf[j]
                    == frame_at(geom, zs, b + 1)[j] by {
                    assert(u.buf[j] == t.buf[j + step]);
                }
            }
        }
    }
}

/// Hops made so far, told from the counters.
proof fn lemma_hop_count(geom: Geometry, ys: Seq<i32>, s: Schedule, blocks: Seq<BlockView>)
    requires
        geom.well_formed(),
        framed(geom, ys, s, blocks),
    ensures
        s.truncated == (geom.x_size >= 0 && hops(geom, ys.len() as int) >= last_hop(geom)),
        blocks.len() == if s.truncated {
            last_hop(geom)
        } else {
            hops(geom, ys.len() as int)
        },
{
    let b = blocks.len() as int;
    let step = geom.step_size as int;
    let bs = geom.block_steps as int;
    let n = ys.len() as int;
    assert((geom.x_size + 1) * bs == geom.x_size * bs + bs) by (nonlinear_arith);
    assert(b * step >= 0) by (nonlinear_arith)
        requires
            b >= 0,
            step >= 1,
    ;
    if s.truncated {
        lemma_fundamental_div_mod_converse(b * step, step, b, 0);
        lemma_div_is_ordered(b * step, n - geom.margin(), step);
    } else {
        assert(b == 0 ==> b * step == 0) by (nonlinear_arith);
        if n >= geom.margin() {
            lemma_fundamental_div_mod_converse(n - geom.margin(), step, b, s.read);
        }
        if geom.x_size >= 0 {
            assert(s.cols * bs <= geom.x_size * bs) by (nonlinear_arith)
                requires
                    s.cols <= geom.x_size,
                    bs >= 1,
            ;
        }
    }
}

/// The windows of the blocks made so far, for an input of `n` samples.
spec fn windows_follow(geom: Geometry, n: int, blocks: Seq<BlockView>) -> bool {
    forall|k: int| 0 <= k < blocks.len() ==> (#[trigger] blocks[k]).window == window_at(geom, n, k)
}

/// `end` while the input lasts: `n` samples have been heard.
spec fn at_input(geom: Geometry, n: int, s: Schedule, b: int) -> bool {
    &&& s.end_min == 0
    &&& s.last_end == if b == 0 {
        0
    } else {
        reach_at(geom, b - 1)
    }
    &&& !s.truncated ==> s.end == if b == 0 {
        geom.dft_size - n
    } else {
        reach_at(geom, b - 1) - s.read
    }
}

/// `end` once the input of `n` samples is over: `m` samples have been heard.
spec fn at_tail(geom: Geometry, n: int, m: int, s: Schedule, b: int) -> bool {
    &&& s.end_min == -geom.dft_size
    &&& hops(geom, n) <= b
    &&& s.last_end == if b == 0 {
        0
    } else {
        end_at(geom, n, b - 1)
    }
    &&& !s.truncated ==> s.end == if b == hops(geom, n) {
        n - m
    } else {
        end_at(geom, n, b - 1) - s.read
    }
}

/// One more sample of the input keeps the windows as they should be.
proof fn lemma_feed_input(
    geom: Geometry,
    ys: Seq<i32>,
    y: i32,
    s: Schedule,
    blocks: Seq<BlockView>,
)
    requires
        geom.well_formed(),
        framed(geom, ys, s, blocks),
        s.skip == 0,
        at_input(geom, ys.len() as int, s, blocks.len() as int),
        windows_follow(geom, ys.len() as int, blocks),
    ensures
        framed(geom, ys.push(y), feed(s, y).0, blocks + feed(s, y).1),
        feed(s, y).0.skip == 0,
        at_input(
            geom,
            ys.len() as int + 1,
            feed(s, y).0,
            (blocks + feed(s, y).1).len() as int,
        ),
        windows_follow(geom, ys.len() as int + 1, blocks + feed(s, y).1),
{
    let n = ys.len() as int;
    let b = blocks.len() as int;
    let step = geom.step_size as int;
    let (u, more) = feed(s, y);
    let all = blocks + more;
    lemma_feed_framed(geom, ys, y, s, blocks);
    lemma_hop_count(geom, ys, s, blocks);
    lemma_hop_count(geom, ys.push(y), u, all);
    assert(b == 0 ==> b * step == 0) by (nonlinear_arith);
    assert((b + 1) * step == b * step + step) by (nonlinear_arith);
    assert(b > 0 ==> (b - 1) * step == b * step - step) by (nonlinear_arith);
    assert forall|k: int| 0 <= k < all.len() implies (#[trigger] all[k]).window == window_at(
        geom,
        n + 1,
        k,
    ) by {
        if k < b {
            assert(all[k] == blocks[k]);
        }
    }
}

/// One more trailing zero keeps the windows as they should be.
proof fn lemma_feed_tail(
    geom: Geometry,
    n: int,
    ys: Seq<i32>,
    y: i32,
    s: Schedule,
    blocks: Seq<BlockView>,
)
    requires
        geom.well_formed(),
        0 <= n <= ys.len(),
        framed(geom, ys, s, blocks),
        s.skip == 0,
        at_tail(geom, n, ys.len() as int, s, blocks.len() as int),
        windows_follow(geom, n, blocks),
    ensures
        framed(geom, ys.push(y), feed(s, y).0, blocks + feed(s, y).1),
        feed(s, y).0.skip == 0,
        at_tail(
            geom,
            n,
            ys.len() as int + 1,
            feed(s, y).0,
            (blocks + feed(s, y).1).len() as int,
        ),
        windows_follow(geom, n, blocks + feed(s, y).1),
{
    let b = blocks.len() as int;
    let step = geom.step_size as int;
    let (u, more) = feed(s, y);
    let all = blocks + more;
    lemma_feed_framed(geom, ys, y, s, blocks);
    assert(b == 0 ==> b * step == 0) by (nonlinear_arith);
    assert((b + 1) * step == b * step + step) by (nonlinear_arith);
    assert forall|k: int| 0 <= k < all.len() implies (#[trigger] all[k]).window == window_at(
        geom,
        n,
        k,
    ) by {
        if k < b {
            assert(all[k] == blocks[k]);
        }
    }
}

/// The state of a channel follows from what it has heard.
proof fn lemma_flow_input(geom: Geometry, xs: Seq<i32>)
    requires
        geom.well_formed(),
    ensures
        ({
            let (s, blocks) = flowed(fresh(geom), xs);
            let ys = heard(geom, xs);
            &&& s.skip == if xs.len() <= geom.skip {
                geom.skip - xs.len()
            } else {
                0
            }
            &&& framed(geom, ys, s, blocks)
            &&& at_input(geom, ys.len() as int, s, blocks.len() as int)
            &&& windows_follow(geom, ys.len() as int, blocks)
        }),
    decreases xs.len(),
{
    let (s, blocks) = flowed(fresh(geom), xs);
    if xs.len() == 0 {
        assert(0 * geom.block_steps == 0 && 0 * geom.step_size == 0);
    } else {
        let init = xs.drop_last();
        lemma_flow_input(geom, init);
        let (t, had) = flowed(fresh(geom), init);
        if init.len() < geom.skip {
            lemma_hop_count(geom, heard(geom, init), t, had);
            if geom.x_size >= 0 {
                assert((geom.x_size + 1) * geom.block_steps >= 1) by (nonlinear_arith)
                    requires
                        geom.x_size >= 0,
                        geom.block_steps >= 1,
                ;
                lemma_fundamental_div_mod_converse(0, geom.step_size as int, 0, 0);
            }
            assert(heard(geom, xs) =~= heard(geom, init));
            assert(had + Seq::<BlockView>::empty() =~= had);
        } else {
            assert(heard(geom, xs) =~= heard(geom, init).push(xs.last()));
            lemma_feed_input(geom, heard(geom, init), xs.last(), t, had);
        }
    }
}

/// While the input lasts, the blocks of a channel are the frames of the samples
/// heard, hop by hop, each with the window it needs and the column it completes;
/// once the image has had one column too many, the channel stops.
pub proof fn law_blocks_are_frames(geom: Geometry, xs: Seq<i32>)
    requires
        geom.well_formed(),
    ensures
        ({
            let (s, blocks) = flowed(fresh(geom), xs);
            let ys = heard(geom, xs);
            let made = hops(geom, ys.len() as int);
            &&& s.truncated == (geom.x_size >= 0 && made >= last_hop(geom))
            &&& blocks.len() == if s.truncated {
                last_hop(geom)
            } else {
                made
            }
            &&& forall|k: int| 0 <= k < blocks.len() ==> #[trigger] blocks[k] == block_at(geom, ys, k)
        }),
{
    let (s, blocks) = flowed(fresh(geom), xs);
    let ys = heard(geom, xs);
    lemma_flow_input(geom, xs);
    lemma_hop_count(geom, ys, s, blocks);
}

/// Leading samples left out might as well not be there: the blocks are those of
/// the rest of the input.
pub proof fn law_skip_leaves_out_samples(geom: Geometry, xs: Seq<i32>)
    requires
        geom.well_formed(),
    ensures
        flowed(fresh(geom), xs).1 == flowed(
            fresh(Geometry { skip: 0, ..geom }),
            heard(geom, xs),
        ).1,
{
    let whole = Geometry { skip: 0, ..geom };
    let ys = heard(geom, xs);
    law_blocks_are_frames(geom, xs);
    law_blocks_are_frames(whole, ys);
    assert(heard(whole, ys) =~= ys);
    let a = flowed(fresh(geom), xs).1;
    let b = flowed(fresh(whole), ys).1;
    assert forall|k: int| 0 <= k < a.len() implies #[trigger] a[k] == b[k] by {
        assert(frame_at(geom, ys, k) =~= frame_at(whole, ys, k));
        assert(a[k] == block_at(geom, ys, k));
        assert(b[k] == block_at(whole, ys, k));
    }
    assert(a =~= b);
}

/// Trailing zeros keep the state as it should be.
proof fn lemma_flow_tail(geom: Geometry, ys: Seq<i32>, s: Schedule, blocks: Seq<BlockView>, pad: nat)
    requires
        geom.well_formed(),
        framed(geom, ys, s, blocks),
        s.skip == 0,
        at_tail(geom, ys.len() as int, ys.len() as int, s, blocks.len() as int),
        windows_follow(geom, ys.len() as int, blocks),
    ensures
        ({
            let (t, more) = flowed(s, silence(pad));
            &&& framed(geom, ys + silence(pad), t, blocks + more)
            &&& t.skip == 0
            &&& at_tail(
                geom,
                ys.len() as int,
                ys.len() as int + pad,
                t,
                (blocks + more).len() as int,
            )
            &&& windows_follow(geom, ys.len() as int, blocks + more)
        }),
    decreases pad,
{
    if pad == 0 {
        assert(ys + silence(0) =~= ys);
        assert(blocks + Seq::<BlockView>::empty() =~= blocks);
    } else {
        let less = (pad - 1) as nat;
        lemma_flow_tail(geom, ys, s, blocks, less);
        assert(silence(pad).drop_last() =~= silence(less));
        assert((ys + silence(less)).push(0i32) =~= ys + silence(pad));
        let (t, more) = flowed(s, silence(less));
        lemma_feed_tail(geom, ys.len() as int, ys + silence(less), 0i32, t, blocks + more);
        let last = feed(t, 0i32).1;
        assert(blocks + more + last =~= blocks + (more + last));
    }
}

/// The input length in hops, rounded: a half counts as a whole.
pub open spec fn rounded_hops(geom: Geometry, n: int) -> int {
    let step = geom.step_size as int;
    n / step + if n % step >= step / 2 {
        1int
    } else {
        0
    }
}

/// The blocks of a whole input: those that its samples complete and those that
/// the trailing zeros complete.
pub open spec fn analysed(geom: Geometry, xs: Seq<i32>) -> Seq<BlockView> {
    let (s, blocks) = flowed(fresh(geom), xs);
    blocks + drained(s).blocks
}

/// The columns of a whole input.
pub open spec fn columns(geom: Geometry, xs: Seq<i32>) -> int {
    drained(flowed(fresh(geom), xs).0).state.cols
}

/// The trailing zeros round the input up or down to whole hops.
proof fn lemma_padding_rounds(geom: Geometry, ys: Seq<i32>, s: Schedule, blocks: Seq<BlockView>)
    requires
        geom.well_formed(),
        framed(geom, ys, s, blocks),
        !s.truncated,
    ensures
        hops(geom, ys.len() as int + padding(s)) == rounded_hops(geom, ys.len() as int),
{
    let n = ys.len() as int;
    let b = blocks.len() as int;
    let step = geom.step_size as int;
    let r = n % step;
    let q = n / step;
    lemma_fundamental_div_mod(n, step);
    assert(geom.margin() + s.read == n - b * step);
    assert(n - b * step == (q - b) * step + r) by (nonlinear_arith)
        requires
            n == step * q + r,
    ;
    lemma_fundamental_div_mod_converse(n - b * step, step, q - b, r);
    if r >= step / 2 {
        assert(n + step - r == (q + 1) * step) by (nonlinear_arith)
            requires
                n == step * q + r,
        ;
        lemma_fundamental_div_mod_converse(n + step - r, step, q + 1, 0);
    }
}

/// A whole input is analysed in as many blocks as it has hops, rounded; each
/// block is the frame of its hop, with silence around the input. When the image
/// is full, the analysis ends with the first column that finds no room.
pub proof fn law_analysis_is_frames(geom: Geometry, xs: Seq<i32>)
    requires
        geom.well_formed(),
        geom.skip <= xs.len(),
    ensures
        ({
            let blocks = analysed(geom, xs);
            let ys = heard(geom, xs);
            let all = rounded_hops(geom, ys.len() as int);
            &&& blocks.len() == if geom.x_size >= 0 && all >= last_hop(geom) {
                last_hop(geom)
            } else {
                all
            }
            &&& forall|k: int| 0 <= k < blocks.len() ==> #[trigger] blocks[k] == block_at(geom, ys, k)
        }),
{
    let (s, first) = flowed(fresh(geom), xs);
    let ys = heard(geom, xs);
    let n = ys.len() as int;
    let step = geom.step_size as int;
    lemma_flow_input(geom, xs);
    lemma_hop_count(geom, ys, s, first);
    let blocks = analysed(geom, xs);
    assert(rounded_hops(geom, n) >= hops(geom, n)) by {
        if n >= geom.margin() {
            lemma_div_is_ordered(n - geom.margin(), n, step);
        }
        lemma_div_is_ordered(0, n, step);
        lemma_fundamental_div_mod_converse(0, step, 0, 0);
    }
    if s.truncated {
        assert(blocks =~= first);
    } else {
        let pad = padding(s);
        let ending = Schedule { end: 0, end_min: -geom.dft_size, ..s };
        let zs = ys + silence(pad);
        assert(framed(geom, ys, ending, first));
        lemma_flow_tail(geom, ys, ending, first, pad);
        let (t, more) = flowed(ending, silence(pad));
        assert(blocks == first + more);
        lemma_hop_count(geom, zs, t, blocks);
        lemma_padding_rounds(geom, ys, s, first);
        assert forall|k: int| 0 <= k < blocks.len() implies #[trigger] blocks[k] == block_at(
            geom,
            ys,
            k,
        ) by {
            assert(frame_at(geom, zs, k) =~= frame_at(geom, ys, k));
        }
    }
}

/// The image gets one column for every `block_steps` blocks, one more for what is
/// left over, and never more than it has room for.
pub proof fn law_column_count(geom: Geometry, xs: Seq<i32>)
    requires
        geom.well_formed(),
        geom.skip <= xs.len(),
    ensures
        ({
            let bs = geom.block_steps as int;
            let needed = (analysed(geom, xs).len() + bs - 1) / bs;
            columns(geom, xs) == if geom.x_size >= 0 && needed > geom.x_size {
                geom.x_size as int
            } else {
                needed
            }
        }),
{
    let (s, first) = flowed(fresh(geom), xs);
    let ys = heard(geom, xs);
    let bs = geom.block_steps as int;
    let blocks = analysed(geom, xs);
    let x = geom.x_size as int;
    lemma_flow_input(geom, xs);
    lemma_hop_count(geom, ys, s, first);
    assert((x + 1) * bs == x * bs + bs) by (nonlinear_arith);
    if s.truncated {
        assert(blocks =~= first);
        lemma_fundamental_div_mod_converse(blocks.len() + bs - 1, bs, x + 1, bs - 1);
    } else {
        let ending = Schedule { end: 0, end_min: -geom.dft_size, ..s };
        assert(framed(geom, ys, ending, first));
        lemma_flow_tail(geom, ys, ending, first, padding(s));
        let (t, more) = flowed(ending, silence(padding(s)));
        assert(blocks == first + more);
        if t.truncated {
            lemma_fundamental_div_mod_converse(blocks.len() + bs - 1, bs, x + 1, bs - 1);
        } else if t.block_num != 0 {
            assert((t.cols + 1) * bs == t.cols * bs + bs) by (nonlinear_arith);
            lemma_fundamental_div_mod_converse(
                blocks.len() + bs - 1,
                bs,
                t.cols + 1,
                t.block_num - 1,
            );
        } else {
            lemma_fundamental_div_mod_converse(blocks.len() + bs - 1, bs, t.cols, bs - 1);
        }
    }
}

/// How many of the blocks complete a column that the image has room for.
pub open spec fn completing(blocks: Seq<BlockView>) -> int
    decreases blocks.len(),
{
    if blocks.len() == 0 {
        0
    } else {
        completing(blocks.drop_last()) + if blocks.last().column {
            1int
        } else {
            0
        }
    }
}

/// Columns are counted one for every block that completes one.
pub proof fn law_blocks_complete_the_columns(s: Schedule, xs: Seq<i32>)
    ensures
        flowed(s, xs).0.cols == s.cols + completing(flowed(s, xs).1),
        flowed(s, xs).0.geom == s.geom,
    decreases xs.len(),
{
    if xs.len() > 0 {
        law_blocks_complete_the_columns(s, xs.drop_last());
        let (t, blocks) = flowed(s, xs.drop_last());
        let more = feed(t, xs.last()).1;
        if more.len() == 0 {
            assert(blocks + more =~= blocks);
        } else {
            assert(more =~= seq![more[0]]);
            assert((blocks + more).drop_last() =~= blocks);
        }
    }
}

/// So they are when the input ends, and what is left over may make one more.
pub proof fn law_last_blocks_complete_the_columns(s: Schedule)
    ensures
        drained(s).state.cols == s.cols + completing(drained(s).blocks) + if drained(s).tail is Some {
            1int
        } else {
            0
        },
{
    if !s.truncated {
        let ending = Schedule { end: 0, end_min: -s.geom.dft_size, ..s };
        law_blocks_complete_the_columns(ending, silence(padding(s)));
    }
}

/// The columns of a whole input are as many as the blocks that complete one, and one
/// more where some blocks are left over.
pub proof fn law_columns_are_completed(geom: Geometry, xs: Seq<i32>)
    ensures
        columns(geom, xs) == completing(analysed(geom, xs)) + if drained(
            flowed(fresh(geom), xs).0,
        ).tail is Some {
            1int
        } else {
            0
        },
{
    let (s, blocks) = flowed(fresh(geom), xs);
    law_blocks_complete_the_columns(fresh(geom), xs);
    law_last_blocks_complete_the_columns(s);
    lemma_completing_in_pieces(blocks, drained(s).blocks);
}

pub proof fn lemma_completing_in_pieces(a: Seq<BlockView>, b: Seq<BlockView>)
    ensures
        completing(a + b) == completing(a) + completing(b),
    decreases b.len(),
{
    if b.len() == 0 {
        assert(a + b =~= a);
    } else {
        lemma_completing_in_pieces(a, b.drop_last());
        assert((a + b).drop_last() =~= a + b.drop_last());
    }
}

/// A state without its samples.
pub open spec fn pace(s: Schedule) -> Schedule {
    Schedule { buf: Seq::empty(), ..s }
}

/// Two lists of blocks that differ in their samples alone.
pub open spec fn same_steps(a: Seq<BlockView>, b: Seq<BlockView>) -> bool {
    &&& a.len() == b.len()
    &&& forall|k: int|
        #![trigger a[k]]
        #![trigger b[k]]
        0 <= k < a.len() ==> a[k].window == b[k].window && a[k].column == b[k].column
}

/// Channels at the same point advance in lockstep whatever their samples are: as
/// many samples complete as many blocks and columns.
pub proof fn law_channels_advance_in_lockstep(s: Schedule, t: Schedule, xs: Seq<i32>, ys: Seq<i32>)
    requires
        pace(s) == pace(t),
        xs.len() == ys.len(),
    ensures
        pace(flowed(s, xs).0) == pace(flowed(t, ys).0),
        same_steps(flowed(s, xs).1, flowed(t, ys).1),
    decreases xs.len(),
{
    if xs.len() > 0 {
        law_channels_advance_in_lockstep(s, t, xs.drop_last(), ys.drop_last());
        let (s1, _) = flowed(s, xs.drop_last());
        let (t1, _) = flowed(t, ys.drop_last());
        lemma_feed_in_lockstep(s1, t1, xs.last(), ys.last());
    }
}

proof fn lemma_feed_in_lockstep(s: Schedule, t: Schedule, x: i32, y: i32)
    requires
        pace(s) == pace(t),
    ensures
        pace(feed(s, x).0) == pace(feed(t, y).0),
        same_steps(feed(s, x).1, feed(t, y).1),
{
    let p = pace(s);
    let q = pace(t);
    assert(p.geom == q.geom && p.skip == q.skip && p.read == q.read && p.end == q.end && p.end_min
        == q.end_min && p.last_end == q.last_end && p.block_num == q.block_num && p.cols == q.cols
        && p.truncated == q.truncated);
    assert(pace(feed(s, x).0) =~= pace(feed(t, y).0));
}

/// Channels at the same point end in lockstep.
pub proof fn law_channels_end_in_lockstep(s: Schedule, t: Schedule)
    requires
        pace(s) == pace(t),
    ensures
        pace(drained(s).state) == pace(drained(t).state),
        same_steps(drained(s).blocks, drained(t).blocks),
        drained(s).tail == drained(t).tail,
{
    let p = pace(s);
    let q = pace(t);
    assert(p.geom == q.geom && p.skip == q.skip && p.read == q.read && p.end == q.end && p.end_min
        == q.end_min && p.last_end == q.last_end && p.block_num == q.block_num && p.cols == q.cols
        && p.truncated == q.truncated);
    let s1 = Schedule { end: 0, end_min: -s.geom.dft_size, ..s };
    let t1 = Schedule { end: 0, end_min: -t.geom.dft_size, ..t };
    assert(pace(s1) =~= pace(t1));
    law_channels_advance_in_lockstep(s1, t1, silence(padding(s)), silence(padding(t)));
    let s2 = flowed(s1, silence(padding(s))).0;
    let t2 = flowed(t1, silence(padding(t))).0;
    assert(pace(s2).geom == pace(t2).geom && pace(s2).cols == pace(t2).cols && pace(s2).block_num
        == pace(t2).block_num && pace(s2).truncated == pace(t2).truncated);
    assert(pace(close_column(s2)) =~= Schedule { buf: Seq::empty(), ..close_column(pace(s2)) });
    assert(pace(close_column(t2)) =~= Schedule { buf: Seq::empty(), ..close_column(pace(t2)) });
}

/// Whether a block holds a whole frame, and its window a place over it.
pub open spec fn fits(geom: Geometry, b: BlockView) -> bool {
    &&& b.frame.len() == geom.dft_size
    &&& b.window matches Some(end) ==> -geom.dft_size <= end <= geom.dft_size
}

/// Every block holds a whole frame, and asks for no window that a frame has no room for.
pub proof fn law_blocks_fit_their_windows(s: Schedule, xs: Seq<i32>)
    requires
        s.well_formed(),
        s.has_room(xs.len() as int),
    ensures
        flowed(s, xs).0.well_formed(),
        flowed(s, xs).0.geom == s.geom,
        flowed(s, xs).0.cols <= s.cols + xs.len(),
        forall|i: int|
            0 <= i < flowed(s, xs).1.len() ==> fits(s.geom, #[trigger] flowed(s, xs).1[i]),
    decreases xs.len(),
{
    if xs.len() > 0 {
        law_blocks_fit_their_windows(s, xs.drop_last());
        let t = flowed(s, xs.drop_last()).0;
        lemma_feed_well_formed(t, xs.last());
    }
}

/// So does every block that the end of the input completes.
pub proof fn law_last_blocks_fit_their_windows(s: Schedule)
    requires
        s.well_formed(),
        s.has_room(padding(s) as int + 1),
    ensures
        forall|i: int|
            0 <= i < drained(s).blocks.len() ==> fits(s.geom, #[trigger] drained(s).blocks[i]),
{
    if !s.truncated {
        let ending = Schedule { end: 0, end_min: -s.geom.dft_size, ..s };
        law_blocks_fit_their_windows(ending, silence(padding(s)));
    }
}

} // verus!
