//! Handing decoded samples on in larger batches.
use crate::stream_laws::{joined, whole_frames};
use vstd::prelude::*;

verus! {

/// Samples that wait until there are enough of them.
#[derive(Debug)]
pub struct Feeder {
    batch: u128,
    pending: Vec<i32>,
}

/// The model of a feeder.
#[verifier::ext_equal]
pub struct FeederView {
    /// How many samples are handed on at least.
    pub batch: nat,
    /// The samples that wait.
    pub pending: Seq<i32>,
}

impl View for Feeder {
    type V = FeederView;

    closed spec fn view(&self) -> FeederView {
        FeederView { batch: self.batch as nat, pending: self.pending@ }
    }
}

/// What a chunk leads to: the samples that are handed on, if any, and the feeder after it.
pub open spec fn fed(f: FeederView, chunk: Seq<i32>) -> (Option<Seq<i32>>, FeederView) {
    let all = f.pending + chunk;
    if all.len() >= f.batch {
        (Some(all), FeederView { pending: Seq::empty(), ..f })
    } else {
        (None, FeederView { pending: all, ..f })
    }
}

impl Feeder {
    /// A feeder that hands on `batch` samples or more.
    pub fn new(batch: u128) -> (f: Feeder)
        ensures
            f@ == (FeederView { batch: batch as nat, pending: Seq::empty() }),
    {
        let f = Feeder { batch, pending: Vec::new() };
        assert(f@.pending =~= Seq::empty());
        f
    }

    /// Takes a chunk, and hands all samples on once there are enough.
    pub fn feed(&mut self, chunk: &[i32]) -> (out: Option<Vec<i32>>)
        ensures
            ({
                let (some, after) = fed(old(self)@, chunk@);
                &&& final(self)@ == after
                &&& match out {
                    Some(v) => some == Some(v@),
                    None => some is None,
                }
            }),
    {
        let mut i: usize = 0;
        while i < chunk.len()
            invariant
                i <= chunk@.len(),
                self.batch == old(self).batch,
                self.pending@ =~= old(self).pending@ + chunk@.take(i as int),
            decreases chunk@.len() - i,
        {
            self.pending.push(chunk[i]);
            i = i + 1;
        }
        assert(self.pending@ =~= old(self).pending@ + chunk@);
        if self.pending.len() as u128 >= self.batch {
            let mut out: Vec<i32> = Vec::new();
            std::mem::swap(&mut out, &mut self.pending);
            assert(self@.pending =~= Seq::empty());
            Some(out)
        } else {
            None
        }
    }

    /// The samples that still wait at the end.
    pub fn rest(self) -> (out: Vec<i32>)
        ensures
            out@ == self@.pending,
    {
        self.pending
    }
}

/// What a list of chunks leads to: everything that is handed on, and the feeder after
/// the last one.
pub open spec fn fed_all(f: FeederView, chunks: Seq<Seq<i32>>) -> (Seq<Seq<i32>>, FeederView)
    decreases chunks.len(),
{
    if chunks.len() == 0 {
        (Seq::empty(), f)
    } else {
        let (out, before) = fed_all(f, chunks.drop_last());
        let (some, after) = fed(before, chunks.last());
        match some {
            Some(v) => (out.push(v), after),
            None => (out, after),
        }
    }
}

/// A feeder loses no sample and changes no order: what it hands on, with what waits
/// behind it, is what it was given.
pub proof fn law_feeding_loses_nothing(f: FeederView, chunks: Seq<Seq<i32>>)
    requires
        f.pending.len() == 0,
    ensures
        joined(fed_all(f, chunks).0) + fed_all(f, chunks).1.pending == joined(chunks),
    decreases chunks.len(),
{
    if chunks.len() == 0 {
        assert(joined(fed_all(f, chunks).0) + f.pending =~= joined(chunks));
    } else {
        law_feeding_loses_nothing(f, chunks.drop_last());
        let (out, before) = fed_all(f, chunks.drop_last());
        let chunk = chunks.last();
        let (some, after) = fed(before, chunk);
        assert(joined(out) + before.pending + chunk =~= joined(chunks));
        if let Some(v) = some {
            assert(out.push(v).drop_last() =~= out);
            assert(joined(out.push(v)) == joined(out) + v);
            assert(joined(out) + v + Seq::<i32>::empty() =~= joined(out) + before.pending + chunk);
            assert(after.pending =~= Seq::empty());
        } else {
            assert(joined(out) + after.pending =~= joined(out) + before.pending + chunk);
        }
    }
}

/// Given whole frames, a feeder hands on whole frames.
pub proof fn law_feeding_keeps_frames(f: FeederView, chunks: Seq<Seq<i32>>, chans: nat)
    requires
        whole_frames(f.pending, chans),
        forall|k: int| 0 <= k < chunks.len() ==> whole_frames(#[trigger] chunks[k], chans),
    ensures
        forall|k: int|
            0 <= k < fed_all(f, chunks).0.len() ==> whole_frames(
                #[trigger] fed_all(f, chunks).0[k],
                chans,
            ),
        whole_frames(fed_all(f, chunks).1.pending, chans),
    decreases chunks.len(),
{
    if chunks.len() > 0 {
        let init = chunks.drop_last();
        assert forall|k: int| 0 <= k < init.len() implies whole_frames(
            #[trigger] init[k],
            chans,
        ) by {
            assert(init[k] == chunks[k]);
        }
        law_feeding_keeps_frames(f, init, chans);
        let (out, before) = fed_all(f, init);
        let chunk = chunks.last();
        assert(whole_frames(chunks[chunks.len() - 1], chans));
        crate::stream_laws::lemma_frames_add(
            before.pending.len() as int,
            chunk.len() as int,
            chans as int,
        );
        assert(0nat % chans == 0) by {
            vstd::arithmetic::div_mod::lemma_fundamental_div_mod_converse(0, chans as int, 0, 0);
        }
        let after = fed_all(f, chunks);
        assert forall|k: int| 0 <= k < after.0.len() implies whole_frames(
            #[trigger] after.0[k],
            chans,
        ) by {
            if k < out.len() {
                assert(after.0[k] == out[k]);
            }
        }
    }
}

/// What is handed on is never less than a batch, and what waits is always less: a feeder
/// hands everything on as soon as there is enough, and nothing before.
pub proof fn law_batches_are_never_short(f: FeederView, chunk: Seq<i32>)
    ensures
        fed(f, chunk).0 is Some <==> f.pending.len() + chunk.len() >= f.batch,
        fed(f, chunk).0 matches Some(out) ==> out.len() >= f.batch,
        fed(f, chunk).0 is None ==> fed(f, chunk).1.pending.len() < f.batch,
        f.batch >= 1 ==> fed(f, chunk).1.pending.len() < f.batch,
        fed(f, chunk).1.batch == f.batch,
{
}

} // verus!
