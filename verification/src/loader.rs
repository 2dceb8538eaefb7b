//! What a load does with the chunks that a decoder hands it.
//!
//! Where the length of the input is known beforehand, its picture fills up while it is
//! decoded: the samples go to the analysis in batches, and a picture of what is there is
//! shown now and then. Otherwise the samples are kept until the end. A load that has been
//! superseded is given up at the next chunk.
use crate::double::Double;
use crate::feeder::{fed, fed_all, law_feeding_loses_nothing, Feeder, FeederView};
use crate::stream_laws::joined;
use crate::viewer::{batch_of, batch_size, publishes};
use vstd::prelude::*;

verus! {

/// What to do with a chunk.
#[derive(Debug)]
pub enum ChunkStep {
    /// Give the load up.
    Abandon,
    /// Nothing yet.
    Wait,
    /// Analyse these samples, and then see whether to show them.
    Push(Vec<i32>),
}

/// What to do at the end of the input.
#[derive(Debug)]
pub enum EndStep {
    /// Give the load up.
    Abandon,
    /// Analyse the samples that are left, if there are any, and finish.
    Finish(Option<Vec<i32>>),
    /// Analyse all samples at once.
    Whole(Vec<i32>),
}

/// A load under way.
#[derive(Debug)]
pub struct Loader {
    progressive: bool,
    feeder: Feeder,
    kept: Vec<i32>,
    last_cols: i32,
}

/// The model of a load under way.
#[verifier::ext_equal]
pub struct LoaderView {
    /// Whether the length of the input is known.
    pub progressive: bool,
    /// The samples that wait to be analysed.
    pub feeder: FeederView,
    /// The samples that wait for the end.
    pub kept: Seq<i32>,
    /// The columns that were shown last.
    pub last_cols: int,
}

impl View for Loader {
    type V = LoaderView;

    closed spec fn view(&self) -> LoaderView {
        LoaderView {
            progressive: self.progressive,
            feeder: self.feeder@,
            kept: self.kept@,
            last_cols: self.last_cols as int,
        }
    }
}

/// A load before its first chunk.
pub open spec fn fresh_load(progressive: bool, batch: nat) -> LoaderView {
    LoaderView {
        progressive,
        feeder: FeederView { batch, pending: Seq::empty() },
        kept: Seq::empty(),
        last_cols: 0,
    }
}

/// What a chunk leads to while the load is current: the samples to be analysed, if any,
/// and the load after it.
pub open spec fn taken(l: LoaderView, chunk: Seq<i32>) -> (Option<Seq<i32>>, LoaderView) {
    if l.progressive {
        let (out, feeder) = fed(l.feeder, chunk);
        (out, LoaderView { feeder, ..l })
    } else {
        (None, LoaderView { kept: l.kept + chunk, ..l })
    }
}

/// Whether the columns so far are to be shown.
pub open spec fn shown(l: LoaderView, cols: int, micros: int) -> bool {
    cols > 0 && cols != l.last_cols && micros >= 100_000
}

impl Loader {
    /// A load of an input with the given rate and channels, of which the length may be
    /// known.
    pub fn new(total_len: Option<u64>, rate: Double, channels: u32) -> (l: Loader)
        ensures
            l@ == fresh_load(total_len is Some, batch_of(rate, channels as int) as nat),
    {
        let l = Loader {
            progressive: total_len.is_some(),
            feeder: Feeder::new(batch_size(rate, channels)),
            kept: Vec::new(),
            last_cols: 0,
        };
        assert(l@.kept =~= Seq::empty());
        l
    }

    /// A chunk has been decoded. `current` says whether the load has not been superseded.
    pub fn on_chunk(&mut self, current: bool, chunk: &[i32]) -> (step: ChunkStep)
        ensures
            if current {
                let (out, after) = taken(old(self)@, chunk@);
                &&& final(self)@ == after
                &&& match out {
                    Some(v) => step matches ChunkStep::Push(samples) && samples@ == v,
                    None => step is Wait,
                }
            } else {
                step is Abandon && final(self)@ == old(self)@
            },
    {
        if !current {
            return ChunkStep::Abandon;
        }
        if self.progressive {
            let out = self.feeder.feed(chunk);
            match out {
                Some(samples) => ChunkStep::Push(samples),
                None => ChunkStep::Wait,
            }
        } else {
            let mut i: usize = 0;
            while i < chunk.len()
                invariant
                    i <= chunk@.len(),
                    self.progressive == old(self).progressive,
                    self.feeder == old(self).feeder,
                    self.last_cols == old(self).last_cols,
                    self.kept@ =~= old(self).kept@ + chunk@.take(i as int),
                decreases chunk@.len() - i,
            {
                self.kept.push(chunk[i]);
                i = i + 1;
            }
            assert(chunk@.take(i as int) =~= chunk@);
            ChunkStep::Wait
        }
    }

    /// Samples have been analysed: there are `cols` columns, and `micros` microseconds have
    /// passed since a picture was last shown. Says whether to show one.
    pub fn on_pushed(&mut self, cols: i32, micros: u64) -> (show: bool)
        ensures
            show == shown(old(self)@, cols as int, micros as int),
            final(self)@ == if show {
                LoaderView { last_cols: cols as int, ..old(self)@ }
            } else {
                old(self)@
            },
    {
        let show = publishes(cols, self.last_cols, micros, false);
        if show {
            self.last_cols = cols;
        }
        show
    }

    /// The input has ended.
    pub fn on_end(self, current: bool) -> (step: EndStep)
        ensures
            if !self@.progressive {
                step matches EndStep::Whole(samples) && samples@ == self@.kept
            } else if !current {
                step is Abandon
            } else if self@.feeder.pending.len() == 0 {
                step matches EndStep::Finish(rest) && rest is None
            } else {
                step matches EndStep::Finish(Some(rest)) && rest@ == self@.feeder.pending
            },
    {
        if !self.progressive {
            return EndStep::Whole(self.kept);
        }
        if !current {
            return EndStep::Abandon;
        }
        let rest = self.feeder.rest();
        if rest.len() == 0 {
            EndStep::Finish(None)
        } else {
            EndStep::Finish(Some(rest))
        }
    }
}

/// A picture is shown of new columns alone, and not before a tenth of a second has passed
/// since the last one: what has been shown is not shown again, however long it takes.
pub proof fn law_pictures_show_new_columns(l: LoaderView, cols: int, micros: int)
    ensures
        !shown(LoaderView { last_cols: cols, ..l }, cols, micros),
        micros < 100_000 ==> !shown(l, cols, micros),
        cols <= 0 ==> !shown(l, cols, micros),
        cols > 0 && cols != l.last_cols && micros >= 100_000 ==> shown(l, cols, micros),
{
}

/// What a list of chunks leads to while the load is current: everything that is handed to
/// the analysis, and the load after the last one.
pub open spec fn taken_all(l: LoaderView, chunks: Seq<Seq<i32>>) -> (Seq<Seq<i32>>, LoaderView)
    decreases chunks.len(),
{
    if chunks.len() == 0 {
        (Seq::empty(), l)
    } else {
        let (out, before) = taken_all(l, chunks.drop_last());
        let (some, after) = taken(before, chunks.last());
        match some {
            Some(v) => (out.push(v), after),
            None => (out, after),
        }
    }
}

/// A load that is not superseded hands every sample to the analysis, in order: in batches
/// and a rest where the length of the input is known, and otherwise all at once.
pub proof fn law_a_load_hears_everything(progressive: bool, batch: nat, chunks: Seq<Seq<i32>>)
    ensures
        ({
            let (out, end) = taken_all(fresh_load(progressive, batch), chunks);
            &&& end.progressive == progressive
            &&& joined(out) + (if progressive {
                end.feeder.pending
            } else {
                end.kept
            }) == joined(chunks)
        }),
{
    let start = fresh_load(progressive, batch);
    let (out, end) = taken_all(start, chunks);
    if progressive {
        lemma_takes_as_a_feeder(start, chunks);
        law_feeding_loses_nothing(start.feeder, chunks);
    } else {
        lemma_keeps_all(start, chunks);
        assert(joined(out) + end.kept =~= joined(chunks));
    }
}

proof fn lemma_takes_as_a_feeder(l: LoaderView, chunks: Seq<Seq<i32>>)
    requires
        l.progressive,
    ensures
        taken_all(l, chunks).0 == fed_all(l.feeder, chunks).0,
        taken_all(l, chunks).1 == (LoaderView { feeder: fed_all(l.feeder, chunks).1, ..l }),
    decreases chunks.len(),
{
    if chunks.len() > 0 {
        lemma_takes_as_a_feeder(l, chunks.drop_last());
    }
}

proof fn lemma_keeps_all(l: LoaderView, chunks: Seq<Seq<i32>>)
    requires
        !l.progressive,
        l.kept.len() == 0,
    ensures
        taken_all(l, chunks).0.len() == 0,
        taken_all(l, chunks).1.kept == joined(chunks),
        !taken_all(l, chunks).1.progressive,
    decreases chunks.len(),
{
    if chunks.len() == 0 {
        assert(l.kept =~= joined(chunks));
    } else {
        lemma_keeps_all(l, chunks.drop_last());
    }
}

} // verus!
