//! The messages of a load, in their order.
//!
//! A load first says that it has started. Once it is known what the axes are it says that,
//! then shows what is there now and then, and all of it at last. A load that fails says
//! so in place of what would follow, and one that is superseded says nothing more.
use vstd::prelude::*;

verus! {

/// What happens to a load.
#[derive(Clone, Copy, Debug, PartialEq, Eq, Structural)]
pub enum Event {
    /// It begins.
    Begun,
    /// The input is open, and everything is ready for its samples. `progressive` says
    /// whether its length is known.
    Opened { progressive: bool },
    /// There are columns to be shown.
    Columns,
    /// An input of unknown length has been analysed.
    Whole,
    /// Every column is there.
    Finished,
    /// Another load has taken its place.
    Superseded,
    /// It has failed.
    Failed,
}

/// A message of a load, but for what it holds; see [`crate::viewer::LoadMsg`].
#[derive(Clone, Copy, Debug, PartialEq, Eq, Structural)]
pub enum Word {
    Start,
    Meta,
    Frame,
    Done,
    Failed,
}

/// How far a load has come.
#[derive(Clone, Copy, Debug, PartialEq, Eq, Structural)]
pub enum Course {
    /// It has not begun.
    Ahead,
    /// It has begun.
    Started,
    /// Its samples are analysed as they come in.
    Filling,
    /// Its samples are kept until there are no more.
    Gathering,
    /// Its samples have been analysed at once.
    Gathered,
    /// There is nothing more to come.
    Over,
}

/// What an event leads to: what is said, if anything, and how far the load is then. An
/// event that is out of place leads to nothing.
pub open spec fn follows(c: Course, e: Event) -> (Option<Word>, Course) {
    match (c, e) {
        (Course::Ahead, Event::Begun) => (Some(Word::Start), Course::Started),
        (Course::Ahead, _) => (None, Course::Ahead),
        (Course::Over, _) => (None, Course::Over),
        (_, Event::Superseded) => (None, Course::Over),
        (_, Event::Failed) => (Some(Word::Failed), Course::Over),
        (Course::Started, Event::Opened { progressive: true }) => (
            Some(Word::Meta),
            Course::Filling,
        ),
        (Course::Started, Event::Opened { progressive: false }) => (None, Course::Gathering),
        (Course::Filling, Event::Columns) => (Some(Word::Frame), Course::Filling),
        (Course::Filling, Event::Finished) => (Some(Word::Done), Course::Over),
        (Course::Gathering, Event::Whole) => (Some(Word::Meta), Course::Gathered),
        (Course::Gathered, Event::Finished) => (Some(Word::Done), Course::Over),
        (_, _) => (None, c),
    }
}

impl Course {
    /// A load that has not begun.
    pub fn new() -> (c: Course)
        ensures
            c == Course::Ahead,
    {
        Course::Ahead
    }

    /// Takes an event in, and says which message is to be sent.
    pub fn on(&mut self, e: Event) -> (word: Option<Word>)
        ensures
            (word, *final(self)) == follows(*old(self), e),
    {
        let c = *self;
        let (word, next) = match (c, e) {
            (Course::Ahead, Event::Begun) => (Some(Word::Start), Course::Started),
            (Course::Ahead, _) => (None, Course::Ahead),
            (Course::Over, _) => (None, Course::Over),
            (_, Event::Superseded) => (None, Course::Over),
            (_, Event::Failed) => (Some(Word::Failed), Course::Over),
            (Course::Started, Event::Opened { progressive: true }) => (
                Some(Word::Meta),
                Course::Filling,
            ),
            (Course::Started, Event::Opened { progressive: false }) => (None, Course::Gathering),
            (Course::Filling, Event::Columns) => (Some(Word::Frame), Course::Filling),
            (Course::Filling, Event::Finished) => (Some(Word::Done), Course::Over),
            (Course::Gathering, Event::Whole) => (Some(Word::Meta), Course::Gathered),
            (Course::Gathered, Event::Finished) => (Some(Word::Done), Course::Over),
            (_, _) => (None, c),
        };
        *self = next;
        word
    }
}

/// What a list of events leads to: everything that is said, and how far the load is then.
pub open spec fn told(events: Seq<Event>) -> (Seq<Word>, Course)
    decreases events.len(),
{
    if events.len() == 0 {
        (Seq::empty(), Course::Ahead)
    } else {
        let (words, c) = told(events.drop_last());
        match follows(c, events.last()) {
            (Some(w), next) => (words.push(w), next),
            (None, next) => (words, next),
        }
    }
}

/// Whether the length of an input is known, by the first event that says so while the
/// load waits for it.
pub open spec fn fills(events: Seq<Event>) -> bool
    decreases events.len(),
{
    if events.len() == 0 {
        false
    } else {
        ||| fills(events.drop_last())
        ||| told(events.drop_last()).1 == Course::Started && events.last() == (Event::Opened {
            progressive: true,
        })
    }
}

/// Whether the messages so far fit how far a load has come.
spec fn consistent(words: Seq<Word>, c: Course, fills: bool) -> bool {
    let n = words.len() as int;
    &&& n > 0 ==> words[0] == Word::Start
    &&& forall|i: int| 1 <= i < n ==> #[trigger] words[i] != Word::Start
    &&& n > 1 ==> words[1] == Word::Meta || words[1] == Word::Failed
    &&& forall|i: int| 2 <= i < n ==> #[trigger] words[i] != Word::Meta && words[1] == Word::Meta
    &&& forall|i: int|
        0 <= i < n && (#[trigger] words[i] == Word::Done || words[i] == Word::Failed) ==> i == n - 1
            && c == Course::Over
    &&& forall|i: int| 0 <= i < n && #[trigger] words[i] == Word::Frame ==> fills
    &&& match c {
        Course::Ahead => n == 0,
        Course::Started => n == 1,
        Course::Filling => n >= 2 && fills,
        Course::Gathering => n == 1 && !fills,
        Course::Gathered => n == 2 && !fills,
        Course::Over => n >= 1,
    }
    &&& c is Ahead || c is Started ==> !fills
}

proof fn lemma_consistent(events: Seq<Event>)
    ensures
        consistent(told(events).0, told(events).1, fills(events)),
    decreases events.len(),
{
    if events.len() > 0 {
        lemma_consistent(events.drop_last());
    }
}

/// Whatever happens to a load: it says first and once that it has started, then and once
/// what the axes are, and the columns only after that. Columns so far are shown only of an
/// input whose length is known. That all columns are there, or that it has failed, is the
/// last that it says.
pub proof fn law_messages_come_in_order(events: Seq<Event>)
    ensures
        ({
            let words = told(events).0;
            let n = words.len() as int;
            &&& forall|i: int|
                0 <= i < n ==> {
                    &&& #[trigger] words[i] == Word::Start <==> i == 0
                    &&& words[i] == Word::Meta ==> i == 1
                    &&& words[i] == Word::Frame ==> i >= 2 && words[1] == Word::Meta && fills(
                        events,
                    )
                    &&& words[i] == Word::Done ==> i >= 2 && words[1] == Word::Meta && i == n - 1
                    &&& words[i] == Word::Failed ==> i >= 1 && i == n - 1
                }
        }),
{
    lemma_consistent(events);
}

/// Once a load has been superseded, has failed or has shown all columns, it says nothing
/// more, whatever happens then.
pub proof fn law_a_load_that_is_over_is_silent(events: Seq<Event>, e: Event, more: Seq<Event>)
    requires
        told(events).1 != Course::Ahead,
        e is Superseded || e is Failed || told(events.push(e)).1 == Course::Over,
    ensures
        told(events.push(e) + more).0 == told(events.push(e)).0,
        e is Superseded ==> told(events.push(e)).0 == told(events).0,
    decreases more.len(),
{
    let first = events.push(e);
    assert(first.drop_last() =~= events);
    if more.len() == 0 {
        assert(first + more =~= first);
    } else {
        law_a_load_that_is_over_is_silent(events, e, more.drop_last());
        lemma_stays_over(first, more.drop_last());
        assert((first + more).drop_last() =~= first + more.drop_last());
    }
}

proof fn lemma_stays_over(events: Seq<Event>, more: Seq<Event>)
    requires
        told(events).1 == Course::Over,
    ensures
        told(events + more).1 == Course::Over,
    decreases more.len(),
{
    if more.len() == 0 {
        assert(events + more =~= events);
    } else {
        lemma_stays_over(events, more.drop_last());
        assert((events + more).drop_last() =~= events + more.drop_last());
    }
}

/// A load that is under way and fails says so, at whatever point it is, and is over then.
pub proof fn law_every_failure_is_told(events: Seq<Event>)
    requires
        told(events).1 != Course::Ahead,
        told(events).1 != Course::Over,
    ensures
        told(events.push(Event::Failed)).0 == told(events).0.push(Word::Failed),
        told(events.push(Event::Failed)).1 == Course::Over,
        told(events.push(Event::Superseded)).1 == Course::Over,
{
    assert(events.push(Event::Failed).drop_last() =~= events);
    assert(events.push(Event::Superseded).drop_last() =~= events);
}

/// `n` times the same event.
pub open spec fn times(n: nat, e: Event) -> Seq<Event> {
    Seq::new(n, |i: int| e)
}

/// A load that nothing goes wrong with says everything that there is to say: that it has
/// started, what the axes are, and all of its columns; and of an input whose length is known
/// all the columns so far as often as there are new ones.
pub proof fn law_a_load_says_everything(n: nat)
    ensures
        told(
            seq![Event::Begun, Event::Opened { progressive: true }] + times(n, Event::Columns),
        ).0 == seq![Word::Start, Word::Meta] + Seq::new(n, |i: int| Word::Frame),
        told(
            (seq![Event::Begun, Event::Opened { progressive: true }] + times(
                n,
                Event::Columns,
            )).push(Event::Finished),
        ).0 == (seq![Word::Start, Word::Meta] + Seq::new(n, |i: int| Word::Frame)).push(Word::Done),
        told(
            (seq![Event::Begun, Event::Opened { progressive: false }] + times(
                n,
                Event::Columns,
            )).push(Event::Whole).push(Event::Finished),
        ).0 == seq![Word::Start, Word::Meta, Word::Done],
{
    lemma_known(n);
    lemma_unknown(n);
    let known = seq![Event::Begun, Event::Opened { progressive: true }] + times(n, Event::Columns);
    let unknown = seq![Event::Begun, Event::Opened { progressive: false }] + times(
        n,
        Event::Columns,
    );
    assert(known.push(Event::Finished).drop_last() =~= known);
    assert(unknown.push(Event::Whole).drop_last() =~= unknown);
    let all = unknown.push(Event::Whole);
    assert(all.push(Event::Finished).drop_last() =~= all);
    assert(told(all) == (seq![Word::Start, Word::Meta], Course::Gathered)) by {
        assert(seq![Word::Start].push(Word::Meta) =~= seq![Word::Start, Word::Meta]);
    }
    assert(seq![Word::Start, Word::Meta].push(Word::Done) =~= seq![
        Word::Start,
        Word::Meta,
        Word::Done,
    ]);
}

proof fn lemma_opened(e: Event)
    ensures
        told(seq![Event::Begun]) == (seq![Word::Start], Course::Started),
        seq![Event::Begun, e].drop_last() == seq![Event::Begun],
{
    let none = Seq::<Event>::empty();
    assert(seq![Event::Begun].drop_last() =~= none);
    assert(told(none).0 =~= Seq::<Word>::empty());
    assert(Seq::<Word>::empty().push(Word::Start) =~= seq![Word::Start]);
    assert(seq![Event::Begun, e].drop_last() =~= seq![Event::Begun]);
}

proof fn lemma_known(n: nat)
    ensures
        told(
            seq![Event::Begun, Event::Opened { progressive: true }] + times(n, Event::Columns),
        ) == (
            seq![Word::Start, Word::Meta] + Seq::new(n, |i: int| Word::Frame),
            Course::Filling,
        ),
    decreases n,
{
    let head = seq![Event::Begun, Event::Opened { progressive: true }];
    let said = seq![Word::Start, Word::Meta];
    let all = head + times(n, Event::Columns);
    if n == 0 {
        assert(all =~= head);
        lemma_opened(Event::Opened { progressive: true });
        assert(seq![Word::Start].push(Word::Meta) =~= said);
        assert(said + Seq::new(0, |i: int| Word::Frame) =~= said);
    } else {
        let m = (n - 1) as nat;
        lemma_known(m);
        assert(all.drop_last() =~= head + times(m, Event::Columns));
        assert((said + Seq::new(m, |i: int| Word::Frame)).push(Word::Frame) =~= said + Seq::new(
            n,
            |i: int| Word::Frame,
        ));
    }
}

proof fn lemma_unknown(n: nat)
    ensures
        told(
            seq![Event::Begun, Event::Opened { progressive: false }] + times(n, Event::Columns),
        ) == (seq![Word::Start], Course::Gathering),
    decreases n,
{
    let head = seq![Event::Begun, Event::Opened { progressive: false }];
    let all = head + times(n, Event::Columns);
    if n == 0 {
        assert(all =~= head);
        lemma_opened(Event::Opened { progressive: false });
    } else {
        let m = (n - 1) as nat;
        lemma_unknown(m);
        assert(all.drop_last() =~= head + times(m, Event::Columns));
    }
}

/// An event that is out of place is not heeded: nothing before the load begins, no second
/// beginning, no second opening, and no end before there are samples.
pub proof fn law_events_out_of_place_are_not_heeded(events: Seq<Event>, e: Event)
    requires
        ({
            let c = told(events).1;
            ||| c is Ahead && e != Event::Begun
            ||| c is Over
            ||| c !is Ahead && e is Begun
            ||| c !is Ahead && c !is Started && e is Opened
            ||| c !is Filling && e is Columns
            ||| c !is Gathering && e is Whole
            ||| c !is Filling && c !is Gathered && e is Finished
        }),
    ensures
        told(events.push(e)) == told(events),
{
    assert(events.push(e).drop_last() =~= events);
}

} // verus!
