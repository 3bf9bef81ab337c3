//! The field extractor: a small state machine over the tag stream of one
//! document.
//!
//! The state is two sets of flags, the texts found so far and the warnings.
//! A tag toggles flags, a text goes to the slot of every field whose flag is
//! set, and a malformed stream stops the machine with a warning.

use vstd::prelude::*;
use crate::data::flags::generate_flags;
use crate::data::parsing::{build_record, built_record};
use crate::data::tags::{after_tag, match_tag, no_fields, store_text, stored, FieldMap, FieldsView};
use crate::types::{Data, DataView, ParseErrors, Warning};

verus! {

/// One step of a document's tag stream.
#[derive(Debug)]
pub enum DocumentEvent {
    /// A tag opens: its name.
    Enter(Vec<u8>),
    /// A tag closes: its name.
    Exit(Vec<u8>),
    /// Text between tags.
    Text(String),
    /// The stream is malformed from here on: the warning to leave.
    Malformed(String),
}

/// A step of a tag stream as plain values.
pub ghost enum EventView {
    Enter(Seq<u8>),
    Exit(Seq<u8>),
    Text(Seq<char>),
    Malformed(Seq<char>),
}

impl View for DocumentEvent {
    type V = EventView;

    open spec fn view(&self) -> EventView {
        match self {
            DocumentEvent::Enter(name) => EventView::Enter(name@),
            DocumentEvent::Exit(name) => EventView::Exit(name@),
            DocumentEvent::Text(text) => EventView::Text(text@),
            DocumentEvent::Malformed(warning) => EventView::Malformed(warning@),
        }
    }
}

impl DeepView for DocumentEvent {
    type V = EventView;

    open spec fn deep_view(&self) -> EventView {
        self@
    }
}

/// The state of the field extractor.
#[derive(Debug)]
pub struct Extractor {
    /// Field flags: which fields take the next text.
    pub flags: u8,
    /// Backtrack flags: which records the reader is inside of.
    pub backtrack: u8,
    /// The texts found so far.
    pub fields: FieldMap,
    /// The warnings left so far.
    pub errors: Vec<Warning>,
    /// Whether the stream was found malformed: nothing is read after that.
    pub stopped: bool,
}

/// The extractor's state as plain values.
pub ghost struct ExtractorView {
    pub flags: u8,
    pub backtrack: u8,
    pub fields: FieldsView,
    pub errors: Seq<Seq<char>>,
    pub stopped: bool,
}

impl View for Extractor {
    type V = ExtractorView;

    open spec fn view(&self) -> ExtractorView {
        ExtractorView {
            flags: self.flags,
            backtrack: self.backtrack,
            fields: self.fields@,
            errors: self.errors.deep_view(),
            stopped: self.stopped,
        }
    }
}

/// The state before anything was read.
pub open spec fn initial() -> ExtractorView {
    ExtractorView { flags: 0, backtrack: 0, fields: no_fields(), errors: Seq::empty(), stopped: false }
}

/// The state after the start or the end of the tag `name`.
pub open spec fn after_name(state: ExtractorView, name: Seq<u8>) -> ExtractorView {
    ExtractorView {
        flags: after_tag(name, state.flags, state.backtrack).0,
        backtrack: after_tag(name, state.flags, state.backtrack).1,
        ..state
    }
}

/// The state after one more event. Entering and leaving a tag act alike; a
/// text goes to the slots of the fields whose flags are set; a malformed
/// stream leaves its warning and stops the extractor, which then stays as it
/// is whatever follows.
pub open spec fn step(state: ExtractorView, event: EventView) -> ExtractorView {
    if state.stopped {
        state
    } else {
        match event {
            EventView::Enter(name) => after_name(state, name),
            EventView::Exit(name) => after_name(state, name),
            EventView::Text(text) => ExtractorView {
                fields: stored(state.fields, state.flags, text),
                ..state
            },
            EventView::Malformed(warning) => ExtractorView {
                errors: state.errors.push(warning),
                stopped: true,
                ..state
            },
        }
    }
}

/// The state after the events `events`, read in their order from the
/// initial state.
pub open spec fn run(events: Seq<EventView>) -> ExtractorView
    decreases events.len(),
{
    if events.len() == 0 {
        initial()
    } else {
        step(run(events.drop_last()), events.last())
    }
}

/// The record of the document with the tag stream `events` and the warnings
/// of its extraction, if the patterns that the record needs compile.
pub open spec fn extracted(events: Seq<EventView>) -> Option<(DataView, Seq<Seq<char>>)> {
    built_record(run(events).fields, run(events).errors)
}

/// Reading one more event is one more step.
pub proof fn lemma_run_push(events: Seq<EventView>, event: EventView)
    ensures
        run(events.push(event)) == step(run(events), event),
{
    assert(events.push(event).drop_last() =~= events);
}

impl Extractor {
    /// The extractor before anything was read.
    pub fn new() -> (state: Self)
        ensures
            state@ == initial(),
    {
        let (flags, backtrack) = generate_flags();
        let state = Extractor {
            flags,
            backtrack,
            fields: FieldMap::new(),
            errors: Vec::new(),
            stopped: false,
        };
        assert(state.errors.deep_view() =~= Seq::empty());
        state
    }

    /// Reads one more event.
    pub fn feed(&mut self, event: &DocumentEvent)
        ensures
            final(self)@ == step(old(self)@, event@),
    {
        if self.stopped {
            return ;
        }
        match event {
            DocumentEvent::Enter(name) => {
                match_tag(name.as_slice(), &mut self.flags, &mut self.backtrack);
            },
            DocumentEvent::Exit(name) => {
                match_tag(name.as_slice(), &mut self.flags, &mut self.backtrack);
            },
            DocumentEvent::Text(text) => {
                store_text(&self.flags, text.as_str(), &mut self.fields);
            },
            DocumentEvent::Malformed(warning) => {
                let ghost held = self.errors.deep_view();
                self.errors.push(warning.clone());
                assert(self.errors.deep_view() =~= held.push(warning@));
                self.stopped = true;
            },
        }
    }

    /// Builds the record from what was found. The run is given up only where
    /// the search refuses a pattern.
    pub fn finish(self) -> (record: Result<(Data, Vec<Warning>), ParseErrors>)
        ensures
            record is Ok == built_record(self@.fields, self@.errors) is Some,
            record is Ok ==> built_record(self@.fields, self@.errors) == Some(
                (record.unwrap().0@, record.unwrap().1.deep_view()),
            ),
            record is Err ==> record.unwrap_err() is PatternError,
    {
        build_record(&self.fields, self.errors)
    }
}

/// The record of the document with the tag stream `events`, and the
/// warnings of its extraction.
pub fn extract(events: &Vec<DocumentEvent>) -> (record: Result<(Data, Vec<Warning>), ParseErrors>)
    ensures
        record is Ok == extracted(events.deep_view()) is Some,
        record is Ok ==> extracted(events.deep_view()) == Some(
            (record.unwrap().0@, record.unwrap().1.deep_view()),
        ),
        record is Err ==> record.unwrap_err() is PatternError,
{
    let ghost all = events.deep_view();
    let mut state = Extractor::new();
    let mut i: usize = 0;
    assert(all.take(0) =~= Seq::empty());
    while i < events.len()
        invariant
            i <= events.len(),
            all == events.deep_view(),
            state@ == run(all.take(i as int)),
        decreases events.len() - i,
    {
        proof {
            assert(all.take(i + 1) =~= all.take(i as int).push(events@[i as int]@));
            lemma_run_push(all.take(i as int), events@[i as int]@);
        }
        state.feed(&events[i]);
        i += 1;
    }
    assert(all.take(i as int) =~= all);
    state.finish()
}

} // verus!
