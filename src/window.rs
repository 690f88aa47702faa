use vstd::prelude::*;
use crate::classify::{
    classify, classify_spec, has_occurrence, marker, lemma_strip_leaves_no_marker, strip_markers,
};
use crate::filter::Filter;
use crate::record::{Key, Kind, Record, Source};
use crate::ring::{Ring, appended, appended_all, lemma_appended_all_push};
use crate::view::{ViewItem, derive_view, derived, items_view};

verus! {

/// The checkbox a UI message is addressed to.
#[derive(Clone, Copy, Debug, PartialEq, Eq, Structural)]
pub enum Toggle {
    Info,
    Warning,
    Error,
    Engine,
    Game,
    Other,
}

/// The widget handles of the five checkboxes.
#[derive(Clone, Copy, Debug, PartialEq, Eq, Structural)]
pub struct CheckBoxes {
    pub info: u64,
    pub warning: u64,
    pub error: u64,
    pub engine: u64,
    pub game: u64,
}

/// The checkbox a message addressed to `destination` is about; the first
/// match in the order info, warning, error, engine, game.
pub open spec fn toggle_spec(c: CheckBoxes, destination: u64) -> Toggle {
    if destination == c.info {
        Toggle::Info
    } else if destination == c.warning {
        Toggle::Warning
    } else if destination == c.error {
        Toggle::Error
    } else if destination == c.engine {
        Toggle::Engine
    } else if destination == c.game {
        Toggle::Game
    } else {
        Toggle::Other
    }
}

impl CheckBoxes {
    pub fn toggle_for(&self, destination: u64) -> (r: Toggle)
        ensures
            r == toggle_spec(*self, destination),
    {
        if destination == self.info {
            Toggle::Info
        } else if destination == self.warning {
            Toggle::Warning
        } else if destination == self.error {
            Toggle::Error
        } else if destination == self.engine {
            Toggle::Engine
        } else if destination == self.game {
            Toggle::Game
        } else {
            Toggle::Other
        }
    }
}

/// A message from the widget system, as far as the viewer reads it.
#[derive(Clone, Copy, Debug, PartialEq, Eq, Structural)]
pub enum UiMessage {
    /// A checkbox changed; `from_widget` tells whether the widget itself sent
    /// it, and `checked` is its new state.
    CheckBox { target: Toggle, from_widget: bool, checked: Option<bool> },
    Other,
}

/// The filter after a UI message: a checkbox change sent by the widget sets
/// the matching gate (an undetermined state counts as unchecked); anything
/// else leaves it.
pub open spec fn apply_message(f: Filter, m: UiMessage) -> Filter {
    match m {
        UiMessage::CheckBox { target, from_widget, checked } => {
            let on = match checked {
                Some(c) => c,
                None => false,
            };
            if !from_widget {
                f
            } else {
                match target {
                    Toggle::Info => f.with_kind(Kind::Information, on),
                    Toggle::Warning => f.with_kind(Kind::Warning, on),
                    Toggle::Error => f.with_kind(Kind::Error, on),
                    Toggle::Engine => f.with_source(Source::Engine, on),
                    Toggle::Game => f.with_source(Source::Game, on),
                    Toggle::Other => f,
                }
            }
        },
        UiMessage::Other => f,
    }
}

pub open spec fn apply_messages(f: Filter, ms: Seq<UiMessage>) -> Filter
    decreases ms.len(),
{
    if ms.len() == 0 {
        f
    } else {
        apply_message(apply_messages(f, ms.drop_last()), ms.last())
    }
}

/// Whether a UI message asks for the view to be derived again.
pub open spec fn requires_update(m: UiMessage) -> bool {
    m is CheckBox
}

/// The (game, engine) ring contents after one record arrives.
pub open spec fn ingested(rings: (Seq<Key>, Seq<Key>), k: Key, max: nat) -> (Seq<Key>, Seq<Key>) {
    let (source, content) = classify_spec(k.1);
    match source {
        Source::Game => (appended(rings.0, (k.0, content), max), rings.1),
        Source::Engine => (rings.0, appended(rings.1, (k.0, content), max)),
    }
}

pub open spec fn ingested_all(rings: (Seq<Key>, Seq<Key>), ks: Seq<Key>, max: nat) -> (
    Seq<Key>,
    Seq<Key>,
)
    decreases ks.len(),
{
    if ks.len() == 0 {
        rings
    } else {
        ingested(ingested_all(rings, ks.drop_last(), max), ks.last(), max)
    }
}

/// The state of the log viewer: a ring per source and the filter.
pub struct LogChildOsWindow {
    messages_from_game: Ring,
    messages_from_engine: Ring,
    filter: Filter,
    max_messages: usize,
}

impl LogChildOsWindow {
    pub closed spec fn game(&self) -> Seq<Key> {
        self.messages_from_game.view()
    }

    pub closed spec fn engine(&self) -> Seq<Key> {
        self.messages_from_engine.view()
    }

    pub closed spec fn filter_spec(&self) -> Filter {
        self.filter
    }

    pub closed spec fn max(&self) -> nat {
        self.max_messages as nat
    }

    pub closed spec fn wf(&self) -> bool {
        &&& self.messages_from_game.wf()
        &&& self.messages_from_engine.wf()
        &&& self.messages_from_game.capacity() == self.max_messages
        &&& self.messages_from_engine.capacity() == self.max_messages
        &&& self.max_messages <= usize::MAX / 2
    }

    /// Both rings hold at most `max()` records.
    pub proof fn lemma_rings_bounded(&self)
        requires
            self.wf(),
        ensures
            self.game().len() <= self.max(),
            self.engine().len() <= self.max(),
    {
        self.messages_from_game.lemma_bounded();
        self.messages_from_engine.lemma_bounded();
    }

    /// An empty viewer keeping at most `max_messages` records per source,
    /// every gate open.
    pub fn new(max_messages: usize) -> (r: LogChildOsWindow)
        requires
            max_messages <= usize::MAX / 2,
        ensures
            r.wf(),
            r.game() == Seq::<Key>::empty(),
            r.engine() == Seq::<Key>::empty(),
            r.max() == max_messages,
            r.filter_spec() == Filter::new_spec(),
    {
        LogChildOsWindow {
            messages_from_game: Ring::new(max_messages),
            messages_from_engine: Ring::new(max_messages),
            filter: Filter::new(),
            max_messages,
        }
    }

    pub fn filter(&self) -> (r: Filter)
        ensures
            r == self.filter_spec(),
    {
        self.filter
    }

    pub fn game_ring(&self) -> (r: &Ring)
        ensures
            r.view() == self.game(),
    {
        &self.messages_from_game
    }

    pub fn engine_ring(&self) -> (r: &Ring)
        ensures
            r.view() == self.engine(),
    {
        &self.messages_from_engine
    }

    /// Classifies one record and appends it to its source's ring; returns the
    /// source.
    pub fn ingest(&mut self, record: Record) -> (r: Source)
        requires
            old(self).wf(),
        ensures
            final(self).wf(),
            final(self).max() == old(self).max(),
            final(self).filter_spec() == old(self).filter_spec(),
            (final(self).game(), final(self).engine()) == ingested(
                (old(self).game(), old(self).engine()),
                record.key(),
                old(self).max(),
            ),
            r == classify_spec(record.content@).0,
    {
        let (source, stored) = classify(record);
        match source {
            Source::Game => self.messages_from_game.push(stored),
            Source::Engine => self.messages_from_engine.push(stored),
        }
        source
    }

    /// Applies a UI message to the filter; returns whether the view must be
    /// derived again, which is so for every checkbox message.
    pub fn handle_ui_message(&mut self, message: &UiMessage) -> (r: bool)
        ensures
            final(self).filter_spec() == apply_message(old(self).filter_spec(), *message),
            final(self).game() == old(self).game(),
            final(self).engine() == old(self).engine(),
            final(self).max() == old(self).max(),
            old(self).wf() ==> final(self).wf(),
            r == requires_update(*message),
    {
        match *message {
            UiMessage::CheckBox { target, from_widget, checked } => {
                if from_widget {
                    let on = match checked {
                        Some(c) => c,
                        None => false,
                    };
                    match target {
                        Toggle::Info => self.filter.set_kind(Kind::Information, on),
                        Toggle::Warning => self.filter.set_kind(Kind::Warning, on),
                        Toggle::Error => self.filter.set_kind(Kind::Error, on),
                        Toggle::Engine => self.filter.set_source(Source::Engine, on),
                        Toggle::Game => self.filter.set_source(Source::Game, on),
                        Toggle::Other => {},
                    }
                }
                true
            },
            UiMessage::Other => false,
        }
    }

    /// The folded view of the current rings under the current filter.
    pub fn derive(&self) -> (r: Vec<ViewItem>)
        requires
            self.wf(),
        ensures
            items_view(r@) == derived(self.game(), self.engine(), self.filter_spec()),
    {
        proof {
            self.lemma_rings_bounded();
        }
        derive_view(&self.messages_from_game, &self.messages_from_engine, &self.filter)
    }

    /// One tick's decisions: ingest the records that arrived, in order, apply
    /// the UI messages, in order, and derive the view again when anything was
    /// ingested or any message asked for it.
    pub fn update(&mut self, records: Vec<Record>, messages: Vec<UiMessage>) -> (r: Option<
        Vec<ViewItem>,
    >)
        requires
            old(self).wf(),
        ensures
            final(self).wf(),
            final(self).max() == old(self).max(),
            (final(self).game(), final(self).engine()) == ingested_all(
                (old(self).game(), old(self).engine()),
                records@.map_values(|x: Record| x.key()),
                old(self).max(),
            ),
            final(self).filter_spec() == apply_messages(old(self).filter_spec(), messages@),
            r is Some <==> (records@.len() > 0 || exists|i: int|
                0 <= i < messages@.len() && requires_update(#[trigger] messages@[i])),
            r matches Some(v) ==> items_view(v@) == derived(
                final(self).game(),
                final(self).engine(),
                final(self).filter_spec(),
            ),
    {
        let ghost keys = records@.map_values(|x: Record| x.key());
        let ghost g0 = self.game();
        let ghost e0 = self.engine();
        let ghost f0 = self.filter;
        let mut i: usize = 0;
        proof {
            assert(keys.subrange(0, 0) =~= Seq::<Key>::empty());
        }
        while i < records.len()
            invariant
                self.wf(),
                self.max() == old(self).max(),
                self.filter == f0,
                i <= records@.len(),
                keys == records@.map_values(|x: Record| x.key()),
                (self.game(), self.engine()) == ingested_all(
                    (g0, e0),
                    keys.subrange(0, i as int),
                    self.max(),
                ),
            decreases records@.len() - i,
        {
            let r = records[i].duplicate();
            self.ingest(r);
            proof {
                assert(keys.subrange(0, i as int + 1).drop_last() =~= keys.subrange(0, i as int));
            }
            i += 1;
        }
        proof {
            assert(keys.subrange(0, records@.len() as int) =~= keys);
        }
        let mut changed = false;
        let mut j: usize = 0;
        proof {
            assert(messages@.subrange(0, 0) =~= Seq::<UiMessage>::empty());
        }
        while j < messages.len()
            invariant
                self.wf(),
                self.max() == old(self).max(),
                j <= messages@.len(),
                (self.game(), self.engine()) == ingested_all((g0, e0), keys, self.max()),
                self.filter == apply_messages(f0, messages@.subrange(0, j as int)),
                changed <==> exists|k: int|
                    0 <= k < j && requires_update(#[trigger] messages@[k]),
            decreases messages@.len() - j,
        {
            let wants = self.handle_ui_message(&messages[j]);
            proof {
                assert(messages@.subrange(0, j as int + 1).drop_last() =~= messages@.subrange(
                    0,
                    j as int,
                ));
                if wants {
                    assert(requires_update(messages@[j as int]));
                }
            }
            changed = changed || wants;
            j += 1;
        }
        proof {
            assert(messages@.subrange(0, messages@.len() as int) =~= messages@);
        }
        if records.len() > 0 || changed {
            Some(self.derive())
        } else {
            None
        }
    }
}

/// A record whose content holds the marker lands at the tail of the game ring
/// with every marker removed, so its stored content holds no marker; the
/// engine ring is untouched.
pub proof fn lemma_game_record_stored(
    rings: (Seq<Key>, Seq<Key>),
    kind: Kind,
    content: Seq<char>,
    max: nat,
)
    requires
        max > 0,
        has_occurrence(content, marker()),
    ensures
        ingested(rings, (kind, content), max).0.last() == (kind, strip_markers(content)),
        ingested(rings, (kind, content), max).1 == rings.1,
        !has_occurrence(ingested(rings, (kind, content), max).0.last().1, marker()),
{
    lemma_strip_leaves_no_marker(content);
}

/// The records of a batch that are routed to `source`, in channel order, as
/// they are stored.
pub open spec fn routed(ks: Seq<Key>, source: Source) -> Seq<Key>
    decreases ks.len(),
{
    if ks.len() == 0 {
        Seq::empty()
    } else {
        let rest = routed(ks.drop_last(), source);
        let (src, content) = classify_spec(ks.last().1);
        if src == source {
            rest.push((ks.last().0, content))
        } else {
            rest
        }
    }
}

/// Routing of a batch: each ring ends as if exactly the batch's records of
/// its source had been appended to it one by one, in channel order, each
/// game record with its markers removed.
pub proof fn lemma_batch_routing(rings: (Seq<Key>, Seq<Key>), ks: Seq<Key>, max: nat)
    ensures
        ingested_all(rings, ks, max) == (
            appended_all(rings.0, routed(ks, Source::Game), max),
            appended_all(rings.1, routed(ks, Source::Engine), max),
        ),
    decreases ks.len(),
{
    if ks.len() > 0 {
        let k = ks.last();
        lemma_batch_routing(rings, ks.drop_last(), max);
        let (src, content) = classify_spec(k.1);
        lemma_appended_all_push(rings.0, routed(ks.drop_last(), Source::Game), (k.0, content), max);
        lemma_appended_all_push(
            rings.1,
            routed(ks.drop_last(), Source::Engine),
            (k.0, content),
            max,
        );
    }
}

} // verus!
