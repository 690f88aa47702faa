use vstd::prelude::*;
use crate::record::{Kind, Source};

verus! {

/// The five user toggles: a gate per kind and a gate per source.
#[derive(Clone, Copy, Debug, PartialEq, Eq, Structural)]
pub struct Filter {
    pub info: bool,
    pub warning: bool,
    pub error: bool,
    pub engine: bool,
    pub game: bool,
}

impl Filter {
    /// Whether the kind gate lets `kind` through.
    pub open spec fn admits_kind(&self, kind: Kind) -> bool {
        match kind {
            Kind::Information => self.info,
            Kind::Warning => self.warning,
            Kind::Error => self.error,
        }
    }

    /// Whether the source gate lets `source` through.
    pub open spec fn admits_source(&self, source: Source) -> bool {
        match source {
            Source::Engine => self.engine,
            Source::Game => self.game,
        }
    }

    /// The gates of `self`, but the one of `kind` is `on`.
    pub open spec fn with_kind(self, kind: Kind, on: bool) -> Filter {
        match kind {
            Kind::Information => Filter { info: on, ..self },
            Kind::Warning => Filter { warning: on, ..self },
            Kind::Error => Filter { error: on, ..self },
        }
    }

    /// The gates of `self`, but the one of `source` is `on`.
    pub open spec fn with_source(self, source: Source, on: bool) -> Filter {
        match source {
            Source::Engine => Filter { engine: on, ..self },
            Source::Game => Filter { game: on, ..self },
        }
    }

    pub open spec fn new_spec() -> Filter {
        Filter { info: true, warning: true, error: true, engine: true, game: true }
    }

    /// Every gate open.
    pub fn new() -> (r: Filter)
        ensures
            r == Filter::new_spec(),
    {
        Filter { info: true, warning: true, error: true, engine: true, game: true }
    }

    pub fn set_kind(&mut self, kind: Kind, on: bool)
        ensures
            *final(self) == old(self).with_kind(kind, on),
            final(self).admits_kind(kind) == on,
            forall|k: Kind| k != kind ==> final(self).admits_kind(k) == old(self).admits_kind(k),
            final(self).engine == old(self).engine,
            final(self).game == old(self).game,
    {
        match kind {
            Kind::Information => self.info = on,
            Kind::Warning => self.warning = on,
            Kind::Error => self.error = on,
        }
    }

    pub fn set_source(&mut self, source: Source, on: bool)
        ensures
            *final(self) == old(self).with_source(source, on),
            final(self).admits_source(source) == on,
            forall|s: Source|
                s != source ==> final(self).admits_source(s) == old(self).admits_source(s),
            final(self).info == old(self).info,
            final(self).warning == old(self).warning,
            final(self).error == old(self).error,
    {
        match source {
            Source::Engine => self.engine = on,
            Source::Game => self.game = on,
        }
    }

    pub fn admits_kind_exec(&self, kind: Kind) -> (r: bool)
        ensures
            r == self.admits_kind(kind),
    {
        match kind {
            Kind::Information => self.info,
            Kind::Warning => self.warning,
            Kind::Error => self.error,
        }
    }

    /// The gates as `(info, warning, error, engine, game)`.
    pub fn snapshot(&self) -> (r: (bool, bool, bool, bool, bool))
        ensures
            r == (self.info, self.warning, self.error, self.engine, self.game),
    {
        (self.info, self.warning, self.error, self.engine, self.game)
    }
}

} // verus!
