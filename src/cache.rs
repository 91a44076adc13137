use crate::carriage::Carriage;
use crate::snapshot::{parse_snapshot, registry_model, SnapshotError};
use vstd::prelude::*;

verus! {

/// How the registry is obtained.
#[derive(Clone, Copy, Debug, PartialEq, Eq, Structural)]
pub struct Config {
    /// Ingest the export even where a snapshot exists.
    pub fresh: bool,
}

impl Config {
    pub fn fresh() -> (r: Self)
        ensures
            r.fresh,
    {
        Config { fresh: true }
    }

    pub fn new() -> (r: Self)
        ensures
            !r.fresh,
    {
        Config { fresh: false }
    }
}

/// Where the export is, and how the registry is obtained.
pub struct Mast {
    pub path: String,
    pub config: Config,
}

impl Mast {
    pub fn path(load_path: &str) -> (r: Self)
        ensures
            r.path@ == load_path@,
            !r.config.fresh,
    {
        Mast { path: load_path.to_string(), config: Config::new() }
    }

    /// Sets how the registry is obtained; returns the same `Mast`, for
    /// chaining.
    pub fn config(&mut self, config: Config) -> (r: &mut Self)
        ensures
            r.config == config,
            r.path == old(self).path,
            *final(self) == *final(r),
    {
        self.config = config;
        self
    }

    /// Whether the snapshot is to be read at all.
    pub fn consults_snapshot(&self) -> (r: bool)
        ensures
            r == !self.config.fresh,
    {
        !self.config.fresh
    }

    /// The registry from the snapshot, where one is to be used: `None` asks
    /// for the export to be ingested. With `fresh` the snapshot is never
    /// read, whatever it holds; a snapshot that cannot be read is an error.
    pub fn load(&self, snapshot: Option<&[u8]>) -> (r: Result<Option<Carriage>, SnapshotError>)
        ensures
            self.config.fresh ==> r matches Ok(None),
            !self.config.fresh && snapshot is None ==> r matches Ok(None),
            !self.config.fresh && snapshot is Some ==> match parse_snapshot(snapshot->Some_0@) {
                Some(m) => r matches Ok(Some(c)) && c.wf() && registry_model(c.map@) == m,
                None => r == Err::<Option<Carriage>, SnapshotError>(SnapshotError::CacheCorrupt),
            },
    {
        if self.config.fresh {
            return Ok(None);
        }
        match snapshot {
            None => Ok(None),
            Some(b) => match Carriage::load(b) {
                Ok(c) => Ok(Some(c)),
                Err(e) => Err(e),
            },
        }
    }
}

/// Turns the bytes of a snapshot back into what they hold.
pub trait Crusher: Sized {
    type Floam;

    fn uncrush(contents: Vec<u8>) -> Result<Self::Floam, SnapshotError>;
}

impl Crusher for Mast {
    type Floam = Carriage;

    fn uncrush(contents: Vec<u8>) -> (r: Result<Carriage, SnapshotError>)
        ensures
            match parse_snapshot(contents@) {
                Some(m) => r matches Ok(c) && c.wf() && registry_model(c.map@) == m,
                None => r == Err::<Carriage, SnapshotError>(SnapshotError::CacheCorrupt),
            },
    {
        Carriage::load(contents.as_slice())
    }
}

} // verus!
