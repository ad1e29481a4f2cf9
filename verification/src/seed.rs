//! A starter config, written only when an app asks for one. Nothing here fires by itself: the
//! app calls [`write_default_config`] when the user requests a new config, and the template is the
//! app's own. The shared part is the rule: write where nothing is, never clobber.
//!
//! The file-system work is the caller's: it reports whether the path exists, performs the write
//! that [`write_default_config`] asks for (creating parent directories, atomically), and hands
//! the outcome to [`seed_written`].
use vstd::prelude::*;

verus! {

/// `std::io::Error`, carried through as the cause of a failed read or write.
#[verifier::external_type_specification]
#[verifier::external_body]
pub struct ExIoError(std::io::Error);

/// Why writing a starter config failed.
#[derive(Debug)]
pub enum SeedError {
    /// The config (or its parent directory) could not be written.
    Io(std::io::Error),
}

/// The next step of seeding a config.
#[derive(Debug)]
pub enum SeedStep {
    /// Seeding is over, with this outcome.
    Done(Result<bool, SeedError>),
    /// Create the config file with these contents (and its parent directories), then report the
    /// outcome to [`seed_written`].
    Write { contents: String },
}

/// Decide what seeding a config at a path does, given whether something is already there.
/// An existing file is left untouched and the outcome is `Ok(false)`, so the caller can say so
/// rather than report success; otherwise `template` is to be written.
pub fn write_default_config(path_exists: bool, template: &str) -> (r: SeedStep)
    ensures
        path_exists ==> r == SeedStep::Done(Ok(false)),
        !path_exists ==> (r matches SeedStep::Write { contents } && contents@ == template@),
{
    if path_exists {
        return SeedStep::Done(Ok(false));
    }
    SeedStep::Write { contents: template.to_owned() }
}

/// The outcome of seeding once the requested write is done: `Ok(true)` when it succeeded, the
/// write's error otherwise.
pub fn seed_written(write: Result<(), std::io::Error>) -> (r: Result<bool, SeedError>)
    ensures
        write is Ok ==> r == Ok::<bool, SeedError>(true),
        write matches Err(e) ==> r == Err::<bool, SeedError>(SeedError::Io(e)),
{
    match write {
        Ok(()) => Ok(true),
        Err(e) => Err(SeedError::Io(e)),
    }
}

}
