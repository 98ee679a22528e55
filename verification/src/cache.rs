//! The decisions of loading a store: where the binary cache of a source
//! lies, whether it is fresh, and what to do next as the outside work
//! (reading, decoding, building, writing) reports back.
//!
//! The library does no input or output. The caller performs each action and
//! hands back what came of it as an event.

use vstd::prelude::*;
use vstd::string::StringExecFns;
use crate::text::{ends_with, is_suffix, to_chars};

verus! {

/// How the bytes of a cache are wrapped.
#[derive(Clone, Copy, Debug, PartialEq, Eq, Structural)]
pub enum CompressionMode {
    /// The bytes are wrapped in a gzip stream.
    Gzip,
    /// The bytes are written as they are.
    Plain,
}

/// What the file name of a cache ends in, by the wrapping of its bytes.
pub open spec fn cache_suffix_spec(mode: CompressionMode) -> Seq<char> {
    match mode {
        CompressionMode::Plain => ".flat.bin"@,
        CompressionMode::Gzip => ".comp.flat.bin"@,
    }
}

/// What the file name of a cache ends in, by the wrapping of its bytes.
pub fn cache_suffix(mode: CompressionMode) -> (r: &'static str)
    ensures
        r@ == cache_suffix_spec(mode),
{
    match mode {
        CompressionMode::Plain => ".flat.bin",
        CompressionMode::Gzip => ".comp.flat.bin",
    }
}

/// The file name of the cache of a source: the file name of the source, a
/// dot, and the suffix. The cache lies beside the source.
pub fn get_cache_path(file_name: &str, suffix: &str) -> (r: String)
    ensures
        r@ == file_name@ + seq!['.'] + suffix@,
{
    let mut r = String::from_str(file_name);
    r.push('.');
    r.append(suffix);
    r
}

/// The file name of the bundled dataset, by the wrapping of its bytes.
pub fn default_dataset_filename(mode: CompressionMode) -> (r: String)
    ensures
        r@ == "geodb"@ + cache_suffix_spec(mode),
{
    let mut r = String::from_str("geodb");
    r.append(cache_suffix(mode));
    r
}

/// A file name with the extension `bin`: it ends in `.bin`, and something
/// stands before that.
pub open spec fn is_binary_name_spec(name: Seq<char>) -> bool {
    name.len() > 4 && is_suffix(".bin"@, name)
}

/// Whether the file name has the extension `bin`, which marks a binary
/// cache that is to be decoded as it is.
pub fn is_binary_name(file_name: &str) -> (r: bool)
    ensures
        r == is_binary_name_spec(file_name@),
{
    let name = to_chars(file_name);
    let tail = to_chars(".bin");
    name.len() > 4 && ends_with(name.as_slice(), tail.as_slice())
}

/// How the bytes of a file are wrapped, by its name: in a gzip stream if the
/// name ends in `.gz` or in the suffix of a gzip cache, else not at all.
pub open spec fn compression_of_spec(name: Seq<char>) -> CompressionMode {
    if is_suffix(".gz"@, name) || is_suffix(cache_suffix_spec(CompressionMode::Gzip), name) {
        CompressionMode::Gzip
    } else {
        CompressionMode::Plain
    }
}

/// How the bytes of a file are wrapped, by its name.
pub fn compression_of(file_name: &str) -> (r: CompressionMode)
    ensures
        r == compression_of_spec(file_name@),
{
    let name = to_chars(file_name);
    let gz = to_chars(".gz");
    let comp = to_chars(cache_suffix(CompressionMode::Gzip));
    if ends_with(name.as_slice(), gz.as_slice()) || ends_with(name.as_slice(), comp.as_slice()) {
        CompressionMode::Gzip
    } else {
        CompressionMode::Plain
    }
}

/// A cache is fresh if it exists and was modified later than the source and
/// later than the side index, as far as these exist. Times are counted from
/// a common origin; an absent time stands for a file that is not there.
pub open spec fn cache_fresh(cache: Option<u64>, source: Option<u64>, side: Option<u64>) -> bool {
    match cache {
        Some(c) => (source matches Some(s) ==> s < c) && (side matches Some(m) ==> m < c),
        None => false,
    }
}

/// Whether the cache is fresh.
pub fn is_cache_fresh(cache: Option<u64>, source: Option<u64>, side: Option<u64>) -> (r: bool)
    ensures
        r == cache_fresh(cache, source, side),
{
    match cache {
        Some(c) => {
            let source_older = match source {
                Some(s) => s < c,
                None => true,
            };
            let side_older = match side {
                Some(m) => m < c,
                None => true,
            };
            source_older && side_older
        },
        None => false,
    }
}

// ---------------------------------------------------------------------------
// Loading, step by step
// ---------------------------------------------------------------------------

/// Why a load failed.
#[derive(Clone, Copy, Debug, PartialEq, Eq, Structural)]
pub enum LoadFailure {
    /// The file asked for is not there.
    NotFound,
    /// The source is there but is no valid document.
    Malformed,
    /// The binary cache is corrupt, cut short or over the size limit.
    Decode,
}

/// Where a load stands.
#[derive(Clone, Copy, Debug, PartialEq, Eq, Structural)]
pub enum LoadState {
    /// Nothing was asked yet.
    Idle,
    /// The path given is a binary cache; it is being decoded.
    DecodingGiven,
    /// The path given is a source; the times of the files are being read.
    Probing,
    /// The cache of the source is fresh; it is being decoded.
    DecodingCache,
    /// The store is being built from the source.
    Building,
    /// The store is built; it is being written to the cache.
    Caching,
    /// The store is there.
    Ready,
    /// The load failed.
    Failed(LoadFailure),
}

/// What the outside work reports.
#[derive(Clone, Copy, Debug, PartialEq, Eq, Structural)]
pub enum LoadEvent {
    /// A path is to be loaded; `binary` tells whether its file name has the
    /// extension of a binary cache.
    Requested { binary: bool },
    /// The modification times of the cache, the source and the side index.
    Probed { cache: Option<u64>, source: Option<u64>, side: Option<u64> },
    /// A binary file was decoded, or could not be, with the failure.
    Decoded { failure: Option<LoadFailure> },
    /// The source was read and the store built, or could not be, with the
    /// failure.
    Built { failure: Option<LoadFailure> },
    /// The cache was written, or could not be.
    Written { ok: bool },
}

/// What to do next.
#[derive(Clone, Copy, Debug, PartialEq, Eq, Structural)]
pub enum LoadAction {
    /// Read and decode the file given.
    DecodeGiven,
    /// Read the modification times of the cache, the source and the side
    /// index.
    Probe,
    /// Read and decode the cache.
    DecodeCache,
    /// Read the source and the side index and build the store.
    Build,
    /// Write the store to the cache.
    WriteCache,
    /// Hand out the store under the filter: what `GeoDb::deliver` gives for
    /// the store at hand, be it decoded or built.
    Deliver,
    /// Report the failure.
    Fail(LoadFailure),
    /// The event does not belong here; nothing is to be done.
    Nothing,
}

/// The step that an event causes in a state: the next state and the action
/// to take.
///
/// A binary path is decoded, and a failure to decode it fails the load. A
/// source path is probed; a fresh cache is decoded, and when that fails the
/// store is built as if there were no cache. After building, the cache is
/// written with the whole store, and the store is delivered whether or not
/// the write succeeds. Every delivery is of the store under the filter, so
/// a load gives the same countries whether it ends in a cache or in a build.
pub open spec fn step_spec(state: LoadState, event: LoadEvent) -> (LoadState, LoadAction) {
    match (state, event) {
        (LoadState::Idle, LoadEvent::Requested { binary }) => if binary {
            (LoadState::DecodingGiven, LoadAction::DecodeGiven)
        } else {
            (LoadState::Probing, LoadAction::Probe)
        },
        (LoadState::DecodingGiven, LoadEvent::Decoded { failure }) => match failure {
            None => (LoadState::Ready, LoadAction::Deliver),
            Some(f) => (LoadState::Failed(f), LoadAction::Fail(f)),
        },
        (LoadState::Probing, LoadEvent::Probed { cache, source, side }) => if cache_fresh(cache, source, side) {
            (LoadState::DecodingCache, LoadAction::DecodeCache)
        } else {
            (LoadState::Building, LoadAction::Build)
        },
        (LoadState::DecodingCache, LoadEvent::Decoded { failure }) => match failure {
            None => (LoadState::Ready, LoadAction::Deliver),
            Some(_) => (LoadState::Building, LoadAction::Build),
        },
        (LoadState::Building, LoadEvent::Built { failure }) => match failure {
            None => (LoadState::Caching, LoadAction::WriteCache),
            Some(f) => (LoadState::Failed(f), LoadAction::Fail(f)),
        },
        (LoadState::Caching, LoadEvent::Written { ok }) => (LoadState::Ready, LoadAction::Deliver),
        _ => (state, LoadAction::Nothing),
    }
}

/// Takes one step of a load.
pub fn step(state: LoadState, event: LoadEvent) -> (r: (LoadState, LoadAction))
    ensures
        r == step_spec(state, event),
{
    match (state, event) {
        (LoadState::Idle, LoadEvent::Requested { binary }) => if binary {
            (LoadState::DecodingGiven, LoadAction::DecodeGiven)
        } else {
            (LoadState::Probing, LoadAction::Probe)
        },
        (LoadState::DecodingGiven, LoadEvent::Decoded { failure }) => match failure {
            None => (LoadState::Ready, LoadAction::Deliver),
            Some(f) => (LoadState::Failed(f), LoadAction::Fail(f)),
        },
        (LoadState::Probing, LoadEvent::Probed { cache, source, side }) => if is_cache_fresh(cache, source, side) {
            (LoadState::DecodingCache, LoadAction::DecodeCache)
        } else {
            (LoadState::Building, LoadAction::Build)
        },
        (LoadState::DecodingCache, LoadEvent::Decoded { failure }) => match failure {
            None => (LoadState::Ready, LoadAction::Deliver),
            Some(_) => (LoadState::Building, LoadAction::Build),
        },
        (LoadState::Building, LoadEvent::Built { failure }) => match failure {
            None => (LoadState::Caching, LoadAction::WriteCache),
            Some(f) => (LoadState::Failed(f), LoadAction::Fail(f)),
        },
        (LoadState::Caching, LoadEvent::Written { ok }) => (LoadState::Ready, LoadAction::Deliver),
        _ => (state, LoadAction::Nothing),
    }
}

/// The state that a load is in after a run of events.
pub open spec fn run(state: LoadState, events: Seq<LoadEvent>) -> LoadState
    decreases events.len(),
{
    if events.len() == 0 {
        state
    } else {
        step_spec(run(state, events.drop_last()), events.last()).0
    }
}

/// A load fails only on a report of failure: if a run of events from the
/// start ends in a failed state, then one of the events reports that the
/// file given could not be decoded or that the store could not be built,
/// with that failure. A cache that cannot be written, and a cache of a
/// source that cannot be decoded, fail no load.
pub proof fn lemma_failure_is_reported(events: Seq<LoadEvent>, f: LoadFailure)
    requires
        run(LoadState::Idle, events) == LoadState::Failed(f),
    ensures
        exists|i: int|
            0 <= i < events.len() && (#[trigger] events[i] == LoadEvent::Decoded { failure: Some(f) } || events[i]
                == LoadEvent::Built { failure: Some(f) }),
    decreases events.len(),
{
    if events.len() > 0 {
        let init = events.drop_last();
        let before = run(LoadState::Idle, init);
        if before == LoadState::Failed(f) {
            lemma_failure_is_reported(init, f);
            let i = choose|i: int|
                0 <= i < init.len() && (#[trigger] init[i] == LoadEvent::Decoded { failure: Some(f) } || init[i]
                    == LoadEvent::Built { failure: Some(f) });
            assert(events[i] == init[i]);
        } else {
            assert(events[events.len() - 1] == events.last());
        }
    }
}

/// A load is ready exactly when the store is delivered: every step into the
/// ready state hands out the store under the filter, and nothing else does.
pub proof fn lemma_ready_delivers(state: LoadState, event: LoadEvent)
    requires
        state != LoadState::Ready,
    ensures
        step_spec(state, event).0 == LoadState::Ready <==> step_spec(state, event).1 == LoadAction::Deliver,
{
}

/// A failure to decode fails a load only if the file given was the binary
/// cache itself: while the cache of a source is decoded, every report leads
/// on to the store or to building it.
pub proof fn lemma_cache_decode_never_fails(failure: Option<LoadFailure>)
    ensures
        !(step_spec(LoadState::DecodingCache, LoadEvent::Decoded { failure }).0 is Failed),
        !(step_spec(LoadState::Caching, LoadEvent::Written { ok: false }).0 is Failed),
        step_spec(LoadState::Caching, LoadEvent::Written { ok: false }) == step_spec(
            LoadState::Caching,
            LoadEvent::Written { ok: true },
        ),
{
}

} // verus!
