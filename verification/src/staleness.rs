//! The staleness oracle: decides whether a cached derivative (a downsized
//! thumbnail) must be regenerated from its source image.

use vstd::prelude::*;

verus! {

/// What came back when a file's creation time was asked for.
#[derive(Clone, Copy, PartialEq, Eq, Structural, Debug)]
pub enum Timestamp {
    /// The file does not exist.
    Missing,
    /// The file exists, but its metadata or creation time could not be read.
    Unreadable,
    /// The creation time, in any fixed monotone unit since a fixed epoch.
    Known(u64),
}

/// The staleness policy.  Regeneration is demanded whenever it is forced,
/// whenever either file is absent or its creation time cannot be read, and
/// whenever the source's creation time is at or after the derivative's.
/// Regeneration is skipped only when the derivative is provably newer than
/// its source: lacking a definitive "source is newer" signal, the derivative
/// counts as up to date.  On filesystems without creation times this policy
/// regenerates rather than silently keeping a possibly stale derivative.
pub open spec fn spec_should_regenerate(
    force: bool,
    source: Timestamp,
    derivative: Timestamp,
) -> bool {
    match (source, derivative) {
        (Timestamp::Known(s), Timestamp::Known(d)) => force || s >= d,
        _ => true,
    }
}

/// Staleness oracle, `should_regenerate(source, derivative, force)`: `true`
/// exactly when the derivative must be rebuilt under the policy of
/// [`spec_should_regenerate`].
pub fn should_regenerate(source: Timestamp, derivative: Timestamp, force: bool) -> (r: bool)
    ensures
        r == spec_should_regenerate(force, source, derivative),
{
    match (source, derivative) {
        (Timestamp::Known(s), Timestamp::Known(d)) => force || s >= d,
        _ => true,
    }
}

/// Regeneration is skipped exactly when it is not forced and both creation
/// times are known and the derivative's is strictly newer than the source's.
pub proof fn lemma_skip_means_newer(force: bool, source: Timestamp, derivative: Timestamp)
    ensures
        !spec_should_regenerate(force, source, derivative) <==> (!force && exists|s: u64, d: u64|
            source == Timestamp::Known(s) && derivative == Timestamp::Known(d) && d > s),
{
    if !spec_should_regenerate(force, source, derivative) {
        match (source, derivative) {
            (Timestamp::Known(s), Timestamp::Known(d)) => {
                assert(source == Timestamp::Known(s) && derivative == Timestamp::Known(d)
                    && d > s);
            },
            _ => {},
        }
    }
}

} // verus!
