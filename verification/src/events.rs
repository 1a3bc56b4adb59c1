//! The messages exchanged with the upload bus and the HTTP surface, as plain
//! values.

use crate::hashing::Fingerprint;
use vstd::prelude::*;

verus! {

/// The announcement that the audio of a track has been uploaded.
#[derive(Debug, Clone, PartialEq, Eq)]
pub struct SongUploaded {
    pub song_id: String,
    pub s3_key: String,
    pub uploaded_at: i64,
}

/// The announcement that the fingerprints of a track have been extracted.
#[derive(Debug, Clone, PartialEq, Eq)]
pub struct FingerprintGenerated {
    pub song_id: String,
    pub fingerprints: Vec<Fingerprint>,
    pub generated_at: i64,
}

/// The answer to an upload for fingerprinting.
#[derive(Debug, Clone, PartialEq, Eq)]
pub struct FingerprintResponse {
    pub fingerprints: Vec<Fingerprint>,
}

/// The answer to an upload for lookup.
#[derive(Debug, Clone, PartialEq, Eq)]
pub struct LookupResponse {
    pub fingerprints: Vec<Fingerprint>,
}

/// The seconds since 1970-01-01 00:00:00 UTC by the system clock: the
/// reading of `std::time::SystemTime::now()`, which chrono turns into a
/// `DateTime<Utc>` and that into its `timestamp()`. A clock that stands
/// before 1970 gives a negative number. Nothing is claimed of the number:
/// two readings may differ in any way.
#[verifier::external_body]
fn epoch_seconds_now() -> (seconds: i64) {
    chrono::DateTime::<chrono::Utc>::from(std::time::SystemTime::now()).timestamp()
}

/// The announcement for the fingerprints of the track that `event` names,
/// extracted at `generated_at`.
pub fn fingerprint_generated(
    event: &SongUploaded,
    fingerprints: Vec<Fingerprint>,
    generated_at: i64,
) -> (announcement: FingerprintGenerated)
    ensures
        announcement.song_id@ == event.song_id@,
        announcement.fingerprints@ == fingerprints@,
        announcement.generated_at == generated_at,
{
    FingerprintGenerated { song_id: event.song_id.clone(), fingerprints, generated_at }
}

/// The announcement for the fingerprints of the track that `event` names,
/// with the present time of the system clock as the time of extraction.
pub fn fingerprint_generated_now(event: &SongUploaded, fingerprints: Vec<Fingerprint>) -> (announcement:
    FingerprintGenerated)
    ensures
        announcement.song_id@ == event.song_id@,
        announcement.fingerprints@ == fingerprints@,
{
    let generated_at: i64 = epoch_seconds_now();
    fingerprint_generated(event, fingerprints, generated_at)
}

} // verus!
