//! The write path's decisions: whether a finished stream is worth caching,
//! where its artifact goes, and what header precedes the payload.  The
//! byte copy itself and all file I/O stay with the caller; on a successful
//! copy the caller commits the mapping with `TrackCache::insert`.

use vstd::prelude::*;
use vstd::string::StringExecFns;
use crate::meta::{TrackMeta, DcaMetadata, spec_from_meta, BITRATE};
use crate::codec::{ser_header, spec_header_bytes};
use crate::index::TrackCache;

verus! {

/// Longest stream the cache stores, in milliseconds: anything longer is
/// taken for radio or live content and skipped.
pub const MAX_CACHED_MS: u64 = 1_200_000;

/// The eligibility rule of the write path: only a stream whose declared
/// duration is known and at most twenty minutes is cached.
pub open spec fn spec_eligible(duration_ms: Option<u64>) -> bool {
    match duration_ms {
        Some(d) => d <= MAX_CACHED_MS,
        None => false,
    }
}

/// Whether a finished stream is worth caching.
pub fn eligible(duration_ms: Option<u64>) -> (r: bool)
    ensures
        r == spec_eligible(duration_ms),
{
    match duration_ms {
        Some(d) => d <= MAX_CACHED_MS,
        None => false,
    }
}

/// Bytes to set aside for an eligible stream's compressed payload: one
/// second more than the duration, at the target bitrate.
pub fn estimated_len(duration_ms: u64) -> (r: u64)
    requires
        duration_ms <= MAX_CACHED_MS,
    ensures
        r == (duration_ms / 1000 + 1) * BITRATE / 8,
{
    (duration_ms / 1000 + 1) * BITRATE / 8
}

/// The host component that http's Uri parser extracts from a URL, `None`
/// when the text does not parse or names no host.  Relies on http::Uri:
/// the host is a function of the URL text alone.
pub uninterp spec fn uri_host_of(s: Seq<char>) -> Option<Seq<char>>;

/// The query component that http's Uri parser extracts from a URL, `None`
/// when the text does not parse or carries no query.  Relies on http::Uri:
/// the query is a function of the URL text alone.
pub uninterp spec fn uri_query_of(s: Seq<char>) -> Option<Seq<char>>;

/// Relies on http::Uri: `FromStr` parsing, then `Uri::host` and
/// `Uri::query`, both functions of the URL text alone; the two components
/// are copied out with `str::to_owned`.
#[verifier::external_body]
fn split_source_url(s: &str) -> (r: Option<(String, String)>)
    ensures
        r is Some <==> (uri_host_of(s@) is Some && uri_query_of(s@) is Some),
        r is Some ==> r.unwrap().0@ == uri_host_of(s@).unwrap() && r.unwrap().1@ == uri_query_of(
            s@,
        ).unwrap(),
{
    match s.parse::<http::Uri>() {
        Ok(u) => match (u.host(), u.query()) {
            (Some(h), Some(q)) => Some((h.to_owned(), q.to_owned())),
            _ => None,
        },
    Err(_) => None,
    }
}

/// The artifact path for a source URL, relative to the cache root: the
/// host directory, a slash, the query component.
pub open spec fn spec_rel_path(host: Seq<char>, query: Seq<char>) -> Seq<char> {
    host + "/"@ + query
}

/// Join a host directory and a query component into a relative path.
pub fn rel_path(host: &str, query: &str) -> (r: String)
    ensures
        r@ == spec_rel_path(host@, query@),
{
    let mut s = host.to_owned();
    s.append("/");
    s.append(query);
    s
}

/// What the write path decided for one finished stream.
pub struct WritePlan {
    /// The host directory under the cache root.
    pub host_dir: String,
    /// The artifact path relative to the cache root.
    pub rel_path: String,
    /// The framed header to write before the payload bytes.
    pub header: Vec<u8>,
    /// Bytes to set aside for the payload copy.
    pub reserve: u64,
}

/// Decide the write path for a finished stream, in the order the cache
/// applies its rules: the stream must carry a source URL, its duration
/// must pass the eligibility rule, the URL must not be cached already
/// (the duplicate-write guard; the caller holds the index lock across this
/// check and the later insert decision), the URL must yield a host and a
/// query, and the header must fit its length field.  `None` means: do not
/// cache this stream; playback is unaffected either way.
pub fn plan_write(index: &TrackCache, meta: &TrackMeta) -> (r: Option<WritePlan>)
    ensures
        r is Some <==> ({
            let m = meta@;
            &&& m.source_url is Some
            &&& spec_eligible(m.duration)
            &&& !index@.contains_key(m.source_url.unwrap())
            &&& uri_host_of(m.source_url.unwrap()) is Some
            &&& uri_query_of(m.source_url.unwrap()) is Some
            &&& ser_header(spec_from_meta(m)).len() <= 0x7FFF_FFFF
        }),
        r is Some ==> ({
            let m = meta@;
            let key = m.source_url.unwrap();
            &&& r.unwrap().host_dir@ == uri_host_of(key).unwrap()
            &&& r.unwrap().rel_path@ == spec_rel_path(
                uri_host_of(key).unwrap(),
                uri_query_of(key).unwrap(),
            )
            &&& r.unwrap().header@ == spec_header_bytes(spec_from_meta(m))
            &&& r.unwrap().reserve == (m.duration.unwrap() / 1000 + 1) * BITRATE / 8
        }),
{
    let key = match &meta.source_url {
        Some(u) => u,
        None => {
            return None;
        },
    };
    let dur = match meta.duration {
        Some(d) => d,
        None => {
            return None;
        },
    };
    if dur > MAX_CACHED_MS {
        return None;
    }
    if index.get(key.as_str()).is_some() {
        return None;
    }
    let (host, query) = match split_source_url(key.as_str()) {
        Some(p) => p,
        None => {
            return None;
        },
    };
    let rel = rel_path(host.as_str(), query.as_str());
    let header = match DcaMetadata::from_meta(meta.duplicate()).header() {
        Some(b) => b,
        None => {
            return None;
        },
    };
    let reserve = estimated_len(dur);
    Some(WritePlan { host_dir: host, rel_path: rel, header, reserve })
}

} // verus!
