//! The structured metadata record embedded at the front of every cached
//! artifact, and the plain metadata record exchanged with the playback
//! layer.

use vstd::prelude::*;

verus! {

/// Target bitrate of the cached, compressed audio streams, in bits per second.
pub const BITRATE: u64 = 128_000;

// ---------------------------------------------------------------------------
// Mathematical models: one view struct per record, over `Seq<char>`.
// ---------------------------------------------------------------------------

/// Model of [`Encoder`].
#[verifier::ext_equal]
pub struct EncoderV {
    pub mode: Seq<char>,
    pub sample_rate: u32,
    pub frame_size: u64,
    pub abr: u64,
    pub channels: u8,
}

/// Model of [`Info`].
#[verifier::ext_equal]
pub struct InfoV {
    pub title: Option<Seq<char>>,
    pub artist: Option<Seq<char>>,
}

/// Model of [`Origin`].
#[verifier::ext_equal]
pub struct OriginV {
    pub source: Option<Seq<char>>,
    pub url: Option<Seq<char>>,
}

/// Model of [`Extra`].
#[verifier::ext_equal]
pub struct ExtraV {
    pub date: Option<Seq<char>>,
    pub duration: Option<u64>,
    pub thumbnail: Option<Seq<char>>,
}

/// Model of [`DcaMetadata`].
#[verifier::ext_equal]
pub struct DcaMetadataV {
    pub version: u64,
    pub opus: EncoderV,
    pub info: Option<InfoV>,
    pub origin: Option<OriginV>,
    pub extra: ExtraV,
}

// ---------------------------------------------------------------------------
// Executable records.
// ---------------------------------------------------------------------------

/// Parameters of the encoded payload that follows the header.  `channels`
/// and `sample_rate` must reflect the actual encoded stream.
pub struct Encoder {
    pub mode: String,
    pub sample_rate: u32,
    pub frame_size: u64,
    pub abr: u64,
    pub channels: u8,
}

/// Free-form track information.
pub struct Info {
    pub title: Option<String>,
    pub artist: Option<String>,
}

/// Where the cached stream originally came from.
pub struct Origin {
    pub source: Option<String>,
    pub url: Option<String>,
}

/// Fields that do not fit the fixed part of the header; `duration` is in
/// milliseconds and, when present, is the authoritative stream length.
pub struct Extra {
    pub date: Option<String>,
    pub duration: Option<u64>,
    pub thumbnail: Option<String>,
}

/// The structured header record of a cached artifact.
pub struct DcaMetadata {
    pub version: u64,
    pub opus: Encoder,
    pub info: Option<Info>,
    pub origin: Option<Origin>,
    pub extra: Extra,
}

impl View for Encoder {
    type V = EncoderV;

    open spec fn view(&self) -> EncoderV {
        EncoderV {
            mode: self.mode@,
            sample_rate: self.sample_rate,
            frame_size: self.frame_size,
            abr: self.abr,
            channels: self.channels,
        }
    }
}

impl View for Info {
    type V = InfoV;

    open spec fn view(&self) -> InfoV {
        InfoV { title: self.title.deep_view(), artist: self.artist.deep_view() }
    }
}

impl View for Origin {
    type V = OriginV;

    open spec fn view(&self) -> OriginV {
        OriginV { source: self.source.deep_view(), url: self.url.deep_view() }
    }
}

impl View for Extra {
    type V = ExtraV;

    open spec fn view(&self) -> ExtraV {
        ExtraV {
            date: self.date.deep_view(),
            duration: self.duration,
            thumbnail: self.thumbnail.deep_view(),
        }
    }
}

impl View for DcaMetadata {
    type V = DcaMetadataV;

    open spec fn view(&self) -> DcaMetadataV {
        DcaMetadataV {
            version: self.version,
            opus: self.opus@,
            info: match self.info {
                Some(ref i) => Some(i@),
                None => None,
            },
            origin: match self.origin {
                Some(ref o) => Some(o@),
                None => None,
            },
            extra: self.extra@,
        }
    }
}

// ---------------------------------------------------------------------------
// The plain metadata record exchanged with the playback layer.
// ---------------------------------------------------------------------------

/// Model of [`TrackMeta`].
#[verifier::ext_equal]
pub struct TrackMetaV {
    pub title: Option<Seq<char>>,
    pub artist: Option<Seq<char>>,
    pub date: Option<Seq<char>>,
    pub duration: Option<u64>,
    pub sample_rate: Option<u32>,
    pub channels: u8,
    pub source_url: Option<Seq<char>>,
    pub thumbnail: Option<Seq<char>>,
}

/// Metadata of a stream as the playback layer hands it over at stream end
/// (and as the read path hands it back).  `duration` is in milliseconds.
pub struct TrackMeta {
    pub title: Option<String>,
    pub artist: Option<String>,
    pub date: Option<String>,
    pub duration: Option<u64>,
    pub sample_rate: Option<u32>,
    pub channels: u8,
    pub source_url: Option<String>,
    pub thumbnail: Option<String>,
}

impl View for TrackMeta {
    type V = TrackMetaV;

    open spec fn view(&self) -> TrackMetaV {
        TrackMetaV {
            title: self.title.deep_view(),
            artist: self.artist.deep_view(),
            date: self.date.deep_view(),
            duration: self.duration,
            sample_rate: self.sample_rate,
            channels: self.channels,
            source_url: self.source_url.deep_view(),
            thumbnail: self.thumbnail.deep_view(),
        }
    }
}

// ---------------------------------------------------------------------------
// Building a header from stream metadata, and reading one back.
// ---------------------------------------------------------------------------

/// What the header built from metadata `m` looks like.
pub open spec fn spec_from_meta(m: TrackMetaV) -> DcaMetadataV {
    DcaMetadataV {
        version: 1,
        opus: EncoderV {
            mode: "music"@,
            sample_rate: match m.sample_rate {
                Some(r) => r,
                None => 48_000,
            },
            frame_size: 960,
            abr: BITRATE,
            channels: m.channels,
        },
        info: if m.title is Some || m.artist is Some {
            Some(InfoV { title: m.title, artist: m.artist })
        } else {
            None
        },
        origin: Some(OriginV { source: Some("file"@), url: m.source_url }),
        extra: ExtraV { date: m.date, duration: m.duration, thumbnail: m.thumbnail },
    }
}

impl DcaMetadata {
    /// Assemble the header record for a finished stream, as the write path
    /// stores it: format version 1, the fixed encoder parameters used for
    /// all cached streams, and the stream's own free-form fields.
    pub fn from_meta(m: TrackMeta) -> (r: DcaMetadata)
        ensures
            r@ == spec_from_meta(m@),
    {
        let info = if m.title.is_some() || m.artist.is_some() {
            Some(Info { title: m.title, artist: m.artist })
        } else {
            None
        };
        DcaMetadata {
            version: 1,
            opus: Encoder {
                mode: "music".to_owned(),
                sample_rate: match m.sample_rate {
                    Some(r) => r,
                    None => 48_000,
                },
                frame_size: 960,
                abr: BITRATE,
                channels: m.channels,
            },
            info,
            origin: Some(Origin { source: Some("file".to_owned()), url: m.source_url }),
            extra: Extra { date: m.date, duration: m.duration, thumbnail: m.thumbnail },
        }
    }
}

/// What the free-form fields of header `h` contribute to an outward
/// metadata record: date, duration and thumbnail, nothing else.
pub open spec fn spec_extra_meta(h: DcaMetadataV) -> TrackMetaV {
    TrackMetaV {
        title: None,
        artist: None,
        date: h.extra.date,
        duration: h.extra.duration,
        sample_rate: None,
        channels: 0,
        source_url: None,
        thumbnail: h.extra.thumbnail,
    }
}

/// Extract the free-form fields of a decoded header as a metadata record,
/// leaving every other field at its empty default.
pub fn extra_meta(h: &DcaMetadata) -> (r: TrackMeta)
    ensures
        r@ == spec_extra_meta(h@),
{
    TrackMeta {
        title: None,
        artist: None,
        date: clone_opt_string(&h.extra.date),
        duration: h.extra.duration,
        sample_rate: None,
        channels: 0,
        source_url: None,
        thumbnail: clone_opt_string(&h.extra.thumbnail),
    }
}

/// Clone an optional string, keeping its view.
pub fn clone_opt_string(o: &Option<String>) -> (r: Option<String>)
    ensures
        r.deep_view() == o.deep_view(),
{
    match o {
        Some(s) => Some(s.clone()),
        None => None,
    }
}


impl TrackMeta {
    /// Copy this record, keeping its view.
    pub fn duplicate(&self) -> (r: TrackMeta)
        ensures
            r@ == self@,
    {
        TrackMeta {
            title: clone_opt_string(&self.title),
            artist: clone_opt_string(&self.artist),
            date: clone_opt_string(&self.date),
            duration: self.duration,
            sample_rate: self.sample_rate,
            channels: self.channels,
            source_url: clone_opt_string(&self.source_url),
            thumbnail: clone_opt_string(&self.thumbnail),
        }
    }
}

/// The full outward metadata record a decoded header stands for: encoder
/// fields, track info and the free-form fields merged, so that a cached
/// playback looks like a freshly fetched one.
pub open spec fn spec_to_meta(h: DcaMetadataV) -> TrackMetaV {
    TrackMetaV {
        title: match h.info {
            Some(i) => i.title,
            None => None,
        },
        artist: match h.info {
            Some(i) => i.artist,
            None => None,
        },
        date: h.extra.date,
        duration: h.extra.duration,
        sample_rate: Some(h.opus.sample_rate),
        channels: h.opus.channels,
        source_url: match h.origin {
            Some(o) => o.url,
            None => None,
        },
        thumbnail: h.extra.thumbnail,
    }
}

impl DcaMetadata {
    /// Reconstruct the outward metadata record from a decoded header.
    pub fn to_meta(&self) -> (r: TrackMeta)
        ensures
            r@ == spec_to_meta(self@),
    {
        TrackMeta {
            title: match &self.info {
                Some(i) => clone_opt_string(&i.title),
                None => None,
            },
            artist: match &self.info {
                Some(i) => clone_opt_string(&i.artist),
                None => None,
            },
            date: clone_opt_string(&self.extra.date),
            duration: self.extra.duration,
            sample_rate: Some(self.opus.sample_rate),
            channels: self.opus.channels,
            source_url: match &self.origin {
                Some(o) => clone_opt_string(&o.url),
                None => None,
            },
            thumbnail: clone_opt_string(&self.extra.thumbnail),
        }
    }
}

/// Marker for the playback hook that preloads the next queued track when
/// one ends; the hook itself lives with the playback integration.
pub struct TrackStartEvent;

} // verus!
