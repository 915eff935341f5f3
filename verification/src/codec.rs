//! The container codec: the structured header record as JSON text, framed
//! by a four byte magic tag and a little-endian signed 32-bit length, with
//! the compressed payload following to end of file.

use vstd::prelude::*;
use vstd::utf8::{encode_utf8, is_ascii_chars, is_ascii_chars_encode_utf8};
use crate::jsontext::{
    QU, LB, RB, CO, CM, ser_str_bytes, ser_string, ser_opt_str, ser_opt_u64, lit_null, dec_rep,
    esc, p_str_content, p_string, p_opt_str, p_u64, p_opt_u64, p_skip_value, starts_null,
    parse_str_content, parse_string, parse_opt_string, parse_u64, parse_opt_u64, skip_value,
    at_null, emit_esc, emit_string, emit_opt_string, emit_u64, emit_opt_u64, emit_null,
    lemma_esc_inv, lemma_ser_string_inv, lemma_ser_opt_str_inv, lemma_dec_rep_inv,
    lemma_ser_opt_u64_inv,
};
use crate::meta::{
    Encoder, EncoderV, Info, InfoV, Origin, OriginV, Extra, ExtraV, DcaMetadata, DcaMetadataV,
};

verus! {

/// Why a cache operation failed.  Every variant is recovered from by
/// treating the entry as absent: caching is an optimization, never a
/// correctness requirement for playback.
#[derive(Clone, Copy, Debug, PartialEq, Eq, Structural)]
pub enum CacheError {
    /// Magic mismatch, bad declared length, or unparsable header text; the
    /// artifact is corrupt and reads as a cache miss.
    InvalidContainer,
    /// A filesystem or backing-store operation failed.
    IoFailure,
    /// The index's backing store could not be opened at startup; caching
    /// stays disabled for the process lifetime.
    BackingStoreUnavailable,
}

// ---------------------------------------------------------------------------
// The member keys of the header objects.
// ---------------------------------------------------------------------------

/// The bytes of the key `version`.
pub open spec fn k_version() -> Seq<u8> {
    seq![118u8, 101u8, 114u8, 115u8, 105u8, 111u8, 110u8]
}

/// The bytes of the key `opus`.
pub open spec fn k_opus() -> Seq<u8> {
    seq![111u8, 112u8, 117u8, 115u8]
}

/// The bytes of the key `mode`.
pub open spec fn k_mode() -> Seq<u8> {
    seq![109u8, 111u8, 100u8, 101u8]
}

/// The bytes of the key `sample_rate`.
pub open spec fn k_sample_rate() -> Seq<u8> {
    seq![115u8, 97u8, 109u8, 112u8, 108u8, 101u8, 95u8, 114u8, 97u8, 116u8, 101u8]
}

/// The bytes of the key `frame_size`.
pub open spec fn k_frame_size() -> Seq<u8> {
    seq![102u8, 114u8, 97u8, 109u8, 101u8, 95u8, 115u8, 105u8, 122u8, 101u8]
}

/// The bytes of the key `abr`.
pub open spec fn k_abr() -> Seq<u8> {
    seq![97u8, 98u8, 114u8]
}

/// The bytes of the key `channels`.
pub open spec fn k_channels() -> Seq<u8> {
    seq![99u8, 104u8, 97u8, 110u8, 110u8, 101u8, 108u8, 115u8]
}

/// The bytes of the key `info`.
pub open spec fn k_info() -> Seq<u8> {
    seq![105u8, 110u8, 102u8, 111u8]
}

/// The bytes of the key `title`.
pub open spec fn k_title() -> Seq<u8> {
    seq![116u8, 105u8, 116u8, 108u8, 101u8]
}

/// The bytes of the key `artist`.
pub open spec fn k_artist() -> Seq<u8> {
    seq![97u8, 114u8, 116u8, 105u8, 115u8, 116u8]
}

/// The bytes of the key `origin`.
pub open spec fn k_origin() -> Seq<u8> {
    seq![111u8, 114u8, 105u8, 103u8, 105u8, 110u8]
}

/// The bytes of the key `source`.
pub open spec fn k_source() -> Seq<u8> {
    seq![115u8, 111u8, 117u8, 114u8, 99u8, 101u8]
}

/// The bytes of the key `url`.
pub open spec fn k_url() -> Seq<u8> {
    seq![117u8, 114u8, 108u8]
}

/// The bytes of the key `extra`.
pub open spec fn k_extra() -> Seq<u8> {
    seq![101u8, 120u8, 116u8, 114u8, 97u8]
}

/// The bytes of the key `date`.
pub open spec fn k_date() -> Seq<u8> {
    seq![100u8, 97u8, 116u8, 101u8]
}

/// The bytes of the key `duration`.
pub open spec fn k_duration() -> Seq<u8> {
    seq![100u8, 117u8, 114u8, 97u8, 116u8, 105u8, 111u8, 110u8]
}

/// The bytes of the key `thumbnail`.
pub open spec fn k_thumbnail() -> Seq<u8> {
    seq![116u8, 104u8, 117u8, 109u8, 98u8, 110u8, 97u8, 105u8, 108u8]
}

/// Each key's bytes are the UTF-8 encoding of its literal.
pub proof fn lemma_key_bytes()
    ensures
        encode_utf8("version"@) == k_version(),
        encode_utf8("opus"@) == k_opus(),
        encode_utf8("mode"@) == k_mode(),
        encode_utf8("sample_rate"@) == k_sample_rate(),
        encode_utf8("frame_size"@) == k_frame_size(),
        encode_utf8("abr"@) == k_abr(),
        encode_utf8("channels"@) == k_channels(),
        encode_utf8("info"@) == k_info(),
        encode_utf8("title"@) == k_title(),
        encode_utf8("artist"@) == k_artist(),
        encode_utf8("origin"@) == k_origin(),
        encode_utf8("source"@) == k_source(),
        encode_utf8("url"@) == k_url(),
        encode_utf8("extra"@) == k_extra(),
        encode_utf8("date"@) == k_date(),
        encode_utf8("duration"@) == k_duration(),
        encode_utf8("thumbnail"@) == k_thumbnail(),
{
    reveal_strlit("version");
    assert(is_ascii_chars("version"@));
    is_ascii_chars_encode_utf8("version"@);
    assert(encode_utf8("version"@) =~= k_version());
    reveal_strlit("opus");
    assert(is_ascii_chars("opus"@));
    is_ascii_chars_encode_utf8("opus"@);
    assert(encode_utf8("opus"@) =~= k_opus());
    reveal_strlit("mode");
    assert(is_ascii_chars("mode"@));
    is_ascii_chars_encode_utf8("mode"@);
    assert(encode_utf8("mode"@) =~= k_mode());
    reveal_strlit("sample_rate");
    assert(is_ascii_chars("sample_rate"@));
    is_ascii_chars_encode_utf8("sample_rate"@);
    assert(encode_utf8("sample_rate"@) =~= k_sample_rate());
    reveal_strlit("frame_size");
    assert(is_ascii_chars("frame_size"@));
    is_ascii_chars_encode_utf8("frame_size"@);
    assert(encode_utf8("frame_size"@) =~= k_frame_size());
    reveal_strlit("abr");
    assert(is_ascii_chars("abr"@));
    is_ascii_chars_encode_utf8("abr"@);
    assert(encode_utf8("abr"@) =~= k_abr());
    reveal_strlit("channels");
    assert(is_ascii_chars("channels"@));
    is_ascii_chars_encode_utf8("channels"@);
    assert(encode_utf8("channels"@) =~= k_channels());
    reveal_strlit("info");
    assert(is_ascii_chars("info"@));
    is_ascii_chars_encode_utf8("info"@);
    assert(encode_utf8("info"@) =~= k_info());
    reveal_strlit("title");
    assert(is_ascii_chars("title"@));
    is_ascii_chars_encode_utf8("title"@);
    assert(encode_utf8("title"@) =~= k_title());
    reveal_strlit("artist");
    assert(is_ascii_chars("artist"@));
    is_ascii_chars_encode_utf8("artist"@);
    assert(encode_utf8("artist"@) =~= k_artist());
    reveal_strlit("origin");
    assert(is_ascii_chars("origin"@));
    is_ascii_chars_encode_utf8("origin"@);
    assert(encode_utf8("origin"@) =~= k_origin());
    reveal_strlit("source");
    assert(is_ascii_chars("source"@));
    is_ascii_chars_encode_utf8("source"@);
    assert(encode_utf8("source"@) =~= k_source());
    reveal_strlit("url");
    assert(is_ascii_chars("url"@));
    is_ascii_chars_encode_utf8("url"@);
    assert(encode_utf8("url"@) =~= k_url());
    reveal_strlit("extra");
    assert(is_ascii_chars("extra"@));
    is_ascii_chars_encode_utf8("extra"@);
    assert(encode_utf8("extra"@) =~= k_extra());
    reveal_strlit("date");
    assert(is_ascii_chars("date"@));
    is_ascii_chars_encode_utf8("date"@);
    assert(encode_utf8("date"@) =~= k_date());
    reveal_strlit("duration");
    assert(is_ascii_chars("duration"@));
    is_ascii_chars_encode_utf8("duration"@);
    assert(encode_utf8("duration"@) =~= k_duration());
    reveal_strlit("thumbnail");
    assert(is_ascii_chars("thumbnail"@));
    is_ascii_chars_encode_utf8("thumbnail"@);
    assert(encode_utf8("thumbnail"@) =~= k_thumbnail());
}

// ---------------------------------------------------------------------------
// Serialization of the header record.
// ---------------------------------------------------------------------------

/// The first member of an object: opening brace, key, colon, value.
pub open spec fn mem_first(k: Seq<u8>, v: Seq<u8>) -> Seq<u8> {
    seq![LB] + ser_str_bytes(k) + seq![CO] + v
}

/// A further member of an object: comma, key, colon, value.
pub open spec fn mem_next(k: Seq<u8>, v: Seq<u8>) -> Seq<u8> {
    seq![CM] + ser_str_bytes(k) + seq![CO] + v
}

/// The encoder block as JSON text.
#[verifier::opaque]
pub open spec fn ser_encoder(e: EncoderV) -> Seq<u8> {
    mem_first(k_mode(), ser_string(e.mode)) + mem_next(
        k_sample_rate(),
        dec_rep(e.sample_rate as u64),
    ) + mem_next(k_frame_size(), dec_rep(e.frame_size)) + mem_next(k_abr(), dec_rep(e.abr))
        + mem_next(k_channels(), dec_rep(e.channels as u64)) + seq![RB]
}

/// The track info block as JSON text.
#[verifier::opaque]
pub open spec fn ser_info(i: InfoV) -> Seq<u8> {
    mem_first(k_title(), ser_opt_str(i.title)) + mem_next(k_artist(), ser_opt_str(i.artist))
        + seq![RB]
}

/// The track info block or `null`.
#[verifier::opaque]
pub open spec fn ser_opt_info(o: Option<InfoV>) -> Seq<u8> {
    match o {
        Some(i) => ser_info(i),
        None => lit_null(),
    }
}

/// The origin block as JSON text.
#[verifier::opaque]
pub open spec fn ser_origin(g: OriginV) -> Seq<u8> {
    mem_first(k_source(), ser_opt_str(g.source)) + mem_next(k_url(), ser_opt_str(g.url))
        + seq![RB]
}

/// The origin block or `null`.
#[verifier::opaque]
pub open spec fn ser_opt_origin(o: Option<OriginV>) -> Seq<u8> {
    match o {
        Some(g) => ser_origin(g),
        None => lit_null(),
    }
}

/// The free-form block as JSON text.
#[verifier::opaque]
pub open spec fn ser_extra(x: ExtraV) -> Seq<u8> {
    mem_first(k_date(), ser_opt_str(x.date)) + mem_next(k_duration(), ser_opt_u64(x.duration))
        + mem_next(k_thumbnail(), ser_opt_str(x.thumbnail)) + seq![RB]
}

/// The whole header record as JSON text.
pub open spec fn ser_header(h: DcaMetadataV) -> Seq<u8> {
    mem_first(k_version(), dec_rep(h.version)) + mem_next(k_opus(), ser_encoder(h.opus))
        + mem_next(k_info(), ser_opt_info(h.info)) + mem_next(k_origin(), ser_opt_origin(h.origin))
        + mem_next(k_extra(), ser_extra(h.extra)) + seq![RB]
}

// ---------------------------------------------------------------------------
// Parsing of the header record: each object starts from its defaults, known
// keys fill fields (numbers are range-checked), unknown keys are skipped,
// the last occurrence of a repeated key wins.
// ---------------------------------------------------------------------------

/// The empty encoder block.
pub open spec fn enc_default() -> EncoderV {
    EncoderV { mode: Seq::empty(), sample_rate: 0, frame_size: 0, abr: 0, channels: 0 }
}

/// The empty track info block.
pub open spec fn info_default() -> InfoV {
    InfoV { title: None, artist: None }
}

/// The empty origin block.
pub open spec fn origin_default() -> OriginV {
    OriginV { source: None, url: None }
}

/// The empty free-form block.
pub open spec fn extra_default() -> ExtraV {
    ExtraV { date: None, duration: None, thumbnail: None }
}

/// The empty header record.
pub open spec fn dca_default() -> DcaMetadataV {
    DcaMetadataV {
        version: 0,
        opus: enc_default(),
        info: None,
        origin: None,
        extra: extra_default(),
    }
}

/// One member value of the encoder block, picked by key.
#[verifier::opaque]
pub open spec fn p_enc_val(vs: Seq<u8>, acc: EncoderV, key: Seq<u8>) -> Option<(EncoderV, int)> {
    if key == k_mode() {
        match p_string(vs) {
            Some((t, m)) => Some((EncoderV { mode: t, ..acc }, m)),
            None => None,
        }
    } else if key == k_sample_rate() {
        match p_u64(vs) {
            Some((v, m)) => if v <= 0xFFFF_FFFFu64 {
                Some((EncoderV { sample_rate: v as u32, ..acc }, m))
            } else {
                None
            },
            None => None,
        }
    } else if key == k_frame_size() {
        match p_u64(vs) {
            Some((v, m)) => Some((EncoderV { frame_size: v, ..acc }, m)),
            None => None,
        }
    } else if key == k_abr() {
        match p_u64(vs) {
            Some((v, m)) => Some((EncoderV { abr: v, ..acc }, m)),
            None => None,
        }
    } else if key == k_channels() {
        match p_u64(vs) {
            Some((v, m)) => if v <= 255u64 {
                Some((EncoderV { channels: v as u8, ..acc }, m))
            } else {
                None
            },
            None => None,
        }
    } else {
        match p_skip_value(vs) {
            Some(m) => Some((acc, m)),
            None => None,
        }
    }
}

/// Parse the members of the encoder block, starting just after the opening brace of a
/// non-empty object.
#[verifier::opaque]
pub open spec fn p_enc_members(s: Seq<u8>, acc: EncoderV) -> Option<(EncoderV, int)>
    decreases s.len(),
{
    if s.len() >= 1 && s[0] == QU {
        match p_str_content(s.skip(1)) {
            Some((key, n)) => {
                let ak = 1 + n;
                if 1 <= n && ak < s.len() && s[ak] == CO {
                    match p_enc_val(s.skip(ak + 1), acc, key) {
                        Some((acc2, m)) => {
                            let av = ak + 1 + m;
                            if 1 <= m && av < s.len() && s[av] == CM {
                                match p_enc_members(s.skip(av + 1), acc2) {
                                    Some((acc3, t)) => Some((acc3, av + 1 + t)),
                                    None => None,
                                }
                            } else if 1 <= m && av < s.len() && s[av] == RB {
                                Some((acc2, av + 1))
                            } else {
                                None
                            }
                        },
                        None => None,
                    }
                } else {
                    None
                }
            },
            None => None,
        }
    } else {
        None
    }
}

/// Parse the encoder block as a JSON object.
#[verifier::opaque]
pub open spec fn p_encoder(s: Seq<u8>) -> Option<(EncoderV, int)> {
    if s.len() >= 2 && s[0] == LB {
        if s[1] == RB {
            Some((enc_default(), 2))
        } else {
            match p_enc_members(s.skip(1), enc_default()) {
                Some((v, n)) => Some((v, 1 + n)),
                None => None,
            }
        }
    } else {
        None
    }
}

/// One member value of the track info block, picked by key.
#[verifier::opaque]
pub open spec fn p_info_val(vs: Seq<u8>, acc: InfoV, key: Seq<u8>) -> Option<(InfoV, int)> {
    if key == k_title() {
        match p_opt_str(vs) {
            Some((t, m)) => Some((InfoV { title: t, ..acc }, m)),
            None => None,
        }
    } else if key == k_artist() {
        match p_opt_str(vs) {
            Some((t, m)) => Some((InfoV { artist: t, ..acc }, m)),
            None => None,
        }
    } else {
        match p_skip_value(vs) {
            Some(m) => Some((acc, m)),
            None => None,
        }
    }
}

/// Parse the members of the track info block, starting just after the opening brace of a
/// non-empty object.
#[verifier::opaque]
pub open spec fn p_info_members(s: Seq<u8>, acc: InfoV) -> Option<(InfoV, int)>
    decreases s.len(),
{
    if s.len() >= 1 && s[0] == QU {
        match p_str_content(s.skip(1)) {
            Some((key, n)) => {
                let ak = 1 + n;
                if 1 <= n && ak < s.len() && s[ak] == CO {
                    match p_info_val(s.skip(ak + 1), acc, key) {
                        Some((acc2, m)) => {
                            let av = ak + 1 + m;
                            if 1 <= m && av < s.len() && s[av] == CM {
                                match p_info_members(s.skip(av + 1), acc2) {
                                    Some((acc3, t)) => Some((acc3, av + 1 + t)),
                                    None => None,
                                }
                            } else if 1 <= m && av < s.len() && s[av] == RB {
                                Some((acc2, av + 1))
                            } else {
                                None
                            }
                        },
                        None => None,
                    }
                } else {
                    None
                }
            },
            None => None,
        }
    } else {
        None
    }
}

/// Parse the track info block as a JSON object.
#[verifier::opaque]
pub open spec fn p_info(s: Seq<u8>) -> Option<(InfoV, int)> {
    if s.len() >= 2 && s[0] == LB {
        if s[1] == RB {
            Some((info_default(), 2))
        } else {
            match p_info_members(s.skip(1), info_default()) {
                Some((v, n)) => Some((v, 1 + n)),
                None => None,
            }
        }
    } else {
        None
    }
}

/// One member value of the origin block, picked by key.
#[verifier::opaque]
pub open spec fn p_origin_val(vs: Seq<u8>, acc: OriginV, key: Seq<u8>) -> Option<(OriginV, int)> {
    if key == k_source() {
        match p_opt_str(vs) {
            Some((t, m)) => Some((OriginV { source: t, ..acc }, m)),
            None => None,
        }
    } else if key == k_url() {
        match p_opt_str(vs) {
            Some((t, m)) => Some((OriginV { url: t, ..acc }, m)),
            None => None,
        }
    } else {
        match p_skip_value(vs) {
            Some(m) => Some((acc, m)),
            None => None,
        }
    }
}

/// Parse the members of the origin block, starting just after the opening brace of a
/// non-empty object.
#[verifier::opaque]
pub open spec fn p_origin_members(s: Seq<u8>, acc: OriginV) -> Option<(OriginV, int)>
    decreases s.len(),
{
    if s.len() >= 1 && s[0] == QU {
        match p_str_content(s.skip(1)) {
            Some((key, n)) => {
                let ak = 1 + n;
                if 1 <= n && ak < s.len() && s[ak] == CO {
                    match p_origin_val(s.skip(ak + 1), acc, key) {
                        Some((acc2, m)) => {
                            let av = ak + 1 + m;
                            if 1 <= m && av < s.len() && s[av] == CM {
                                match p_origin_members(s.skip(av + 1), acc2) {
                                    Some((acc3, t)) => Some((acc3, av + 1 + t)),
                                    None => None,
                                }
                            } else if 1 <= m && av < s.len() && s[av] == RB {
                                Some((acc2, av + 1))
                            } else {
                                None
                            }
                        },
                        None => None,
                    }
                } else {
                    None
                }
            },
            None => None,
        }
    } else {
        None
    }
}

/// Parse the origin block as a JSON object.
#[verifier::opaque]
pub open spec fn p_origin(s: Seq<u8>) -> Option<(OriginV, int)> {
    if s.len() >= 2 && s[0] == LB {
        if s[1] == RB {
            Some((origin_default(), 2))
        } else {
            match p_origin_members(s.skip(1), origin_default()) {
                Some((v, n)) => Some((v, 1 + n)),
                None => None,
            }
        }
    } else {
        None
    }
}

/// One member value of the free-form block, picked by key.
#[verifier::opaque]
pub open spec fn p_extra_val(vs: Seq<u8>, acc: ExtraV, key: Seq<u8>) -> Option<(ExtraV, int)> {
    if key == k_date() {
        match p_opt_str(vs) {
            Some((t, m)) => Some((ExtraV { date: t, ..acc }, m)),
            None => None,
        }
    } else if key == k_duration() {
        match p_opt_u64(vs) {
            Some((v, m)) => Some((ExtraV { duration: v, ..acc }, m)),
            None => None,
        }
    } else if key == k_thumbnail() {
        match p_opt_str(vs) {
            Some((t, m)) => Some((ExtraV { thumbnail: t, ..acc }, m)),
            None => None,
        }
    } else {
        match p_skip_value(vs) {
            Some(m) => Some((acc, m)),
            None => None,
        }
    }
}

/// Parse the members of the free-form block, starting just after the opening brace of a
/// non-empty object.
#[verifier::opaque]
pub open spec fn p_extra_members(s: Seq<u8>, acc: ExtraV) -> Option<(ExtraV, int)>
    decreases s.len(),
{
    if s.len() >= 1 && s[0] == QU {
        match p_str_content(s.skip(1)) {
            Some((key, n)) => {
                let ak = 1 + n;
                if 1 <= n && ak < s.len() && s[ak] == CO {
                    match p_extra_val(s.skip(ak + 1), acc, key) {
                        Some((acc2, m)) => {
                            let av = ak + 1 + m;
                            if 1 <= m && av < s.len() && s[av] == CM {
                                match p_extra_members(s.skip(av + 1), acc2) {
                                    Some((acc3, t)) => Some((acc3, av + 1 + t)),
                                    None => None,
                                }
                            } else if 1 <= m && av < s.len() && s[av] == RB {
                                Some((acc2, av + 1))
                            } else {
                                None
                            }
                        },
                        None => None,
                    }
                } else {
                    None
                }
            },
            None => None,
        }
    } else {
        None
    }
}

/// Parse the free-form block as a JSON object.
#[verifier::opaque]
pub open spec fn p_extra(s: Seq<u8>) -> Option<(ExtraV, int)> {
    if s.len() >= 2 && s[0] == LB {
        if s[1] == RB {
            Some((extra_default(), 2))
        } else {
            match p_extra_members(s.skip(1), extra_default()) {
                Some((v, n)) => Some((v, 1 + n)),
                None => None,
            }
        }
    } else {
        None
    }
}

/// The track info block or `null`.
#[verifier::opaque]
pub open spec fn p_opt_info(vs: Seq<u8>) -> Option<(Option<InfoV>, int)> {
    if starts_null(vs) {
        Some((None, 4))
    } else {
        match p_info(vs) {
            Some((i, m)) => Some((Some(i), m)),
            None => None,
        }
    }
}

/// The origin block or `null`.
#[verifier::opaque]
pub open spec fn p_opt_origin(vs: Seq<u8>) -> Option<(Option<OriginV>, int)> {
    if starts_null(vs) {
        Some((None, 4))
    } else {
        match p_origin(vs) {
            Some((g, m)) => Some((Some(g), m)),
            None => None,
        }
    }
}

/// One member value of the header record, picked by key.
#[verifier::opaque]
pub open spec fn p_dca_val(vs: Seq<u8>, acc: DcaMetadataV, key: Seq<u8>) -> Option<
    (DcaMetadataV, int),
> {
    if key == k_version() {
        match p_u64(vs) {
            Some((v, m)) => Some((DcaMetadataV { version: v, ..acc }, m)),
            None => None,
        }
    } else if key == k_opus() {
        match p_encoder(vs) {
            Some((e, m)) => Some((DcaMetadataV { opus: e, ..acc }, m)),
            None => None,
        }
    } else if key == k_info() {
        match p_opt_info(vs) {
            Some((i, m)) => Some((DcaMetadataV { info: i, ..acc }, m)),
            None => None,
        }
    } else if key == k_origin() {
        match p_opt_origin(vs) {
            Some((g, m)) => Some((DcaMetadataV { origin: g, ..acc }, m)),
            None => None,
        }
    } else if key == k_extra() {
        match p_extra(vs) {
            Some((x, m)) => Some((DcaMetadataV { extra: x, ..acc }, m)),
            None => None,
        }
    } else {
        match p_skip_value(vs) {
            Some(m) => Some((acc, m)),
            None => None,
        }
    }
}

/// Parse the members of the header record, starting just after the opening brace of a
/// non-empty object.
#[verifier::opaque]
pub open spec fn p_dca_members(s: Seq<u8>, acc: DcaMetadataV) -> Option<(DcaMetadataV, int)>
    decreases s.len(),
{
    if s.len() >= 1 && s[0] == QU {
        match p_str_content(s.skip(1)) {
            Some((key, n)) => {
                let ak = 1 + n;
                if 1 <= n && ak < s.len() && s[ak] == CO {
                    match p_dca_val(s.skip(ak + 1), acc, key) {
                        Some((acc2, m)) => {
                            let av = ak + 1 + m;
                            if 1 <= m && av < s.len() && s[av] == CM {
                                match p_dca_members(s.skip(av + 1), acc2) {
                                    Some((acc3, t)) => Some((acc3, av + 1 + t)),
                                    None => None,
                                }
                            } else if 1 <= m && av < s.len() && s[av] == RB {
                                Some((acc2, av + 1))
                            } else {
                                None
                            }
                        },
                        None => None,
                    }
                } else {
                    None
                }
            },
            None => None,
        }
    } else {
        None
    }
}

/// Parse the header record as a JSON object.
#[verifier::opaque]
pub open spec fn p_dca(s: Seq<u8>) -> Option<(DcaMetadataV, int)> {
    if s.len() >= 2 && s[0] == LB {
        if s[1] == RB {
            Some((dca_default(), 2))
        } else {
            match p_dca_members(s.skip(1), dca_default()) {
                Some((v, n)) => Some((v, 1 + n)),
                None => None,
            }
        }
    } else {
        None
    }
}

// ---------------------------------------------------------------------------
// The container frame: magic, length, header text, payload.
// ---------------------------------------------------------------------------

/// The four byte magic tag at the front of every artifact.
pub open spec fn magic() -> Seq<u8> {
    seq![68u8, 67u8, 65u8, 49u8]
}

/// The whole framed header: magic, the header text's length as a
/// little-endian signed 32-bit number, then the header text.  The payload
/// follows to end of file.
pub open spec fn spec_header_bytes(h: DcaMetadataV) -> Seq<u8> {
    magic() + vstd::bytes::spec_u32_to_le_bytes(ser_header(h).len() as u32) + ser_header(h)
}

/// Decode the front of an artifact: check the magic, read the declared
/// length, and parse exactly that many header bytes.  Returns the record
/// and the offset where the payload starts.
pub open spec fn spec_decode_header(b: Seq<u8>) -> Option<(DcaMetadataV, int)> {
    if b.len() < 4 || b[0] != 68 || b[1] != 67 || b[2] != 65 || b[3] != 49 {
        None
    } else if b.len() < 8 {
        None
    } else {
        let l = vstd::bytes::spec_u32_from_le_bytes(b.subrange(4, 8)) as int;
        if l < 2 || l > 0x7FFF_FFFF {
            None
        } else if b.len() - 8 < l {
            None
        } else {
            match p_dca(b.subrange(8, 8 + l)) {
                Some((h, n)) => if n == l {
                    Some((h, 8 + l))
                } else {
                    None
                },
                None => None,
            }
        }
    }
}

// ---------------------------------------------------------------------------
// Executable serialization of the header.
// ---------------------------------------------------------------------------

/// Append a JSON object key to `out`.
fn emit_key(out: &mut Vec<u8>, k: &str)
    ensures
        final(out)@ == old(out)@ + ser_str_bytes(encode_utf8(k@)),
{
    out.push(QU);
    emit_esc(out, k.as_bytes());
    out.push(QU);
    proof {
        assert(out@ =~= old(out)@ + ser_str_bytes(encode_utf8(k@)));
    }
}

/// Append the encoder block to `out`.
#[verifier::rlimit(100)]
#[verifier::spinoff_prover]
fn emit_encoder(out: &mut Vec<u8>, e: &Encoder)
    ensures
        final(out)@ == old(out)@ + ser_encoder(e@),
{
    proof {
        lemma_key_bytes();
        reveal(ser_encoder);
    }
    out.push(LB);
    emit_key(out, "mode");
    out.push(CO);
    emit_string(out, e.mode.as_str());
    out.push(CM);
    emit_key(out, "sample_rate");
    out.push(CO);
    emit_u64(out, e.sample_rate as u64);
    out.push(CM);
    emit_key(out, "frame_size");
    out.push(CO);
    emit_u64(out, e.frame_size);
    out.push(CM);
    emit_key(out, "abr");
    out.push(CO);
    emit_u64(out, e.abr);
    out.push(CM);
    emit_key(out, "channels");
    out.push(CO);
    emit_u64(out, e.channels as u64);
    out.push(RB);
    proof {
        assert(out@ =~= old(out)@ + ser_encoder(e@));
    }
}

/// Append the track info block or `null` to `out`.
#[verifier::rlimit(100)]
#[verifier::spinoff_prover]
fn emit_opt_info(out: &mut Vec<u8>, o: &Option<Info>)
    ensures
        final(out)@ == old(out)@ + ser_opt_info(match o {
            Some(i) => Some(i@),
            None => None,
        }),
{
    proof {
        lemma_key_bytes();
        reveal(ser_info);
        reveal(ser_opt_info);
    }
    match o {
        Some(i) => {
            out.push(LB);
            emit_key(out, "title");
            out.push(CO);
            emit_opt_string(out, &i.title);
            out.push(CM);
            emit_key(out, "artist");
            out.push(CO);
            emit_opt_string(out, &i.artist);
            out.push(RB);
            proof {
                assert(out@ =~= old(out)@ + ser_info(i@));
            }
        },
        None => {
            emit_null(out);
        },
    }
}

/// Append the origin block or `null` to `out`.
#[verifier::rlimit(100)]
#[verifier::spinoff_prover]
fn emit_opt_origin(out: &mut Vec<u8>, o: &Option<Origin>)
    ensures
        final(out)@ == old(out)@ + ser_opt_origin(match o {
            Some(g) => Some(g@),
            None => None,
        }),
{
    proof {
        lemma_key_bytes();
        reveal(ser_origin);
        reveal(ser_opt_origin);
    }
    match o {
        Some(g) => {
            out.push(LB);
            emit_key(out, "source");
            out.push(CO);
            emit_opt_string(out, &g.source);
            out.push(CM);
            emit_key(out, "url");
            out.push(CO);
            emit_opt_string(out, &g.url);
            out.push(RB);
            proof {
                assert(out@ =~= old(out)@ + ser_origin(g@));
            }
        },
        None => {
            emit_null(out);
        },
    }
}

/// Append the free-form block to `out`.
#[verifier::rlimit(100)]
#[verifier::spinoff_prover]
fn emit_extra(out: &mut Vec<u8>, x: &Extra)
    ensures
        final(out)@ == old(out)@ + ser_extra(x@),
{
    proof {
        lemma_key_bytes();
        reveal(ser_extra);
    }
    out.push(LB);
    emit_key(out, "date");
    out.push(CO);
    emit_opt_string(out, &x.date);
    out.push(CM);
    emit_key(out, "duration");
    out.push(CO);
    emit_opt_u64(out, x.duration);
    out.push(CM);
    emit_key(out, "thumbnail");
    out.push(CO);
    emit_opt_string(out, &x.thumbnail);
    out.push(RB);
    proof {
        assert(out@ =~= old(out)@ + ser_extra(x@));
    }
}

/// Append the whole header record to `out`.
#[verifier::rlimit(100)]
#[verifier::spinoff_prover]
pub fn emit_header(out: &mut Vec<u8>, h: &DcaMetadata)
    ensures
        final(out)@ == old(out)@ + ser_header(h@),
{
    proof {
        lemma_key_bytes();
    }
    out.push(LB);
    emit_key(out, "version");
    out.push(CO);
    emit_u64(out, h.version);
    out.push(CM);
    emit_key(out, "opus");
    out.push(CO);
    emit_encoder(out, &h.opus);
    out.push(CM);
    emit_key(out, "info");
    out.push(CO);
    emit_opt_info(out, &h.info);
    out.push(CM);
    emit_key(out, "origin");
    out.push(CO);
    emit_opt_origin(out, &h.origin);
    out.push(CM);
    emit_key(out, "extra");
    out.push(CO);
    emit_extra(out, &h.extra);
    out.push(RB);
    proof {
        assert(out@ =~= old(out)@ + ser_header(h@));
    }
}

impl DcaMetadata {
    /// Encode the framed header for this record: the magic tag, the header
    /// text's length as a little-endian signed 32-bit number, then the
    /// header text itself.  `None` only when the header text would not fit
    /// the signed 32-bit length field.
    pub fn header(&self) -> (r: Option<Vec<u8>>)
        ensures
            r is Some <==> ser_header(self@).len() <= 0x7FFF_FFFF,
            r is Some ==> r.unwrap()@ == spec_header_bytes(self@),
    {
        let mut json: Vec<u8> = Vec::new();
        emit_header(&mut json, self);
        if json.len() > 0x7FFF_FFFF {
            return None;
        }
        let mut out: Vec<u8> = Vec::new();
        out.push(68);
        out.push(67);
        out.push(65);
        out.push(49);
        let mut lenb = vstd::bytes::u32_to_le_bytes(json.len() as u32);
        out.append(&mut lenb);
        out.append(&mut json);
        proof {
            assert(out@ =~= spec_header_bytes(self@));
        }
        Some(out)
    }
}

// ---------------------------------------------------------------------------
// Executable parsing of the header.
// ---------------------------------------------------------------------------

/// Byte-wise slice equality.
pub fn bytes_eq(a: &[u8], b: &[u8]) -> (r: bool)
    ensures
        r == (a@ =~= b@),
{
    if a.len() != b.len() {
        return false;
    }
    let n = a.len();
    let mut i: usize = 0;
    while i < n
        invariant
            n == a@.len(),
            n == b@.len(),
            i <= n,
            forall|j: int| 0 <= j < i ==> a@[j] == b@[j],
        decreases n - i,
    {
        if a[i] != b[i] {
            return false;
        }
        i = i + 1;
    }
    proof {
        assert(a@ =~= b@);
    }
    true
}

/// The empty encoder block.
fn encoder_default() -> (r: Encoder)
    ensures
        r@ == enc_default(),
{
    Encoder { mode: String::new(), sample_rate: 0, frame_size: 0, abr: 0, channels: 0 }
}

/// The empty track info record.
fn info_default_x() -> (r: Info)
    ensures
        r@ == info_default(),
{
    Info { title: None, artist: None }
}

/// The empty origin record.
fn origin_default_x() -> (r: Origin)
    ensures
        r@ == origin_default(),
{
    Origin { source: None, url: None }
}

/// The empty free-form record.
fn extra_default_x() -> (r: Extra)
    ensures
        r@ == extra_default(),
{
    Extra { date: None, duration: None, thumbnail: None }
}

/// The empty header record.
fn dca_default_x() -> (r: DcaMetadata)
    ensures
        r@ == dca_default(),
{
    DcaMetadata {
        version: 0,
        opus: encoder_default(),
        info: None,
        origin: None,
        extra: extra_default_x(),
    }
}

/// Parse one member value of the enc block, picked by key, into `acc`.
#[verifier::spinoff_prover]
fn parse_enc_value(s: &[u8], vfrom: usize, acc: Encoder, key: &Vec<u8>) -> (r: Option<
    (Encoder, usize),
>)
    requires
        vfrom <= s@.len(),
    ensures
        match r {
            Some((a, end)) => p_enc_val(s@.skip(vfrom as int), acc@, key@) == Some(
                (a@, end - vfrom as int),
            ) && vfrom < end <= s@.len(),
            None => p_enc_val(s@.skip(vfrom as int), acc@, key@) is None,
        },
{
    proof {
        lemma_key_bytes();
        reveal(p_enc_val);
    }
    let r = if bytes_eq(key.as_slice(), "mode".as_bytes()) {
        match parse_string(s, vfrom) {
            Some((v, e)) => {
                let mut a = acc;
                a.mode = v;
                (a, e)
            },
            None => {
                return None;
            },
        }
    } else if bytes_eq(key.as_slice(), "sample_rate".as_bytes()) {
        match parse_u64(s, vfrom) {
            Some((v, e)) => {
                if v > 0xFFFF_FFFFu64 {
                    return None;
                }
                let mut a = acc;
                a.sample_rate = v as u32;
                (a, e)
            },
            None => {
                return None;
            },
        }
    } else if bytes_eq(key.as_slice(), "frame_size".as_bytes()) {
        match parse_u64(s, vfrom) {
            Some((v, e)) => {
                let mut a = acc;
                a.frame_size = v;
                (a, e)
            },
            None => {
                return None;
            },
        }
    } else if bytes_eq(key.as_slice(), "abr".as_bytes()) {
        match parse_u64(s, vfrom) {
            Some((v, e)) => {
                let mut a = acc;
                a.abr = v;
                (a, e)
            },
            None => {
                return None;
            },
        }
    } else if bytes_eq(key.as_slice(), "channels".as_bytes()) {
        match parse_u64(s, vfrom) {
            Some((v, e)) => {
                if v > 255u64 {
                    return None;
                }
                let mut a = acc;
                a.channels = v as u8;
                (a, e)
            },
            None => {
                return None;
            },
        }
    } else {
        match skip_value(s, vfrom) {
            Some(e) => (acc, e),
            None => {
                return None;
            },
        }
    };
    Some(r)
}

/// Parse enc block members starting at `from`, filling `acc`.
#[verifier::rlimit(100)]
#[verifier::spinoff_prover]
fn parse_enc_members(s: &[u8], from: usize, acc: Encoder) -> (r: Option<(Encoder, usize)>)
    requires
        from <= s@.len(),
    ensures
        match r {
            Some((e, end)) => p_enc_members(s@.skip(from as int), acc@) == Some(
                (e@, end - from as int),
            ) && from < end <= s@.len(),
            None => p_enc_members(s@.skip(from as int), acc@) is None,
        },
    decreases s@.len() - from,
{
    proof {
        reveal(p_enc_members);
    }
    let ghost rem = s@.skip(from as int);
    let slen = s.len();
    if !(from < slen && s[from] == QU) {
        proof {
            if from < slen {
                assert(rem[0] == s@[from as int]);
            }
        }
        return None;
    }
    proof {
        assert(rem[0] == QU);
        assert(rem.skip(1) =~= s@.skip(from + 1));
    }
    let (key, end_key) = match parse_str_content(s, from + 1) {
        Some(p) => p,
        None => {
            return None;
        },
    };
    if !(end_key < slen && s[end_key] == CO) {
        proof {
            if end_key < slen {
                assert(rem[end_key - from as int] == s@[end_key as int]);
            }
        }
        return None;
    }
    proof {
        assert(rem[end_key - from as int] == s@[end_key as int]);
        assert(rem.skip(end_key + 1 - from as int) =~= s@.skip(end_key + 1));
    }
    let (acc2, end_val) = match parse_enc_value(s, end_key + 1, acc, &key) {
        Some(p) => p,
        None => {
            return None;
        },
    };
    if end_val < slen && s[end_val] == CM {
        proof {
            assert(rem[end_val - from as int] == s@[end_val as int]);
            assert(rem.skip(end_val + 1 - from as int) =~= s@.skip(end_val + 1));
        }
        match parse_enc_members(s, end_val + 1, acc2) {
            Some((e, end)) => Some((e, end)),
            None => None,
        }
    } else if end_val < slen && s[end_val] == RB {
        proof {
            assert(rem[end_val - from as int] == s@[end_val as int]);
        }
        Some((acc2, end_val + 1))
    } else {
        proof {
            if end_val < slen {
                assert(rem[end_val - from as int] == s@[end_val as int]);
            }
        }
        None
    }
}

/// Parse the encoder block as a JSON object starting at `from`.
fn parse_encoder(s: &[u8], from: usize) -> (r: Option<(Encoder, usize)>)
    requires
        from <= s@.len(),
    ensures
        match r {
            Some((e, end)) => p_encoder(s@.skip(from as int)) == Some((e@, end - from as int))
                && from < end <= s@.len(),
            None => p_encoder(s@.skip(from as int)) is None,
        },
{
    proof {
        reveal(p_encoder);
    }
    let ghost rem = s@.skip(from as int);
    let slen = s.len();
    if !(slen - from >= 2 && s[from] == LB) {
        proof {
            if from < slen {
                assert(rem[0] == s@[from as int]);
            }
        }
        return None;
    }
    proof {
        assert(rem[0] == s@[from as int] && rem[1] == s@[from + 1]);
        assert(rem.skip(1) =~= s@.skip(from + 1));
    }
    if s[from + 1] == RB {
        Some((encoder_default(), from + 2))
    } else {
        match parse_enc_members(s, from + 1, encoder_default()) {
            Some((e, end)) => Some((e, end)),
            None => None,
        }
    }
}

/// Parse one member value of the info block, picked by key, into `acc`.
#[verifier::spinoff_prover]
fn parse_info_value(s: &[u8], vfrom: usize, acc: Info, key: &Vec<u8>) -> (r: Option<
    (Info, usize),
>)
    requires
        vfrom <= s@.len(),
    ensures
        match r {
            Some((a, end)) => p_info_val(s@.skip(vfrom as int), acc@, key@) == Some(
                (a@, end - vfrom as int),
            ) && vfrom < end <= s@.len(),
            None => p_info_val(s@.skip(vfrom as int), acc@, key@) is None,
        },
{
    proof {
        lemma_key_bytes();
        reveal(p_info_val);
    }
    let r = if bytes_eq(key.as_slice(), "title".as_bytes()) {
        match parse_opt_string(s, vfrom) {
            Some((v, e)) => {
                let mut a = acc;
                a.title = v;
                (a, e)
            },
            None => {
                return None;
            },
        }
    } else if bytes_eq(key.as_slice(), "artist".as_bytes()) {
        match parse_opt_string(s, vfrom) {
            Some((v, e)) => {
                let mut a = acc;
                a.artist = v;
                (a, e)
            },
            None => {
                return None;
            },
        }
    } else {
        match skip_value(s, vfrom) {
            Some(e) => (acc, e),
            None => {
                return None;
            },
        }
    };
    Some(r)
}

/// Parse info block members starting at `from`, filling `acc`.
#[verifier::rlimit(100)]
#[verifier::spinoff_prover]
fn parse_info_members(s: &[u8], from: usize, acc: Info) -> (r: Option<(Info, usize)>)
    requires
        from <= s@.len(),
    ensures
        match r {
            Some((e, end)) => p_info_members(s@.skip(from as int), acc@) == Some(
                (e@, end - from as int),
            ) && from < end <= s@.len(),
            None => p_info_members(s@.skip(from as int), acc@) is None,
        },
    decreases s@.len() - from,
{
    proof {
        reveal(p_info_members);
    }
    let ghost rem = s@.skip(from as int);
    let slen = s.len();
    if !(from < slen && s[from] == QU) {
        proof {
            if from < slen {
                assert(rem[0] == s@[from as int]);
            }
        }
        return None;
    }
    proof {
        assert(rem[0] == QU);
        assert(rem.skip(1) =~= s@.skip(from + 1));
    }
    let (key, end_key) = match parse_str_content(s, from + 1) {
        Some(p) => p,
        None => {
            return None;
        },
    };
    if !(end_key < slen && s[end_key] == CO) {
        proof {
            if end_key < slen {
                assert(rem[end_key - from as int] == s@[end_key as int]);
            }
        }
        return None;
    }
    proof {
        assert(rem[end_key - from as int] == s@[end_key as int]);
        assert(rem.skip(end_key + 1 - from as int) =~= s@.skip(end_key + 1));
    }
    let (acc2, end_val) = match parse_info_value(s, end_key + 1, acc, &key) {
        Some(p) => p,
        None => {
            return None;
        },
    };
    if end_val < slen && s[end_val] == CM {
        proof {
            assert(rem[end_val - from as int] == s@[end_val as int]);
            assert(rem.skip(end_val + 1 - from as int) =~= s@.skip(end_val + 1));
        }
        match parse_info_members(s, end_val + 1, acc2) {
            Some((e, end)) => Some((e, end)),
            None => None,
        }
    } else if end_val < slen && s[end_val] == RB {
        proof {
            assert(rem[end_val - from as int] == s@[end_val as int]);
        }
        Some((acc2, end_val + 1))
    } else {
        proof {
            if end_val < slen {
                assert(rem[end_val - from as int] == s@[end_val as int]);
            }
        }
        None
    }
}

/// Parse the track info block as a JSON object starting at `from`.
fn parse_info(s: &[u8], from: usize) -> (r: Option<(Info, usize)>)
    requires
        from <= s@.len(),
    ensures
        match r {
            Some((e, end)) => p_info(s@.skip(from as int)) == Some((e@, end - from as int))
                && from < end <= s@.len(),
            None => p_info(s@.skip(from as int)) is None,
        },
{
    proof {
        reveal(p_info);
    }
    let ghost rem = s@.skip(from as int);
    let slen = s.len();
    if !(slen - from >= 2 && s[from] == LB) {
        proof {
            if from < slen {
                assert(rem[0] == s@[from as int]);
            }
        }
        return None;
    }
    proof {
        assert(rem[0] == s@[from as int] && rem[1] == s@[from + 1]);
        assert(rem.skip(1) =~= s@.skip(from + 1));
    }
    if s[from + 1] == RB {
        Some((info_default_x(), from + 2))
    } else {
        match parse_info_members(s, from + 1, info_default_x()) {
            Some((e, end)) => Some((e, end)),
            None => None,
        }
    }
}

/// Parse one member value of the origin block, picked by key, into `acc`.
#[verifier::spinoff_prover]
fn parse_origin_value(s: &[u8], vfrom: usize, acc: Origin, key: &Vec<u8>) -> (r: Option<
    (Origin, usize),
>)
    requires
        vfrom <= s@.len(),
    ensures
        match r {
            Some((a, end)) => p_origin_val(s@.skip(vfrom as int), acc@, key@) == Some(
                (a@, end - vfrom as int),
            ) && vfrom < end <= s@.len(),
            None => p_origin_val(s@.skip(vfrom as int), acc@, key@) is None,
        },
{
    proof {
        lemma_key_bytes();
        reveal(p_origin_val);
    }
    let r = if bytes_eq(key.as_slice(), "source".as_bytes()) {
        match parse_opt_string(s, vfrom) {
            Some((v, e)) => {
                let mut a = acc;
                a.source = v;
                (a, e)
            },
            None => {
                return None;
            },
        }
    } else if bytes_eq(key.as_slice(), "url".as_bytes()) {
        match parse_opt_string(s, vfrom) {
            Some((v, e)) => {
                let mut a = acc;
                a.url = v;
                (a, e)
            },
            None => {
                return None;
            },
        }
    } else {
        match skip_value(s, vfrom) {
            Some(e) => (acc, e),
            None => {
                return None;
            },
        }
    };
    Some(r)
}

/// Parse origin block members starting at `from`, filling `acc`.
#[verifier::rlimit(100)]
#[verifier::spinoff_prover]
fn parse_origin_members(s: &[u8], from: usize, acc: Origin) -> (r: Option<(Origin, usize)>)
    requires
        from <= s@.len(),
    ensures
        match r {
            Some((e, end)) => p_origin_members(s@.skip(from as int), acc@) == Some(
                (e@, end - from as int),
            ) && from < end <= s@.len(),
            None => p_origin_members(s@.skip(from as int), acc@) is None,
        },
    decreases s@.len() - from,
{
    proof {
        reveal(p_origin_members);
    }
    let ghost rem = s@.skip(from as int);
    let slen = s.len();
    if !(from < slen && s[from] == QU) {
        proof {
            if from < slen {
                assert(rem[0] == s@[from as int]);
            }
        }
        return None;
    }
    proof {
        assert(rem[0] == QU);
        assert(rem.skip(1) =~= s@.skip(from + 1));
    }
    let (key, end_key) = match parse_str_content(s, from + 1) {
        Some(p) => p,
        None => {
            return None;
        },
    };
    if !(end_key < slen && s[end_key] == CO) {
        proof {
            if end_key < slen {
                assert(rem[end_key - from as int] == s@[end_key as int]);
            }
        }
        return None;
    }
    proof {
        assert(rem[end_key - from as int] == s@[end_key as int]);
        assert(rem.skip(end_key + 1 - from as int) =~= s@.skip(end_key + 1));
    }
    let (acc2, end_val) = match parse_origin_value(s, end_key + 1, acc, &key) {
        Some(p) => p,
        None => {
            return None;
        },
    };
    if end_val < slen && s[end_val] == CM {
        proof {
            assert(rem[end_val - from as int] == s@[end_val as int]);
            assert(rem.skip(end_val + 1 - from as int) =~= s@.skip(end_val + 1));
        }
        match parse_origin_members(s, end_val + 1, acc2) {
            Some((e, end)) => Some((e, end)),
            None => None,
        }
    } else if end_val < slen && s[end_val] == RB {
        proof {
            assert(rem[end_val - from as int] == s@[end_val as int]);
        }
        Some((acc2, end_val + 1))
    } else {
        proof {
            if end_val < slen {
                assert(rem[end_val - from as int] == s@[end_val as int]);
            }
        }
        None
    }
}

/// Parse the origin block as a JSON object starting at `from`.
fn parse_origin(s: &[u8], from: usize) -> (r: Option<(Origin, usize)>)
    requires
        from <= s@.len(),
    ensures
        match r {
            Some((e, end)) => p_origin(s@.skip(from as int)) == Some((e@, end - from as int))
                && from < end <= s@.len(),
            None => p_origin(s@.skip(from as int)) is None,
        },
{
    proof {
        reveal(p_origin);
    }
    let ghost rem = s@.skip(from as int);
    let slen = s.len();
    if !(slen - from >= 2 && s[from] == LB) {
        proof {
            if from < slen {
                assert(rem[0] == s@[from as int]);
            }
        }
        return None;
    }
    proof {
        assert(rem[0] == s@[from as int] && rem[1] == s@[from + 1]);
        assert(rem.skip(1) =~= s@.skip(from + 1));
    }
    if s[from + 1] == RB {
        Some((origin_default_x(), from + 2))
    } else {
        match parse_origin_members(s, from + 1, origin_default_x()) {
            Some((e, end)) => Some((e, end)),
            None => None,
        }
    }
}

/// Parse one member value of the extra block, picked by key, into `acc`.
#[verifier::spinoff_prover]
fn parse_extra_value(s: &[u8], vfrom: usize, acc: Extra, key: &Vec<u8>) -> (r: Option<
    (Extra, usize),
>)
    requires
        vfrom <= s@.len(),
    ensures
        match r {
            Some((a, end)) => p_extra_val(s@.skip(vfrom as int), acc@, key@) == Some(
                (a@, end - vfrom as int),
            ) && vfrom < end <= s@.len(),
            None => p_extra_val(s@.skip(vfrom as int), acc@, key@) is None,
        },
{
    proof {
        lemma_key_bytes();
        reveal(p_extra_val);
    }
    let r = if bytes_eq(key.as_slice(), "date".as_bytes()) {
        match parse_opt_string(s, vfrom) {
            Some((v, e)) => {
                let mut a = acc;
                a.date = v;
                (a, e)
            },
            None => {
                return None;
            },
        }
    } else if bytes_eq(key.as_slice(), "duration".as_bytes()) {
        match parse_opt_u64(s, vfrom) {
            Some((v, e)) => {
                let mut a = acc;
                a.duration = v;
                (a, e)
            },
            None => {
                return None;
            },
        }
    } else if bytes_eq(key.as_slice(), "thumbnail".as_bytes()) {
        match parse_opt_string(s, vfrom) {
            Some((v, e)) => {
                let mut a = acc;
                a.thumbnail = v;
                (a, e)
            },
            None => {
                return None;
            },
        }
    } else {
        match skip_value(s, vfrom) {
            Some(e) => (acc, e),
            None => {
                return None;
            },
        }
    };
    Some(r)
}

/// Parse extra block members starting at `from`, filling `acc`.
#[verifier::rlimit(100)]
#[verifier::spinoff_prover]
fn parse_extra_members(s: &[u8], from: usize, acc: Extra) -> (r: Option<(Extra, usize)>)
    requires
        from <= s@.len(),
    ensures
        match r {
            Some((e, end)) => p_extra_members(s@.skip(from as int), acc@) == Some(
                (e@, end - from as int),
            ) && from < end <= s@.len(),
            None => p_extra_members(s@.skip(from as int), acc@) is None,
        },
    decreases s@.len() - from,
{
    proof {
        reveal(p_extra_members);
    }
    let ghost rem = s@.skip(from as int);
    let slen = s.len();
    if !(from < slen && s[from] == QU) {
        proof {
            if from < slen {
                assert(rem[0] == s@[from as int]);
            }
        }
        return None;
    }
    proof {
        assert(rem[0] == QU);
        assert(rem.skip(1) =~= s@.skip(from + 1));
    }
    let (key, end_key) = match parse_str_content(s, from + 1) {
        Some(p) => p,
        None => {
            return None;
        },
    };
    if !(end_key < slen && s[end_key] == CO) {
        proof {
            if end_key < slen {
                assert(rem[end_key - from as int] == s@[end_key as int]);
            }
        }
        return None;
    }
    proof {
        assert(rem[end_key - from as int] == s@[end_key as int]);
        assert(rem.skip(end_key + 1 - from as int) =~= s@.skip(end_key + 1));
    }
    let (acc2, end_val) = match parse_extra_value(s, end_key + 1, acc, &key) {
        Some(p) => p,
        None => {
            return None;
        },
    };
    if end_val < slen && s[end_val] == CM {
        proof {
            assert(rem[end_val - from as int] == s@[end_val as int]);
            assert(rem.skip(end_val + 1 - from as int) =~= s@.skip(end_val + 1));
        }
        match parse_extra_members(s, end_val + 1, acc2) {
            Some((e, end)) => Some((e, end)),
            None => None,
        }
    } else if end_val < slen && s[end_val] == RB {
        proof {
            assert(rem[end_val - from as int] == s@[end_val as int]);
        }
        Some((acc2, end_val + 1))
    } else {
        proof {
            if end_val < slen {
                assert(rem[end_val - from as int] == s@[end_val as int]);
            }
        }
        None
    }
}

/// Parse the free-form block as a JSON object starting at `from`.
fn parse_extra(s: &[u8], from: usize) -> (r: Option<(Extra, usize)>)
    requires
        from <= s@.len(),
    ensures
        match r {
            Some((e, end)) => p_extra(s@.skip(from as int)) == Some((e@, end - from as int))
                && from < end <= s@.len(),
            None => p_extra(s@.skip(from as int)) is None,
        },
{
    proof {
        reveal(p_extra);
    }
    let ghost rem = s@.skip(from as int);
    let slen = s.len();
    if !(slen - from >= 2 && s[from] == LB) {
        proof {
            if from < slen {
                assert(rem[0] == s@[from as int]);
            }
        }
        return None;
    }
    proof {
        assert(rem[0] == s@[from as int] && rem[1] == s@[from + 1]);
        assert(rem.skip(1) =~= s@.skip(from + 1));
    }
    if s[from + 1] == RB {
        Some((extra_default_x(), from + 2))
    } else {
        match parse_extra_members(s, from + 1, extra_default_x()) {
            Some((e, end)) => Some((e, end)),
            None => None,
        }
    }
}

/// Parse the track info block or `null` starting at `from`.
fn parse_opt_info_x(s: &[u8], from: usize) -> (r: Option<(Option<Info>, usize)>)
    requires
        from <= s@.len(),
    ensures
        match r {
            Some((o, end)) => p_opt_info(s@.skip(from as int)) == Some(
                (match o {
                    Some(i) => Some(i@),
                    None => None,
                }, end - from as int),
            ) && from < end <= s@.len(),
            None => p_opt_info(s@.skip(from as int)) is None,
        },
{
    proof {
        reveal(p_opt_info);
    }
    let slen = s.len();
    if at_null(s, from) {
        proof {
            assert(s@.skip(from as int).len() >= 4);
        }
        Some((None, from + 4))
    } else {
        match parse_info(s, from) {
            Some((i, end)) => Some((Some(i), end)),
            None => None,
        }
    }
}

/// Parse the origin block or `null` starting at `from`.
fn parse_opt_origin_x(s: &[u8], from: usize) -> (r: Option<(Option<Origin>, usize)>)
    requires
        from <= s@.len(),
    ensures
        match r {
            Some((o, end)) => p_opt_origin(s@.skip(from as int)) == Some(
                (match o {
                    Some(g) => Some(g@),
                    None => None,
                }, end - from as int),
            ) && from < end <= s@.len(),
            None => p_opt_origin(s@.skip(from as int)) is None,
        },
{
    proof {
        reveal(p_opt_origin);
    }
    let slen = s.len();
    if at_null(s, from) {
        proof {
            assert(s@.skip(from as int).len() >= 4);
        }
        Some((None, from + 4))
    } else {
        match parse_origin(s, from) {
            Some((g, end)) => Some((Some(g), end)),
            None => None,
        }
    }
}

/// Parse one member value of the dca block, picked by key, into `acc`.
#[verifier::spinoff_prover]
fn parse_dca_value(s: &[u8], vfrom: usize, acc: DcaMetadata, key: &Vec<u8>) -> (r: Option<
    (DcaMetadata, usize),
>)
    requires
        vfrom <= s@.len(),
    ensures
        match r {
            Some((a, end)) => p_dca_val(s@.skip(vfrom as int), acc@, key@) == Some(
                (a@, end - vfrom as int),
            ) && vfrom < end <= s@.len(),
            None => p_dca_val(s@.skip(vfrom as int), acc@, key@) is None,
        },
{
    proof {
        lemma_key_bytes();
        reveal(p_dca_val);
    }
    let r = if bytes_eq(key.as_slice(), "version".as_bytes()) {
        match parse_u64(s, vfrom) {
            Some((v, e)) => {
                let mut a = acc;
                a.version = v;
                (a, e)
            },
            None => {
                return None;
            },
        }
    } else if bytes_eq(key.as_slice(), "opus".as_bytes()) {
        match parse_encoder(s, vfrom) {
            Some((v, e)) => {
                let mut a = acc;
                a.opus = v;
                (a, e)
            },
            None => {
                return None;
            },
        }
    } else if bytes_eq(key.as_slice(), "info".as_bytes()) {
        match parse_opt_info_x(s, vfrom) {
            Some((v, e)) => {
                let mut a = acc;
                a.info = v;
                (a, e)
            },
            None => {
                return None;
            },
        }
    } else if bytes_eq(key.as_slice(), "origin".as_bytes()) {
        match parse_opt_origin_x(s, vfrom) {
            Some((v, e)) => {
                let mut a = acc;
                a.origin = v;
                (a, e)
            },
            None => {
                return None;
            },
        }
    } else if bytes_eq(key.as_slice(), "extra".as_bytes()) {
        match parse_extra(s, vfrom) {
            Some((v, e)) => {
                let mut a = acc;
                a.extra = v;
                (a, e)
            },
            None => {
                return None;
            },
        }
    } else {
        match skip_value(s, vfrom) {
            Some(e) => (acc, e),
            None => {
                return None;
            },
        }
    };
    Some(r)
}

/// Parse dca block members starting at `from`, filling `acc`.
#[verifier::rlimit(100)]
#[verifier::spinoff_prover]
fn parse_dca_members(s: &[u8], from: usize, acc: DcaMetadata) -> (r: Option<(DcaMetadata, usize)>)
    requires
        from <= s@.len(),
    ensures
        match r {
            Some((e, end)) => p_dca_members(s@.skip(from as int), acc@) == Some(
                (e@, end - from as int),
            ) && from < end <= s@.len(),
            None => p_dca_members(s@.skip(from as int), acc@) is None,
        },
    decreases s@.len() - from,
{
    proof {
        reveal(p_dca_members);
    }
    let ghost rem = s@.skip(from as int);
    let slen = s.len();
    if !(from < slen && s[from] == QU) {
        proof {
            if from < slen {
                assert(rem[0] == s@[from as int]);
            }
        }
        return None;
    }
    proof {
        assert(rem[0] == QU);
        assert(rem.skip(1) =~= s@.skip(from + 1));
    }
    let (key, end_key) = match parse_str_content(s, from + 1) {
        Some(p) => p,
        None => {
            return None;
        },
    };
    if !(end_key < slen && s[end_key] == CO) {
        proof {
            if end_key < slen {
                assert(rem[end_key - from as int] == s@[end_key as int]);
            }
        }
        return None;
    }
    proof {
        assert(rem[end_key - from as int] == s@[end_key as int]);
        assert(rem.skip(end_key + 1 - from as int) =~= s@.skip(end_key + 1));
    }
    let (acc2, end_val) = match parse_dca_value(s, end_key + 1, acc, &key) {
        Some(p) => p,
        None => {
            return None;
        },
    };
    if end_val < slen && s[end_val] == CM {
        proof {
            assert(rem[end_val - from as int] == s@[end_val as int]);
            assert(rem.skip(end_val + 1 - from as int) =~= s@.skip(end_val + 1));
        }
        match parse_dca_members(s, end_val + 1, acc2) {
            Some((e, end)) => Some((e, end)),
            None => None,
        }
    } else if end_val < slen && s[end_val] == RB {
        proof {
            assert(rem[end_val - from as int] == s@[end_val as int]);
        }
        Some((acc2, end_val + 1))
    } else {
        proof {
            if end_val < slen {
                assert(rem[end_val - from as int] == s@[end_val as int]);
            }
        }
        None
    }
}

/// Parse the header record as a JSON object starting at `from`.
fn parse_dca(s: &[u8], from: usize) -> (r: Option<(DcaMetadata, usize)>)
    requires
        from <= s@.len(),
    ensures
        match r {
            Some((e, end)) => p_dca(s@.skip(from as int)) == Some((e@, end - from as int))
                && from < end <= s@.len(),
            None => p_dca(s@.skip(from as int)) is None,
        },
{
    proof {
        reveal(p_dca);
    }
    let ghost rem = s@.skip(from as int);
    let slen = s.len();
    if !(slen - from >= 2 && s[from] == LB) {
        proof {
            if from < slen {
                assert(rem[0] == s@[from as int]);
            }
        }
        return None;
    }
    proof {
        assert(rem[0] == s@[from as int] && rem[1] == s@[from + 1]);
        assert(rem.skip(1) =~= s@.skip(from + 1));
    }
    if s[from + 1] == RB {
        Some((dca_default_x(), from + 2))
    } else {
        match parse_dca_members(s, from + 1, dca_default_x()) {
            Some((e, end)) => Some((e, end)),
            None => None,
        }
    }
}

/// Decode the framed header at the front of an artifact's bytes: check the
/// magic tag, read the declared length, parse exactly that many header
/// bytes.  On success returns the record and the offset where the payload
/// begins.  Every malformed front -- wrong magic, bad declared length,
/// truncated or unparsable header text -- is `InvalidContainer`, and the
/// remaining bytes are never interpreted as payload.
pub fn decode_header(bytes: &[u8]) -> (r: Result<(DcaMetadata, usize), CacheError>)
    ensures
        match r {
            Ok((h, off)) => spec_decode_header(bytes@) == Some((h@, off as int)) && 8 <= off
                <= bytes@.len(),
            Err(e) => spec_decode_header(bytes@) is None && e == CacheError::InvalidContainer,
        },
{
    let blen = bytes.len();
    if blen < 4 {
        return Err(CacheError::InvalidContainer);
    }
    if !(bytes[0] == 68 && bytes[1] == 67 && bytes[2] == 65 && bytes[3] == 49) {
        return Err(CacheError::InvalidContainer);
    }
    if blen < 8 {
        return Err(CacheError::InvalidContainer);
    }
    let lenb = vstd::slice::slice_subrange(bytes, 4, 8);
    let l = vstd::bytes::u32_from_le_bytes(lenb);
    if l < 2 || l > 0x7FFF_FFFF {
        return Err(CacheError::InvalidContainer);
    }
    let lu = l as usize;
    if blen - 8 < lu {
        return Err(CacheError::InvalidContainer);
    }
    let region = vstd::slice::slice_subrange(bytes, 8, 8 + lu);
    match parse_dca(region, 0) {
        Some((h, end)) => {
            if end == lu {
                proof {
                    assert(region@.skip(0) =~= region@);
                }
                Ok((h, 8 + lu))
            } else {
                proof {
                    assert(region@.skip(0) =~= region@);
                }
                Err(CacheError::InvalidContainer)
            }
        },
        None => {
            proof {
                assert(region@.skip(0) =~= region@);
            }
            Err(CacheError::InvalidContainer)
        },
    }
}

/// A byte sequence that does not start with the four byte magic never
/// decodes; the reader rejects it at the tag and interprets nothing that
/// follows.
pub proof fn lemma_decode_rejects_bad_magic(b: Seq<u8>)
    requires
        b.len() < 4 || b.subrange(0, 4) != magic(),
    ensures
        spec_decode_header(b) is None,
{
    if b.len() >= 4 {
        if b[0] == 68 && b[1] == 67 && b[2] == 65 && b[3] == 49 {
            assert(b.subrange(0, 4) =~= magic());
        }
    }
}

/// A declared header length greater than the header bytes actually present
/// never decodes: a truncated artifact fails rather than yielding a
/// partially parsed record.
pub proof fn lemma_decode_rejects_truncated(b: Seq<u8>)
    requires
        b.len() >= 8,
        b.len() - 8 < vstd::bytes::spec_u32_from_le_bytes(b.subrange(4, 8)) as int,
    ensures
        spec_decode_header(b) is None,
{
}

// ---------------------------------------------------------------------------
// Inversion: decoding gives back the record the encoder wrote.
// ---------------------------------------------------------------------------

/// Parsing a serialized member: the key parses back, the colon follows,
/// then the value region.
proof fn lemma_key_step(k: Seq<u8>, tail: Seq<u8>)
    ensures
        ({
            let s = ser_str_bytes(k) + seq![CO] + tail;
            &&& s.len() == esc(k).len() + 3int + tail.len()
            &&& s[0] == QU
            &&& p_str_content(s.skip(1)) == Some((k, esc(k).len() + 1int))
            &&& s[esc(k).len() + 2int] == CO
            &&& s.skip(esc(k).len() + 3int) =~= tail
        }),
{
    let s = ser_str_bytes(k) + seq![CO] + tail;
    assert(s.skip(1) =~= esc(k) + seq![QU] + (seq![CO] + tail));
    lemma_esc_inv(k, seq![CO] + tail);
    assert(s[esc(k).len() + 2int] == CO);
    assert(s.skip(esc(k).len() + 3int) =~= tail);
}

/// The lengths of the member keys, and where equal-length keys differ.
proof fn lemma_key_facts()
    ensures
        k_version().len() == 7,
        k_opus().len() == 4,
        k_mode().len() == 4,
        k_sample_rate().len() == 11,
        k_frame_size().len() == 10,
        k_abr().len() == 3,
        k_channels().len() == 8,
        k_info().len() == 4,
        k_title().len() == 5,
        k_artist().len() == 6,
        k_origin().len() == 6,
        k_source().len() == 6,
        k_url().len() == 3,
        k_extra().len() == 5,
        k_date().len() == 4,
        k_duration().len() == 8,
        k_thumbnail().len() == 9,
        k_opus()[0] != k_info()[0],
        k_origin()[0] != k_source()[0],
{
}

/// The member loop of the enc block on its last serialized member.
#[verifier::rlimit(100)]
#[verifier::spinoff_prover]
proof fn lemma_enc_member_last(k: Seq<u8>, v: Seq<u8>, t: Seq<u8>, acc: EncoderV, acc2: EncoderV)
    requires
        v.len() >= 1,
        p_enc_val(v + (seq![RB] + t), acc, k) == Some((acc2, v.len() as int)),
    ensures
        ({
            let s = ser_str_bytes(k) + seq![CO] + (v + (seq![RB] + t));
            p_enc_members(s, acc) == Some((acc2, s.len() - t.len()))
        }),
{
    reveal(p_enc_members);
    let tail = v + (seq![RB] + t);
    let s = ser_str_bytes(k) + seq![CO] + tail;
    lemma_key_step(k, tail);
    let ak = esc(k).len() + 2int;
    let av = ak + 1 + v.len();
    assert(s[av] == RB);
    assert(s.skip(ak + 1) =~= tail);
    assert(p_enc_members(s, acc) == Some((acc2, av + 1)));
}

/// The member loop of the enc block on a serialized member followed by
/// more members.
#[verifier::rlimit(100)]
#[verifier::spinoff_prover]
proof fn lemma_enc_member_cons(
    k: Seq<u8>,
    v: Seq<u8>,
    rest: Seq<u8>,
    t: Seq<u8>,
    acc: EncoderV,
    acc2: EncoderV,
    acc3: EncoderV,
    n3: int,
)
    requires
        v.len() >= 1,
        t.len() <= rest.len(),
        p_enc_val(v + (seq![CM] + rest), acc, k) == Some((acc2, v.len() as int)),
        p_enc_members(rest, acc2) == Some((acc3, n3)),
    ensures
        ({
            let s = ser_str_bytes(k) + seq![CO] + (v + (seq![CM] + rest));
            p_enc_members(s, acc) == Some((acc3, s.len() - rest.len() + n3))
        }),
{
    reveal(p_enc_members);
    let tail = v + (seq![CM] + rest);
    let s = ser_str_bytes(k) + seq![CO] + tail;
    lemma_key_step(k, tail);
    let ak = esc(k).len() + 2int;
    let av = ak + 1 + v.len();
    assert(s[av] == CM);
    assert(s.skip(ak + 1) =~= tail);
    assert(s.skip(av + 1) =~= rest);
    assert(p_enc_members(s, acc) == Some((acc3, av + 1 + n3)));
}

/// The member loop of the info block on its last serialized member.
#[verifier::rlimit(100)]
#[verifier::spinoff_prover]
proof fn lemma_info_member_last(k: Seq<u8>, v: Seq<u8>, t: Seq<u8>, acc: InfoV, acc2: InfoV)
    requires
        v.len() >= 1,
        p_info_val(v + (seq![RB] + t), acc, k) == Some((acc2, v.len() as int)),
    ensures
        ({
            let s = ser_str_bytes(k) + seq![CO] + (v + (seq![RB] + t));
            p_info_members(s, acc) == Some((acc2, s.len() - t.len()))
        }),
{
    reveal(p_info_members);
    let tail = v + (seq![RB] + t);
    let s = ser_str_bytes(k) + seq![CO] + tail;
    lemma_key_step(k, tail);
    let ak = esc(k).len() + 2int;
    let av = ak + 1 + v.len();
    assert(s[av] == RB);
    assert(s.skip(ak + 1) =~= tail);
    assert(p_info_members(s, acc) == Some((acc2, av + 1)));
}

/// The member loop of the info block on a serialized member followed by
/// more members.
#[verifier::rlimit(100)]
#[verifier::spinoff_prover]
proof fn lemma_info_member_cons(
    k: Seq<u8>,
    v: Seq<u8>,
    rest: Seq<u8>,
    t: Seq<u8>,
    acc: InfoV,
    acc2: InfoV,
    acc3: InfoV,
    n3: int,
)
    requires
        v.len() >= 1,
        t.len() <= rest.len(),
        p_info_val(v + (seq![CM] + rest), acc, k) == Some((acc2, v.len() as int)),
        p_info_members(rest, acc2) == Some((acc3, n3)),
    ensures
        ({
            let s = ser_str_bytes(k) + seq![CO] + (v + (seq![CM] + rest));
            p_info_members(s, acc) == Some((acc3, s.len() - rest.len() + n3))
        }),
{
    reveal(p_info_members);
    let tail = v + (seq![CM] + rest);
    let s = ser_str_bytes(k) + seq![CO] + tail;
    lemma_key_step(k, tail);
    let ak = esc(k).len() + 2int;
    let av = ak + 1 + v.len();
    assert(s[av] == CM);
    assert(s.skip(ak + 1) =~= tail);
    assert(s.skip(av + 1) =~= rest);
    assert(p_info_members(s, acc) == Some((acc3, av + 1 + n3)));
}

/// The member loop of the origin block on its last serialized member.
#[verifier::rlimit(100)]
#[verifier::spinoff_prover]
proof fn lemma_origin_member_last(k: Seq<u8>, v: Seq<u8>, t: Seq<u8>, acc: OriginV, acc2: OriginV)
    requires
        v.len() >= 1,
        p_origin_val(v + (seq![RB] + t), acc, k) == Some((acc2, v.len() as int)),
    ensures
        ({
            let s = ser_str_bytes(k) + seq![CO] + (v + (seq![RB] + t));
            p_origin_members(s, acc) == Some((acc2, s.len() - t.len()))
        }),
{
    reveal(p_origin_members);
    let tail = v + (seq![RB] + t);
    let s = ser_str_bytes(k) + seq![CO] + tail;
    lemma_key_step(k, tail);
    let ak = esc(k).len() + 2int;
    let av = ak + 1 + v.len();
    assert(s[av] == RB);
    assert(s.skip(ak + 1) =~= tail);
    assert(p_origin_members(s, acc) == Some((acc2, av + 1)));
}

/// The member loop of the origin block on a serialized member followed by
/// more members.
#[verifier::rlimit(100)]
#[verifier::spinoff_prover]
proof fn lemma_origin_member_cons(
    k: Seq<u8>,
    v: Seq<u8>,
    rest: Seq<u8>,
    t: Seq<u8>,
    acc: OriginV,
    acc2: OriginV,
    acc3: OriginV,
    n3: int,
)
    requires
        v.len() >= 1,
        t.len() <= rest.len(),
        p_origin_val(v + (seq![CM] + rest), acc, k) == Some((acc2, v.len() as int)),
        p_origin_members(rest, acc2) == Some((acc3, n3)),
    ensures
        ({
            let s = ser_str_bytes(k) + seq![CO] + (v + (seq![CM] + rest));
            p_origin_members(s, acc) == Some((acc3, s.len() - rest.len() + n3))
        }),
{
    reveal(p_origin_members);
    let tail = v + (seq![CM] + rest);
    let s = ser_str_bytes(k) + seq![CO] + tail;
    lemma_key_step(k, tail);
    let ak = esc(k).len() + 2int;
    let av = ak + 1 + v.len();
    assert(s[av] == CM);
    assert(s.skip(ak + 1) =~= tail);
    assert(s.skip(av + 1) =~= rest);
    assert(p_origin_members(s, acc) == Some((acc3, av + 1 + n3)));
}

/// The member loop of the extra block on its last serialized member.
#[verifier::rlimit(100)]
#[verifier::spinoff_prover]
proof fn lemma_extra_member_last(k: Seq<u8>, v: Seq<u8>, t: Seq<u8>, acc: ExtraV, acc2: ExtraV)
    requires
        v.len() >= 1,
        p_extra_val(v + (seq![RB] + t), acc, k) == Some((acc2, v.len() as int)),
    ensures
        ({
            let s = ser_str_bytes(k) + seq![CO] + (v + (seq![RB] + t));
            p_extra_members(s, acc) == Some((acc2, s.len() - t.len()))
        }),
{
    reveal(p_extra_members);
    let tail = v + (seq![RB] + t);
    let s = ser_str_bytes(k) + seq![CO] + tail;
    lemma_key_step(k, tail);
    let ak = esc(k).len() + 2int;
    let av = ak + 1 + v.len();
    assert(s[av] == RB);
    assert(s.skip(ak + 1) =~= tail);
    assert(p_extra_members(s, acc) == Some((acc2, av + 1)));
}

/// The member loop of the extra block on a serialized member followed by
/// more members.
#[verifier::rlimit(100)]
#[verifier::spinoff_prover]
proof fn lemma_extra_member_cons(
    k: Seq<u8>,
    v: Seq<u8>,
    rest: Seq<u8>,
    t: Seq<u8>,
    acc: ExtraV,
    acc2: ExtraV,
    acc3: ExtraV,
    n3: int,
)
    requires
        v.len() >= 1,
        t.len() <= rest.len(),
        p_extra_val(v + (seq![CM] + rest), acc, k) == Some((acc2, v.len() as int)),
        p_extra_members(rest, acc2) == Some((acc3, n3)),
    ensures
        ({
            let s = ser_str_bytes(k) + seq![CO] + (v + (seq![CM] + rest));
            p_extra_members(s, acc) == Some((acc3, s.len() - rest.len() + n3))
        }),
{
    reveal(p_extra_members);
    let tail = v + (seq![CM] + rest);
    let s = ser_str_bytes(k) + seq![CO] + tail;
    lemma_key_step(k, tail);
    let ak = esc(k).len() + 2int;
    let av = ak + 1 + v.len();
    assert(s[av] == CM);
    assert(s.skip(ak + 1) =~= tail);
    assert(s.skip(av + 1) =~= rest);
    assert(p_extra_members(s, acc) == Some((acc3, av + 1 + n3)));
}

/// The member loop of the dca block on its last serialized member.
#[verifier::rlimit(100)]
#[verifier::spinoff_prover]
proof fn lemma_dca_member_last(k: Seq<u8>, v: Seq<u8>, t: Seq<u8>, acc: DcaMetadataV, acc2: DcaMetadataV)
    requires
        v.len() >= 1,
        p_dca_val(v + (seq![RB] + t), acc, k) == Some((acc2, v.len() as int)),
    ensures
        ({
            let s = ser_str_bytes(k) + seq![CO] + (v + (seq![RB] + t));
            p_dca_members(s, acc) == Some((acc2, s.len() - t.len()))
        }),
{
    reveal(p_dca_members);
    let tail = v + (seq![RB] + t);
    let s = ser_str_bytes(k) + seq![CO] + tail;
    lemma_key_step(k, tail);
    let ak = esc(k).len() + 2int;
    let av = ak + 1 + v.len();
    assert(s[av] == RB);
    assert(s.skip(ak + 1) =~= tail);
    assert(p_dca_members(s, acc) == Some((acc2, av + 1)));
}

/// The member loop of the dca block on a serialized member followed by
/// more members.
#[verifier::rlimit(100)]
#[verifier::spinoff_prover]
proof fn lemma_dca_member_cons(
    k: Seq<u8>,
    v: Seq<u8>,
    rest: Seq<u8>,
    t: Seq<u8>,
    acc: DcaMetadataV,
    acc2: DcaMetadataV,
    acc3: DcaMetadataV,
    n3: int,
)
    requires
        v.len() >= 1,
        t.len() <= rest.len(),
        p_dca_val(v + (seq![CM] + rest), acc, k) == Some((acc2, v.len() as int)),
        p_dca_members(rest, acc2) == Some((acc3, n3)),
    ensures
        ({
            let s = ser_str_bytes(k) + seq![CO] + (v + (seq![CM] + rest));
            p_dca_members(s, acc) == Some((acc3, s.len() - rest.len() + n3))
        }),
{
    reveal(p_dca_members);
    let tail = v + (seq![CM] + rest);
    let s = ser_str_bytes(k) + seq![CO] + tail;
    lemma_key_step(k, tail);
    let ak = esc(k).len() + 2int;
    let av = ak + 1 + v.len();
    assert(s[av] == CM);
    assert(s.skip(ak + 1) =~= tail);
    assert(s.skip(av + 1) =~= rest);
    assert(p_dca_members(s, acc) == Some((acc3, av + 1 + n3)));
}

/// The encoder block after its first 1 serialized members are read back.
spec fn enc_acc1(e: EncoderV) -> EncoderV {
    EncoderV { mode: e.mode, ..enc_default() }
}

/// The encoder block after its first 2 serialized members are read back.
spec fn enc_acc2(e: EncoderV) -> EncoderV {
    EncoderV { sample_rate: e.sample_rate, ..enc_acc1(e) }
}

/// The encoder block after its first 3 serialized members are read back.
spec fn enc_acc3(e: EncoderV) -> EncoderV {
    EncoderV { frame_size: e.frame_size, ..enc_acc2(e) }
}

/// The encoder block after its first 4 serialized members are read back.
spec fn enc_acc4(e: EncoderV) -> EncoderV {
    EncoderV { abr: e.abr, ..enc_acc3(e) }
}

/// The encoder block after its first 5 serialized members are read back.
spec fn enc_acc5(e: EncoderV) -> EncoderV {
    EncoderV { channels: e.channels, ..enc_acc4(e) }
}

/// The serialized members of the encoder block from member 5 on, then `t`.
spec fn enc_m5(e: EncoderV, t: Seq<u8>) -> Seq<u8> {
    ser_str_bytes(k_channels()) + seq![CO] + (dec_rep(e.channels as u64) + (seq![RB] + t))
}

/// The serialized members of the encoder block from member 4 on, then `t`.
spec fn enc_m4(e: EncoderV, t: Seq<u8>) -> Seq<u8> {
    ser_str_bytes(k_abr()) + seq![CO] + (dec_rep(e.abr) + (seq![CM] + enc_m5(e, t)))
}

/// The serialized members of the encoder block from member 3 on, then `t`.
spec fn enc_m3(e: EncoderV, t: Seq<u8>) -> Seq<u8> {
    ser_str_bytes(k_frame_size()) + seq![CO] + (dec_rep(e.frame_size) + (seq![CM] + enc_m4(e, t)))
}

/// The serialized members of the encoder block from member 2 on, then `t`.
spec fn enc_m2(e: EncoderV, t: Seq<u8>) -> Seq<u8> {
    ser_str_bytes(k_sample_rate()) + seq![CO] + (dec_rep(e.sample_rate as u64) + (seq![CM] + enc_m3(e, t)))
}

/// The serialized members of the encoder block from member 1 on, then `t`.
spec fn enc_m1(e: EncoderV, t: Seq<u8>) -> Seq<u8> {
    ser_str_bytes(k_mode()) + seq![CO] + (ser_string(e.mode) + (seq![CM] + enc_m2(e, t)))
}

/// Reading back the encoder block's serialized members from member 5 on.
#[verifier::rlimit(100)]
#[verifier::spinoff_prover]
proof fn lemma_enc_inv_m5(e: EncoderV, t: Seq<u8>)
    ensures
        p_enc_members(enc_m5(e, t), enc_acc4(e)) == Some(
            (enc_acc5(e), enc_m5(e, t).len() - t.len()),
        ),
        enc_m5(e, t).len() - t.len() >= 1,
{
    reveal(p_enc_val);
    lemma_key_facts();
    let v: Seq<u8> = dec_rep(e.channels as u64);
    lemma_dec_rep_inv(e.channels as u64, (seq![RB] + t));
    assert(p_enc_val(v + (seq![RB] + t), enc_acc4(e), k_channels()) == Some((enc_acc5(e), v.len() as int)));
    lemma_enc_member_last(k_channels(), v, t, enc_acc4(e), enc_acc5(e));
}

/// Reading back the encoder block's serialized members from member 4 on.
#[verifier::rlimit(100)]
#[verifier::spinoff_prover]
proof fn lemma_enc_inv_m4(e: EncoderV, t: Seq<u8>)
    ensures
        p_enc_members(enc_m4(e, t), enc_acc3(e)) == Some(
            (enc_acc5(e), enc_m4(e, t).len() - t.len()),
        ),
        enc_m4(e, t).len() - t.len() >= 1,
{
    reveal(p_enc_val);
    lemma_key_facts();
    let v: Seq<u8> = dec_rep(e.abr);
    lemma_dec_rep_inv(e.abr, (seq![CM] + enc_m5(e, t)));
    assert(p_enc_val(v + (seq![CM] + enc_m5(e, t)), enc_acc3(e), k_abr()) == Some((enc_acc4(e), v.len() as int)));
    lemma_enc_inv_m5(e, t);
    lemma_enc_member_cons(k_abr(), v, enc_m5(e, t), t, enc_acc3(e), enc_acc4(e), enc_acc5(e), enc_m5(e, t).len() - t.len());
}

/// Reading back the encoder block's serialized members from member 3 on.
#[verifier::rlimit(100)]
#[verifier::spinoff_prover]
proof fn lemma_enc_inv_m3(e: EncoderV, t: Seq<u8>)
    ensures
        p_enc_members(enc_m3(e, t), enc_acc2(e)) == Some(
            (enc_acc5(e), enc_m3(e, t).len() - t.len()),
        ),
        enc_m3(e, t).len() - t.len() >= 1,
{
    reveal(p_enc_val);
    lemma_key_facts();
    let v: Seq<u8> = dec_rep(e.frame_size);
    lemma_dec_rep_inv(e.frame_size, (seq![CM] + enc_m4(e, t)));
    assert(p_enc_val(v + (seq![CM] + enc_m4(e, t)), enc_acc2(e), k_frame_size()) == Some((enc_acc3(e), v.len() as int)));
    lemma_enc_inv_m4(e, t);
    lemma_enc_member_cons(k_frame_size(), v, enc_m4(e, t), t, enc_acc2(e), enc_acc3(e), enc_acc5(e), enc_m4(e, t).len() - t.len());
}

/// Reading back the encoder block's serialized members from member 2 on.
#[verifier::rlimit(100)]
#[verifier::spinoff_prover]
proof fn lemma_enc_inv_m2(e: EncoderV, t: Seq<u8>)
    ensures
        p_enc_members(enc_m2(e, t), enc_acc1(e)) == Some(
            (enc_acc5(e), enc_m2(e, t).len() - t.len()),
        ),
        enc_m2(e, t).len() - t.len() >= 1,
{
    reveal(p_enc_val);
    lemma_key_facts();
    let v: Seq<u8> = dec_rep(e.sample_rate as u64);
    lemma_dec_rep_inv(e.sample_rate as u64, (seq![CM] + enc_m3(e, t)));
    assert(p_enc_val(v + (seq![CM] + enc_m3(e, t)), enc_acc1(e), k_sample_rate()) == Some((enc_acc2(e), v.len() as int)));
    lemma_enc_inv_m3(e, t);
    lemma_enc_member_cons(k_sample_rate(), v, enc_m3(e, t), t, enc_acc1(e), enc_acc2(e), enc_acc5(e), enc_m3(e, t).len() - t.len());
}

/// Reading back the encoder block's serialized members from member 1 on.
#[verifier::rlimit(100)]
#[verifier::spinoff_prover]
proof fn lemma_enc_inv_m1(e: EncoderV, t: Seq<u8>)
    ensures
        p_enc_members(enc_m1(e, t), enc_default()) == Some(
            (enc_acc5(e), enc_m1(e, t).len() - t.len()),
        ),
        enc_m1(e, t).len() - t.len() >= 1,
{
    reveal(p_enc_val);
    lemma_key_facts();
    let v: Seq<u8> = ser_string(e.mode);
    lemma_ser_string_inv(e.mode, (seq![CM] + enc_m2(e, t)));
    assert(p_enc_val(v + (seq![CM] + enc_m2(e, t)), enc_default(), k_mode()) == Some((enc_acc1(e), v.len() as int)));
    lemma_enc_inv_m2(e, t);
    lemma_enc_member_cons(k_mode(), v, enc_m2(e, t), t, enc_default(), enc_acc1(e), enc_acc5(e), enc_m2(e, t).len() - t.len());
}

/// Decoding the serialized encoder block gives it back, whatever follows it.
#[verifier::rlimit(100)]
#[verifier::spinoff_prover]
pub proof fn lemma_enc_inv(e: EncoderV, t: Seq<u8>)
    ensures
        p_encoder(ser_encoder(e) + t) == Some((e, ser_encoder(e).len() as int)),
        ser_encoder(e).len() >= 2,
        (ser_encoder(e) + t)[0] == LB,
{
    reveal(p_encoder);
    reveal(ser_encoder);
    lemma_enc_inv_m1(e, t);
    assert(enc_acc5(e) =~= e);
    let s = ser_encoder(e) + t;
    assert(s =~= seq![LB] + enc_m1(e, t));
    assert(s[0] == LB && s[1] == QU);
    assert(s.skip(1) =~= enc_m1(e, t));
    assert(p_encoder(s) == Some((e, 1 + (enc_m1(e, t).len() - t.len()))));
    assert(ser_encoder(e).len() == 1 + enc_m1(e, t).len() - t.len());
}

/// The track info block after its first 1 serialized members are read back.
spec fn info_acc1(i: InfoV) -> InfoV {
    InfoV { title: i.title, ..info_default() }
}

/// The track info block after its first 2 serialized members are read back.
spec fn info_acc2(i: InfoV) -> InfoV {
    InfoV { artist: i.artist, ..info_acc1(i) }
}

/// The serialized members of the track info block from member 2 on, then `t`.
spec fn info_m2(i: InfoV, t: Seq<u8>) -> Seq<u8> {
    ser_str_bytes(k_artist()) + seq![CO] + (ser_opt_str(i.artist) + (seq![RB] + t))
}

/// The serialized members of the track info block from member 1 on, then `t`.
spec fn info_m1(i: InfoV, t: Seq<u8>) -> Seq<u8> {
    ser_str_bytes(k_title()) + seq![CO] + (ser_opt_str(i.title) + (seq![CM] + info_m2(i, t)))
}

/// Reading back the track info block's serialized members from member 2 on.
#[verifier::rlimit(100)]
#[verifier::spinoff_prover]
proof fn lemma_info_inv_m2(i: InfoV, t: Seq<u8>)
    ensures
        p_info_members(info_m2(i, t), info_acc1(i)) == Some(
            (info_acc2(i), info_m2(i, t).len() - t.len()),
        ),
        info_m2(i, t).len() - t.len() >= 1,
{
    reveal(p_info_val);
    lemma_key_facts();
    let v: Seq<u8> = ser_opt_str(i.artist);
    lemma_ser_opt_str_inv(i.artist, (seq![RB] + t));
    assert(p_info_val(v + (seq![RB] + t), info_acc1(i), k_artist()) == Some((info_acc2(i), v.len() as int)));
    lemma_info_member_last(k_artist(), v, t, info_acc1(i), info_acc2(i));
}

/// Reading back the track info block's serialized members from member 1 on.
#[verifier::rlimit(100)]
#[verifier::spinoff_prover]
proof fn lemma_info_inv_m1(i: InfoV, t: Seq<u8>)
    ensures
        p_info_members(info_m1(i, t), info_default()) == Some(
            (info_acc2(i), info_m1(i, t).len() - t.len()),
        ),
        info_m1(i, t).len() - t.len() >= 1,
{
    reveal(p_info_val);
    lemma_key_facts();
    let v: Seq<u8> = ser_opt_str(i.title);
    lemma_ser_opt_str_inv(i.title, (seq![CM] + info_m2(i, t)));
    assert(p_info_val(v + (seq![CM] + info_m2(i, t)), info_default(), k_title()) == Some((info_acc1(i), v.len() as int)));
    lemma_info_inv_m2(i, t);
    lemma_info_member_cons(k_title(), v, info_m2(i, t), t, info_default(), info_acc1(i), info_acc2(i), info_m2(i, t).len() - t.len());
}

/// Decoding the serialized track info block gives it back, whatever follows it.
#[verifier::rlimit(100)]
#[verifier::spinoff_prover]
pub proof fn lemma_info_inv(i: InfoV, t: Seq<u8>)
    ensures
        p_info(ser_info(i) + t) == Some((i, ser_info(i).len() as int)),
        ser_info(i).len() >= 2,
        (ser_info(i) + t)[0] == LB,
{
    reveal(p_info);
    reveal(ser_info);
    lemma_info_inv_m1(i, t);
    assert(info_acc2(i) =~= i);
    let s = ser_info(i) + t;
    assert(s =~= seq![LB] + info_m1(i, t));
    assert(s[0] == LB && s[1] == QU);
    assert(s.skip(1) =~= info_m1(i, t));
    assert(p_info(s) == Some((i, 1 + (info_m1(i, t).len() - t.len()))));
    assert(ser_info(i).len() == 1 + info_m1(i, t).len() - t.len());
}

/// The origin block after its first 1 serialized members are read back.
spec fn origin_acc1(g: OriginV) -> OriginV {
    OriginV { source: g.source, ..origin_default() }
}

/// The origin block after its first 2 serialized members are read back.
spec fn origin_acc2(g: OriginV) -> OriginV {
    OriginV { url: g.url, ..origin_acc1(g) }
}

/// The serialized members of the origin block from member 2 on, then `t`.
spec fn origin_m2(g: OriginV, t: Seq<u8>) -> Seq<u8> {
    ser_str_bytes(k_url()) + seq![CO] + (ser_opt_str(g.url) + (seq![RB] + t))
}

/// The serialized members of the origin block from member 1 on, then `t`.
spec fn origin_m1(g: OriginV, t: Seq<u8>) -> Seq<u8> {
    ser_str_bytes(k_source()) + seq![CO] + (ser_opt_str(g.source) + (seq![CM] + origin_m2(g, t)))
}

/// Reading back the origin block's serialized members from member 2 on.
#[verifier::rlimit(100)]
#[verifier::spinoff_prover]
proof fn lemma_origin_inv_m2(g: OriginV, t: Seq<u8>)
    ensures
        p_origin_members(origin_m2(g, t), origin_acc1(g)) == Some(
            (origin_acc2(g), origin_m2(g, t).len() - t.len()),
        ),
        origin_m2(g, t).len() - t.len() >= 1,
{
    reveal(p_origin_val);
    lemma_key_facts();
    let v: Seq<u8> = ser_opt_str(g.url);
    lemma_ser_opt_str_inv(g.url, (seq![RB] + t));
    assert(p_origin_val(v + (seq![RB] + t), origin_acc1(g), k_url()) == Some((origin_acc2(g), v.len() as int)));
    lemma_origin_member_last(k_url(), v, t, origin_acc1(g), origin_acc2(g));
}

/// Reading back the origin block's serialized members from member 1 on.
#[verifier::rlimit(100)]
#[verifier::spinoff_prover]
proof fn lemma_origin_inv_m1(g: OriginV, t: Seq<u8>)
    ensures
        p_origin_members(origin_m1(g, t), origin_default()) == Some(
            (origin_acc2(g), origin_m1(g, t).len() - t.len()),
        ),
        origin_m1(g, t).len() - t.len() >= 1,
{
    reveal(p_origin_val);
    lemma_key_facts();
    let v: Seq<u8> = ser_opt_str(g.source);
    lemma_ser_opt_str_inv(g.source, (seq![CM] + origin_m2(g, t)));
    assert(p_origin_val(v + (seq![CM] + origin_m2(g, t)), origin_default(), k_source()) == Some((origin_acc1(g), v.len() as int)));
    lemma_origin_inv_m2(g, t);
    lemma_origin_member_cons(k_source(), v, origin_m2(g, t), t, origin_default(), origin_acc1(g), origin_acc2(g), origin_m2(g, t).len() - t.len());
}

/// Decoding the serialized origin block gives it back, whatever follows it.
#[verifier::rlimit(100)]
#[verifier::spinoff_prover]
pub proof fn lemma_origin_inv(g: OriginV, t: Seq<u8>)
    ensures
        p_origin(ser_origin(g) + t) == Some((g, ser_origin(g).len() as int)),
        ser_origin(g).len() >= 2,
        (ser_origin(g) + t)[0] == LB,
{
    reveal(p_origin);
    reveal(ser_origin);
    lemma_origin_inv_m1(g, t);
    assert(origin_acc2(g) =~= g);
    let s = ser_origin(g) + t;
    assert(s =~= seq![LB] + origin_m1(g, t));
    assert(s[0] == LB && s[1] == QU);
    assert(s.skip(1) =~= origin_m1(g, t));
    assert(p_origin(s) == Some((g, 1 + (origin_m1(g, t).len() - t.len()))));
    assert(ser_origin(g).len() == 1 + origin_m1(g, t).len() - t.len());
}

/// The free-form block after its first 1 serialized members are read back.
spec fn extra_acc1(x: ExtraV) -> ExtraV {
    ExtraV { date: x.date, ..extra_default() }
}

/// The free-form block after its first 2 serialized members are read back.
spec fn extra_acc2(x: ExtraV) -> ExtraV {
    ExtraV { duration: x.duration, ..extra_acc1(x) }
}

/// The free-form block after its first 3 serialized members are read back.
spec fn extra_acc3(x: ExtraV) -> ExtraV {
    ExtraV { thumbnail: x.thumbnail, ..extra_acc2(x) }
}

/// The serialized members of the free-form block from member 3 on, then `t`.
spec fn extra_m3(x: ExtraV, t: Seq<u8>) -> Seq<u8> {
    ser_str_bytes(k_thumbnail()) + seq![CO] + (ser_opt_str(x.thumbnail) + (seq![RB] + t))
}

/// The serialized members of the free-form block from member 2 on, then `t`.
spec fn extra_m2(x: ExtraV, t: Seq<u8>) -> Seq<u8> {
    ser_str_bytes(k_duration()) + seq![CO] + (ser_opt_u64(x.duration) + (seq![CM] + extra_m3(x, t)))
}

/// The serialized members of the free-form block from member 1 on, then `t`.
spec fn extra_m1(x: ExtraV, t: Seq<u8>) -> Seq<u8> {
    ser_str_bytes(k_date()) + seq![CO] + (ser_opt_str(x.date) + (seq![CM] + extra_m2(x, t)))
}

/// Reading back the free-form block's serialized members from member 3 on.
#[verifier::rlimit(100)]
#[verifier::spinoff_prover]
proof fn lemma_extra_inv_m3(x: ExtraV, t: Seq<u8>)
    ensures
        p_extra_members(extra_m3(x, t), extra_acc2(x)) == Some(
            (extra_acc3(x), extra_m3(x, t).len() - t.len()),
        ),
        extra_m3(x, t).len() - t.len() >= 1,
{
    reveal(p_extra_val);
    lemma_key_facts();
    let v: Seq<u8> = ser_opt_str(x.thumbnail);
    lemma_ser_opt_str_inv(x.thumbnail, (seq![RB] + t));
    assert(p_extra_val(v + (seq![RB] + t), extra_acc2(x), k_thumbnail()) == Some((extra_acc3(x), v.len() as int)));
    lemma_extra_member_last(k_thumbnail(), v, t, extra_acc2(x), extra_acc3(x));
}

/// Reading back the free-form block's serialized members from member 2 on.
#[verifier::rlimit(100)]
#[verifier::spinoff_prover]
proof fn lemma_extra_inv_m2(x: ExtraV, t: Seq<u8>)
    ensures
        p_extra_members(extra_m2(x, t), extra_acc1(x)) == Some(
            (extra_acc3(x), extra_m2(x, t).len() - t.len()),
        ),
        extra_m2(x, t).len() - t.len() >= 1,
{
    reveal(p_extra_val);
    lemma_key_facts();
    let v: Seq<u8> = ser_opt_u64(x.duration);
    lemma_ser_opt_u64_inv(x.duration, (seq![CM] + extra_m3(x, t)));
    assert(p_extra_val(v + (seq![CM] + extra_m3(x, t)), extra_acc1(x), k_duration()) == Some((extra_acc2(x), v.len() as int)));
    lemma_extra_inv_m3(x, t);
    lemma_extra_member_cons(k_duration(), v, extra_m3(x, t), t, extra_acc1(x), extra_acc2(x), extra_acc3(x), extra_m3(x, t).len() - t.len());
}

/// Reading back the free-form block's serialized members from member 1 on.
#[verifier::rlimit(100)]
#[verifier::spinoff_prover]
proof fn lemma_extra_inv_m1(x: ExtraV, t: Seq<u8>)
    ensures
        p_extra_members(extra_m1(x, t), extra_default()) == Some(
            (extra_acc3(x), extra_m1(x, t).len() - t.len()),
        ),
        extra_m1(x, t).len() - t.len() >= 1,
{
    reveal(p_extra_val);
    lemma_key_facts();
    let v: Seq<u8> = ser_opt_str(x.date);
    lemma_ser_opt_str_inv(x.date, (seq![CM] + extra_m2(x, t)));
    assert(p_extra_val(v + (seq![CM] + extra_m2(x, t)), extra_default(), k_date()) == Some((extra_acc1(x), v.len() as int)));
    lemma_extra_inv_m2(x, t);
    lemma_extra_member_cons(k_date(), v, extra_m2(x, t), t, extra_default(), extra_acc1(x), extra_acc3(x), extra_m2(x, t).len() - t.len());
}

/// Decoding the serialized free-form block gives it back, whatever follows it.
#[verifier::rlimit(100)]
#[verifier::spinoff_prover]
pub proof fn lemma_extra_inv(x: ExtraV, t: Seq<u8>)
    ensures
        p_extra(ser_extra(x) + t) == Some((x, ser_extra(x).len() as int)),
        ser_extra(x).len() >= 2,
        (ser_extra(x) + t)[0] == LB,
{
    reveal(p_extra);
    reveal(ser_extra);
    lemma_extra_inv_m1(x, t);
    assert(extra_acc3(x) =~= x);
    let s = ser_extra(x) + t;
    assert(s =~= seq![LB] + extra_m1(x, t));
    assert(s[0] == LB && s[1] == QU);
    assert(s.skip(1) =~= extra_m1(x, t));
    assert(p_extra(s) == Some((x, 1 + (extra_m1(x, t).len() - t.len()))));
    assert(ser_extra(x).len() == 1 + extra_m1(x, t).len() - t.len());
}

/// Decoding the serialized track info block or `null` gives it back.
pub proof fn lemma_opt_info_inv(o: Option<InfoV>, t: Seq<u8>)
    ensures
        p_opt_info(ser_opt_info(o) + t) == Some((o, ser_opt_info(o).len() as int)),
        ser_opt_info(o).len() >= 2,
{
    reveal(p_opt_info);
    reveal(ser_opt_info);
    match o {
        Some(i) => {
            lemma_info_inv(i, t);
            let s = ser_info(i) + t;
            assert(!starts_null(s));
        },
        None => {
            let s = lit_null() + t;
            assert(s[0] == 110 && s[1] == 117 && s[2] == 108 && s[3] == 108);
            assert(starts_null(s));
        },
    }
}

/// Decoding the serialized origin block or `null` gives it back.
pub proof fn lemma_opt_origin_inv(o: Option<OriginV>, t: Seq<u8>)
    ensures
        p_opt_origin(ser_opt_origin(o) + t) == Some((o, ser_opt_origin(o).len() as int)),
        ser_opt_origin(o).len() >= 2,
{
    reveal(p_opt_origin);
    reveal(ser_opt_origin);
    match o {
        Some(g) => {
            lemma_origin_inv(g, t);
            let s = ser_origin(g) + t;
            assert(!starts_null(s));
        },
        None => {
            let s = lit_null() + t;
            assert(s[0] == 110 && s[1] == 117 && s[2] == 108 && s[3] == 108);
            assert(starts_null(s));
        },
    }
}

/// The header record after its first 1 serialized members are read back.
spec fn dca_acc1(h: DcaMetadataV) -> DcaMetadataV {
    DcaMetadataV { version: h.version, ..dca_default() }
}

/// The header record after its first 2 serialized members are read back.
spec fn dca_acc2(h: DcaMetadataV) -> DcaMetadataV {
    DcaMetadataV { opus: h.opus, ..dca_acc1(h) }
}

/// The header record after its first 3 serialized members are read back.
spec fn dca_acc3(h: DcaMetadataV) -> DcaMetadataV {
    DcaMetadataV { info: h.info, ..dca_acc2(h) }
}

/// The header record after its first 4 serialized members are read back.
spec fn dca_acc4(h: DcaMetadataV) -> DcaMetadataV {
    DcaMetadataV { origin: h.origin, ..dca_acc3(h) }
}

/// The header record after its first 5 serialized members are read back.
spec fn dca_acc5(h: DcaMetadataV) -> DcaMetadataV {
    DcaMetadataV { extra: h.extra, ..dca_acc4(h) }
}

/// The serialized members of the header record from member 5 on, then `t`.
spec fn dca_m5(h: DcaMetadataV, t: Seq<u8>) -> Seq<u8> {
    ser_str_bytes(k_extra()) + seq![CO] + (ser_extra(h.extra) + (seq![RB] + t))
}

/// The serialized members of the header record from member 4 on, then `t`.
spec fn dca_m4(h: DcaMetadataV, t: Seq<u8>) -> Seq<u8> {
    ser_str_bytes(k_origin()) + seq![CO] + (ser_opt_origin(h.origin) + (seq![CM] + dca_m5(h, t)))
}

/// The serialized members of the header record from member 3 on, then `t`.
spec fn dca_m3(h: DcaMetadataV, t: Seq<u8>) -> Seq<u8> {
    ser_str_bytes(k_info()) + seq![CO] + (ser_opt_info(h.info) + (seq![CM] + dca_m4(h, t)))
}

/// The serialized members of the header record from member 2 on, then `t`.
spec fn dca_m2(h: DcaMetadataV, t: Seq<u8>) -> Seq<u8> {
    ser_str_bytes(k_opus()) + seq![CO] + (ser_encoder(h.opus) + (seq![CM] + dca_m3(h, t)))
}

/// The serialized members of the header record from member 1 on, then `t`.
spec fn dca_m1(h: DcaMetadataV, t: Seq<u8>) -> Seq<u8> {
    ser_str_bytes(k_version()) + seq![CO] + (dec_rep(h.version) + (seq![CM] + dca_m2(h, t)))
}

/// Reading back the header record's serialized members from member 5 on.
#[verifier::rlimit(100)]
#[verifier::spinoff_prover]
proof fn lemma_dca_inv_m5(h: DcaMetadataV, t: Seq<u8>)
    ensures
        p_dca_members(dca_m5(h, t), dca_acc4(h)) == Some(
            (dca_acc5(h), dca_m5(h, t).len() - t.len()),
        ),
        dca_m5(h, t).len() - t.len() >= 1,
{
    reveal(p_dca_val);
    lemma_key_facts();
    let v: Seq<u8> = ser_extra(h.extra);
    lemma_extra_inv(h.extra, (seq![RB] + t));
    assert(p_dca_val(v + (seq![RB] + t), dca_acc4(h), k_extra()) == Some((dca_acc5(h), v.len() as int)));
    lemma_dca_member_last(k_extra(), v, t, dca_acc4(h), dca_acc5(h));
}

/// Reading back the header record's serialized members from member 4 on.
#[verifier::rlimit(100)]
#[verifier::spinoff_prover]
proof fn lemma_dca_inv_m4(h: DcaMetadataV, t: Seq<u8>)
    ensures
        p_dca_members(dca_m4(h, t), dca_acc3(h)) == Some(
            (dca_acc5(h), dca_m4(h, t).len() - t.len()),
        ),
        dca_m4(h, t).len() - t.len() >= 1,
{
    reveal(p_dca_val);
    lemma_key_facts();
    let v: Seq<u8> = ser_opt_origin(h.origin);
    lemma_opt_origin_inv(h.origin, (seq![CM] + dca_m5(h, t)));
    assert(p_dca_val(v + (seq![CM] + dca_m5(h, t)), dca_acc3(h), k_origin()) == Some((dca_acc4(h), v.len() as int)));
    lemma_dca_inv_m5(h, t);
    lemma_dca_member_cons(k_origin(), v, dca_m5(h, t), t, dca_acc3(h), dca_acc4(h), dca_acc5(h), dca_m5(h, t).len() - t.len());
}

/// Reading back the header record's serialized members from member 3 on.
#[verifier::rlimit(100)]
#[verifier::spinoff_prover]
proof fn lemma_dca_inv_m3(h: DcaMetadataV, t: Seq<u8>)
    ensures
        p_dca_members(dca_m3(h, t), dca_acc2(h)) == Some(
            (dca_acc5(h), dca_m3(h, t).len() - t.len()),
        ),
        dca_m3(h, t).len() - t.len() >= 1,
{
    reveal(p_dca_val);
    lemma_key_facts();
    let v: Seq<u8> = ser_opt_info(h.info);
    lemma_opt_info_inv(h.info, (seq![CM] + dca_m4(h, t)));
    assert(p_dca_val(v + (seq![CM] + dca_m4(h, t)), dca_acc2(h), k_info()) == Some((dca_acc3(h), v.len() as int)));
    lemma_dca_inv_m4(h, t);
    lemma_dca_member_cons(k_info(), v, dca_m4(h, t), t, dca_acc2(h), dca_acc3(h), dca_acc5(h), dca_m4(h, t).len() - t.len());
}

/// Reading back the header record's serialized members from member 2 on.
#[verifier::rlimit(100)]
#[verifier::spinoff_prover]
proof fn lemma_dca_inv_m2(h: DcaMetadataV, t: Seq<u8>)
    ensures
        p_dca_members(dca_m2(h, t), dca_acc1(h)) == Some(
            (dca_acc5(h), dca_m2(h, t).len() - t.len()),
        ),
        dca_m2(h, t).len() - t.len() >= 1,
{
    reveal(p_dca_val);
    lemma_key_facts();
    let v: Seq<u8> = ser_encoder(h.opus);
    lemma_enc_inv(h.opus, (seq![CM] + dca_m3(h, t)));
    assert(p_dca_val(v + (seq![CM] + dca_m3(h, t)), dca_acc1(h), k_opus()) == Some((dca_acc2(h), v.len() as int)));
    lemma_dca_inv_m3(h, t);
    lemma_dca_member_cons(k_opus(), v, dca_m3(h, t), t, dca_acc1(h), dca_acc2(h), dca_acc5(h), dca_m3(h, t).len() - t.len());
}

/// Reading back the header record's serialized members from member 1 on.
#[verifier::rlimit(100)]
#[verifier::spinoff_prover]
proof fn lemma_dca_inv_m1(h: DcaMetadataV, t: Seq<u8>)
    ensures
        p_dca_members(dca_m1(h, t), dca_default()) == Some(
            (dca_acc5(h), dca_m1(h, t).len() - t.len()),
        ),
        dca_m1(h, t).len() - t.len() >= 1,
{
    reveal(p_dca_val);
    lemma_key_facts();
    let v: Seq<u8> = dec_rep(h.version);
    lemma_dec_rep_inv(h.version, (seq![CM] + dca_m2(h, t)));
    assert(p_dca_val(v + (seq![CM] + dca_m2(h, t)), dca_default(), k_version()) == Some((dca_acc1(h), v.len() as int)));
    lemma_dca_inv_m2(h, t);
    lemma_dca_member_cons(k_version(), v, dca_m2(h, t), t, dca_default(), dca_acc1(h), dca_acc5(h), dca_m2(h, t).len() - t.len());
}

/// Decoding the serialized header record gives it back, whatever follows it.
#[verifier::rlimit(100)]
#[verifier::spinoff_prover]
pub proof fn lemma_dca_inv(h: DcaMetadataV, t: Seq<u8>)
    ensures
        p_dca(ser_header(h) + t) == Some((h, ser_header(h).len() as int)),
        ser_header(h).len() >= 2,
        (ser_header(h) + t)[0] == LB,
{
    reveal(p_dca);
    lemma_dca_inv_m1(h, t);
    assert(dca_acc5(h) =~= h);
    let s = ser_header(h) + t;
    assert(s =~= seq![LB] + dca_m1(h, t));
    assert(s[0] == LB && s[1] == QU);
    assert(s.skip(1) =~= dca_m1(h, t));
    assert(p_dca(s) == Some((h, 1 + (dca_m1(h, t).len() - t.len()))));
    assert(ser_header(h).len() == 1 + dca_m1(h, t).len() - t.len());
}

/// Round trip: decoding the framed bytes of any header record, with any
/// payload following them, gives the record back, and the payload offset
/// points just past the header text.
#[verifier::rlimit(100)]
#[verifier::spinoff_prover]
pub proof fn lemma_header_round_trip(h: DcaMetadataV, payload: Seq<u8>)
    requires
        ser_header(h).len() <= 0x7FFF_FFFF,
    ensures
        spec_decode_header(spec_header_bytes(h) + payload) == Some(
            (h, 8 + ser_header(h).len() as int),
        ),
{
    let j = ser_header(h);
    let b = spec_header_bytes(h) + payload;
    vstd::bytes::lemma_auto_spec_u32_to_from_le_bytes();
    let lb = vstd::bytes::spec_u32_to_le_bytes(j.len() as u32);
    assert(b =~= magic() + lb + j + payload);
    assert(b[0] == 68 && b[1] == 67 && b[2] == 65 && b[3] == 49);
    assert(b.subrange(4, 8) =~= lb);
    lemma_dca_inv(h, Seq::empty());
    assert(j + Seq::<u8>::empty() =~= j);
    assert(p_dca(j) == Some((h, j.len() as int)));
    let l = vstd::bytes::spec_u32_from_le_bytes(b.subrange(4, 8)) as int;
    assert(l == j.len());
    assert(b.subrange(8, 8 + l) =~= j);
}

} // verus!
