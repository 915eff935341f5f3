use audiocache::codec::{decode_header, CacheError};
use audiocache::meta::{DcaMetadata, Encoder, Extra, Info, Origin, TrackMeta};

fn sample_meta() -> TrackMeta {
    TrackMeta {
        title: Some("A Song".to_owned()),
        artist: Some("Some Artist".to_owned()),
        date: Some("20200101".to_owned()),
        duration: Some(300_000),
        sample_rate: Some(48_000),
        channels: 2,
        source_url: Some("https://host/query?a=1".to_owned()),
        thumbnail: None,
    }
}

#[test]
fn header_round_trips() {
    let h = DcaMetadata::from_meta(sample_meta());
    let mut bytes = h.header().unwrap();
    bytes.extend_from_slice(&[7u8, 8, 9]);
    let (back, off) = decode_header(&bytes).unwrap();
    assert_eq!(off, bytes.len() - 3);
    assert_eq!(back.version, 1);
    assert_eq!(back.opus.mode, "music");
    assert_eq!(back.opus.sample_rate, 48_000);
    assert_eq!(back.opus.frame_size, 960);
    assert_eq!(back.opus.abr, 128_000);
    assert_eq!(back.opus.channels, 2);
    assert_eq!(back.info.as_ref().unwrap().title.as_deref(), Some("A Song"));
    assert_eq!(back.info.as_ref().unwrap().artist.as_deref(), Some("Some Artist"));
    let origin = back.origin.as_ref().unwrap();
    assert_eq!(origin.source.as_deref(), Some("file"));
    assert_eq!(origin.url.as_deref(), Some("https://host/query?a=1"));
    assert_eq!(back.extra.date.as_deref(), Some("20200101"));
    assert_eq!(back.extra.duration, Some(300_000));
    assert_eq!(back.extra.thumbnail, None);
}

#[test]
fn header_round_trips_without_optional_fields() {
    let h = DcaMetadata::from_meta(TrackMeta {
        title: None,
        artist: None,
        date: None,
        duration: None,
        sample_rate: None,
        channels: 1,
        source_url: None,
        thumbnail: None,
    });
    let bytes = h.header().unwrap();
    let (back, off) = decode_header(&bytes).unwrap();
    assert_eq!(off, bytes.len());
    assert!(back.info.is_none());
    assert_eq!(back.opus.channels, 1);
    assert_eq!(back.opus.sample_rate, 48_000);
    assert_eq!(back.extra.date, None);
    assert_eq!(back.extra.duration, None);
}

#[test]
fn header_round_trips_awkward_text() {
    let h = DcaMetadata::from_meta(TrackMeta {
        title: Some("he said \"hi\\bye\"\n\u{1F600} caf\u{e9}".to_owned()),
        artist: Some("tab\there".to_owned()),
        date: None,
        duration: Some(1),
        sample_rate: Some(44_100),
        channels: 2,
        source_url: Some("https://h/p?q=%20x".to_owned()),
        thumbnail: Some("https://t/i.png".to_owned()),
    });
    let bytes = h.header().unwrap();
    let (back, _) = decode_header(&bytes).unwrap();
    assert_eq!(
        back.info.unwrap().title.as_deref(),
        Some("he said \"hi\\bye\"\n\u{1F600} caf\u{e9}")
    );
    assert_eq!(back.extra.thumbnail.as_deref(), Some("https://t/i.png"));
}

#[test]
fn header_text_is_real_json() {
    let h = DcaMetadata::from_meta(sample_meta());
    let bytes = h.header().unwrap();
    assert_eq!(&bytes[0..4], b"DCA1");
    let len = i32::from_le_bytes([bytes[4], bytes[5], bytes[6], bytes[7]]);
    assert_eq!(len as usize, bytes.len() - 8);
    let v: serde_json::Value = serde_json::from_slice(&bytes[8..]).unwrap();
    assert_eq!(v["version"], 1);
    assert_eq!(v["opus"]["channels"], 2);
    assert_eq!(v["opus"]["sample_rate"], 48_000);
    assert_eq!(v["info"]["title"], "A Song");
    assert_eq!(v["origin"]["url"], "https://host/query?a=1");
    assert_eq!(v["extra"]["duration"], 300_000);
    assert!(v["extra"]["thumbnail"].is_null());
}

#[test]
fn exact_bytes_of_a_small_header() {
    let h = DcaMetadata {
        version: 1,
        opus: Encoder {
            mode: "music".to_owned(),
            sample_rate: 48_000,
            frame_size: 960,
            abr: 128_000,
            channels: 2,
        },
        info: None,
        origin: None,
        extra: Extra { date: None, duration: Some(5), thumbnail: None },
    };
    let bytes = h.header().unwrap();
    let json = "{\"version\":1,\"opus\":{\"mode\":\"music\",\"sample_rate\":48000,\"frame_size\":960,\"abr\":128000,\"channels\":2},\"info\":null,\"origin\":null,\"extra\":{\"date\":null,\"duration\":5,\"thumbnail\":null}}";
    let mut expect = b"DCA1".to_vec();
    expect.extend_from_slice(&(json.len() as i32).to_le_bytes());
    expect.extend_from_slice(json.as_bytes());
    assert_eq!(bytes, expect);
}

#[test]
fn bad_magic_is_invalid_container() {
    let h = DcaMetadata::from_meta(sample_meta());
    let mut bytes = h.header().unwrap();
    bytes[0] = b'X';
    assert!(matches!(decode_header(&bytes), Err(CacheError::InvalidContainer)));
    assert!(matches!(decode_header(b"not a container"), Err(CacheError::InvalidContainer)));
    assert!(matches!(decode_header(b"DC"), Err(CacheError::InvalidContainer)));
}

#[test]
fn truncated_header_is_invalid_container() {
    let h = DcaMetadata::from_meta(sample_meta());
    let bytes = h.header().unwrap();
    // keep the declared length but drop header bytes
    let cut = &bytes[0..bytes.len() - 10];
    assert!(matches!(decode_header(cut), Err(CacheError::InvalidContainer)));
    // a declared length below the minimum viable header
    let mut tiny = b"DCA1".to_vec();
    tiny.extend_from_slice(&1i32.to_le_bytes());
    tiny.push(b'{');
    assert!(matches!(decode_header(&tiny), Err(CacheError::InvalidContainer)));
    // a negative declared length
    let mut neg = b"DCA1".to_vec();
    neg.extend_from_slice(&(-5i32).to_le_bytes());
    neg.extend_from_slice(b"{}");
    assert!(matches!(decode_header(&neg), Err(CacheError::InvalidContainer)));
}

#[test]
fn unknown_and_absent_fields_are_tolerated() {
    let json = "{\"opus\":{\"channels\":2,\"fancy_new_knob\":[1,2,{\"x\":true}]},\"later_block\":null}";
    let mut bytes = b"DCA1".to_vec();
    bytes.extend_from_slice(&(json.len() as i32).to_le_bytes());
    bytes.extend_from_slice(json.as_bytes());
    let (h, off) = decode_header(&bytes).unwrap();
    assert_eq!(off, bytes.len());
    assert_eq!(h.opus.channels, 2);
    assert_eq!(h.opus.sample_rate, 0);
    assert_eq!(h.version, 0);
    assert!(h.info.is_none());
    assert_eq!(h.extra.duration, None);
}

#[test]
fn header_fields_out_of_range_are_invalid() {
    let json = "{\"opus\":{\"channels\":300}}";
    let mut bytes = b"DCA1".to_vec();
    bytes.extend_from_slice(&(json.len() as i32).to_le_bytes());
    bytes.extend_from_slice(json.as_bytes());
    assert!(matches!(decode_header(&bytes), Err(CacheError::InvalidContainer)));
}

#[test]
fn metadata_merge_reconstructs_the_record() {
    let h = DcaMetadata {
        version: 1,
        opus: Encoder {
            mode: "music".to_owned(),
            sample_rate: 44_100,
            frame_size: 960,
            abr: 128_000,
            channels: 2,
        },
        info: Some(Info { title: Some("T".to_owned()), artist: None }),
        origin: Some(Origin { source: Some("file".to_owned()), url: Some("u://x?q".to_owned()) }),
        extra: Extra {
            date: Some("20210505".to_owned()),
            duration: Some(77),
            thumbnail: Some("th".to_owned()),
        },
    };
    let x = audiocache::meta::extra_meta(&h);
    assert_eq!(x.date.as_deref(), Some("20210505"));
    assert_eq!(x.duration, Some(77));
    assert_eq!(x.thumbnail.as_deref(), Some("th"));
    assert_eq!(x.title, None);
    let m = h.to_meta();
    assert_eq!(m.title.as_deref(), Some("T"));
    assert_eq!(m.artist, None);
    assert_eq!(m.sample_rate, Some(44_100));
    assert_eq!(m.channels, 2);
    assert_eq!(m.source_url.as_deref(), Some("u://x?q"));
    assert_eq!(m.duration, Some(77));
}
