use std::cell::Cell;
use youngl_music::metadata::{
    cover_data_uri, data_uri_for, fetch_metadata, get_metadata, media_type_name, track_tags, AudioMetadata,
    MetadataCache, MimeType, Picture, TagFields, TrackTags,
};

fn tagged(title: &str) -> TagFields {
    TagFields {
        title: Some(title.to_string()),
        artist: Some("An Artist".to_string()),
        album: Some("An Album".to_string()),
        cover: None,
    }
}

fn untagged_metadata(total_duration_ms: u64) -> AudioMetadata {
    AudioMetadata { title: None, artist: None, album: None, cover: None, total_duration_ms }
}

#[test]
fn png_covers_are_png_data_uris() {
    let picture = Picture { data: b"hello".to_vec(), mime_type: MimeType::Png };
    assert_eq!(cover_data_uri(&picture), Some("data:image/png;base64,aGVsbG8=".to_string()));
}

#[test]
fn other_covers_are_jpeg_data_uris() {
    for mime_type in [MimeType::Jpeg, MimeType::Tiff, MimeType::Bmp, MimeType::Gif] {
        let picture = Picture { data: vec![0xff, 0xd8, 0xff], mime_type };
        assert_eq!(cover_data_uri(&picture), Some("data:image/jpeg;base64,/9j/".to_string()));
    }
}

#[test]
fn an_empty_cover_has_an_empty_payload() {
    let picture = Picture { data: Vec::new(), mime_type: MimeType::Png };
    assert_eq!(cover_data_uri(&picture), Some("data:image/png;base64,".to_string()));
}

#[test]
fn media_types_are_named() {
    assert_eq!(media_type_name(MimeType::Png), "image/png");
    assert_eq!(media_type_name(MimeType::Jpeg), "image/jpeg");
    assert_eq!(media_type_name(MimeType::Gif), "image/jpeg");
}

#[test]
fn tag_fields_become_track_tags() {
    let mut fields = tagged("A Title");
    fields.cover = Some(Picture { data: vec![1, 2, 3, 4], mime_type: MimeType::Jpeg });
    let tags = track_tags(Some(fields));
    assert_eq!(
        tags,
        TrackTags {
            title: Some("A Title".to_string()),
            artist: Some("An Artist".to_string()),
            album: Some("An Album".to_string()),
            cover: Some("data:image/jpeg;base64,AQIDBA==".to_string()),
        }
    );
}

#[test]
fn a_file_without_tags_has_every_field_unset() {
    assert_eq!(track_tags(None), TrackTags { title: None, artist: None, album: None, cover: None });
    let mut cache = MetadataCache::new();
    let metadata = get_metadata(&mut cache, &"silent.mp3".to_string(), 42, |_| None);
    assert_eq!(metadata, untagged_metadata(42));
}

#[test]
fn partly_tagged_files_keep_what_they_have() {
    let fields = TagFields { title: Some("Only".to_string()), artist: None, album: None, cover: None };
    let mut cache = MetadataCache::new();
    let metadata = get_metadata(&mut cache, &"a.flac".to_string(), 1, |_| Some(fields.clone()));
    assert_eq!(
        metadata,
        AudioMetadata { title: Some("Only".to_string()), artist: None, album: None, cover: None, total_duration_ms: 1 }
    );
}

#[test]
fn resolving_twice_reads_once_and_gives_the_same() {
    let reads = Cell::new(0);
    let read = |path: &String| {
        reads.set(reads.get() + 1);
        Some(tagged(path))
    };
    let mut cache = MetadataCache::new();
    let path = "song.mp3".to_string();
    let first = get_metadata(&mut cache, &path, 180_000, &read);
    let second = get_metadata(&mut cache, &path, 180_000, &read);
    assert_eq!(reads.get(), 1);
    assert_eq!(first, second);
    assert_eq!(first.title, Some("song.mp3".to_string()));
}

#[test]
fn a_cached_entry_is_not_replaced_by_a_later_read() {
    let mut cache = MetadataCache::new();
    let path = "song.mp3".to_string();
    let first = get_metadata(&mut cache, &path, 5, |_| Some(tagged("before the edit")));
    let second = get_metadata(&mut cache, &path, 5, |_| Some(tagged("after the edit")));
    assert_eq!(first, second);
    assert_eq!(second.title, Some("before the edit".to_string()));
}

#[test]
fn the_duration_is_the_callers_and_never_the_caches() {
    let mut cache = MetadataCache::new();
    let path = "song.mp3".to_string();
    let first = get_metadata(&mut cache, &path, 1000, |_| Some(tagged("t")));
    let second = get_metadata(&mut cache, &path, 2500, |_| None);
    assert_eq!(first.total_duration_ms, 1000);
    assert_eq!(second.total_duration_ms, 2500);
    assert_eq!(second.title, first.title);
    assert_eq!(cache.lookup("song.mp3", 7).map(|m| m.total_duration_ms), Some(7));
}

#[test]
fn lookup_misses_what_was_never_stored() {
    let mut cache = MetadataCache::new();
    assert_eq!(cache.lookup("a.mp3", 0), None);
    let stored = cache.store("a.mp3", track_tags(Some(tagged("a"))), 9);
    assert_eq!(stored.title, Some("a".to_string()));
    assert_eq!(stored.total_duration_ms, 9);
    assert_eq!(cache.lookup("a.mp3", 9), Some(stored));
    assert_eq!(cache.lookup("A.mp3", 0), None);
}

#[test]
fn store_keeps_the_entry_that_is_there() {
    let mut cache = MetadataCache::new();
    cache.store("a.mp3", track_tags(Some(tagged("first"))), 0);
    let kept = cache.store("a.mp3", track_tags(Some(tagged("second"))), 3);
    assert_eq!(kept.title, Some("first".to_string()));
    assert_eq!(kept.total_duration_ms, 3);
}

#[test]
fn paths_resolve_independently_with_a_duration_of_zero() {
    let reads = Cell::new(0);
    let read = |path: &String| {
        reads.set(reads.get() + 1);
        if path == "bare.ogg" { None } else { Some(tagged(path)) }
    };
    let mut cache = MetadataCache::new();
    let paths = vec!["a.mp3".to_string(), "bare.ogg".to_string(), "a.mp3".to_string(), "b.flac".to_string()];
    let all = fetch_metadata(&mut cache, paths, &read);
    assert_eq!(all.len(), 4);
    assert_eq!(all[0].title, Some("a.mp3".to_string()));
    assert_eq!(all[1], untagged_metadata(0));
    assert_eq!(all[2], all[0]);
    assert_eq!(all[3].title, Some("b.flac".to_string()));
    assert!(all.iter().all(|m| m.total_duration_ms == 0));
    assert_eq!(reads.get(), 3);
    let again = fetch_metadata(&mut cache, vec!["b.flac".to_string(), "a.mp3".to_string()], &read);
    assert_eq!(reads.get(), 3);
    assert_eq!(again[0], all[3]);
    assert_eq!(again[1], all[0]);
}

#[test]
fn no_paths_give_no_metadata() {
    let mut cache = MetadataCache::new();
    let all = fetch_metadata(&mut cache, Vec::new(), |_: &String| None);
    assert!(all.is_empty());
}

#[test]
fn a_data_uri_names_the_media_type_and_carries_the_text() {
    assert_eq!(data_uri_for(MimeType::Png, "QUJD"), "data:image/png;base64,QUJD");
    assert_eq!(data_uri_for(MimeType::Bmp, ""), "data:image/jpeg;base64,");
}
