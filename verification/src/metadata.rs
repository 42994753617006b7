//! Track metadata and its cache.
//!
//! What a tag reader found in a file becomes the metadata that the player
//! shows: title, artist, album, and the cover picture as a data URI. The
//! cache keeps what was found, by path, for as long as the process lives; the
//! duration of a track is never cached and always comes from the caller.

use crate::codec::{base64_encoded, encodable_len, encode_standard};
use vstd::hash_map::StringHashMap;
use vstd::prelude::*;
use vstd::string::*;

verus! {

/// The picture formats that a tag can declare.
#[derive(Debug, Clone, Copy, PartialEq, Eq, Structural)]
pub enum MimeType {
    Png,
    Jpeg,
    Tiff,
    Bmp,
    Gif,
}

/// A picture embedded in a tag.
#[derive(Debug, Clone, PartialEq, Eq)]
pub struct Picture {
    pub data: Vec<u8>,
    pub mime_type: MimeType,
}

/// What a tag reader found in one file.
#[derive(Debug, Clone, PartialEq, Eq)]
pub struct TagFields {
    pub title: Option<String>,
    pub artist: Option<String>,
    /// The album's title.
    pub album: Option<String>,
    pub cover: Option<Picture>,
}

/// The metadata of a track without its duration: what the cache keeps.
#[derive(Debug, Clone, PartialEq, Eq)]
pub struct TrackTags {
    pub title: Option<String>,
    pub artist: Option<String>,
    pub album: Option<String>,
    /// The cover picture as a data URI.
    pub cover: Option<String>,
}

/// The metadata of a track.
#[derive(Debug, Clone, PartialEq, Eq)]
pub struct AudioMetadata {
    pub title: Option<String>,
    pub artist: Option<String>,
    pub album: Option<String>,
    /// The cover picture as a data URI.
    pub cover: Option<String>,
    /// The length of the track in milliseconds.
    pub total_duration_ms: u64,
}

/// What a `Picture` stands for.
pub struct PictureView {
    pub data: Seq<u8>,
    pub mime_type: MimeType,
}

/// What a `TagFields` stands for.
pub struct TagFieldsView {
    pub title: Option<Seq<char>>,
    pub artist: Option<Seq<char>>,
    pub album: Option<Seq<char>>,
    pub cover: Option<PictureView>,
}

/// What a `TrackTags` stands for.
pub struct TrackTagsView {
    pub title: Option<Seq<char>>,
    pub artist: Option<Seq<char>>,
    pub album: Option<Seq<char>>,
    pub cover: Option<Seq<char>>,
}

/// What an `AudioMetadata` stands for.
pub struct AudioMetadataView {
    pub tags: TrackTagsView,
    pub total_duration_ms: nat,
}

/// The text of an optional string.
pub open spec fn text_view(text: Option<String>) -> Option<Seq<char>> {
    match text {
        Some(s) => Some(s@),
        None => None,
    }
}

impl View for Picture {
    type V = PictureView;

    open spec fn view(&self) -> PictureView {
        PictureView { data: self.data@, mime_type: self.mime_type }
    }
}

impl View for TagFields {
    type V = TagFieldsView;

    open spec fn view(&self) -> TagFieldsView {
        TagFieldsView {
            title: text_view(self.title),
            artist: text_view(self.artist),
            album: text_view(self.album),
            cover: match self.cover {
                Some(picture) => Some(picture@),
                None => None,
            },
        }
    }
}

impl View for TrackTags {
    type V = TrackTagsView;

    open spec fn view(&self) -> TrackTagsView {
        TrackTagsView {
            title: text_view(self.title),
            artist: text_view(self.artist),
            album: text_view(self.album),
            cover: text_view(self.cover),
        }
    }
}

impl View for AudioMetadata {
    type V = AudioMetadataView;

    open spec fn view(&self) -> AudioMetadataView {
        AudioMetadataView {
            tags: TrackTagsView {
                title: text_view(self.title),
                artist: text_view(self.artist),
                album: text_view(self.album),
                cover: text_view(self.cover),
            },
            total_duration_ms: self.total_duration_ms as nat,
        }
    }
}

/// What a reader's result stands for; `None` where the file had no tag that could be read.
pub open spec fn read_view(read: Option<TagFields>) -> Option<TagFieldsView> {
    match read {
        Some(fields) => Some(fields@),
        None => None,
    }
}

/// Metadata with every field unset.
pub open spec fn no_tags() -> TrackTagsView {
    TrackTagsView { title: None, artist: None, album: None, cover: None }
}

/// The media type named in a cover's data URI: PNG pictures are `image/png`,
/// all others go as `image/jpeg`.
pub open spec fn media_type(mime_type: MimeType) -> Seq<char> {
    match mime_type {
        MimeType::Png => "image/png"@,
        _ => "image/jpeg"@,
    }
}

/// The data URI that carries `encoded`, the base64 text of a picture of the
/// given format.
pub open spec fn data_uri_of(mime_type: MimeType, encoded: Seq<char>) -> Seq<char> {
    "data:"@ + media_type(mime_type) + ";base64,"@ + encoded
}

/// The data URI of a picture.
pub open spec fn data_uri(picture: PictureView) -> Seq<char> {
    data_uri_of(picture.mime_type, base64_encoded(picture.data))
}

/// The cover of a track: the data URI of the tag's picture, where it has one
/// whose base64 text the machine can hold.
pub open spec fn cover_of(cover: Option<PictureView>) -> Option<Seq<char>> {
    match cover {
        Some(picture) => if encodable_len(picture.data.len()) {
            Some(data_uri(picture))
        } else {
            None
        },
        None => None,
    }
}

/// The metadata that a reader's result gives: the fields of the tag, and
/// nothing where no tag could be read.
pub open spec fn track_of(read: Option<TagFieldsView>) -> TrackTagsView {
    match read {
        Some(fields) => TrackTagsView {
            title: fields.title,
            artist: fields.artist,
            album: fields.album,
            cover: cover_of(fields.cover),
        },
        None => no_tags(),
    }
}

/// `tags` with a duration.
pub open spec fn with_duration(tags: TrackTagsView, total_duration_ms: nat) -> AudioMetadataView {
    AudioMetadataView { tags, total_duration_ms }
}

/// What resolving `path` gives on a cache that holds `cache`, where reading
/// the file would give `read`: the cache afterwards and the metadata. The file
/// is read only where the cache has no entry for the path.
pub open spec fn resolved(
    cache: Map<Seq<char>, TrackTagsView>,
    path: Seq<char>,
    read: Option<TagFieldsView>,
    total_duration_ms: nat,
) -> (Map<Seq<char>, TrackTagsView>, AudioMetadataView) {
    if cache.contains_key(path) {
        (cache, with_duration(cache[path], total_duration_ms))
    } else {
        (cache.insert(path, track_of(read)), with_duration(track_of(read), total_duration_ms))
    }
}

/// Resolving a path a second time gives what the first time gave and leaves
/// the cache as it was, whatever a second read of the file would give: the
/// file is not read again.
pub proof fn lemma_resolve_idempotent(
    cache: Map<Seq<char>, TrackTagsView>,
    path: Seq<char>,
    first_read: Option<TagFieldsView>,
    second_read: Option<TagFieldsView>,
    total_duration_ms: nat,
)
    ensures
        ({
            let first = resolved(cache, path, first_read, total_duration_ms);
            let second = resolved(first.0, path, second_read, total_duration_ms);
            second.0 == first.0 && second.1 == first.1 && first.0.contains_key(path)
        }),
{
}

/// Resolving a path never changes or drops what the cache held, and the
/// duration that comes back is the caller's.
pub proof fn lemma_resolve_keeps_entries(
    cache: Map<Seq<char>, TrackTagsView>,
    path: Seq<char>,
    read: Option<TagFieldsView>,
    total_duration_ms: nat,
)
    ensures
        ({
            let after = resolved(cache, path, read, total_duration_ms);
            &&& forall|p: Seq<char>| #[trigger]
                cache.contains_key(p) ==> after.0.contains_key(p) && after.0[p] == cache[p]
            &&& after.1.total_duration_ms == total_duration_ms
            &&& after.1.tags == after.0[path]
        }),
{
}

/// The texts of a sequence of paths.
pub open spec fn paths_view(paths: Seq<String>) -> Seq<Seq<char>> {
    paths.map_values(|path: String| path@)
}

/// What a sequence of metadata stands for.
pub open spec fn metadata_view(all: Seq<AudioMetadata>) -> Seq<AudioMetadataView> {
    all.map_values(|metadata: AudioMetadata| metadata@)
}

/// Whether resolving `paths` on a cache that holds `before` can leave the
/// cache holding `after` and give `all`: one entry for each path, the one that
/// the cache holds afterwards, with a duration of 0; what the cache held stays
/// as it was; and nothing is new in the cache but entries for the paths.
pub open spec fn is_resolution(
    before: Map<Seq<char>, TrackTagsView>,
    paths: Seq<Seq<char>>,
    after: Map<Seq<char>, TrackTagsView>,
    all: Seq<AudioMetadataView>,
) -> bool {
    &&& all.len() == paths.len()
    &&& forall|i: int|
        0 <= i < paths.len() ==> after.contains_key(#[trigger] paths[i]) && all[i]
            == with_duration(after[paths[i]], 0)
    &&& forall|p: Seq<char>| #[trigger]
        before.contains_key(p) ==> after.contains_key(p) && after[p] == before[p]
    &&& forall|p: Seq<char>| #[trigger]
        after.contains_key(p) && !before.contains_key(p) ==> paths.contains(p)
}

/// Resolving the same paths a second time gives what the first time gave
/// and leaves the cache as it was: every path has its entry by then, so that
/// no file is read again.
pub proof fn lemma_fetch_idempotent(
    cache: Map<Seq<char>, TrackTagsView>,
    paths: Seq<Seq<char>>,
    first_cache: Map<Seq<char>, TrackTagsView>,
    first: Seq<AudioMetadataView>,
    second_cache: Map<Seq<char>, TrackTagsView>,
    second: Seq<AudioMetadataView>,
)
    requires
        is_resolution(cache, paths, first_cache, first),
        is_resolution(first_cache, paths, second_cache, second),
    ensures
        second_cache == first_cache,
        second == first,
{
    assert forall|p: Seq<char>| second_cache.contains_key(p) implies first_cache.contains_key(
        p,
    ) by {
        if !first_cache.contains_key(p) {
            let i = choose|i: int| 0 <= i < paths.len() && paths[i] == p;
            assert(first_cache.contains_key(paths[i]));
        }
    }
    assert(second_cache =~= first_cache);
    assert forall|i: int| 0 <= i < first.len() implies second[i] == first[i] by {
        assert(first_cache.contains_key(paths[i]));
    }
    assert(second =~= first);
}

/// A copy of an optional string.
fn copy_text(text: &Option<String>) -> (copy: Option<String>)
    ensures
        text_view(copy) == text_view(*text),
{
    match text {
        Some(s) => Some(s.clone()),
        None => None,
    }
}

/// The name of a picture's media type as a data URI carries it.
pub fn media_type_name(mime_type: MimeType) -> (name: &'static str)
    ensures
        name@ == media_type(mime_type),
{
    match mime_type {
        MimeType::Png => "image/png",
        _ => "image/jpeg",
    }
}

/// The data URI that carries `encoded`, the base64 text of a picture of the
/// given format.
pub fn data_uri_for(mime_type: MimeType, encoded: &str) -> (uri: String)
    ensures
        uri@ == data_uri_of(mime_type, encoded@),
{
    let mut uri = "data:".to_owned();
    uri.append(media_type_name(mime_type));
    uri.append(";base64,");
    uri.append(encoded);
    uri
}

/// The data URI of a picture, or `None` where the picture is too large for
/// its base64 text to be held.
pub fn cover_data_uri(picture: &Picture) -> (uri: Option<String>)
    ensures
        text_view(uri) == cover_of(Some(picture@)),
        uri is Some <==> encodable_len(picture@.data.len()),
{
    if picture.data.len() / 3 < usize::MAX / 4 {
        let encoded = encode_standard(&picture.data);
        Some(data_uri_for(picture.mime_type, encoded.as_str()))
    } else {
        None
    }
}

/// The metadata that a reader's result gives. A file without a readable tag
/// gives metadata with every field unset.
pub fn track_tags(read: Option<TagFields>) -> (tags: TrackTags)
    ensures
        tags@ == track_of(read_view(read)),
        read is None ==> tags@ == no_tags(),
{
    match read {
        Some(fields) => {
            let cover = match &fields.cover {
                Some(picture) => cover_data_uri(picture),
                None => None,
            };
            TrackTags { title: fields.title, artist: fields.artist, album: fields.album, cover }
        },
        None => TrackTags { title: None, artist: None, album: None, cover: None },
    }
}

/// Resolved metadata by path. An entry, once made, is never changed or dropped.
pub struct MetadataCache {
    entries: StringHashMap<TrackTags>,
}

impl View for MetadataCache {
    type V = Map<Seq<char>, TrackTagsView>;

    closed spec fn view(&self) -> Map<Seq<char>, TrackTagsView> {
        self.entries@.map_values(|tags: TrackTags| tags@)
    }
}

impl MetadataCache {
    /// An empty cache.
    pub fn new() -> (cache: MetadataCache)
        ensures
            cache@ == Map::<Seq<char>, TrackTagsView>::empty(),
    {
        let cache = MetadataCache { entries: StringHashMap::new() };
        assert(cache@ =~= Map::<Seq<char>, TrackTagsView>::empty());
        cache
    }

    /// The metadata that the cache holds for `path`, with the caller's duration.
    pub fn lookup(&self, path: &str, total_duration_ms: u64) -> (found: Option<AudioMetadata>)
        ensures
            found is Some <==> self@.contains_key(path@),
            found matches Some(metadata) ==> metadata@ == with_duration(
                self@[path@],
                total_duration_ms as nat,
            ),
    {
        match self.entries.get(path) {
            Some(tags) => Some(
                AudioMetadata {
                    title: copy_text(&tags.title),
                    artist: copy_text(&tags.artist),
                    album: copy_text(&tags.album),
                    cover: copy_text(&tags.cover),
                    total_duration_ms,
                },
            ),
            None => None,
        }
    }

    /// Keeps `tags` as the entry of `path`, unless the path has an entry
    /// already, and returns the entry that the cache then holds, with the
    /// caller's duration.
    pub fn store(&mut self, path: &str, tags: TrackTags, total_duration_ms: u64) -> (metadata:
        AudioMetadata)
        ensures
            final(self)@ == if old(self)@.contains_key(path@) {
                old(self)@
            } else {
                old(self)@.insert(path@, tags@)
            },
            metadata@ == with_duration(final(self)@[path@], total_duration_ms as nat),
    {
        match self.lookup(path, total_duration_ms) {
            Some(metadata) => metadata,
            None => {
                let metadata = AudioMetadata {
                    title: copy_text(&tags.title),
                    artist: copy_text(&tags.artist),
                    album: copy_text(&tags.album),
                    cover: copy_text(&tags.cover),
                    total_duration_ms,
                };
                self.entries.insert(path.to_owned(), tags);
                assert(self@ =~= old(self)@.insert(path@, tags@));
                metadata
            },
        }
    }
}

/// Resolves the metadata of the file at `path`.
///
/// Where the cache has an entry for the path, that entry comes back with the
/// caller's duration, the cache stays as it is, and `read` is not called.
/// Otherwise `read` is called on the path, once; what it found becomes the
/// entry of the path and comes back with the caller's duration. A file without
/// a readable tag (`read` returns `None`) gives metadata with every field
/// unset, and never an error.
pub fn get_metadata<F: FnOnce(&String) -> Option<TagFields>>(
    cache: &mut MetadataCache,
    path: &String,
    total_duration_ms: u64,
    read: F,
) -> (metadata: AudioMetadata)
    requires
        call_requires(read, (path,)),
    ensures
        old(cache)@.contains_key(path@) ==> (final(cache)@, metadata@) == resolved(
            old(cache)@,
            path@,
            None,
            total_duration_ms as nat,
        ),
        !old(cache)@.contains_key(path@) ==> exists|found: Option<TagFields>|
            call_ensures(read, (path,), found) && (final(cache)@, metadata@) == resolved(
                old(cache)@,
                path@,
                read_view(found),
                total_duration_ms as nat,
            ),
{
    match cache.lookup(path.as_str(), total_duration_ms) {
        Some(metadata) => metadata,
        None => {
            let found = read(path);
            let ghost seen = read_view(found);
            let tags = track_tags(found);
            let metadata = cache.store(path.as_str(), tags, total_duration_ms);
            assert(call_ensures(read, (path,), found) && (cache@, metadata@) == resolved(
                old(cache)@,
                path@,
                read_view(found),
                total_duration_ms as nat,
            ));
            metadata
        },
    }
}

/// Resolves the metadata of each of `paths`, in order, each as `get_metadata`
/// does with a duration of 0.
///
/// One entry comes back for each path, and it is the entry that the cache
/// holds for that path afterwards. What the cache held before stays as it
/// was; each entry that is new holds what `read` found for one of the paths,
/// and `read` is called for no path that has an entry.
pub fn fetch_metadata<F: Fn(&String) -> Option<TagFields>>(
    cache: &mut MetadataCache,
    paths: Vec<String>,
    read: F,
) -> (all: Vec<AudioMetadata>)
    requires
        forall|i: int| 0 <= i < paths.len() ==> call_requires(read, (&#[trigger] paths[i],)),
    ensures
        is_resolution(old(cache)@, paths_view(paths@), final(cache)@, metadata_view(all@)),
        forall|p: Seq<char>| #[trigger]
            final(cache)@.contains_key(p) && !old(cache)@.contains_key(p) ==> exists|
                i: int,
                found: Option<TagFields>,
            |
                0 <= i < paths.len() && paths[i]@ == p && call_ensures(read, (&paths[i],), found)
                    && final(cache)@[p] == track_of(read_view(found)),
{
    let mut all: Vec<AudioMetadata> = Vec::new();
    let mut done: usize = 0;
    while done < paths.len()
        invariant
            done <= paths.len(),
            all.len() == done,
            forall|i: int| 0 <= i < paths.len() ==> call_requires(read, (&#[trigger] paths[i],)),
            forall|i: int|
                0 <= i < done ==> cache@.contains_key(paths[i]@) && (#[trigger] all[i])@
                    == with_duration(cache@[paths[i]@], 0),
            forall|p: Seq<char>| #[trigger]
                old(cache)@.contains_key(p) ==> cache@.contains_key(p) && cache@[p] == old(
                    cache,
                )@[p],
            forall|p: Seq<char>| #[trigger]
                cache@.contains_key(p) && !old(cache)@.contains_key(p) ==> exists|
                    i: int,
                    found: Option<TagFields>,
                |
                    0 <= i < paths.len() && paths[i]@ == p && call_ensures(
                        read,
                        (&paths[i],),
                        found,
                    ) && cache@[p] == track_of(read_view(found)),
        decreases paths.len() - done,
    {
        let ghost before = cache@;
        let path = &paths[done];
        let metadata = match cache.lookup(path.as_str(), 0) {
            Some(metadata) => metadata,
            None => {
                let found = read(path);
                let ghost seen = found;
                let metadata = cache.store(path.as_str(), track_tags(found), 0);
                proof {
                    let at = done as int;
                    assert(0 <= at < paths.len() && paths[at]@ == path@ && call_ensures(
                        read,
                        (&paths[at],),
                        seen,
                    ) && cache@[path@] == track_of(read_view(seen)));
                }
                metadata
            },
        };
        all.push(metadata);
        done += 1;
    }
    proof {
        let texts = paths_view(paths@);
        assert forall|p: Seq<char>| #[trigger]
            cache@.contains_key(p) && !old(cache)@.contains_key(p) implies texts.contains(p) by {
            let i = choose|i: int|
                0 <= i < paths.len() && paths[i]@ == p && exists|found: Option<TagFields>|
                    call_ensures(read, (&paths[i],), found) && cache@[p] == track_of(
                        read_view(found),
                    );
            assert(texts[i] == p);
        }
        assert forall|i: int| 0 <= i < texts.len() implies cache@.contains_key(#[trigger] texts[i])
            && metadata_view(all@)[i] == with_duration(cache@[texts[i]], 0) by {
            assert(texts[i] == paths[i]@);
            assert(metadata_view(all@)[i] == all[i]@);
        }
    }
    all
}

} // verus!
