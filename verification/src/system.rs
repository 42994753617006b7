//! The bridge to the operating system's media controls.
//!
//! The host owns the controls; this module decides what is handed to them:
//! whether they have to be made first, which picture goes with the metadata,
//! which playback status is shown, and which signal a key press becomes.

use crate::codec::{base64_decoded, decode_standard};
use crate::text::{find, lemma_find, to_chars, to_string};
use vstd::prelude::*;

verus! {

/// What the operating system's media controls can ask of a player.
#[derive(Debug, Clone, Copy, PartialEq, Eq, Structural)]
pub enum MediaControlEvent {
    Play,
    Pause,
    Toggle,
    Next,
    Previous,
    Stop,
    Seek,
    SeekBy,
    SetPosition,
    SetVolume,
    OpenUri,
    Raise,
    Quit,
}

/// What the host's user interface hears of a key press.
#[derive(Debug, Clone, Copy, PartialEq, Eq, Structural)]
pub enum MediaSignal {
    Toggle,
    Next,
    Previous,
    Unknown,
}

/// The playback status that the media controls show.
#[derive(Debug, Clone, Copy, PartialEq, Eq, Structural)]
pub enum MediaPlayback {
    Paused { progress_ms: u64 },
    Playing { progress_ms: u64 },
}

/// What the host does to show a track's metadata.
#[derive(Debug, Clone, PartialEq, Eq)]
pub struct MetadataPush {
    /// The controls do not exist yet and have to be made before anything is shown.
    pub attach_first: bool,
    /// The cover picture, to be written over the cover file; `None` for no artwork.
    pub cover_image: Option<Vec<u8>>,
}

/// What the bridge knows of the media controls.
#[derive(Debug, Clone, Copy, PartialEq, Eq, Structural)]
pub struct PlayerControls {
    /// Whether the controls have been made.
    pub attached: bool,
}

/// The signal that a key press becomes: play, pause and toggle are one
/// signal, next and previous are passed on, everything else is unknown.
pub open spec fn signal_of(event: MediaControlEvent) -> MediaSignal {
    match event {
        MediaControlEvent::Toggle | MediaControlEvent::Play | MediaControlEvent::Pause =>
            MediaSignal::Toggle,
        MediaControlEvent::Next => MediaSignal::Next,
        MediaControlEvent::Previous => MediaSignal::Previous,
        _ => MediaSignal::Unknown,
    }
}

/// The word that the user interface receives for a signal.
pub open spec fn signal_text(signal: MediaSignal) -> Seq<char> {
    match signal {
        MediaSignal::Toggle => "Toggle"@,
        MediaSignal::Next => "Next"@,
        MediaSignal::Previous => "Previous"@,
        MediaSignal::Unknown => "Unknown"@,
    }
}

/// The base64 text in a cover: what follows its last comma, and all of it
/// where it has no comma. A data URI carries its payload there.
pub open spec fn payload(cover: Seq<char>) -> Seq<char>
    decreases cover.len(),
{
    let comma = find(cover, ',');
    if comma < cover.len() {
        payload(cover.skip(comma + 1 as int))
    } else {
        cover
    }
}

/// The picture that a cover holds, or `None` where there is no cover or its
/// payload is not base64.
pub open spec fn cover_image(cover: Option<Seq<char>>) -> Option<Seq<u8>> {
    match cover {
        Some(text) => base64_decoded(payload(text)),
        None => None,
    }
}

/// The status to show, or `None` while the controls do not exist.
pub open spec fn status_of(controls: PlayerControls, is_paused: bool, progress_ms: u64) -> Option<
    MediaPlayback,
> {
    if !controls.attached {
        None
    } else if is_paused {
        Some(MediaPlayback::Paused { progress_ms })
    } else {
        Some(MediaPlayback::Playing { progress_ms })
    }
}

/// The bytes of an optional picture.
pub open spec fn image_view(image: Option<Vec<u8>>) -> Option<Seq<u8>> {
    match image {
        Some(bytes) => Some(bytes@),
        None => None,
    }
}

/// What follows a comma that has no comma after it is the payload.
proof fn lemma_payload_is(cover: Seq<char>, start: int)
    requires
        0 <= start <= cover.len(),
        start > 0 ==> cover[start - 1] == ',',
        forall|j: int| start <= j < cover.len() ==> cover[j] != ',',
    ensures
        payload(cover) == cover.skip(start),
    decreases cover.len(),
{
    lemma_find(cover, ',');
    let comma = find(cover, ',') as int;
    if comma < cover.len() {
        assert(start > 0 && comma <= start - 1) by {
            if start == 0 || comma > start - 1 {
                assert(cover[comma] != ',');
            }
        }
        let rest = cover.skip(comma + 1);
        lemma_payload_is(rest, start - comma - 1);
        assert(rest.skip(start - comma - 1) =~= cover.skip(start));
    } else {
        if start > 0 {
            assert(cover.contains(cover[start - 1]));
        }
        assert(cover.skip(0) =~= cover);
    }
}

/// The controls have to be made exactly until they have been made: once
/// attached, no push asks for them again.
pub proof fn lemma_attach_once(controls: PlayerControls)
    ensures
        PlayerControls::fresh().attached == false,
        controls.after_attach().attached,
        controls.after_attach().after_attach() == controls.after_attach(),
{
}

impl PlayerControls {
    /// The bridge before the controls were made.
    pub open spec fn fresh() -> PlayerControls {
        PlayerControls { attached: false }
    }

    /// The bridge once the controls were made.
    pub open spec fn after_attach(self) -> PlayerControls {
        PlayerControls { attached: true }
    }

    /// A bridge whose controls are yet to be made.
    pub fn new() -> (controls: PlayerControls)
        ensures
            controls == PlayerControls::fresh(),
    {
        PlayerControls { attached: false }
    }

    /// Takes note that the host has made the controls.
    pub fn attach(&mut self)
        ensures
            *final(self) == old(self).after_attach(),
    {
        self.attached = true;
    }
}

/// The signal that a key press on the media controls becomes.
pub fn media_signal(event: MediaControlEvent) -> (signal: MediaSignal)
    ensures
        signal == signal_of(event),
{
    match event {
        MediaControlEvent::Toggle | MediaControlEvent::Play | MediaControlEvent::Pause =>
            MediaSignal::Toggle,
        MediaControlEvent::Next => MediaSignal::Next,
        MediaControlEvent::Previous => MediaSignal::Previous,
        _ => MediaSignal::Unknown,
    }
}

/// The word that the user interface receives for a signal.
pub fn signal_name(signal: MediaSignal) -> (name: &'static str)
    ensures
        name@ == signal_text(signal),
{
    match signal {
        MediaSignal::Toggle => "Toggle",
        MediaSignal::Next => "Next",
        MediaSignal::Previous => "Previous",
        MediaSignal::Unknown => "Unknown",
    }
}

/// The name of the file, in the directory for temporary files, that holds the
/// cover shown by the media controls. Each push writes over it.
pub fn cover_file_name() -> (name: &'static str)
    ensures
        name@ == "yt_music_cover.jpg"@,
{
    "yt_music_cover.jpg"
}

/// The base64 text in a cover: what follows its last comma, and all of it
/// where it has no comma.
pub fn cover_payload(cover: &str) -> (text: String)
    ensures
        text@ == payload(cover@),
{
    let chars = to_chars(cover);
    let n = chars.len();
    let mut start: usize = 0;
    let mut i: usize = 0;
    while i < n
        invariant
            start <= i <= n == chars.len(),
            start > 0 ==> chars[start - 1] == ',',
            forall|j: int| start <= j < i ==> chars[j] != ',',
        decreases n - i,
    {
        if chars[i] == ',' {
            start = i + 1;
        }
        i += 1;
    }
    proof {
        lemma_payload_is(chars@, start as int);
        assert(chars@.skip(start as int) =~= chars@.subrange(start as int, n as int));
    }
    to_string(&chars, start, n)
}

/// The picture in a cover that is base64 text or a data URI, or `None` where
/// the payload is not base64.
pub fn decode_cover(cover: &str) -> (image: Option<Vec<u8>>)
    ensures
        image_view(image) == cover_image(Some(cover@)),
{
    let text = cover_payload(cover);
    match decode_standard(text.as_str()) {
        Ok(bytes) => Some(bytes),
        Err(_) => None,
    }
}

/// Decides what a push of metadata needs.
///
/// The controls are made first where they do not exist yet. The cover, where
/// one is given and its payload is base64, is handed back as a picture; a
/// missing or malformed cover gives no artwork and never fails the push.
pub fn update_system_metadata(controls: &PlayerControls, cover: Option<String>) -> (push:
    MetadataPush)
    ensures
        push.attach_first == !controls.attached,
        image_view(push.cover_image) == cover_image(crate::metadata::text_view(cover)),
{
    let cover_image = match &cover {
        Some(text) => decode_cover(text.as_str()),
        None => None,
    };
    MetadataPush { attach_first: !controls.attached, cover_image }
}

/// Decides what a push of the playback status shows: paused or playing, at
/// the given position; nothing while the controls do not exist.
pub fn update_system_status(controls: &PlayerControls, is_paused: bool, progress_ms: u64) -> (shown:
    Option<MediaPlayback>)
    ensures
        shown == status_of(*controls, is_paused, progress_ms),
{
    if !controls.attached {
        None
    } else if is_paused {
        Some(MediaPlayback::Paused { progress_ms })
    } else {
        Some(MediaPlayback::Playing { progress_ms })
    }
}

} // verus!
