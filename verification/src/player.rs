//! The playback engine: one track at a time, playing or paused.
//!
//! The engine holds what the player knows of the track and decides what the
//! output device is to do. The host owns the device: on each command it reads
//! the device's status, asks the engine, and carries out what the engine
//! returns. Times are whole milliseconds.

use vstd::prelude::*;

verus! {

/// Where playback stands.
#[derive(Debug, Clone, Copy, PartialEq, Eq, Structural)]
pub enum PlaybackState {
    /// No track is loaded.
    Idle,
    Playing,
    Paused,
}

/// What the output device reports of itself at one moment.
#[derive(Debug, Clone, Copy, PartialEq, Eq, Structural)]
pub struct SinkStatus {
    /// Nothing is left to play.
    pub empty: bool,
    pub paused: bool,
    /// How far into its source the device is.
    pub position_ms: u64,
}

/// What the engine asks of the output device.
#[derive(Debug, Clone, Copy, PartialEq, Eq, Structural)]
pub enum SinkCommand {
    /// End what is playing.
    Stop,
    /// Drop what is queued.
    Clear,
    /// Queue the source that was just decoded.
    Append,
    Play,
    Pause,
}

/// Why a track could not be loaded.
#[derive(Debug, Clone, Copy, PartialEq, Eq, Structural)]
pub enum LoadError {
    /// The file could not be opened.
    Open,
    /// The file holds nothing that can be decoded.
    Decode,
}

/// Why a playback command was turned down.
#[derive(Debug, Clone, Copy, PartialEq, Eq, Structural)]
pub enum PlaybackError {
    /// No track is loaded.
    NotLoaded,
    /// The device could not move to the position asked for.
    Seek,
}

/// What the host does to start a track that the engine has taken.
#[derive(Debug, Clone, PartialEq, Eq)]
pub struct LoadPlan {
    /// The commands for the device, in order, under one lock.
    pub commands: Vec<SinkCommand>,
    /// The token of this load, for its completion watcher.
    pub generation: u64,
    pub total_duration_ms: u64,
}

/// What the host does to carry out a toggle.
#[derive(Debug, Clone, Copy, PartialEq, Eq, Structural)]
pub struct Toggled {
    pub command: SinkCommand,
    /// Whether playback is paused once the command is carried out.
    pub is_paused: bool,
}

/// How far playback is, and how long the track.
#[derive(Debug, Clone, Copy, PartialEq, Eq, Structural)]
pub struct AudioProgress {
    pub position_ms: u64,
    pub duration_ms: u64,
}

/// The loudness that a new engine starts with, in percent.
pub const DEFAULT_VOLUME: u8 = 80;

/// The engine's state.
pub struct AudioState {
    state: PlaybackState,
    total_duration_ms: u64,
    position_ms: u64,
    generation: u64,
    volume: u8,
}

/// What an `AudioState` stands for.
pub struct Player {
    pub state: PlaybackState,
    pub total_duration_ms: nat,
    pub position_ms: nat,
    /// Counts the loads, and starts again at 0 after the largest 64-bit number.
    pub generation: nat,
    /// Loudness in percent.
    pub volume: nat,
}

impl View for AudioState {
    type V = Player;

    closed spec fn view(&self) -> Player {
        Player {
            state: self.state,
            total_duration_ms: self.total_duration_ms as nat,
            position_ms: self.position_ms as nat,
            generation: self.generation as nat,
            volume: self.volume as nat,
        }
    }
}

/// The smaller of two numbers.
pub open spec fn at_most(n: nat, limit: nat) -> nat {
    if n <= limit {
        n
    } else {
        limit
    }
}

impl Player {
    /// What holds of every engine: the position is within the track, the
    /// loudness within 100, and an idle engine has neither position nor duration.
    pub open spec fn is_valid(self) -> bool {
        &&& self.position_ms <= self.total_duration_ms <= u64::MAX
        &&& self.generation <= u64::MAX
        &&& self.volume <= 100
        &&& self.state is Idle ==> self.total_duration_ms == 0
    }

    /// Whether a track is loaded.
    pub open spec fn is_loaded(self) -> bool {
        !(self.state is Idle)
    }

    /// A new engine.
    pub open spec fn idle() -> Player {
        Player {
            state: PlaybackState::Idle,
            total_duration_ms: 0,
            position_ms: 0,
            generation: 0,
            volume: DEFAULT_VOLUME as nat,
        }
    }

    /// The token of the load after the one with token `generation`.
    pub open spec fn next_generation(generation: nat) -> nat {
        if generation >= u64::MAX {
            0
        } else {
            generation + 1
        }
    }

    /// The engine after it has taken a track of the given duration: playing
    /// from the start, under a new token.
    pub open spec fn loaded(self, total_duration_ms: nat) -> Player {
        Player {
            state: PlaybackState::Playing,
            total_duration_ms,
            position_ms: 0,
            generation: Self::next_generation(self.generation),
            ..self
        }
    }

    /// The engine after the track was let go.
    pub open spec fn stopped(self) -> Player {
        Player { state: PlaybackState::Idle, total_duration_ms: 0, position_ms: 0, ..self }
    }

    /// The engine after it has learnt how far the device is. The position of
    /// a paused or idle engine stays where it is.
    pub open spec fn progressed(self, device: SinkStatus) -> Player {
        if self.state is Playing {
            Player {
                position_ms: at_most(device.position_ms as nat, self.total_duration_ms),
                ..self
            }
        } else {
            self
        }
    }

    /// The engine after a toggle, decided by what the device reports: a paused
    /// device is to play, a playing one to pause at the position that it
    /// reports, held within the track. An idle engine stays as it is.
    pub open spec fn toggled(self, device: SinkStatus) -> Player {
        if !self.is_loaded() {
            self
        } else if device.paused {
            Player { state: PlaybackState::Playing, ..self }
        } else {
            Player {
                state: PlaybackState::Paused,
                position_ms: at_most(device.position_ms as nat, self.total_duration_ms),
                ..self
            }
        }
    }

    /// Where a seek to `time_ms` lands: at the end of the track where it aims beyond.
    pub open spec fn seek_target(self, time_ms: nat) -> nat {
        at_most(time_ms, self.total_duration_ms)
    }

    /// The engine after the device has moved to `time_ms`.
    pub open spec fn sought(self, time_ms: nat) -> Player {
        if self.is_loaded() {
            Player { position_ms: self.seek_target(time_ms), ..self }
        } else {
            self
        }
    }

    /// What the engine reports of its progress.
    pub open spec fn progress(self) -> AudioProgress {
        AudioProgress {
            position_ms: self.position_ms as u64,
            duration_ms: self.total_duration_ms as u64,
        }
    }
}

/// The loudness in percent that a level on the host's scale of 0 to 100
/// stands for: levels outside the scale count as its nearest end.
pub open spec fn volume_percent(level: int) -> nat {
    if level < 0 {
        0
    } else if level > 100 {
        100
    } else {
        level as nat
    }
}

/// The commands that put a new source in place of what the device holds.
pub open spec fn load_commands() -> Seq<SinkCommand> {
    seq![SinkCommand::Stop, SinkCommand::Clear, SinkCommand::Append, SinkCommand::Play]
}

impl AudioState {
    #[verifier::type_invariant]
    spec fn well_formed(self) -> bool {
        self@.is_valid()
    }

    /// Where playback stands.
    pub fn playback_state(&self) -> (state: PlaybackState)
        ensures
            state == self@.state,
            self@.is_valid(),
    {
        proof {
            use_type_invariant(self);
        }
        self.state
    }

    /// The token of the latest load.
    pub fn generation(&self) -> (generation: u64)
        ensures
            generation == self@.generation,
    {
        self.generation
    }

    /// The loudness in percent.
    pub fn volume(&self) -> (volume: u8)
        ensures
            volume == self@.volume,
            volume <= 100,
    {
        proof {
            use_type_invariant(self);
        }
        self.volume
    }
}

/// How long a completion watcher waits between two looks at the device.
pub const WATCH_INTERVAL_MS: u64 = 500;

/// Watches one load for its natural end.
#[derive(Debug, Clone, Copy, PartialEq, Eq, Structural)]
pub struct PlaybackWatcher {
    /// The token of the load that is watched.
    pub generation: u64,
}

/// What a watcher does after a look at the device.
#[derive(Debug, Clone, Copy, PartialEq, Eq, Structural)]
pub enum WatcherStep {
    /// Look again after `WATCH_INTERVAL_MS`.
    Wait,
    /// Tell the host, once, that playback has finished, and end.
    Finished,
    /// End without a word: the load that was watched is no longer the engine's.
    Retire,
}

/// What the watcher of the load with token `generation` does, given the
/// engine and what the device reports.
pub open spec fn watcher_step(player: Player, generation: nat, device: SinkStatus) -> WatcherStep {
    if !player.is_loaded() || player.generation != generation {
        WatcherStep::Retire
    } else if device.empty {
        WatcherStep::Finished
    } else {
        WatcherStep::Wait
    }
}

/// The length in milliseconds of `n_frames` frames that each last
/// `numer / denom` seconds, rounded down and held at the largest 64-bit
/// number; 0 where the number of frames or the time base is not known, or the
/// time base has a denominator of 0.
pub open spec fn frames_millis(n_frames: Option<u64>, time_base: Option<(u32, u32)>) -> nat {
    match (n_frames, time_base) {
        (Some(frames), Some((numer, denom))) => if denom == 0 {
            0
        } else {
            at_most((frames * numer * 1000 / denom as int) as nat, u64::MAX as nat)
        },
        _ => 0,
    }
}

/// The engine after a run of toggles on a device that does what the engine
/// asks of it, so that it is paused exactly when the engine is. `positions`
/// holds what the device reports as its position at each toggle.
pub open spec fn after_toggles(player: Player, positions: Seq<u64>) -> Player
    decreases positions.len(),
{
    if positions.len() == 0 {
        player
    } else {
        let before = after_toggles(player, positions.drop_last());
        before.toggled(
            SinkStatus {
                empty: false,
                paused: before.state is Paused,
                position_ms: positions.last(),
            },
        )
    }
}

/// The engine after a run of progress reports.
pub open spec fn after_reports(player: Player, reports: Seq<SinkStatus>) -> Player
    decreases reports.len(),
{
    if reports.len() == 0 {
        player
    } else {
        after_reports(player, reports.drop_last()).progressed(reports.last())
    }
}

/// Every step of the engine leaves a valid engine valid.
pub proof fn lemma_steps_keep_valid(
    player: Player,
    total_duration_ms: u64,
    device: SinkStatus,
    time_ms: nat,
    level: int,
)
    requires
        player.is_valid(),
    ensures
        Player::idle().is_valid(),
        player.loaded(total_duration_ms as nat).is_valid(),
        player.stopped().is_valid(),
        player.progressed(device).is_valid(),
        player.toggled(device).is_valid(),
        player.sought(time_ms).is_valid(),
        (Player { volume: volume_percent(level), ..player }).is_valid(),
{
}

/// Right after a load the engine plays, its position is 0 and its duration
/// is the one that the load returned; a first report from a device that
/// stands at the start of its new source leaves that so.
pub proof fn lemma_load_then_progress(player: Player, total_duration_ms: u64, device: SinkStatus)
    ensures
        player.loaded(total_duration_ms as nat).state is Playing,
        player.loaded(total_duration_ms as nat).progress() == (AudioProgress {
            position_ms: 0,
            duration_ms: total_duration_ms,
        }),
        device.position_ms == 0 ==> player.loaded(total_duration_ms as nat).progressed(
            device,
        ).progress() == (AudioProgress { position_ms: 0, duration_ms: total_duration_ms }),
{
}

/// On a loaded track, toggles switch strictly between playing and paused:
/// after an even number of them the engine is where it started, after an odd
/// number in the other of the two states. From a fresh load, which plays, an
/// odd number of toggles ends paused and an even number playing.
pub proof fn lemma_toggles_alternate(player: Player, positions: Seq<u64>)
    requires
        player.is_loaded(),
    ensures
        after_toggles(player, positions).is_loaded(),
        positions.len() % 2 == 0 ==> after_toggles(player, positions).state == player.state,
        positions.len() % 2 == 1 ==> after_toggles(player, positions).state != player.state,
        after_toggles(player, positions).total_duration_ms == player.total_duration_ms,
        after_toggles(player, positions).generation == player.generation,
    decreases positions.len(),
{
    if positions.len() > 0 {
        lemma_toggles_alternate(player, positions.drop_last());
    }
}

/// From a fresh load on, the engine is paused after an odd number of toggles
/// and playing after an even number, on the track that was loaded.
pub proof fn lemma_toggles_after_load(player: Player, total_duration_ms: u64, positions: Seq<u64>)
    ensures
        after_toggles(player.loaded(total_duration_ms as nat), positions).state == if positions.len()
            % 2 == 0 {
            PlaybackState::Playing
        } else {
            PlaybackState::Paused
        },
        after_toggles(player.loaded(total_duration_ms as nat), positions).total_duration_ms
            == total_duration_ms,
{
    lemma_toggles_alternate(player.loaded(total_duration_ms as nat), positions);
}

/// A seek within the track puts the position exactly where it aimed; a seek
/// beyond the end puts it at the end. The duration stays.
pub proof fn lemma_seek_then_progress(player: Player, time_ms: u64)
    requires
        player.is_valid(),
        player.is_loaded(),
    ensures
        time_ms <= player.total_duration_ms ==> player.sought(time_ms as nat).progress().position_ms
            == time_ms,
        time_ms > player.total_duration_ms ==> player.sought(time_ms as nat).progress().position_ms
            == player.total_duration_ms,
        player.sought(time_ms as nat).progress().duration_ms == player.total_duration_ms,
{
}

/// The position never runs backwards on its own: while the device moves
/// forward from one report to the next, so does the engine, and it stays
/// within the track.
pub proof fn lemma_progress_is_monotonic(player: Player, earlier: SinkStatus, later: SinkStatus)
    requires
        player.is_valid(),
        earlier.position_ms <= later.position_ms,
    ensures
        player.progressed(earlier).position_ms <= player.progressed(earlier).progressed(
            later,
        ).position_ms <= player.total_duration_ms,
{
}

/// While the engine is paused its position does not move, whatever the
/// device reports and however often.
pub proof fn lemma_paused_position_is_frozen(player: Player, reports: Seq<SinkStatus>)
    requires
        player.state is Paused,
    ensures
        after_reports(player, reports) == player,
    decreases reports.len(),
{
    if reports.len() > 0 {
        lemma_paused_position_is_frozen(player, reports.drop_last());
    }
}

/// The token of a load differs from the token of the load before it.
pub proof fn lemma_next_generation_differs(generation: nat)
    requires
        generation <= u64::MAX,
    ensures
        Player::next_generation(generation) != generation,
        Player::next_generation(generation) <= u64::MAX,
{
}

/// Of two loads one right after the other, the watcher of the first never
/// reports the end of playback once the second is in place: it retires,
/// whatever the device reports, also after any run of toggles on the second
/// track. The watcher of the second load reports the end exactly when the
/// device has nothing left to play, and the duration that the engine then
/// holds is that of the second load.
pub proof fn lemma_stale_watcher_retires(
    player: Player,
    first_duration_ms: u64,
    second_duration_ms: u64,
    positions: Seq<u64>,
    device: SinkStatus,
)
    requires
        player.is_valid(),
    ensures
        ({
            let first = player.loaded(first_duration_ms as nat);
            let second = first.loaded(second_duration_ms as nat);
            let later = after_toggles(second, positions);
            &&& watcher_step(later, first.generation, device) == WatcherStep::Retire
            &&& watcher_step(later, second.generation, device) == if device.empty {
                WatcherStep::Finished
            } else {
                WatcherStep::Wait
            }
            &&& later.total_duration_ms == second_duration_ms
        }),
{
    let first = player.loaded(first_duration_ms as nat);
    let second = first.loaded(second_duration_ms as nat);
    lemma_toggles_alternate(second, positions);
}

/// A watcher reports the end of playback only for the load that the engine
/// holds, and retires as soon as the engine holds none or another.
pub proof fn lemma_watcher_step(player: Player, generation: nat, device: SinkStatus)
    ensures
        watcher_step(player, generation, device) == WatcherStep::Finished ==> player.is_loaded()
            && player.generation == generation && device.empty,
        !player.is_loaded() || player.generation != generation ==> watcher_step(
            player,
            generation,
            device,
        ) == WatcherStep::Retire,
{
}

/// A new engine: idle, at the default loudness.
pub fn get_audio_state() -> (state: AudioState)
    ensures
        state@ == Player::idle(),
{
    AudioState {
        state: PlaybackState::Idle,
        total_duration_ms: 0,
        position_ms: 0,
        generation: 0,
        volume: DEFAULT_VOLUME,
    }
}

/// The length of a track from its number of frames and its time base.
pub fn track_duration_ms(n_frames: Option<u64>, time_base: Option<(u32, u32)>) -> (millis: u64)
    ensures
        millis == frames_millis(n_frames, time_base),
{
    match (n_frames, time_base) {
        (Some(frames), Some((numer, denom))) => {
            if denom == 0 {
                0
            } else {
                assert(frames * numer * 1000 <= 0xFFFF_FFFF_FFFF_FFFF * 0xFFFF_FFFF * 1000)
                    by (nonlinear_arith)
                    requires
                        frames <= 0xFFFF_FFFF_FFFF_FFFF,
                        numer <= 0xFFFF_FFFF,
                ;
                let wide: u128 = frames as u128 * numer as u128 * 1000 / denom as u128;
                if wide > u64::MAX as u128 {
                    u64::MAX
                } else {
                    wide as u64
                }
            }
        },
        _ => 0,
    }
}

/// Takes a track that the host has decoded, or keeps the engine as it is
/// where the host could not.
///
/// `decoded` is the track's duration, or why there is no track. On a
/// duration the engine plays the new track from the start under a new token,
/// and the plan tells the host what to do with the device. On an error the
/// engine is unchanged and the error comes back.
pub fn load_song(state: &mut AudioState, decoded: Result<u64, LoadError>) -> (plan: Result<
    LoadPlan,
    LoadError,
>)
    ensures
        match decoded {
            Ok(total_duration_ms) => {
                &&& final(state)@ == old(state)@.loaded(total_duration_ms as nat)
                &&& plan matches Ok(p)
                &&& p.commands@ == load_commands()
                &&& p.generation == final(state)@.generation
                &&& p.total_duration_ms == total_duration_ms
            },
            Err(e) => final(state)@ == old(state)@ && plan == Err::<LoadPlan, LoadError>(e),
        },
{
    proof {
        use_type_invariant(&*state);
    }
    match decoded {
        Err(e) => Err(e),
        Ok(total_duration_ms) => {
            let generation = if state.generation == u64::MAX {
                0
            } else {
                state.generation + 1
            };
            *state = AudioState {
                state: PlaybackState::Playing,
                total_duration_ms,
                position_ms: 0,
                generation,
                volume: state.volume,
            };
            let mut commands: Vec<SinkCommand> = Vec::new();
            commands.push(SinkCommand::Stop);
            commands.push(SinkCommand::Clear);
            commands.push(SinkCommand::Append);
            commands.push(SinkCommand::Play);
            assert(commands@ =~= load_commands());
            Ok(LoadPlan { commands, generation, total_duration_ms })
        },
    }
}

/// Lets the track go. The engine is idle afterwards, and the device is to stop.
pub fn stop_song(state: &mut AudioState) -> (command: SinkCommand)
    ensures
        final(state)@ == old(state)@.stopped(),
        command == SinkCommand::Stop,
{
    proof {
        use_type_invariant(&*state);
    }
    *state = AudioState {
        state: PlaybackState::Idle,
        total_duration_ms: 0,
        position_ms: 0,
        generation: state.generation,
        volume: state.volume,
    };
    SinkCommand::Stop
}

/// Switches between playing and paused.
///
/// What is done follows what the device reports at this moment, not what the
/// engine remembers: a paused device is told to play, a playing one to pause.
/// With no track loaded the engine is unchanged and `NotLoaded` comes back.
pub fn toggle_playback(state: &mut AudioState, status: SinkStatus) -> (toggled: Result<
    Toggled,
    PlaybackError,
>)
    ensures
        final(state)@ == old(state)@.toggled(status),
        old(state)@.is_loaded() ==> toggled == Ok::<Toggled, PlaybackError>(
            Toggled {
                command: if status.paused {
                    SinkCommand::Play
                } else {
                    SinkCommand::Pause
                },
                is_paused: !status.paused,
            },
        ),
        !old(state)@.is_loaded() ==> toggled == Err::<Toggled, PlaybackError>(
            PlaybackError::NotLoaded,
        ),
{
    proof {
        use_type_invariant(&*state);
    }
    match state.state {
        PlaybackState::Idle => Err(PlaybackError::NotLoaded),
        _ => {
            if status.paused {
                state.state = PlaybackState::Playing;
                Ok(Toggled { command: SinkCommand::Play, is_paused: false })
            } else {
                state.position_ms = if status.position_ms <= state.total_duration_ms {
                    status.position_ms
                } else {
                    state.total_duration_ms
                };
                state.state = PlaybackState::Paused;
                Ok(Toggled { command: SinkCommand::Pause, is_paused: true })
            }
        },
    }
}

/// Takes note of how far the device is and returns the position.
///
/// While playing, the position is the device's, held within the track. While
/// paused it stays where it was, whatever the device reports; with no track
/// loaded it is 0.
pub fn fetch_progress(state: &mut AudioState, status: SinkStatus) -> (position_ms: u64)
    ensures
        final(state)@ == old(state)@.progressed(status),
        position_ms == final(state)@.position_ms,
{
    proof {
        use_type_invariant(&*state);
    }
    if let PlaybackState::Playing = state.state {
        state.position_ms = if status.position_ms <= state.total_duration_ms {
            status.position_ms
        } else {
            state.total_duration_ms
        };
    }
    state.position_ms
}

/// The position that the engine last took note of, and the duration of the
/// track; both 0 with no track loaded.
pub fn get_playback_progress(state: &AudioState) -> (progress: AudioProgress)
    ensures
        progress == state@.progress(),
        progress.position_ms <= progress.duration_ms,
        !state@.is_loaded() ==> progress == (AudioProgress { position_ms: 0, duration_ms: 0 }),
{
    proof {
        use_type_invariant(state);
    }
    AudioProgress { position_ms: state.position_ms, duration_ms: state.total_duration_ms }
}

/// Where the device is to move for a seek to `time_ms`: there, or to the end
/// of the track where `time_ms` lies beyond it. `NotLoaded` with no track loaded.
pub fn seek_audio(state: &AudioState, time_ms: u64) -> (target_ms: Result<u64, PlaybackError>)
    ensures
        state@.is_loaded() ==> target_ms == Ok::<u64, PlaybackError>(
            state@.seek_target(time_ms as nat) as u64,
        ),
        !state@.is_loaded() ==> target_ms == Err::<u64, PlaybackError>(PlaybackError::NotLoaded),
{
    proof {
        use_type_invariant(state);
    }
    match state.state {
        PlaybackState::Idle => Err(PlaybackError::NotLoaded),
        _ => if time_ms <= state.total_duration_ms {
            Ok(time_ms)
        } else {
            Ok(state.total_duration_ms)
        },
    }
}

/// Takes note of how a seek to `time_ms` went on the device.
///
/// Where the device has moved, the engine's position is `time_ms`, held
/// within the track. Where it could not, the engine is unchanged and `Seek`
/// comes back. With no track loaded the engine is unchanged and `NotLoaded`
/// comes back.
pub fn set_position(state: &mut AudioState, time_ms: u64, moved: bool) -> (done: Result<
    (),
    PlaybackError,
>)
    ensures
        !old(state)@.is_loaded() ==> final(state)@ == old(state)@ && done == Err::<
            (),
            PlaybackError,
        >(PlaybackError::NotLoaded),
        old(state)@.is_loaded() && !moved ==> final(state)@ == old(state)@ && done == Err::<
            (),
            PlaybackError,
        >(PlaybackError::Seek),
        old(state)@.is_loaded() && moved ==> final(state)@ == old(state)@.sought(time_ms as nat)
            && done is Ok,
{
    proof {
        use_type_invariant(&*state);
    }
    match state.state {
        PlaybackState::Idle => Err(PlaybackError::NotLoaded),
        _ => if moved {
            state.position_ms = if time_ms <= state.total_duration_ms {
                time_ms
            } else {
                state.total_duration_ms
            };
            Ok(())
        } else {
            Err(PlaybackError::Seek)
        },
    }
}

/// Sets the loudness from a level on the host's scale of 0 to 100 and
/// returns it in percent, for the device. Levels outside the scale count as
/// its nearest end; none is turned down.
pub fn set_volume(state: &mut AudioState, level: i32) -> (percent: u8)
    ensures
        percent == volume_percent(level as int),
        final(state)@ == (Player { volume: volume_percent(level as int), ..old(state)@ }),
{
    proof {
        use_type_invariant(&*state);
    }
    let percent: u8 = if level < 0 {
        0
    } else if level > 100 {
        100
    } else {
        level as u8
    };
    state.volume = percent;
    percent
}

/// A watcher for the load that the engine holds now.
pub fn spawn_playback_watcher(state: &AudioState) -> (watcher: PlaybackWatcher)
    ensures
        watcher.generation == state@.generation,
{
    PlaybackWatcher { generation: state.generation }
}

/// One look of a watcher at the engine and the device.
///
/// The watcher ends without a word where the engine holds no track or a
/// later load; it reports the end of playback where its own load is still the
/// engine's and the device has nothing left to play; otherwise it waits.
pub fn start_playback_monitor(watcher: &PlaybackWatcher, state: &AudioState, status: SinkStatus) -> (step:
    WatcherStep)
    ensures
        step == watcher_step(state@, watcher.generation as nat, status),
{
    match state.state {
        PlaybackState::Idle => WatcherStep::Retire,
        _ => if state.generation != watcher.generation {
            WatcherStep::Retire
        } else if status.empty {
            WatcherStep::Finished
        } else {
            WatcherStep::Wait
        },
    }
}

} // verus!
