//! The background playlist: its tracks, the decisions of the player and the
//! snapshot that the overlay shows. Audio output itself is done by the program.
use rand::seq::SliceRandom;
use vstd::prelude::*;

verus! {

/// One song of the playlist.
#[derive(Clone, Copy, Debug, PartialEq, Eq)]
pub struct Track {
    pub filename: &'static str,
    pub display_name: &'static str,
}

/// The seven songs, in declaration order.
pub open spec fn track_list() -> Seq<Track> {
    seq![
        Track { filename: "style.mp3", display_name: "STYLE" },
        Track { filename: "out_of_the_woods.mp3", display_name: "OUT OF THE WOODS" },
        Track { filename: "wildest_dreams.mp3", display_name: "WILDEST DREAMS" },
        Track { filename: "cardigan.mp3", display_name: "CARDIGAN" },
        Track { filename: "all_too_well.mp3", display_name: "ALL TOO WELL" },
        Track { filename: "delicate.mp3", display_name: "DELICATE" },
        Track { filename: "this_love.mp3", display_name: "THIS LOVE" },
    ]
}

/// The playlist as declared.
pub fn tracks() -> (list: [Track; 7])
    ensures
        list@ == track_list(),
{
    [
        Track { filename: "style.mp3", display_name: "STYLE" },
        Track { filename: "out_of_the_woods.mp3", display_name: "OUT OF THE WOODS" },
        Track { filename: "wildest_dreams.mp3", display_name: "WILDEST DREAMS" },
        Track { filename: "cardigan.mp3", display_name: "CARDIGAN" },
        Track { filename: "all_too_well.mp3", display_name: "ALL TOO WELL" },
        Track { filename: "delicate.mp3", display_name: "DELICATE" },
        Track { filename: "this_love.mp3", display_name: "THIS LOVE" },
    ]
}


/// `SliceRandom::shuffle` of `rand` with the generator of `rand::thread_rng`:
/// the elements are permuted in place by swaps, so the same elements remain,
/// each as often as before. Which order comes out is random and not stated.
#[verifier::external_body]
fn shuffle_tracks(list: &mut Vec<Track>)
    ensures
        final(list)@.to_multiset() == old(list)@.to_multiset(),
{
    list.shuffle(&mut rand::thread_rng());
}

/// The seven tracks in a random order: every track exactly once.
pub fn shuffled_playlist() -> (playlist: Vec<Track>)
    ensures
        playlist@.to_multiset() == track_list().to_multiset(),
        playlist@.len() == 7,
{
    let list = tracks();
    let mut playlist: Vec<Track> = Vec::new();
    let mut i: usize = 0;
    while i < 7
        invariant
            i <= 7,
            list@ == track_list(),
            playlist@ == track_list().take(i as int),
        decreases 7 - i,
    {
        playlist.push(list[i]);
        proof {
            assert(track_list().take(i + 1) =~= track_list().take(i as int).push(track_list()[i as int]));
        }
        i = i + 1;
    }
    proof {
        assert(track_list().take(7) =~= track_list());
    }
    shuffle_tracks(&mut playlist);
    proof {
        playlist@.to_multiset_ensures();
        track_list().to_multiset_ensures();
    }
    playlist
}

/// Shown while the player has not reported yet.
pub const LOADING_NAME: &'static str = "CARGANDO MUSICA";
/// Shown when no audio can be played.
pub const UNAVAILABLE_NAME: &'static str = "AUDIO NO DISPONIBLE";

/// What the overlay shows of the player. Times are in milliseconds.
#[derive(Clone, Copy, Debug)]
pub struct MusicSnapshot {
    pub track_name: &'static str,
    pub elapsed_ms: u64,
    pub duration_ms: u64,
    pub paused: bool,
    pub muted: bool,
    pub available: bool,
}

impl Default for MusicSnapshot {
    fn default() -> (snapshot: Self)
        ensures
            snapshot == (MusicSnapshot {
                track_name: LOADING_NAME,
                elapsed_ms: 0,
                duration_ms: 0,
                paused: false,
                muted: false,
                available: false,
            }),
    {
        Self {
            track_name: LOADING_NAME,
            elapsed_ms: 0,
            duration_ms: 0,
            paused: false,
            muted: false,
            available: false,
        }
    }
}

/// Marks the snapshot as having no audio, keeping its times and switches.
pub fn set_unavailable(snapshot: &mut MusicSnapshot)
    ensures
        *final(snapshot) == (MusicSnapshot {
            track_name: UNAVAILABLE_NAME,
            available: false,
            ..*old(snapshot)
        }),
{
    snapshot.track_name = UNAVAILABLE_NAME;
    snapshot.available = false;
}

/// The snapshot of the player: the track in play with its position (never past
/// its length) and length, or no audio when nothing plays.
pub fn playback_snapshot(
    playing: Option<(Track, u64, u64)>,
    user_paused: bool,
    muted: bool,
) -> (snapshot: MusicSnapshot)
    ensures
        snapshot == match playing {
            Some((track, position, duration)) => MusicSnapshot {
                track_name: track.display_name,
                elapsed_ms: if position < duration { position } else { duration },
                duration_ms: duration,
                paused: user_paused,
                muted: muted,
                available: true,
            },
            None => MusicSnapshot {
                track_name: UNAVAILABLE_NAME,
                elapsed_ms: 0,
                duration_ms: 0,
                paused: user_paused,
                muted: muted,
                available: false,
            },
        },
{
    match playing {
        Some((track, position, duration)) => MusicSnapshot {
            track_name: track.display_name,
            elapsed_ms: if position < duration { position } else { duration },
            duration_ms: duration,
            paused: user_paused,
            muted,
            available: true,
        },
        None => MusicSnapshot {
            track_name: UNAVAILABLE_NAME,
            elapsed_ms: 0,
            duration_ms: 0,
            paused: user_paused,
            muted,
            available: false,
        },
    }
}


/// A request to the playlist worker.
#[derive(Clone, Copy, Debug, PartialEq, Eq)]
pub enum MusicCommand {
    SetGameActive(bool),
    TogglePause,
    Next,
    ToggleMute,
    PlayFootstep,
    PlaySuccess,
    Shutdown,
}

/// What the worker must do with the audio output after a command.
#[derive(Clone, Copy, Debug, PartialEq, Eq)]
pub enum AudioAction {
    /// Play the current track when `play`, else pause it.
    ApplyPlayState { play: bool },
    /// Stop the current track and load the next playable one.
    LoadNextTrack,
    /// Silence the music (effects keep their volume) or give it its volume back.
    SetMusicMuted { muted: bool },
    /// Play a footstep; `alternate` picks the lower of the two thumps.
    PlayFootstep { alternate: bool },
    PlaySuccess,
    /// Stop the worker.
    Shutdown,
}

/// The worker's switches and its place in the playlist.
#[derive(Clone, Copy, Debug, PartialEq, Eq)]
pub struct PlaylistState {
    pub current_index: usize,
    pub game_active: bool,
    pub user_paused: bool,
    pub muted: bool,
    pub alternate_footstep: bool,
}

/// Music plays only while a game is in progress and the user has not paused it.
pub open spec fn music_plays(game_active: bool, user_paused: bool) -> bool {
    game_active && !user_paused
}

/// The state after `command` and the action it asks for.
pub open spec fn after_command(state: PlaylistState, command: MusicCommand) -> (PlaylistState, AudioAction) {
    match command {
        MusicCommand::SetGameActive(active) => (
            PlaylistState { game_active: active, ..state },
            AudioAction::ApplyPlayState { play: music_plays(active, state.user_paused) },
        ),
        MusicCommand::TogglePause => (
            PlaylistState { user_paused: !state.user_paused, ..state },
            AudioAction::ApplyPlayState { play: music_plays(state.game_active, !state.user_paused) },
        ),
        MusicCommand::Next => (state, AudioAction::LoadNextTrack),
        MusicCommand::ToggleMute => (
            PlaylistState { muted: !state.muted, ..state },
            AudioAction::SetMusicMuted { muted: !state.muted },
        ),
        MusicCommand::PlayFootstep => (
            PlaylistState { alternate_footstep: !state.alternate_footstep, ..state },
            AudioAction::PlayFootstep { alternate: state.alternate_footstep },
        ),
        MusicCommand::PlaySuccess => (state, AudioAction::PlaySuccess),
        MusicCommand::Shutdown => (state, AudioAction::Shutdown),
    }
}

impl PlaylistState {
    /// The worker's state before the first track: positioned so that the first
    /// advance lands on track 0, nothing active, paused or muted.
    pub fn new(playlist_length: usize) -> (state: Self)
        ensures
            state == (PlaylistState {
                current_index: if playlist_length > 0 { (playlist_length - 1) as usize } else { 0 },
                game_active: false,
                user_paused: false,
                muted: false,
                alternate_footstep: false,
            }),
    {
        PlaylistState {
            current_index: playlist_length.saturating_sub(1),
            game_active: false,
            user_paused: false,
            muted: false,
            alternate_footstep: false,
        }
    }

    /// Whether the track in play should be playing now.
    pub fn should_play(&self) -> (play: bool)
        ensures
            play == music_plays(self.game_active, self.user_paused),
    {
        self.game_active && !self.user_paused
    }

    /// Applies `command` to the switches and says what the audio output must do.
    pub fn process_command(&mut self, command: MusicCommand) -> (action: AudioAction)
        ensures
            (*final(self), action) == after_command(*old(self), command),
    {
        match command {
            MusicCommand::SetGameActive(active) => {
                self.game_active = active;
                AudioAction::ApplyPlayState { play: self.should_play() }
            },
            MusicCommand::TogglePause => {
                self.user_paused = !self.user_paused;
                AudioAction::ApplyPlayState { play: self.should_play() }
            },
            MusicCommand::Next => AudioAction::LoadNextTrack,
            MusicCommand::ToggleMute => {
                self.muted = !self.muted;
                AudioAction::SetMusicMuted { muted: self.muted }
            },
            MusicCommand::PlayFootstep => {
                let alternate = self.alternate_footstep;
                self.alternate_footstep = !self.alternate_footstep;
                AudioAction::PlayFootstep { alternate }
            },
            MusicCommand::PlaySuccess => AudioAction::PlaySuccess,
            MusicCommand::Shutdown => AudioAction::Shutdown,
        }
    }

    /// Moves to the next track of a playlist of `playlist_length` tracks,
    /// wrapping from the last back to the first, and returns its index.
    pub fn advance_track(&mut self, playlist_length: usize) -> (index: usize)
        requires
            playlist_length > 0,
        ensures
            index == (old(self).current_index + 1) % (playlist_length as int),
            *final(self) == (PlaylistState { current_index: index, ..*old(self) }),
    {
        self.current_index = ((self.current_index as u128 + 1) % playlist_length as u128) as usize;
        self.current_index
    }
}

/// Loading the next track after `attempts` tracks failed to load in this
/// round: while fewer than all of the playlist have been tried, advance to the
/// next track and try it (`Some` of its index); once every track has been
/// tried, give up (`None`) and leave the state as it is.
pub fn next_load_attempt(state: &mut PlaylistState, playlist_length: usize, attempts: usize) -> (index: Option<usize>)
    ensures
        attempts < playlist_length ==> index == Some(((old(state).current_index + 1) % (playlist_length as int)) as usize)
            && *final(state) == (PlaylistState { current_index: index.unwrap(), ..*old(state) }),
        attempts >= playlist_length ==> index == None::<usize> && *final(state) == *old(state),
{
    if attempts < playlist_length {
        Some(state.advance_track(playlist_length))
    } else {
        None
    }
}

/// The index of the track in play after `count` advances from `index` in a
/// playlist of `length` tracks, each advance as `advance_track` makes it.
pub open spec fn advanced_index(index: int, length: int, count: nat) -> int
    decreases count,
{
    if count == 0 {
        index
    } else {
        (advanced_index(index, length, (count - 1) as nat) + 1) % length
    }
}

/// `count` advances move `count` places forward, around the end of the playlist.
pub proof fn lemma_advanced_index(index: int, length: int, count: nat)
    requires
        0 <= index < length,
    ensures
        advanced_index(index, length, count) == (index + count) % length,
    decreases count,
{
    if count == 0 {
        vstd::arithmetic::div_mod::lemma_small_mod(index as nat, length as nat);
    } else {
        lemma_advanced_index(index, length, (count - 1) as nat);
        vstd::arithmetic::div_mod::lemma_add_mod_noop(index + count - 1, 1, length);
        vstd::arithmetic::div_mod::lemma_mod_twice(1, length);
        vstd::arithmetic::div_mod::lemma_add_mod_noop(advanced_index(index, length, (count - 1) as nat), 1, length);
        vstd::arithmetic::div_mod::lemma_mod_twice(index + count - 1, length);
    }
}

/// The playlist plays in a loop: from any track, `length` advances come back to
/// it, and every track of the playlist comes up within those advances.
pub proof fn lemma_playlist_loops(index: int, length: int)
    requires
        0 <= index < length,
    ensures
        advanced_index(index, length, length as nat) == index,
        forall|track: int|
            0 <= track < length ==> #[trigger] advanced_index(
                index,
                length,
                ((track - index + length) % length) as nat,
            ) == track,
{
    lemma_advanced_index(index, length, length as nat);
    vstd::arithmetic::div_mod::lemma_mod_add_multiples_vanish(index, length);
    vstd::arithmetic::div_mod::lemma_small_mod(index as nat, length as nat);
    assert forall|track: int| 0 <= track < length implies #[trigger] advanced_index(
        index,
        length,
        ((track - index + length) % length) as nat,
    ) == track by {
        let k = (track - index + length) % length;
        vstd::arithmetic::div_mod::lemma_mod_bound(track - index + length, length);
        lemma_advanced_index(index, length, k as nat);
        vstd::arithmetic::div_mod::lemma_add_mod_noop(index, track - index + length, length);
        vstd::arithmetic::div_mod::lemma_small_mod(index as nat, length as nat);
        vstd::arithmetic::div_mod::lemma_mod_add_multiples_vanish(track, length);
        vstd::arithmetic::div_mod::lemma_small_mod(track as nat, length as nat);
        vstd::arithmetic::div_mod::lemma_mod_twice(track - index + length, length);
        vstd::arithmetic::div_mod::lemma_add_mod_noop(index, k, length);
    }
}

/// Pausing twice, or muting twice, gives the switches back as they were.
pub proof fn lemma_toggles_undo(state: PlaylistState)
    ensures
        after_command(after_command(state, MusicCommand::TogglePause).0, MusicCommand::TogglePause).0 == state,
        after_command(after_command(state, MusicCommand::ToggleMute).0, MusicCommand::ToggleMute).0 == state,
{
}

/// Muting acts on the music alone: it leaves the game, pause and track as they
/// were and asks only for the music's volume; pausing leaves the mute as it was;
/// and the sound effects come out the same whether the music is muted or not.
pub proof fn lemma_mute_only_music(state: PlaylistState)
    ensures
        ({
            let (muted, action) = after_command(state, MusicCommand::ToggleMute);
            &&& muted == (PlaylistState { muted: !state.muted, ..state })
            &&& action == AudioAction::SetMusicMuted { muted: muted.muted }
        }),
        after_command(state, MusicCommand::TogglePause).0.muted == state.muted,
        after_command(state, MusicCommand::PlayFootstep).1 == after_command(
            PlaylistState { muted: !state.muted, ..state },
            MusicCommand::PlayFootstep,
        ).1,
        after_command(state, MusicCommand::PlaySuccess).1 == after_command(
            PlaylistState { muted: !state.muted, ..state },
            MusicCommand::PlaySuccess,
        ).1,
{
}

/// Whenever a command asks to play or pause the track, it asks to play exactly
/// when a game is in progress and the user has not paused the music.
pub proof fn lemma_play_state_follows_switches(state: PlaylistState, command: MusicCommand)
    ensures
        ({
            let (next, action) = after_command(state, command);
            action matches AudioAction::ApplyPlayState { play } ==> play == music_plays(
                next.game_active,
                next.user_paused,
            )
        }),
{
}

/// Footsteps alternate between the two thumps.
pub proof fn lemma_footsteps_alternate(state: PlaylistState)
    ensures
        ({
            let (next, first) = after_command(state, MusicCommand::PlayFootstep);
            let (_, second) = after_command(next, MusicCommand::PlayFootstep);
            first == AudioAction::PlayFootstep { alternate: state.alternate_footstep }
                && second == AudioAction::PlayFootstep { alternate: !state.alternate_footstep }
        }),
{
}

/// The command that tells the worker of a change of game activity, if any.
pub fn activity_command(known_active: bool, active: bool) -> (command: Option<MusicCommand>)
    ensures
        command == if active != known_active { Some(MusicCommand::SetGameActive(active)) } else { None },
{
    if active != known_active {
        Some(MusicCommand::SetGameActive(active))
    } else {
        None
    }
}

} // verus!
