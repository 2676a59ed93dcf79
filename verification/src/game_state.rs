//! The game's screens and the decisions that move between them: where the
//! game starts, what pressing a listed entry does, and how the playback
//! screen reacts to the player.

use vstd::prelude::*;

use crate::file_picker::DirectoryEntry;

verus! {

/// The screens of the game.
#[derive(Debug, Clone, Copy, PartialEq, Eq, Hash)]
pub enum AppState {
    Loading,
    Initial,
    FilePicker,
    Analyze,
    DebugUi,
    Gameplay,
}

impl Default for AppState {
    fn default() -> (r: Self)
        ensures
            r == AppState::Loading,
    {
        AppState::Loading
    }
}

/// The command line: the track to play, where to write its analysis, and
/// whether to only analyse it or to show the game full-screen. Paths are the
/// bytes of the operating system's paths.
#[derive(Debug, Clone)]
pub struct Args {
    pub input: Option<Vec<u8>>,
    pub output: Option<Vec<u8>>,
    pub analyze_only: bool,
    pub fullscreen: bool,
}

impl Default for Args {
    fn default() -> (r: Self)
        ensures
            r.input is None,
            r.output is None,
            !r.analyze_only,
            !r.fullscreen,
    {
        Args { input: None, output: None, analyze_only: false, fullscreen: false }
    }
}

fn copy_bytes(v: &Vec<u8>) -> (r: Vec<u8>)
    ensures
        r@ == v@,
{
    let mut r: Vec<u8> = Vec::with_capacity(v.len());
    let mut i: usize = 0;
    while i < v.len()
        invariant
            i <= v.len(),
            r@ == v@.subrange(0, i as int),
        decreases v.len() - i,
    {
        r.push(v[i]);
        i = i + 1;
        assert(r@ =~= v@.subrange(0, i as int));
    }
    r
}

impl Args {
    /// The path of the track to play, which the command line must give.
    pub fn input_file_path(&self) -> (r: Vec<u8>)
        requires
            self.input is Some,
        ensures
            r@ == self.input->0@,
    {
        match &self.input {
            Some(p) => copy_bytes(p),
            None => Vec::new(),
        }
    }
}

/// The screen the game opens on once its assets are loaded: the analysis of
/// the track named on the command line, or the file picker when none is.
pub fn state_after_loading(args: &Args) -> (r: AppState)
    ensures
        r == if args.input is Some {
            AppState::Analyze
        } else {
            AppState::FilePicker
        },
{
    if args.input.is_some() {
        AppState::Analyze
    } else {
        AppState::FilePicker
    }
}

/// What pressing an entry of the file picker does.
#[derive(Debug)]
pub enum EntryAction {
    /// Show the pressed directory.
    OpenDirectory(Vec<u8>),
    /// Analyse and play the pressed file with these arguments.
    Play(Args),
}

/// Pressing a directory opens it; pressing a file starts its analysis with
/// default arguments naming that file.
pub fn entry_pressed(entry: &DirectoryEntry) -> (r: EntryAction)
    ensures
        entry.is_dir ==> (r matches EntryAction::OpenDirectory(p) && p@ == entry.path@),
        !entry.is_dir ==> (r matches EntryAction::Play(a) && a.input is Some && a.input->0@
            == entry.path@ && a.output is None && !a.analyze_only && !a.fullscreen),
{
    let path = copy_bytes(&entry.path);
    if entry.is_dir {
        EntryAction::OpenDirectory(path)
    } else {
        EntryAction::Play(Args { input: Some(path), output: None, analyze_only: false, fullscreen: false })
    }
}

/// What the audio sink is told to do this frame.
#[derive(Debug, Clone, Copy, PartialEq, Eq)]
pub enum SinkCommand {
    Keep,
    Pause,
    Play,
}

/// The playback screen's reaction to one frame of input.
#[derive(Debug, Clone, Copy, PartialEq, Eq)]
pub struct PlaybackUpdate {
    /// Whether the song is paused after this frame.
    pub paused: bool,
    /// What the audio sink is told.
    pub sink: SinkCommand,
    /// Whether the song clock advances by this frame's duration.
    pub advance_clock: bool,
}

/// The toggle key flips between paused and playing and tells the sink so;
/// the song clock runs whenever the song is not paused.
pub fn playback_update(paused: bool, toggle_pressed: bool) -> (r: PlaybackUpdate)
    ensures
        r.paused == (paused != toggle_pressed),
        r.sink == if !toggle_pressed {
            SinkCommand::Keep
        } else if r.paused {
            SinkCommand::Pause
        } else {
            SinkCommand::Play
        },
        r.advance_clock == !r.paused,
{
    let now_paused = if toggle_pressed { !paused } else { paused };
    let sink = if !toggle_pressed {
        SinkCommand::Keep
    } else if now_paused {
        SinkCommand::Pause
    } else {
        SinkCommand::Play
    };
    PlaybackUpdate { paused: now_paused, sink, advance_clock: !now_paused }
}

/// The playback screen is left for the file picker when the song clock has
/// passed the last analysed frame or the player pressed escape.
pub fn gameplay_exit(past_last_frame: bool, escape_pressed: bool) -> (r: Option<AppState>)
    ensures
        r == if past_last_frame || escape_pressed {
            Some(AppState::FilePicker)
        } else {
            None::<AppState>
        },
{
    if past_last_frame || escape_pressed {
        Some(AppState::FilePicker)
    } else {
        None
    }
}

/// Whether the debug overlay is shown.
#[derive(Debug, Clone, Copy, PartialEq, Eq)]
pub struct DebugUiVisible(pub bool);

impl DebugUiVisible {
    /// The visibility after one frame: the toggle key flips it.
    pub fn after_input(self, toggle_pressed: bool) -> (r: DebugUiVisible)
        ensures
            r.0 == (self.0 != toggle_pressed),
    {
        if toggle_pressed {
            DebugUiVisible(!self.0)
        } else {
            self
        }
    }
}

/// The frames that the debug overlay describes at frame index `i`: the
/// current one and the one before it (the first frame is its own
/// predecessor), or none past the last frame.
pub fn debug_frame_indices(i: usize, frame_count: usize) -> (r: Option<(usize, usize)>)
    ensures
        i >= frame_count ==> r is None,
        i < frame_count ==> r == Some((i, if i == 0 { 0usize } else { (i - 1) as usize })),
{
    if i >= frame_count {
        None
    } else if i == 0 {
        Some((0, 0))
    } else {
        Some((i, i - 1))
    }
}

} // verus!
