use muviz::file_picker::DirectoryEntry;
use muviz::game_state::{
    debug_frame_indices, entry_pressed, gameplay_exit, playback_update, state_after_loading,
    AppState, Args, DebugUiVisible, EntryAction, PlaybackUpdate, SinkCommand,
};

#[test]
fn starts_on_loading() {
    assert_eq!(AppState::default(), AppState::Loading);
}

#[test]
fn first_screen_depends_on_input() {
    let mut args = Args::default();
    assert_eq!(state_after_loading(&args), AppState::FilePicker);
    args.input = Some(b"/music/a.mp3".to_vec());
    assert_eq!(state_after_loading(&args), AppState::Analyze);
    assert_eq!(args.input_file_path(), b"/music/a.mp3".to_vec());
}

#[test]
fn pressing_entries() {
    let dir = DirectoryEntry { path: b"/m/albums".to_vec(), is_dir: true };
    match entry_pressed(&dir) {
        EntryAction::OpenDirectory(p) => assert_eq!(p, b"/m/albums".to_vec()),
        other => panic!("unexpected {:?}", other),
    }
    let file = DirectoryEntry { path: b"/m/a.ogg".to_vec(), is_dir: false };
    match entry_pressed(&file) {
        EntryAction::Play(args) => {
            assert_eq!(args.input, Some(b"/m/a.ogg".to_vec()));
            assert_eq!(args.output, None);
            assert!(!args.analyze_only);
            assert!(!args.fullscreen);
        }
        other => panic!("unexpected {:?}", other),
    }
}

#[test]
fn toggling_playback() {
    assert_eq!(
        playback_update(true, true),
        PlaybackUpdate { paused: false, sink: SinkCommand::Play, advance_clock: true }
    );
    assert_eq!(
        playback_update(false, true),
        PlaybackUpdate { paused: true, sink: SinkCommand::Pause, advance_clock: false }
    );
    assert_eq!(
        playback_update(true, false),
        PlaybackUpdate { paused: true, sink: SinkCommand::Keep, advance_clock: false }
    );
    assert_eq!(
        playback_update(false, false),
        PlaybackUpdate { paused: false, sink: SinkCommand::Keep, advance_clock: true }
    );
    // Toggling twice restores the state.
    let once = playback_update(false, true);
    assert_eq!(playback_update(once.paused, true).paused, false);
}

#[test]
fn leaving_gameplay() {
    assert_eq!(gameplay_exit(false, false), None);
    assert_eq!(gameplay_exit(true, false), Some(AppState::FilePicker));
    assert_eq!(gameplay_exit(false, true), Some(AppState::FilePicker));
}

#[test]
fn debug_overlay_toggle() {
    assert_eq!(DebugUiVisible(true).after_input(true), DebugUiVisible(false));
    assert_eq!(DebugUiVisible(false).after_input(true), DebugUiVisible(true));
    assert_eq!(DebugUiVisible(true).after_input(false), DebugUiVisible(true));
}

#[test]
fn debug_frames() {
    assert_eq!(debug_frame_indices(0, 3), Some((0, 0)));
    assert_eq!(debug_frame_indices(2, 3), Some((2, 1)));
    assert_eq!(debug_frame_indices(3, 3), None);
}
