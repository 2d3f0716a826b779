use audio_splitter::bridge::{StartError, StartEvent};
use audio_splitter::devices::{
    find_render_device_by_name, list_render_device_names, no_default_speaker, no_matching_device,
    preferred_device, target_not_found, Search,
};
use audio_splitter::layout::{
    card_gap, card_layout, waveform_fits, waveform_style, CardGap, WaveformStyle,
};
use audio_splitter::meters::HISTORY_LEN;
use audio_splitter::single::Single;
use audio_splitter::splitter::{SplitterApp, ToggleAction};
use audio_splitter::text::{contains, to_ascii_lowercase, truncate_text};

fn names(list: &[&str]) -> Vec<String> {
    list.iter().map(|name| name.to_string()).collect()
}

fn readable(list: &[&str]) -> Vec<Option<String>> {
    list.iter().map(|name| Some(name.to_string())).collect()
}

fn points(value: f32) -> Single {
    Single { bits: value.to_bits() }
}

#[test]
fn short_texts_stay_whole() {
    assert_eq!(truncate_text("speaker", 7), "speaker");
    assert_eq!(truncate_text("", 2), "");
    assert_eq!(truncate_text("speaker", 1), "speaker");
    assert_eq!(truncate_text("speaker", 0), "speaker");
}

#[test]
fn long_texts_end_in_an_ellipsis() {
    assert_eq!(truncate_text("speaker", 6), "speak\u{2026}");
    assert_eq!(truncate_text("speaker", 2), "s\u{2026}");
    assert_eq!(truncate_text("\u{4e2d}\u{6587}\u{8bf4}\u{660e}", 3), "\u{4e2d}\u{6587}\u{2026}");
    let once = truncate_text("a rather long name of a device", 24);
    assert_eq!(once.chars().count(), 24);
    assert_eq!(truncate_text(&once, 24), once);
}

#[test]
fn only_ascii_letters_change_case() {
    let lowered: String = to_ascii_lowercase("CABLE [Input] \u{c4}\u{e4}@Z").into_iter().collect();
    assert_eq!(lowered, "CABLE [Input] \u{c4}\u{e4}@Z".to_ascii_lowercase());
}

#[test]
fn parts_are_found_anywhere() {
    let text = to_ascii_lowercase("speakers (usb)");
    assert!(contains(&text, &to_ascii_lowercase("speak")));
    assert!(contains(&text, &to_ascii_lowercase("(usb)")));
    assert!(contains(&text, &Vec::new()));
    assert!(!contains(&text, &to_ascii_lowercase("usb2")));
    assert!(!contains(&Vec::new(), &to_ascii_lowercase("a")));
}

#[test]
fn devices_are_listed_in_order() {
    let unsorted = names(&["b", "\u{e9}", "B", "a", "aa", "", "a", "\u{1f50a}", "\u{ffff}", "z"]);
    let mut expected = unsorted.clone();
    expected.sort();
    assert_eq!(list_render_device_names(unsorted.clone()), expected);
    let mut other = unsorted;
    other.reverse();
    assert_eq!(list_render_device_names(other), expected);
    assert_eq!(list_render_device_names(Vec::new()), Vec::<String>::new());
}

#[test]
fn the_cable_is_preferred() {
    let list = names(&["Speakers", "Xcable INPUT (VB)", "CABLE Input"]);
    assert_eq!(preferred_device(&list), 1);
    assert_eq!(preferred_device(&names(&["Speakers", "CABLE Output"])), 0);
    assert_eq!(preferred_device(&Vec::new()), 0);
}

#[test]
fn devices_are_found_by_name() {
    let list = readable(&["Speakers", "CABLE Input (VB-Audio)", "Speakers 2"]);
    assert!(matches!(find_render_device_by_name(&list, "cable input"), Search::Found(1)));
    assert!(matches!(find_render_device_by_name(&list, "SPEAKERS"), Search::Found(0)));
    assert!(matches!(find_render_device_by_name(&list, "speakers 2"), Search::Found(2)));
    assert!(matches!(find_render_device_by_name(&list, "headset"), Search::NotFound));
    assert!(matches!(find_render_device_by_name(&Vec::new(), "headset"), Search::NotFound));
}

#[test]
fn the_chosen_device_wins_over_longer_names() {
    let list = readable(&["CABLE Input 2", "CABLE Input", "CABLE Input"]);
    assert!(matches!(find_render_device_by_name(&list, "CABLE Input"), Search::Found(1)));
    assert!(matches!(find_render_device_by_name(&list, "CABLE Input 2"), Search::Found(0)));
    assert!(matches!(find_render_device_by_name(&list, "cable input"), Search::Found(0)));
    let spelled = readable(&["cable input", "CABLE Input"]);
    assert!(matches!(find_render_device_by_name(&spelled, "CABLE Input"), Search::Found(1)));
}

#[test]
fn no_other_device_stands_in_for_the_chosen_one() {
    let mut list = readable(&["CABLE Input 2", "CABLE Input"]);
    list.insert(1, None);
    assert!(matches!(find_render_device_by_name(&list, "CABLE Input"), Search::Found(2)));
    list.swap(1, 2);
    assert!(matches!(find_render_device_by_name(&list, "CABLE Input"), Search::Found(1)));
    list.swap(0, 2);
    assert!(matches!(find_render_device_by_name(&list, "CABLE Input"), Search::Found(1)));
    assert!(matches!(find_render_device_by_name(&list, "cable input"), Search::Unreadable(0)));
}

#[test]
fn errors_in_words() {
    assert_eq!(target_not_found("CABLE Input"), "target device not found: CABLE Input");
    assert_eq!(target_not_found(""), "target device not found: ");
    assert_eq!(no_matching_device(), "no matching render device");
    assert_eq!(no_default_speaker(), "failed to get default speaker device");
}

#[test]
fn an_unreadable_device_ends_the_search() {
    let mut list = readable(&["Speakers", "Cable"]);
    list.insert(1, None);
    assert!(matches!(find_render_device_by_name(&list, "cable"), Search::Unreadable(1)));
    assert!(matches!(find_render_device_by_name(&list, "speakers"), Search::Found(0)));
}

#[test]
fn the_window_at_first() {
    let app = SplitterApp::new(
        Some(names(&["A", "CABLE Input"])),
        Some("Headphones".to_string()),
    );
    assert_eq!(app.selected, 1);
    assert_eq!(app.selected_name(), "CABLE Input");
    assert_eq!(app.selected_text(), "CABLE Input");
    assert_eq!(app.source_name, "Headphones");
    assert_eq!(app.status, "idle");
    assert_eq!(app.toggle_label(), "Start");
    assert_eq!(app.input_history.len(), HISTORY_LEN);
    assert!(app.output_history.iter().all(|level| level.bits == 0));
}

#[test]
fn the_window_without_devices() {
    let mut app = SplitterApp::new(None, None);
    assert_eq!(app.source_name, "Default Speaker");
    assert_eq!(app.selected_name(), "");
    assert_eq!(app.selected_text(), "<no device>");
    assert!(matches!(app.toggle(), ToggleAction::Nothing));
    assert_eq!(app.status, "no render device found; enable a virtual cable first");
}

#[test]
fn a_refresh_keeps_the_choice_where_it_can() {
    let mut app = SplitterApp::new(Some(names(&["A", "B", "C"])), None);
    app.select(2);
    app.refresh_devices(Ok(names(&["X", "Y", "Z", "W"])), Some("S".to_string()));
    assert_eq!(app.selected, 2);
    assert_eq!(app.source_name, "S");
    assert_eq!(app.status, "device list refreshed");
    app.refresh_devices(Ok(names(&["X", "Y"])), None);
    assert_eq!(app.selected, 0);
    assert_eq!(app.source_name, "Default Speaker");
    app.refresh_devices(Ok(Vec::new()), None);
    assert_eq!(app.selected, 0);
    assert_eq!(app.selected_text(), "<no device>");
}

#[test]
fn a_failed_refresh_changes_only_the_status() {
    let mut app = SplitterApp::new(Some(names(&["A", "B"])), Some("S".to_string()));
    app.select(1);
    app.refresh_devices(Err("no COM".to_string()), None);
    assert_eq!(app.status, "refresh failed: no COM");
    assert_eq!(app.devices, names(&["A", "B"]));
    assert_eq!(app.selected, 1);
    assert_eq!(app.source_name, "S");
}

#[test]
fn the_button_starts_and_stops() {
    let mut app = SplitterApp::new(Some(names(&["CABLE Input"])), None);
    let target = match app.toggle() {
        ToggleAction::Start(target) => target,
        _ => panic!("a start was due"),
    };
    assert_eq!(target, "CABLE Input");
    app.bridge.start(StartEvent::PlaybackSpawned(true));
    app.started(&target, Ok(()));
    assert_eq!(app.status, "running: speaker loopback -> CABLE Input");
    assert_eq!(app.toggle_label(), "Stop");
    app.bridge.meters.set_output(points(0.5));
    assert!(matches!(app.toggle(), ToggleAction::Stop));
    app.stopped();
    assert_eq!(app.status, "stopped");
    assert!(!app.bridge.is_running());
    assert_eq!(app.bridge.levels(), (points(0.0), points(0.0)));
}

#[test]
fn a_failed_start_says_why() {
    let mut app = SplitterApp::new(Some(names(&["CABLE Input"])), None);
    app.started("CABLE Input", Err(StartError::CaptureThread));
    assert_eq!(app.status, "start failed: failed to start capture thread");
    app.started("CABLE Input", Err(StartError::PlaybackThread));
    assert_eq!(app.status, "start failed: failed to start playback thread");
}

#[test]
fn histories_follow_the_meters() {
    let mut app = SplitterApp::new(None, None);
    app.bridge.meters.set_input(points(0.25));
    app.bridge.meters.set_output(points(4.0));
    assert_eq!(app.update_histories(), (points(0.25), points(1.0)));
    assert_eq!(app.input_history.len(), HISTORY_LEN);
    assert_eq!(app.input_history[HISTORY_LEN - 1], points(0.25));
    assert_eq!(app.output_history[HISTORY_LEN - 1], points(1.0));
    assert_eq!(app.input_history[HISTORY_LEN - 2], points(0.0));
    app.bridge.meters.set_input(points(-3.0));
    let (input, output) = app.update_histories();
    assert_eq!((input, output), (points(0.0), points(1.0)));
    assert_eq!(app.input_history[HISTORY_LEN - 1], input);
    assert_eq!(app.output_history[HISTORY_LEN - 1], output);
    assert_eq!(app.output_history.len(), HISTORY_LEN);
}

#[test]
fn cards_adapt_to_their_size() {
    let large = card_layout(points(300.0), points(120.0));
    assert!(large.show_meter);
    assert_eq!((large.title_top, large.title_font, large.name_top), (10, 16, 34));
    assert_eq!((large.name_font, large.name_limit), (13, 84));
    assert_eq!((large.waveform_top, large.waveform_right, large.waveform_bottom), (70, 32, 14));

    let medium = card_layout(points(299.99), points(88.0));
    assert!(medium.show_meter);
    assert_eq!((medium.title_top, medium.title_font, medium.name_top), (6, 14, 24));
    assert_eq!((medium.name_font, medium.name_limit), (11, 42));
    assert_eq!((medium.waveform_top, medium.waveform_bottom), (42, 8));

    let small = card_layout(points(219.5), points(87.9));
    assert!(!small.show_meter);
    assert_eq!((small.name_limit, small.waveform_right), (24, 12));
    assert!(!card_layout(points(239.9), points(200.0)).show_meter);
    assert_eq!(card_layout(points(220.0), points(200.0)).name_limit, 42);
}

#[test]
fn waveforms_adapt_to_their_size() {
    assert!(waveform_fits(points(20.5), points(14.5)));
    assert!(!waveform_fits(points(20.0), points(14.5)));
    assert!(!waveform_fits(points(20.5), points(14.0)));
    assert!(!waveform_fits(points(-5.0), points(100.0)));
    let compact = WaveformStyle { swing: 48, gain: 185, brightness: 100 };
    let roomy = WaveformStyle { swing: 42, gain: 155, brightness: 90 };
    assert_eq!(waveform_style(points(77.9), 2), Some(compact));
    assert_eq!(waveform_style(points(78.0), 180), Some(roomy));
    assert_eq!(waveform_style(points(78.0), 1), None);
}

#[test]
fn the_gap_between_cards() {
    assert_eq!(card_gap(points(71.9)), CardGap::Fixed(14));
    assert_eq!(card_gap(points(72.0)), CardGap::Share { percent: 20, least: 28, most: 72 });
}
