use hadron::app::{HadronApp, UsbToUi, MAX_LOG_LINES};
use hadron::cli::parse_cfgfile_arg;
use hadron::config::Config;
use hadron::logging::{log_line_at, timestamp};

#[test]
fn new_app_state() {
    let a: HadronApp<u8> = HadronApp::new();
    assert_eq!(a.status, "Starting Hadron...");
    assert!(a.show_logs);
    assert!(a.log_lines.is_empty() && a.selected.is_empty() && a.add_folder.is_none());
}

#[test]
fn messages_change_the_state() {
    let mut a: HadronApp<u8> = HadronApp::new();
    a.receive(UsbToUi::Status("Connected".to_string()));
    assert_eq!(a.status, "Connected");
    a.receive(UsbToUi::Log("hello".to_string()));
    assert_eq!(a.log_lines, vec!["hello".to_string()]);
    a.receive(UsbToUi::PickFile(7));
    assert_eq!(a.pending_picker, Some(7));
}

#[test]
fn log_keeps_last_2000_lines() {
    let mut a: HadronApp<u8> = HadronApp::new();
    for i in 0..2005 {
        a.receive(UsbToUi::Log(format!("line {i}")));
    }
    assert_eq!(a.log_lines.len(), MAX_LOG_LINES);
    assert_eq!(a.log_lines[0], "line 5");
    assert_eq!(a.log_lines[MAX_LOG_LINES - 1], "line 2004");
}

#[test]
fn selection_toggles() {
    let mut a: HadronApp<u8> = HadronApp::new();
    a.toggle_selection(2);
    a.toggle_selection(0);
    a.toggle_selection(2);
    assert_eq!(a.selected, vec![0]);
}

#[test]
fn toggling_twice_restores_selection() {
    let mut a: HadronApp<u8> = HadronApp::new();
    a.toggle_selection(4);
    a.toggle_selection(1);
    let before = a.selected.clone();
    a.toggle_selection(7);
    assert_eq!(a.selected, vec![4, 1, 7]);
    a.toggle_selection(7);
    assert_eq!(a.selected, before);
}

#[test]
fn adding_a_path() {
    let mut cfg = Config::empty("/cfg".to_string());
    let mut a: HadronApp<u8> = HadronApp::new();
    a.begin_add("/data/games".to_string(), "games".to_string());
    a.add_name = "  Games  ".to_string();
    assert!(a.commit_add(&mut cfg));
    assert!(a.add_folder.is_none() && a.add_name.is_empty());
    assert_eq!(cfg.entries(), vec![("Games".to_string(), "/data/games".to_string())]);

    a.begin_add("/x".to_string(), "   ".to_string());
    assert!(!a.commit_add(&mut cfg));
    assert!(a.add_folder.is_none());
    assert_eq!(cfg.len(), 1);

    a.begin_add("/y".to_string(), "Y".to_string());
    a.cancel_add();
    assert!(a.add_folder.is_none() && a.add_name.is_empty());
}

#[test]
fn removing_selected_paths() {
    let mut cfg = Config::empty(String::new());
    cfg.add("a", "/a");
    cfg.add("b", "/b");
    cfg.add("c", "/c");
    let mut a: HadronApp<u8> = HadronApp::new();
    a.refresh_paths(&cfg);
    assert_eq!(a.special_paths.len(), 3);
    assert!(!a.remove_selected(&mut cfg));
    a.toggle_selection(2);
    a.toggle_selection(9);
    a.toggle_selection(0);
    assert!(a.remove_selected(&mut cfg));
    assert!(a.selected.is_empty());
    assert_eq!(cfg.entries(), vec![("b".to_string(), "/b".to_string())]);
    a.toggle_selection(9);
    assert!(!a.remove_selected(&mut cfg));
    assert_eq!(a.selected, vec![9]);
}

#[test]
fn timestamps_format_the_time_of_day() {
    assert_eq!(timestamp(9, 5, 7, 0).as_deref(), Some("[09:05:07] "));
    assert_eq!(timestamp(0, 0, 0, 999_999_999).as_deref(), Some("[00:00:00] "));
    assert_eq!(timestamp(23, 59, 59, 1_500_000_000).as_deref(), Some("[23:59:60] "));
    assert_eq!(timestamp(24, 0, 0, 0), None);
    assert_eq!(timestamp(1, 60, 0, 0), None);
    assert_eq!(timestamp(1, 2, 58, 1_000_000_000), None);
    assert_eq!(timestamp(1, 2, 3, 2_000_000_000), None);
}

#[test]
fn log_lines_end_with_the_message() {
    let l = log_line_at(timestamp(12, 34, 56, 0), "USB Product: 'Goldleaf'");
    assert_eq!(l, "[12:34:56] USB Product: 'Goldleaf'");
}

#[test]
fn log_lines_are_stamped_when_a_time_is_known() {
    assert_eq!(log_line_at(Some("[01:02:03] ".to_string()), "hello"), "[01:02:03] hello");
    assert_eq!(log_line_at(None, "hello"), "hello");
}

#[test]
fn cfgfile_argument() {
    let args = |v: &[&str]| v.iter().map(|s| s.to_string()).collect::<Vec<String>>();
    assert_eq!(parse_cfgfile_arg(&args(&["hadron"])), None);
    assert_eq!(
        parse_cfgfile_arg(&args(&["hadron", "--cfgfile", "/a.cfg"])),
        Some("/a.cfg".to_string())
    );
    assert_eq!(
        parse_cfgfile_arg(&args(&["hadron", "-x", "-cfgfile", "b.cfg"])),
        Some("b.cfg".to_string())
    );
    assert_eq!(
        parse_cfgfile_arg(&args(&["hadron", "--cfgfile=c.cfg", "--cfgfile", "d"])),
        Some("c.cfg".to_string())
    );
    assert_eq!(parse_cfgfile_arg(&args(&["hadron", "--cfgfile"])), None);
    assert_eq!(parse_cfgfile_arg(&args(&["--cfgfile", "skipped"])), None);
    assert_eq!(parse_cfgfile_arg(&args(&["hadron", "--cfgfile="])), Some(String::new()));
}
