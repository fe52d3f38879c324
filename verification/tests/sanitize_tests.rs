use seekr::index::{AppEntry, AppIndex, RawEntry};
use seekr::sanitize::get_exec;

fn entry(exec_line: &str, need_terminal: bool, name: &str) -> AppEntry {
    AppEntry {
        exec_line: exec_line.to_string(),
        need_terminal,
        icon: "icon".to_string(),
        name: name.to_string(),
        description: String::new(),
        path: "/usr/share/applications/a.desktop".to_string(),
    }
}

#[test]
fn strips_field_codes_and_trims() {
    assert_eq!(get_exec("firefox %u %U"), "firefox");
    assert_eq!(get_exec("kitty -e vim %f"), "kitty -e vim");
    assert_eq!(get_exec("  spaced   "), "spaced");
    assert_eq!(get_exec(""), "");
}

#[test]
fn strips_codes_uncovered_by_earlier_removals() {
    // removing the inner %f brings a new %f together; that one goes too
    assert_eq!(get_exec("%%ff"), "");
    assert_eq!(get_exec("a%%ffb"), "ab");
}

#[test]
fn keeps_percent_signs_that_are_no_field_codes() {
    assert_eq!(get_exec("dc -e 100%3"), "dc -e 100%3");
    assert_eq!(get_exec("echo 50%"), "echo 50%");
}

#[test]
fn sanitize_is_idempotent_on_samples() {
    for s in ["firefox %u %U", "%%ff", "  a %d b  ", "", "%", "%x%f", "plain"] {
        let once = get_exec(s);
        let twice = get_exec(&once);
        assert_eq!(twice, once);
    }
}

#[test]
fn build_command_without_terminal_is_sanitized_exec() {
    let e = entry("mpv %U", false, "mpv");
    let args: Vec<String> = vec!["-e".to_string()];
    assert_eq!(e.build_command("kitty", &args), "mpv");
}

#[test]
fn build_command_with_terminal_wraps_exec() {
    let e = entry("htop %f", true, "htop");
    let args: Vec<String> = vec!["-e".to_string()];
    assert_eq!(e.build_command("kitty", &args), "kitty -e htop");
    let two: Vec<String> = vec!["-x".to_string(), "-e".to_string()];
    assert_eq!(e.build_command("foot", &two), "foot -x -e htop");
}

#[test]
fn hidden_descriptors_never_enter_the_index() {
    let raws = vec![
        RawEntry {
            exec_line: "shown %u".to_string(),
            need_terminal: false,
            icon: None,
            name: "Shown".to_string(),
            description: String::new(),
            path: "a".to_string(),
            hidden: false,
        },
        RawEntry {
            exec_line: "hidden".to_string(),
            need_terminal: false,
            icon: Some("x".to_string()),
            name: "Hidden".to_string(),
            description: String::new(),
            path: "b".to_string(),
            hidden: true,
        },
        RawEntry {
            exec_line: " %f ".to_string(),
            need_terminal: false,
            icon: None,
            name: "EmptyExec".to_string(),
            description: String::new(),
            path: "c".to_string(),
            hidden: false,
        },
    ];
    let index = AppIndex::build(raws);
    assert_eq!(index.len(), 1);
    assert_eq!(index.get(0).name, "Shown");
    // a descriptor that named no icon gets the generic one
    assert_eq!(index.get(0).icon, "application-x-executable");
}
