use seekr::conf::{Config, GeneralConf};
use seekr::locale::get_locale;

fn defaults() -> GeneralConf {
    GeneralConf::default_with("Search".to_string())
}

#[test]
fn default_values() {
    let d = defaults();
    assert_eq!(d.theme, "Adwaita");
    assert_eq!(d.terminal, "kitty");
    assert_eq!(d.args, vec!["-e".to_string()]);
    assert_eq!(d.search_placeholder, "Search");
}

#[test]
fn parses_the_general_section() {
    let text = "[general]\ntheme = Nordic\nterminal=foot\nargs = -x -e\nsearch_placeholder = Type here\n";
    let c = Config::get_conf(text, defaults());
    assert_eq!(c.theme, "Nordic");
    assert_eq!(c.terminal, "foot");
    assert_eq!(c.args, vec!["-x".to_string(), "-e".to_string()]);
    assert_eq!(c.search_placeholder, "Type here");
}

#[test]
fn keys_outside_general_are_ignored() {
    let text = "theme = Early\n[general]\ntheme = Kept\n[other]\nterminal = Wrong\n";
    let c = Config::get_conf(text, defaults());
    assert_eq!(c.theme, "Kept");
    assert_eq!(c.terminal, "kitty");
}

#[test]
fn malformed_lines_and_unknown_keys_are_skipped() {
    let text = "[general]\nnot a property\nmystery = value\n[broken\ntheme = Ok\n; note\n# note\n";
    let c = Config::get_conf(text, defaults());
    assert_eq!(c.theme, "Ok");
    assert_eq!(c.terminal, "kitty");
}

#[test]
fn missing_file_content_keeps_defaults() {
    let c = Config::get_conf("", defaults());
    assert_eq!(c.theme, "Adwaita");
    assert_eq!(c.terminal, "kitty");
    assert_eq!(c.args, vec!["-e".to_string()]);
}

#[test]
fn args_splitting_drops_extra_spaces() {
    let c = Config::get_conf("[general]\nargs =  -a   -b \n", defaults());
    assert_eq!(c.args, vec!["-a".to_string(), "-b".to_string()]);
}

#[test]
fn config_assembles_parsed_parts() {
    let c = Config::assemble(defaults(), "window {}".to_string());
    assert_eq!(c.general.theme, "Adwaita");
    assert_eq!(c.css, "window {}");
}

#[test]
fn locale_picks_the_first_prefix_match() {
    let avail = vec!["en".to_string(), "fr".to_string()];
    assert_eq!(get_locale("fr_FR.UTF-8", &avail), "fr");
    assert_eq!(get_locale("en_US.UTF-8", &avail), "en");
    assert_eq!(get_locale("de_DE.UTF-8", &avail), "en");
    let ordered = vec!["fr".to_string(), "fr_CA".to_string()];
    assert_eq!(get_locale("fr_CA.UTF-8", &ordered), "fr");
    let empty: Vec<String> = Vec::new();
    assert_eq!(get_locale("fr_FR.UTF-8", &empty), "en");
}
