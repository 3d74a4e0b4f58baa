use rewatch::cmd::parse_command;
use rewatch::logs::{escape_colours, get_log_file_path, Location};
use rewatch::text::split_whitespace;

#[test]
fn commands_split_at_white_space() {
    assert_eq!(
        parse_command("  say  -v\tdone\n"),
        Some(("say".to_string(), vec!["-v".to_string(), "done".to_string()]))
    );
    assert_eq!(parse_command("ls"), Some(("ls".to_string(), vec![])));
    assert_eq!(parse_command(" \u{3000} "), None);
    assert_eq!(split_whitespace("a\u{a0}b  c"), vec!["a", "b", "c"]);
}

#[test]
fn log_files() {
    assert_eq!(get_log_file_path(Location::Bs, "/p"), "/p/lib/bs/.compiler.log");
    assert_eq!(get_log_file_path(Location::Ocaml, "/p"), "/p/lib/ocaml/.compiler.log");
}

#[test]
fn colours_are_removed_from_logs() {
    assert_eq!(escape_colours("\u{1b}[31mred\u{1b}[0m text").unwrap(), "red text");
    assert_eq!(escape_colours("plain").unwrap(), "plain");
}
