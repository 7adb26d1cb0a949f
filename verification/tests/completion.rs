use zone_complete::complete::{complete_dash_z, complete_zlogin};
use zone_complete::optparse::partial_getopt_parser;
use zone_complete::shell::{escape_string, str_eq, str_lt, str_starts_with, Output};
use zone_complete::sources::{split_lines, split_whitespace_words};

fn words(ws: &[&str]) -> Vec<String> {
    ws.iter().map(|w| w.to_string()).collect()
}

#[test]
fn scanner_too_few_words() {
    let r = partial_getopt_parser(0, &words(&["ps"]), &vec!['z']);
    assert!(r.is_none());
}

#[test]
fn scanner_cursor_on_command_name() {
    let r = partial_getopt_parser(0, &words(&["ps", "-z", ""]), &vec!['z']);
    assert!(r.is_none());
}

#[test]
fn scanner_dash_z_pending() {
    let r = partial_getopt_parser(2, &words(&["ps", "-z", ""]), &vec!['z']).unwrap();
    assert_eq!(r.free_start, 3);
    assert_eq!(r.prev, "-z");
    assert_eq!(r.cur, "");
}

#[test]
fn scanner_double_dash_terminates() {
    let r = partial_getopt_parser(3, &words(&["cmd", "--", "foo", ""]), &vec!['z']).unwrap();
    assert_eq!(r.free_start, 2);
    let r = partial_getopt_parser(3, &words(&["cmd", "--", "foo", ""]), &vec!['f', 'o']).unwrap();
    assert_eq!(r.free_start, 2);
}

#[test]
fn scanner_cluster_consumes_next() {
    let r = partial_getopt_parser(4, &words(&["cmd", "-xz", "next", "free", ""]), &vec!['z'])
        .unwrap();
    assert_eq!(r.free_start, 3);
}

#[test]
fn scanner_lone_dash_is_option_like() {
    let r = partial_getopt_parser(2, &words(&["cmd", "-", ""]), &vec!['z']).unwrap();
    assert_eq!(r.free_start, 3);
    let r = partial_getopt_parser(2, &words(&["cmd", "-", "free"]), &vec!['z']).unwrap();
    assert_eq!(r.free_start, 2);
}

#[test]
fn scanner_empty_words_are_skipped() {
    let r = partial_getopt_parser(1, &words(&["cmd", "", "free"]), &vec!['z']).unwrap();
    assert_eq!(r.free_start, 2);
}

#[test]
fn builder_duplicate_word_collapses() {
    let mut out = Output::new();
    out.add_word("web");
    out.add_word("web");
    let s = out.emit_eval("");
    assert_eq!(s, "COMPREPLY=(\n\t'web'\n)\n\n");
}

#[test]
fn builder_prefix_filter_lexicographic() {
    let mut out = Output::new();
    out.add_word("foo");
    out.add_word("bar");
    out.add_word("foobar");
    let s = out.emit_eval("fo");
    assert_eq!(s, "COMPREPLY=(\n\t'foo'\n\t'foobar'\n)\n\n");
}

#[test]
fn builder_escapes_single_quote() {
    assert_eq!(escape_string("zone's"), "'zone'\"'\"'s'");
    let mut out = Output::new();
    out.add_word("zone's");
    let s = out.emit_eval("");
    assert_eq!(s, "COMPREPLY=(\n\t'zone'\"'\"'s'\n)\n\n");
}

#[test]
fn builder_empty_without_fallback_emits_nothing() {
    let out = Output::new();
    assert_eq!(out.emit_eval("x"), "");
}

#[test]
fn builder_empty_with_fallback_emits_default() {
    let mut out = Output::new();
    out.use_defaults(true);
    assert_eq!(out.emit_eval("x"), "COMPREPLY=( $(compgen -o default -- 'x') )\n");
}

#[test]
fn builder_emit_default() {
    assert_eq!(
        Output::emit_default("xyz"),
        "COMPREPLY=( $(compgen -o default -- 'xyz') )\n"
    );
}

#[test]
fn dash_z_offers_zone_names() {
    let s = complete_dash_z(2, &words(&["ps", "-z", ""]), &words(&["web", "db"]));
    assert!(s.contains("web"));
    assert!(s.contains("db"));
    assert_eq!(s, "COMPREPLY=(\n\t'db'\n\t'web'\n)\n\n");
}

#[test]
fn dash_z_elsewhere_falls_back() {
    let s = complete_dash_z(2, &words(&["ps", "-e", ""]), &words(&["web"]));
    assert_eq!(s, "COMPREPLY=( $(compgen -o default -- '') )\n");
    let s = complete_dash_z(3, &words(&["ps", "-z", "gz", "foo"]), &words(&["web"]));
    assert_eq!(s, "COMPREPLY=( $(compgen -o default -- 'foo') )\n");
}

#[test]
fn dash_z_without_context_is_silent() {
    let s = complete_dash_z(0, &words(&["ps"]), &words(&["web"]));
    assert_eq!(s, "");
}

#[test]
fn zlogin_dash_l_completes_usernames() {
    let s = complete_zlogin(2, &words(&["zlogin", "-l", ""]), &words(&["web"]));
    assert_eq!(s, "COMPREPLY=( $(compgen -u -- '') )\n");
}

#[test]
fn zlogin_dash_e_completes_nothing() {
    let s = complete_zlogin(2, &words(&["zlogin", "-e", ""]), &words(&["web"]));
    assert_eq!(s, "");
}

#[test]
fn zlogin_before_free_start_offers_flags_and_zones() {
    let s = complete_zlogin(1, &words(&["zlogin", ""]), &words(&["web", "db"]));
    assert_eq!(
        s,
        "COMPREPLY=(\n\t'-C'\n\t'-E'\n\t'-Q'\n\t'-S'\n\t'-d'\n\t'-e'\n\t'-l'\n\t'-n'\n\t'db'\n\t'web'\n)\n\n"
    );
}

#[test]
fn zlogin_at_free_start_offers_zones_only() {
    let s = complete_zlogin(1, &words(&["zlogin", "w"]), &words(&["web", "db"]));
    assert_eq!(s, "COMPREPLY=(\n\t'web'\n)\n\n");
}

#[test]
fn zlogin_past_free_args_falls_back() {
    let s = complete_zlogin(3, &words(&["zlogin", "z1", "x", ""]), &words(&["web"]));
    assert_eq!(s, "COMPREPLY=( $(compgen -o default -- '') )\n");
}

#[test]
fn split_lines_basic() {
    assert_eq!(split_lines("web\ndb\n"), vec!["web", "db"]);
    assert_eq!(split_lines("web\ndb"), vec!["web", "db"]);
    assert_eq!(split_lines("a\r\nb"), vec!["a", "b"]);
    assert_eq!(split_lines(""), Vec::<String>::new());
    assert_eq!(split_lines("\n"), vec![""]);
}

#[test]
fn split_whitespace_words_basic() {
    assert_eq!(split_whitespace_words("web db"), vec!["web", "db"]);
    assert_eq!(split_whitespace_words("  web \t db \n"), vec!["web", "db"]);
    assert_eq!(split_whitespace_words(""), Vec::<String>::new());
}

#[test]
fn string_helpers() {
    assert!(str_lt("db", "web"));
    assert!(!str_lt("web", "db"));
    assert!(!str_lt("web", "web"));
    assert!(str_lt("-E", "-d"));
    assert!(str_eq("-z", "-z"));
    assert!(!str_eq("-z", "-x"));
    assert!(str_starts_with("foobar", "fo"));
    assert!(!str_starts_with("fo", "foobar"));
    assert!(str_starts_with("anything", ""));
}
