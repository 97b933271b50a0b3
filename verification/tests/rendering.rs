//! Checks of the line renderer and of the history decoding.

use bswitcher::history::history_ids;
use bswitcher::model::OrderedEntry;
use bswitcher::model::PipelineError;
use bswitcher::render::escape_title;
use bswitcher::render::finish_render;
use bswitcher::render::first_line_of;
use bswitcher::render::render_command;
use bswitcher::render::render_commands;
use bswitcher::render::split_lines;

fn entry(position: usize, id: &str, title: &str) -> OrderedEntry {
    OrderedEntry { position, id: id.to_string(), title: title.to_string() }
}

#[test]
fn single_quotes_are_substituted() {
    assert_eq!(escape_title("don't"), format!("don{}t", '\u{2019}'));
    assert_eq!(escape_title("''"), format!("{q}{q}", q = '\u{2019}'));
    assert_eq!(escape_title("plain"), "plain");
    assert_eq!(escape_title(""), "");
}

#[test]
fn render_command_binds_the_three_named_values() {
    let e = entry(12, "77", "My 'Doc'");
    let cmd = render_command(&e, "$line_number - $xtitle", 34, None);
    let expected = format!(
        "\nline_number='12'\nxtitle='My {q}Doc{q}'\nnumber_of_nodes='34'\necho \"$line_number - $xtitle\" ",
        q = '\u{2019}'
    );
    assert_eq!(cmd, expected);
}

#[test]
fn render_command_appends_the_post_filter_pipe() {
    let e = entry(0, "5", "title");
    let cmd = render_command(&e, "$xtitle", 1, Some("sed s/a/b/"));
    let expected =
        "\nline_number='0'\nxtitle='title'\nnumber_of_nodes='1'\necho \"$xtitle\" | sed s/a/b/";
    assert_eq!(cmd, expected);
}

#[test]
fn first_line_stops_at_the_separator() {
    assert_eq!(first_line_of("abc\ndef"), "abc");
    assert_eq!(first_line_of("abc"), "abc");
    assert_eq!(first_line_of("\nabc"), "");
    assert_eq!(first_line_of(""), "");
}

#[test]
fn split_lines_gives_one_title_per_line() {
    assert_eq!(split_lines("one\ntwo\n"), vec!["one".to_string(), "two".to_string()]);
    assert_eq!(split_lines("one\n\nthree"), vec!["one".to_string(), String::new(), "three".to_string()]);
    assert_eq!(split_lines(""), Vec::<String>::new());
    assert_eq!(split_lines("\n"), vec![String::new()]);
}

#[test]
fn a_failed_expansion_is_fatal() {
    let r = finish_render(false, "ignored", "9".to_string());
    assert_eq!(r.unwrap_err(), PipelineError::RenderFailure);
}

#[test]
fn a_successful_expansion_keeps_its_first_output_line() {
    let l = finish_render(true, "0 - Editor\ntrailing noise", "9".to_string()).unwrap();
    assert_eq!(l.text, "0 - Editor");
    assert_eq!(l.id, "9");
}

#[test]
fn history_ids_reads_the_focus_history_dump() {
    let state = "{\"focusHistory\":[{\"nodeId\":5},{\"nodeId\":\"0x2A\"},{\"monitorId\":1}],\"clientsCount\":3}";
    let ids = history_ids(state).unwrap();
    assert_eq!(ids, vec!["5".to_string(), "\"0x2A\"".to_string(), "null".to_string()]);
}

#[test]
fn an_unreadable_dump_yields_no_history() {
    assert!(history_ids("not json at all").is_none());
    assert!(history_ids("{\"somethingElse\":[]}").is_none());
    assert!(history_ids("{\"focusHistory\":42}").is_none());
}

#[test]
fn an_empty_focus_history_is_an_empty_id_list() {
    assert_eq!(history_ids("{\"focusHistory\":[]}").unwrap(), Vec::<String>::new());
}

#[test]
fn escaping_leaves_multibyte_titles_intact() {
    let title = format!("na\u{ef}ve 'quote'");
    assert_eq!(escape_title(&title), format!("na\u{ef}ve {q}quote{q}", q = '\u{2019}'));
}

#[test]
fn first_line_handles_multibyte_text() {
    assert_eq!(first_line_of("\u{3b1}\u{3b2}\n\u{3b3}"), "\u{3b1}\u{3b2}");
}

#[test]
fn render_commands_bind_count_and_positions() {
    let es = vec![entry(0, "5", "A"), entry(1, "6", "B")];
    let cmds = render_commands(&es, "$xtitle", None);
    assert_eq!(
        cmds,
        vec![
            "\nline_number='0'\nxtitle='A'\nnumber_of_nodes='2'\necho \"$xtitle\" ".to_string(),
            "\nline_number='1'\nxtitle='B'\nnumber_of_nodes='2'\necho \"$xtitle\" ".to_string(),
        ]
    );
}
