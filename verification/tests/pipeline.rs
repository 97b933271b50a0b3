//! End-to-end checks of the selection pipeline on concrete values.

use bswitcher::entries::id_query;
use bswitcher::entries::pair_entries;
use bswitcher::entries::recent_first_unique;
use bswitcher::model::Action;
use bswitcher::model::Entry;
use bswitcher::model::OrderedEntry;
use bswitcher::model::PipelineError;
use bswitcher::model::RenderedLine;
use bswitcher::model::SortPolicy;
use bswitcher::order::menu_entries;
use bswitcher::order::order_entries;
use bswitcher::select::decide_selection;
use bswitcher::select::display_lines;
use bswitcher::select::menu_text;
use bswitcher::select::resolve;

fn strings(v: &[&str]) -> Vec<String> {
    v.iter().map(|s| s.to_string()).collect()
}

fn entry(id: &str, title: &str) -> Entry {
    Entry { id: id.to_string(), title: title.to_string() }
}

fn id_titles(es: &[OrderedEntry]) -> Vec<(usize, String, String)> {
    es.iter().map(|e| (e.position, e.id.clone(), e.title.clone())).collect()
}

fn line(text: &str, id: &str) -> RenderedLine {
    RenderedLine { text: text.to_string(), id: id.to_string() }
}

#[test]
fn dedup_keeps_most_recent_occurrence_first() {
    // Raw history is most-recent-last; reversed and deduplicated
    // keep-first, [a, b, a, c, b] becomes [b, c, a].
    let raw = strings(&["a", "b", "a", "c", "b"]);
    assert_eq!(recent_first_unique(&raw), strings(&["b", "c", "a"]));
}

#[test]
fn dedup_of_empty_history_is_empty() {
    assert_eq!(recent_first_unique(&strings(&[])), strings(&[]));
}

#[test]
fn dedup_without_repeats_only_reverses() {
    let raw = strings(&["1", "2", "3"]);
    assert_eq!(recent_first_unique(&raw), strings(&["3", "2", "1"]));
}

#[test]
fn id_query_joins_with_single_spaces() {
    assert_eq!(id_query(&strings(&["10", "2", "7"])), "10 2 7");
    assert_eq!(id_query(&strings(&["10"])), "10");
    assert_eq!(id_query(&strings(&[])), "");
}

#[test]
fn pairing_drops_blank_titles() {
    let ids = strings(&["1", "2", "3"]);
    let titles = strings(&["one", "", "three"]);
    let es = pair_entries(&ids, &titles).unwrap();
    let got: Vec<(String, String)> = es.into_iter().map(|e| (e.id, e.title)).collect();
    assert_eq!(
        got,
        vec![("1".to_string(), "one".to_string()), ("3".to_string(), "three".to_string())]
    );
}

#[test]
fn pairing_with_fewer_titles_is_a_resolution_mismatch() {
    let ids = strings(&["1", "2", "3"]);
    let titles = strings(&["one", "two"]);
    assert_eq!(pair_entries(&ids, &titles).unwrap_err(), PipelineError::ResolutionMismatch);
}

#[test]
fn mismatch_never_yields_a_menu() {
    // The whole ordering stage refuses a title-count mismatch, so the
    // picker can never be reached with a partial menu.
    let ids = strings(&["1", "2"]);
    let titles = strings(&["one"]);
    let r = menu_entries(&ids, &titles, SortPolicy::FocusHistory);
    assert_eq!(r.unwrap_err(), PipelineError::ResolutionMismatch);
}

#[test]
fn focus_history_rotates_most_recent_to_the_end() {
    // Most-recent-first [X, Y, Z] becomes [Y, Z, X] under FocusHistory.
    let es = vec![entry("x", "X"), entry("y", "Y"), entry("z", "Z")];
    let ordered = order_entries(es, SortPolicy::FocusHistory);
    assert_eq!(
        id_titles(&ordered),
        vec![
            (0, "y".to_string(), "Y".to_string()),
            (1, "z".to_string(), "Z".to_string()),
            (2, "x".to_string(), "X".to_string()),
        ]
    );
}

#[test]
fn focus_history_current_first_keeps_order() {
    let es = vec![entry("x", "X"), entry("y", "Y"), entry("z", "Z")];
    let ordered = order_entries(es, SortPolicy::FocusHistoryCurrentFirst);
    assert_eq!(
        id_titles(&ordered),
        vec![
            (0, "x".to_string(), "X".to_string()),
            (1, "y".to_string(), "Y".to_string()),
            (2, "z".to_string(), "Z".to_string()),
        ]
    );
}

#[test]
fn focus_history_of_single_entry_stays_put() {
    let ordered = order_entries(vec![entry("x", "X")], SortPolicy::FocusHistory);
    assert_eq!(id_titles(&ordered), vec![(0, "x".to_string(), "X".to_string())]);
}

#[test]
fn ordering_of_nothing_is_nothing() {
    assert!(order_entries(Vec::new(), SortPolicy::FocusHistory).is_empty());
    assert!(order_entries(Vec::new(), SortPolicy::Alphabetical).is_empty());
}

#[test]
fn alphabetical_sorts_case_insensitively_and_stably() {
    // ["Banana", "apple", "Apple"] sorts to ["apple", "Apple", "Banana"],
    // the two apples keeping their original relative order.
    let es = vec![entry("1", "Banana"), entry("2", "apple"), entry("3", "Apple")];
    let ordered = order_entries(es, SortPolicy::Alphabetical);
    assert_eq!(
        id_titles(&ordered),
        vec![
            (0, "2".to_string(), "apple".to_string()),
            (1, "3".to_string(), "Apple".to_string()),
            (2, "1".to_string(), "Banana".to_string()),
        ]
    );
}

#[test]
fn creation_sorts_by_identifier_value() {
    // Identifiers compare by numeric value, not by text: 2 before 10.
    let es = vec![entry("10", "a"), entry("2", "b"), entry("1", "c")];
    let ordered = order_entries(es, SortPolicy::Creation);
    let ids: Vec<String> = ordered.into_iter().map(|e| e.id).collect();
    assert_eq!(ids, strings(&["1", "2", "10"]));
}

#[test]
fn creation_keeps_equal_valued_identifiers_stable() {
    // Leading zeros do not change the value; equal values keep their
    // pre-sort order, and texts without a digit head all read as zero.
    let es = vec![entry("007", "a"), entry("7", "b"), entry("abc", "c"), entry("0", "d")];
    let ordered = order_entries(es, SortPolicy::Creation);
    let ids: Vec<String> = ordered.into_iter().map(|e| e.id).collect();
    assert_eq!(ids, strings(&["abc", "0", "007", "7"]));
}

#[test]
fn positions_are_independent_of_the_reverse_flag() {
    // The same (position, text, id) triples show up under both flag
    // values; only the presentation order flips.
    let lines = vec![line("0 - a", "1"), line("1 - b", "2"), line("2 - c", "3")];
    let plain = display_lines(&lines, false);
    let flipped = display_lines(&lines, true);
    let mut plain_pairs: Vec<(String, String)> =
        plain.iter().map(|l| (l.text.clone(), l.id.clone())).collect();
    let mut flipped_pairs: Vec<(String, String)> =
        flipped.iter().map(|l| (l.text.clone(), l.id.clone())).collect();
    assert_eq!(flipped_pairs[0], ("2 - c".to_string(), "3".to_string()));
    plain_pairs.sort();
    flipped_pairs.sort();
    assert_eq!(plain_pairs, flipped_pairs);
}

#[test]
fn menu_text_ends_each_line_with_a_separator() {
    let lines = vec![line("a", "1"), line("b", "2")];
    assert_eq!(menu_text(&lines), "a\nb\n");
    assert_eq!(menu_text(&Vec::new()), "");
}

#[test]
fn round_trip_resolves_each_line_to_its_own_id() {
    let lines = vec![line("alpha", "1"), line("beta", "2"), line("gamma", "3")];
    for l in &lines {
        assert_eq!(resolve(&lines, &l.text).as_deref(), Some(l.id.as_str()));
    }
}

#[test]
fn duplicate_text_resolves_to_the_first_line_in_display_order() {
    let lines = vec![line("same", "1"), line("same", "2"), line("other", "3")];
    assert_eq!(resolve(&lines, &"same".to_string()).as_deref(), Some("1"));
}

#[test]
fn unknown_text_does_not_resolve() {
    let lines = vec![line("a", "1")];
    assert_eq!(resolve(&lines, &"b".to_string()), None);
}

#[test]
fn cancellation_never_focuses() {
    let shown = vec![line("a", "1")];
    // Non-zero selector exit: a clean cancellation.
    assert_eq!(decide_selection(false, &"a\n".to_string(), &shown), Ok(Action::Cancel));
    // Empty selector output: a clean cancellation as well.
    assert_eq!(decide_selection(true, &String::new(), &shown), Ok(Action::Cancel));
}

#[test]
fn a_picked_line_is_focused() {
    let shown = vec![line("0 - a", "17"), line("1 - b", "29")];
    // The picker echoes the chosen line with a trailing separator.
    let r = decide_selection(true, &"1 - b\n".to_string(), &shown);
    assert_eq!(r, Ok(Action::Focus("29".to_string())));
}

#[test]
fn text_the_picker_was_never_given_is_a_fatal_error() {
    let shown = vec![line("0 - a", "17")];
    let r = decide_selection(true, &"mystery\n".to_string(), &shown);
    assert_eq!(r.unwrap_err(), PipelineError::SelectionNotFound);
}

#[test]
fn error_descriptions_name_the_stage() {
    assert_eq!(
        PipelineError::ResolutionMismatch.describe(),
        "title resolver returned a different number of titles than identifiers"
    );
    assert_eq!(PipelineError::RenderFailure.describe(), "template or filter evaluation failed");
    assert_eq!(
        PipelineError::SelectionNotFound.describe(),
        "selector returned text that matches no rendered line"
    );
}

#[test]
fn full_run_focuses_the_picked_window() {
    // One whole run with synthetic collaborator outputs: history dump,
    // resolved titles, per-entry expansion outputs, picker choice.
    let state = "{\"focusHistory\":[{\"nodeId\":1},{\"nodeId\":2},{\"nodeId\":3},{\"nodeId\":2}]}";
    let raw = bswitcher::history::history_ids(state).unwrap();
    assert_eq!(raw, strings(&["1", "2", "3", "2"]));

    let ids = recent_first_unique(&raw);
    assert_eq!(ids, strings(&["2", "3", "1"]));
    assert_eq!(id_query(&ids), "2 3 1");

    // The title resolver answers one line per identifier; "3" is blank.
    let titles = bswitcher::render::split_lines("Beta\n\nAlpha\n");
    let ordered = menu_entries(&ids, &titles, SortPolicy::FocusHistory).unwrap();
    assert_eq!(
        id_titles(&ordered),
        vec![
            (0, "1".to_string(), "Alpha".to_string()),
            (1, "2".to_string(), "Beta".to_string()),
        ]
    );

    // Each entry's template expansion succeeded with one output line.
    let outputs = ["0 - Alpha\n", "1 - Beta\n"];
    let mut lines = Vec::new();
    for (e, out) in ordered.iter().zip(outputs.iter()) {
        lines.push(bswitcher::render::finish_render(true, out, e.id.clone()).unwrap());
    }

    let shown = display_lines(&lines, true);
    assert_eq!(menu_text(&shown), "1 - Beta\n0 - Alpha\n");

    let r = decide_selection(true, &"0 - Alpha\n".to_string(), &shown);
    assert_eq!(r, Ok(Action::Focus("1".to_string())));
}
