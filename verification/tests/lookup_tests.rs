use thesaurus::lookup::{find_synonyms, longest_synonym, read_synonyms};

fn dict() -> &'static str {
    "ISO8859-1\n\
     zurdo|1\n\
     -|izquierdo|siniestro\n\
     fotografía|1\n\
     (adj)|retrato|foto\n\
     zarza|1\n\
     -|zarzamora\n\
     granel|2\n\
     -|abundante\n\
     -|copioso|suelto\n\
     greda|1\n\
     -|arcilla|gres|marga|arcilla\n\
     mesa|1\n\
     -|mueble|tabla\n"
}

#[test]
fn it_finds_synonyms_for_a_known_term() {
    assert_eq!(vec!["izquierdo", "siniestro"], find_synonyms(dict(), "zurdo"));
    assert_eq!(vec!["retrato", "foto"], find_synonyms(dict(), "fotografía"));
    assert_eq!(vec!["zarzamora"], find_synonyms(dict(), "zarza"));
}

#[test]
fn it_reads_synonyms_in_multiple_lines() {
    let synonyms = find_synonyms(dict(), "granel");
    assert_eq!(vec!["abundante", "copioso", "suelto"], synonyms);
}

#[test]
fn it_sorts_by_longest_first_and_removes_duplicates() {
    assert_eq!(vec!["arcilla", "marga", "gres"], find_synonyms(dict(), "greda"));
}

#[test]
fn it_gets_the_longest_synonym() {
    assert_eq!(Some("abundante".to_string()), longest_synonym(dict(), "granel"));
    assert_eq!(Some("arcilla".to_string()), longest_synonym(dict(), "greda"));
}

#[test]
fn it_returns_none_if_no_synonym_was_found() {
    assert_eq!(None, longest_synonym(dict(), "noexiste"));
}

#[test]
fn it_returns_an_empty_list_for_an_absent_term() {
    let synonyms = find_synonyms(dict(), "noexiste");
    assert!(synonyms.is_empty());
}

#[test]
fn it_returns_the_same_result_when_called_twice() {
    let first = find_synonyms(dict(), "granel");
    let second = find_synonyms(dict(), "granel");
    assert_eq!(first, second);
}

#[test]
fn it_reads_the_block_after_a_given_newline_position() {
    // The newline before "zurdo" is the tenth character of the fixture.
    let synonyms = read_synonyms(dict(), 9);
    assert_eq!(vec!["izquierdo", "siniestro"], synonyms);
}

#[test]
fn it_finds_nothing_in_an_empty_dictionary() {
    assert!(find_synonyms("", "zurdo").is_empty());
    assert_eq!(None, longest_synonym("", "zurdo"));
}

#[test]
fn it_matches_the_first_entry_whose_line_starts_with_the_term() {
    // Substring match: "zarz" first matches at the start of the
    // "zarza" header line, whose entry is then read.
    assert_eq!(vec!["zarzamora"], find_synonyms(dict(), "zarz"));
}

#[test]
fn it_stops_collecting_at_an_empty_line() {
    let text = "x\ncorte|1\n-|tajo|cisura\n\n-|filo\n";
    assert_eq!(vec!["cisura", "tajo"], find_synonyms(text, "corte"));
}

#[test]
fn it_stops_collecting_at_an_unmarked_line() {
    let text = "x\ncorte|1\n-|tajo\nfilo|1\n-|arista\n";
    assert_eq!(vec!["tajo"], find_synonyms(text, "corte"));
}

#[test]
fn it_yields_no_words_for_a_body_line_without_separator() {
    let text = "x\nsolo|1\n-\n";
    assert!(find_synonyms(text, "solo").is_empty());
}

#[test]
fn it_keeps_duplicates_separated_by_a_word_of_equal_length() {
    // Adjacent-only dedup: after the stable sort the two "aa" are still
    // separated by "bb", so both survive.
    let text = "x\npar|1\n-|aa|bb|aa\n";
    assert_eq!(vec!["aa", "bb", "aa"], find_synonyms(text, "par"));
}

#[test]
fn it_keeps_the_original_order_of_words_of_equal_length() {
    let text = "x\nterna|1\n-|uno|dos|t\n-|res\n";
    assert_eq!(vec!["uno", "dos", "res", "t"], find_synonyms(text, "terna"));
}

#[test]
fn it_reads_an_entry_whose_last_line_has_no_trailing_newline() {
    let text = "x\ncorte|1\n-|tajo|cisura";
    assert_eq!(vec!["cisura", "tajo"], find_synonyms(text, "corte"));
}
