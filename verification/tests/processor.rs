use std::collections::VecDeque;
use tagged_text::{ErrorKind, ParseState, ProcessError, Processor, Settings, TextPos};

fn chars(text: &str) -> Vec<char> {
    text.chars().collect()
}

fn text(chars: &VecDeque<char>) -> String {
    chars.iter().collect()
}

fn tags(names: &[&str]) -> Vec<Vec<char>> {
    names.iter().map(|name| name.chars().collect()).collect()
}

fn feed(processor: &mut Processor, input: &str) {
    for ch in input.chars() {
        processor.process_char(ch).unwrap();
    }
}

#[test]
fn position_starts_at_line_one_column_one() {
    assert_eq!(TextPos::new(), TextPos { line: 1, col: 1 });
}

#[test]
fn next_char_moves_one_column() {
    let mut pos = TextPos { line: 3, col: 7 };
    pos.next_char();
    assert_eq!(pos, TextPos { line: 3, col: 8 });
}

#[test]
fn line_break_moves_to_the_next_line() {
    let mut pos = TextPos { line: 3, col: 7 };
    pos.line_break();
    assert_eq!(pos, TextPos { line: 4, col: 1 });
}

#[test]
fn new_processor_is_at_the_start() {
    let settings = Settings { active_tags: vec!["A".to_string()] };
    let processor = Processor::new(&settings);
    assert_eq!(processor.parse_state, ParseState::NormalText);
    assert_eq!(processor.text_pos, TextPos { line: 1, col: 1 });
    assert!(processor.state.active_tags.is_empty());
    assert!(processor.limbo.is_empty());
    assert!(processor.output.is_empty());
    assert_eq!(processor.settings.active_tags, vec!["A".to_string()]);
}

#[test]
fn normal_text_is_written_out() {
    let settings = Settings { active_tags: vec![] };
    let mut processor = Processor::new(&settings);
    assert_eq!(processor.process_char('a'), Ok(()));
    assert_eq!(processor.parse_state, ParseState::NormalText);
    assert_eq!(text(&processor.output), "a");
    assert!(processor.limbo.is_empty());
    assert_eq!(processor.text_pos, TextPos { line: 1, col: 2 });
}

#[test]
fn line_feed_begins_a_line() {
    let settings = Settings { active_tags: vec![] };
    let mut processor = Processor::new(&settings);
    feed(&mut processor, "ab\nc");
    assert_eq!(processor.text_pos, TextPos { line: 2, col: 2 });
    feed(&mut processor, "\n\n");
    assert_eq!(processor.text_pos, TextPos { line: 4, col: 1 });
    feed(&mut processor, "\r\t");
    assert_eq!(processor.text_pos, TextPos { line: 4, col: 3 });
    assert_eq!(text(&processor.output), "ab\nc\n\n\r\t");
}

#[test]
fn first_starter_character_is_held_back() {
    let settings = Settings { active_tags: vec![] };
    let mut processor = Processor::new(&settings);
    feed(&mut processor, "a#");
    assert_eq!(processor.parse_state, ParseState::MaybeEscape);
    assert_eq!(text(&processor.limbo), "#");
    assert_eq!(text(&processor.output), "a");
    assert_eq!(processor.text_pos, TextPos { line: 1, col: 3 });
}

#[test]
fn whole_starter_begins_a_directive() {
    let settings = Settings { active_tags: vec![] };
    let mut processor = Processor::new(&settings);
    feed(&mut processor, "a#{");
    assert_eq!(processor.parse_state, ParseState::Command);
    assert!(processor.limbo.is_empty());
    assert_eq!(text(&processor.output), "a");
    feed(&mut processor, "if(A");
    assert_eq!(processor.parse_state, ParseState::Command);
    assert_eq!(text(&processor.limbo), "if(A");
    assert_eq!(text(&processor.output), "a");
    assert_eq!(processor.text_pos, TextPos { line: 1, col: 8 });
}

#[test]
fn broken_starter_is_written_out() {
    let settings = Settings { active_tags: vec![] };
    let mut processor = Processor::new(&settings);
    feed(&mut processor, "#x");
    assert_eq!(processor.parse_state, ParseState::NormalText);
    assert!(processor.limbo.is_empty());
    assert_eq!(text(&processor.output), "#x");
}

#[test]
fn ender_executes_the_directive() {
    let settings = Settings { active_tags: vec![] };
    let mut processor = Processor::new(&settings);
    feed(&mut processor, "#{if(A, B)}");
    assert_eq!(processor.parse_state, ParseState::NormalText);
    assert!(processor.limbo.is_empty());
    assert_eq!(processor.state.active_tags, tags(&["A", "B"]));
    assert_eq!(processor.text_pos, TextPos { line: 1, col: 12 });
    feed(&mut processor, "hidden");
    assert!(processor.output.is_empty());
}

#[test]
fn refused_directive_leaves_the_processor_as_it_was() {
    let settings = Settings { active_tags: vec![] };
    let mut processor = Processor::new(&settings);
    feed(&mut processor, "a#{if(A)}b#{end(A,B)");
    let result = processor.process_char('}');
    assert_eq!(
        result,
        Err(ProcessError { kind: ErrorKind::TagNotOpen, pos: TextPos { line: 1, col: 21 } })
    );
    assert_eq!(processor.parse_state, ParseState::Command);
    assert_eq!(text(&processor.limbo), "end(A,B)");
    assert_eq!(text(&processor.output), "a");
    assert_eq!(processor.state.active_tags, tags(&["A"]));
    assert_eq!(processor.text_pos, TextPos { line: 1, col: 21 });
}

#[test]
fn process_many_feeds_every_character() {
    let settings = Settings { active_tags: vec!["A".to_string()] };
    let mut processor = Processor::new(&settings);
    assert_eq!(processor.process_many("x#{if(A)}y\n#{if(B)}z#".chars()), Ok(()));
    assert_eq!(text(&processor.output), "xy\n");
    assert_eq!(text(&processor.limbo), "#");
    assert_eq!(processor.parse_state, ParseState::MaybeEscape);
    assert_eq!(processor.state.active_tags, tags(&["A", "B"]));
    assert_eq!(processor.text_pos, TextPos { line: 2, col: 11 });
}

#[test]
fn process_many_takes_any_iterator() {
    let settings = Settings { active_tags: vec![] };
    let mut processor = Processor::new(&settings);
    assert_eq!(processor.process_many(vec!['a', 'b'].into_iter()), Ok(()));
    assert_eq!(processor.process_many(std::iter::empty()), Ok(()));
    assert_eq!(processor.process_many("cd".chars().rev()), Ok(()));
    assert_eq!(text(&processor.output), "abdc");
}

#[test]
fn process_many_stops_before_the_character_that_fails() {
    let settings = Settings { active_tags: vec![] };
    let mut processor = Processor::new(&settings);
    let result = processor.process_many("ab#{end}cd".chars());
    assert_eq!(
        result,
        Err(ProcessError { kind: ErrorKind::NothingToEnd, pos: TextPos { line: 1, col: 8 } })
    );
    assert_eq!(text(&processor.output), "ab");
    assert_eq!(text(&processor.limbo), "end");
    assert_eq!(processor.parse_state, ParseState::Command);
    assert_eq!(processor.text_pos, TextPos { line: 1, col: 8 });
}

#[test]
fn process_text_is_process_many_and_a_last_flush() {
    let settings = Settings { active_tags: vec!["A".to_string()] };
    let template = "x#{if(A)}y#{end}#{if(B)}z#{end}w#{no";
    let mut processor = Processor::new(&settings);
    processor.process_many(template.chars()).unwrap();
    processor.know_nothing_but_hunger();
    let whole = Processor::process_text(template, &settings).unwrap();
    assert_eq!(whole, processor.output);
    assert_eq!(text(&whole), "xywno");
}

#[test]
fn open_regions_are_told() {
    let settings = Settings { active_tags: vec![] };
    let mut processor = Processor::new(&settings);
    assert!(!processor.has_open_regions());
    feed(&mut processor, "a#{if(A,B)}b#{end}");
    assert!(processor.has_open_regions());
    feed(&mut processor, "#{end}");
    assert!(!processor.has_open_regions());
    feed(&mut processor, "#{if(A)}x#{if(B");
    assert!(processor.has_open_regions());
    processor.know_nothing_but_hunger();
    assert!(processor.has_open_regions());
    assert_eq!(text(&processor.output), "aif(B");
}

#[test]
fn flush_moves_what_is_held_back_to_the_output() {
    let settings = Settings { active_tags: vec![] };
    let mut processor = Processor::new(&settings);
    feed(&mut processor, "ab#{cd");
    processor.know_nothing_but_hunger();
    assert_eq!(text(&processor.output), "abcd");
    assert!(processor.limbo.is_empty());
    assert_eq!(processor.parse_state, ParseState::Command);
    assert_eq!(processor.text_pos, TextPos { line: 1, col: 7 });
    processor.know_nothing_but_hunger();
    assert_eq!(text(&processor.output), "abcd");
}

#[test]
fn conditions_are_met_while_every_open_tag_is_active() {
    let settings = Settings { active_tags: vec!["A".to_string(), "C".to_string()] };
    let mut processor = Processor::new(&settings);
    assert!(processor.text_conditions_met());
    processor.do_command(&chars("if(A)")).unwrap();
    assert!(processor.text_conditions_met());
    processor.do_command(&chars("if(C, A)")).unwrap();
    assert!(processor.text_conditions_met());
    processor.do_command(&chars("if(B)")).unwrap();
    assert!(!processor.text_conditions_met());
    processor.do_command(&chars("if(A)")).unwrap();
    assert!(!processor.text_conditions_met());
    processor.do_command(&chars("end(B)")).unwrap();
    assert!(processor.text_conditions_met());
}

#[test]
fn conditions_do_not_depend_on_tags_that_are_not_open() {
    let none = Settings { active_tags: vec![] };
    assert!(Processor::new(&none).text_conditions_met());
    let many = Settings { active_tags: vec!["X".to_string(), "Y".to_string()] };
    let mut processor = Processor::new(&many);
    processor.do_command(&chars("if(Y)")).unwrap();
    assert!(processor.text_conditions_met());
}

#[test]
fn do_command_changes_the_stack_only() {
    let settings = Settings { active_tags: vec![] };
    let mut processor = Processor::new(&settings);
    feed(&mut processor, "ab#{x");
    assert_eq!(processor.do_command(&chars("if(A,B,C)")), Ok(()));
    assert_eq!(processor.state.active_tags, tags(&["A", "B", "C"]));
    assert_eq!(processor.do_command(&chars("end(B)")), Ok(()));
    assert_eq!(processor.state.active_tags, tags(&["A", "C"]));
    assert_eq!(processor.do_command(&chars("end")), Ok(()));
    assert_eq!(processor.state.active_tags, tags(&["A"]));
    assert_eq!(processor.do_command(&chars("nop")), Ok(()));
    assert_eq!(processor.state.active_tags, tags(&["A"]));
    assert_eq!(text(&processor.output), "ab");
    assert_eq!(text(&processor.limbo), "x");
    assert_eq!(processor.parse_state, ParseState::Command);
    assert_eq!(processor.text_pos, TextPos { line: 1, col: 6 });
}

#[test]
fn do_command_reports_the_place_of_the_processor() {
    let settings = Settings { active_tags: vec![] };
    let mut processor = Processor::new(&settings);
    feed(&mut processor, "a\nbc");
    assert_eq!(
        processor.do_command(&chars("what")),
        Err(ProcessError { kind: ErrorKind::UnknownDirective, pos: TextPos { line: 2, col: 3 } })
    );
}

#[test]
fn do_command_that_fails_halfway_changes_nothing() {
    let settings = Settings { active_tags: vec![] };
    let mut processor = Processor::new(&settings);
    processor.do_command(&chars("if(A,B,A)")).unwrap();
    let result = processor.do_command(&chars("end(A,A,A)"));
    assert_eq!(
        result,
        Err(ProcessError { kind: ErrorKind::TagNotOpen, pos: TextPos { line: 1, col: 1 } })
    );
    assert_eq!(processor.state.active_tags, tags(&["A", "B", "A"]));
    assert_eq!(processor.do_command(&chars("end(A,A)")), Ok(()));
    assert_eq!(processor.state.active_tags, tags(&["B"]));
}

#[test]
fn settings_from_a_list() {
    assert_eq!(Settings::from_list("A,B").active_tags, vec!["A".to_string(), "B".to_string()]);
    assert_eq!(Settings::from_list("solved").active_tags, vec!["solved".to_string()]);
    assert_eq!(Settings::from_list(" A , B").active_tags, vec![" A ".to_string(), " B".to_string()]);
    assert_eq!(Settings::from_list("é,ü∀").active_tags, vec!["é".to_string(), "ü∀".to_string()]);
}

#[test]
fn empty_list_names_no_tag() {
    assert!(Settings::from_list("").active_tags.is_empty());
    assert!(Settings::from_list(",").active_tags.is_empty());
    assert!(Settings::from_list(",,,").active_tags.is_empty());
    assert_eq!(Settings::from_list("A,,B,").active_tags, vec!["A".to_string(), "B".to_string()]);
    assert_eq!(Settings::from_list(",A").active_tags, vec!["A".to_string()]);
}

#[test]
fn settings_from_a_list_select_the_variant() {
    let template = "#{if(A)}a#{end}#{if(B)}b#{end}#{if(,)}c";
    let render = |list: &str| -> String {
        Processor::process_text(template, &Settings::from_list(list)).unwrap().iter().collect()
    };
    assert_eq!(render(""), "");
    assert_eq!(render(","), "");
    assert_eq!(render("A"), "a");
    assert_eq!(render("B,A"), "ab");
}

#[test]
fn is_active_looks_for_the_whole_tag() {
    let settings = Settings { active_tags: vec!["ab".to_string(), "c".to_string(), "".to_string()] };
    assert!(settings.is_active(&chars("ab")));
    assert!(settings.is_active(&chars("c")));
    assert!(settings.is_active(&chars("")));
    assert!(!settings.is_active(&chars("a")));
    assert!(!settings.is_active(&chars("abc")));
    assert!(!settings.is_active(&chars("b")));
    assert!(!settings.is_active(&chars("AB")));
    assert!(!Settings { active_tags: vec![] }.is_active(&chars("")));
}
