use reflow::{clean, normalize_spaces, remove_border_pipes, should_break_before};

#[test]
fn blank_inputs_give_nothing() {
    assert_eq!(clean(""), "");
    assert_eq!(clean("   "), "");
    assert_eq!(clean("\n\n\t"), "");
}

#[test]
fn bullets_stand_alone() {
    assert_eq!(
        clean("Intro line\n- item one\n- item two"),
        "Intro line\n- item one\n- item two"
    );
}

#[test]
fn wrapped_lines_rejoin() {
    assert_eq!(
        clean("this wraps\nonto the next line\n\nNew Para starts"),
        "this wraps onto the next line\n\nNew Para starts"
    );
}

#[test]
fn border_pipes_are_stripped() {
    assert_eq!(clean("| some boxed text |"), "some boxed text");
}

#[test]
fn glyphs_vanish_without_a_trace() {
    assert_eq!(clean("a\u{2502}b"), "ab");
    assert_eq!(clean("\u{2503}x\u{254F}y\u{254E}z\u{258C}"), "xyz");
}

#[test]
fn cleaning_twice_changes_nothing() {
    let inputs = [
        "this wraps\nonto the next line\n\n\n\nNew Para starts\n\n",
        "Intro line\n- item one\n  continued\n- item two",
        "  12. first\n13. second\n\n\n42 + added\n7 - removed",
        "\u{2502} boxed \u{2502}\n\u{2502} text  here \u{2502}",
        "> quoted\n> more\tquoted",
    ];
    for x in inputs {
        let once = clean(x);
        assert_eq!(clean(&once), once);
    }
}

#[test]
fn blank_lines_collapse() {
    assert_eq!(clean("a\n\n\n\nb"), "a\n\nb");
    assert_eq!(clean("\n\n a \n\n\n"), "a");
    assert_eq!(clean("one\n \n\t\n \ntwo"), "one\n\ntwo");
}

#[test]
fn whitespace_runs_collapse() {
    assert_eq!(clean("a \t  b   c"), "a b c");
    assert_eq!(clean("x\u{3000}\u{a0}y"), "x y");
}

#[test]
fn crlf_lines_merge() {
    assert_eq!(clean("line one\r\nline two\r\n"), "line one line two");
}

#[test]
fn lowercase_continuations_merge() {
    assert_eq!(clean("first part\nsecond part\nthird"), "first part second part third");
}

#[test]
fn capitalised_lines_open_blocks() {
    assert_eq!(clean("intro\nThen more\nand more"), "intro\nThen more and more");
    assert_eq!(clean("intro\nHTML page"), "intro HTML page");
}

#[test]
fn quote_and_pipe_frames() {
    assert_eq!(clean("> quoted text"), "quoted text");
    assert_eq!(remove_border_pipes("> | text |"), "| text");
    assert_eq!(remove_border_pipes("  | a | b |  \n>x"), "a | b\nx");
    assert_eq!(remove_border_pipes("a\n"), "a");
    assert_eq!(remove_border_pipes(""), "");
}

#[test]
fn mid_line_pipes_stay() {
    assert_eq!(clean("use a | b here"), "use a | b here");
}

#[test]
fn break_classifier_rules() {
    assert!(should_break_before("- item"));
    assert!(should_break_before("* item"));
    assert!(should_break_before("\u{2022} item"));
    assert!(should_break_before("\u{25E6} item"));
    assert!(should_break_before("   - indented"));
    assert!(should_break_before("12. twelfth"));
    assert!(should_break_before("1.5 litres"));
    assert!(!should_break_before("12 apples"));
    assert!(!should_break_before("12a. x"));
    assert!(should_break_before("42 + added line"));
    assert!(should_break_before("7-x"));
    assert!(should_break_before("3 \t- gone"));
    assert!(!should_break_before("3 = three"));
    assert!(should_break_before("Hello there"));
    assert!(should_break_before("\u{c9}cole"));
    assert!(!should_break_before("HELLO"));
    assert!(!should_break_before("hello"));
    assert!(!should_break_before("H"));
    assert!(should_break_before("\u{1F4CC} pinned"));
    assert!(should_break_before("\u{27A1} next"));
    assert!(!should_break_before("plain text"));
    assert!(!should_break_before(""));
}

#[test]
fn numbered_and_diff_lines_stand_alone() {
    assert_eq!(clean("steps\n1. one\n2. two"), "steps\n1. one\n2. two");
    assert_eq!(clean("context\n10 + new\n11 - old"), "context\n10 + new\n11 - old");
    assert_eq!(clean("\u{2728} done\nwith it"), "\u{2728} done with it");
}

#[test]
fn normalize_spaces_collapses_and_trims() {
    assert_eq!(normalize_spaces("  a \n\t b  "), "a b");
    assert_eq!(normalize_spaces(""), "");
    assert_eq!(normalize_spaces("   "), "");
    assert_eq!(normalize_spaces("x\u{2003}\u{2003}y"), "x y");
}

#[test]
fn glyph_only_input_gives_nothing() {
    assert_eq!(clean("\u{2502}\u{2502}\n\u{2503}"), "");
}

#[test]
fn single_layer_of_frame_is_removed() {
    let once = clean("| | a");
    assert_eq!(once, "| a");
    assert_eq!(clean(&once), "a");
    assert_eq!(clean(">> quoted"), "> quoted");
}

#[test]
fn output_lines_are_well_formed() {
    let inputs = [
        "\n\n  Intro\n\n\n- one\n\n\n\n  two \t three  \n\n",
        "| a |\n|   |\n| b |\n\n\n",
        "x\u{2502}\u{2502}y\n\n\u{2503}\n\nz",
    ];
    for x in inputs {
        let out = clean(x);
        let lines: Vec<&str> = out.split('\n').collect();
        assert!(!lines[0].is_empty());
        assert!(!lines[lines.len() - 1].is_empty());
        for w in lines.windows(2) {
            assert!(!(w[0].is_empty() && w[1].is_empty()));
        }
        for l in &lines {
            assert_eq!(l.trim(), *l);
            assert!(!l.contains("  "));
            assert!(l.chars().all(|c| c == ' ' || !c.is_whitespace()));
        }
    }
}
