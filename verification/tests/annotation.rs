use volumen::annotation::{compute_comment_inner_offsets, marker_status, parse_annotation};

#[test]
fn basic() {
    assert_eq!(parse_annotation("@prompt"), Some(true));
    assert_eq!(parse_annotation(" @prompt "), Some(true));
    assert_eq!(parse_annotation("@prompt greeting"), Some(true));
    assert_eq!(parse_annotation("greeting @prompt"), Some(true));
}

#[test]
fn extra() {
    assert_eq!(parse_annotation("@prompt for user greeting"), Some(true));
    assert_eq!(parse_annotation("This is a @prompt comment"), Some(true));
    assert_eq!(parse_annotation("* @prompt"), Some(true));
    assert_eq!(parse_annotation("*@prompt"), Some(true));
    assert_eq!(parse_annotation("* @prompt greeting"), Some(true));
    assert_eq!(parse_annotation("  * @prompt  "), Some(true));
}

#[test]
fn case() {
    assert_eq!(parse_annotation("@PROMPT"), Some(true));
    assert_eq!(parse_annotation("@Prompt"), Some(true));
    assert_eq!(parse_annotation("@PrOmPt"), Some(true));
    assert_eq!(parse_annotation("* @PROMPT"), Some(true));
    assert_eq!(parse_annotation("@PROMPT for testing"), Some(true));
    assert_eq!(parse_annotation("@Prompt with mixed case"), Some(true));
}

#[test]
fn inexact() {
    assert_eq!(parse_annotation("@prompting"), Some(false));
    assert_eq!(parse_annotation("my@prompt"), Some(false));
    assert_eq!(parse_annotation("@prompter"), Some(false));
    assert_eq!(parse_annotation("@prompt_var"), Some(false));
    assert_eq!(parse_annotation("* @prompting"), Some(false));
    assert_eq!(parse_annotation("* my@prompt"), Some(false));
}

#[test]
fn unrelated_text() {
    assert_eq!(parse_annotation("regular comment"), None);
    assert_eq!(parse_annotation("* This is documentation"), None);
    assert_eq!(parse_annotation("TODO: fix this"), None);
    assert_eq!(parse_annotation(""), None);
    assert_eq!(parse_annotation("   "), None);
}

#[test]
fn punctuation() {
    assert_eq!(parse_annotation("@prompt!"), Some(true));
    assert_eq!(parse_annotation("@prompt."), Some(true));
    assert_eq!(parse_annotation("@prompt,"), Some(true));
    assert_eq!(parse_annotation("(@prompt)"), Some(true));
}

#[test]
fn repeating() {
    assert_eq!(parse_annotation("@prompt for @prompt usage"), Some(true));
}

#[test]
fn marker_status_needs_lowercase_input() {
    assert_eq!(marker_status("@PROMPT"), None);
    assert_eq!(marker_status("@prompt"), Some(true));
    assert_eq!(marker_status("x@prompt"), Some(false));
    assert_eq!(marker_status("@promptx"), Some(false));
}

#[test]
fn marker_later_occurrence_counts() {
    assert_eq!(parse_annotation("@prompting then @prompt"), Some(true));
}

#[test]
fn comment_inner_offsets() {
    assert_eq!(compute_comment_inner_offsets("/// doc"), (3, 7));
    assert_eq!(compute_comment_inner_offsets("// line"), (2, 7));
    assert_eq!(compute_comment_inner_offsets("/** doc */"), (3, 8));
    assert_eq!(compute_comment_inner_offsets("/* block */"), (2, 9));
    assert_eq!(compute_comment_inner_offsets("# hash"), (1, 6));
    assert_eq!(compute_comment_inner_offsets("'''doc'''"), (3, 6));
    assert_eq!(compute_comment_inner_offsets("\"\"\"doc\"\"\""), (3, 6));
    assert_eq!(compute_comment_inner_offsets("plain"), (0, 5));
    assert_eq!(compute_comment_inner_offsets("/* open"), (0, 7));
    assert_eq!(compute_comment_inner_offsets(""), (0, 0));
}

#[test]
fn marker_after_non_ascii_letter() {
    assert_eq!(parse_annotation("é@prompt"), Some(false));
    assert_eq!(parse_annotation("é @promptx"), Some(false));
    assert_eq!(parse_annotation("é @prompt"), Some(true));
}

#[test]
fn any_valid_marker_counts() {
    assert_eq!(parse_annotation("my@prompt @prompt"), Some(true));
    assert_eq!(parse_annotation("@prompting @prompt"), Some(true));
    assert_eq!(parse_annotation("@prompting my@prompt"), Some(false));
}

#[test]
fn comment_inner_offsets_are_ordered() {
    assert_eq!(compute_comment_inner_offsets("/**/"), (2, 2));
    assert_eq!(compute_comment_inner_offsets("/*/"), (1, 1));
    assert_eq!(compute_comment_inner_offsets("'''"), (0, 0));
    assert_eq!(compute_comment_inner_offsets("\"\"\"\"\""), (2, 2));
    assert_eq!(compute_comment_inner_offsets("/* x */"), (2, 5));
}
