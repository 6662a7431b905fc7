use stoat::completion::snippet::parse;

fn rendered_text(input: &str) -> String {
    parse(input).render().text
}

#[test]
fn plain_text_round_trips() {
    let r = parse("hello world").render();
    assert_eq!(r.text, "hello world");
    assert_eq!(r.groups.len(), 1);
    assert_eq!(r.groups[0].idx, 0);
}

#[test]
fn bare_tabstop_renders_to_empty_marker() {
    let r = parse("$1").render();
    assert_eq!(r.text, "");
    assert_eq!(r.groups.len(), 2);
    assert_eq!(r.groups[0].idx, 1);
    assert_eq!(r.groups[0].ranges, vec![0..0]);
}

#[test]
fn braced_tabstop_renders_to_empty_marker() {
    let r = parse("${1}").render();
    assert_eq!(r.text, "");
    assert_eq!(r.groups[0].idx, 1);
    assert_eq!(r.groups[0].ranges, vec![0..0]);
}

#[test]
fn placeholder_renders_default_text() {
    let r = parse("${1:foo}").render();
    assert_eq!(r.text, "foo");
    assert_eq!(r.groups[0].idx, 1);
    assert_eq!(r.groups[0].ranges, vec![0..3]);
}

#[test]
fn multiple_tabstops_visited_in_ascending_order() {
    let r = parse("${1:fn}(${2:arg}) -> ${3:Result}").render();
    assert_eq!(r.text, "fn(arg) -> Result");
    let idxs: Vec<u32> = r.groups.iter().map(|g| g.idx).collect();
    assert_eq!(idxs, vec![1, 2, 3, 0]);
    assert_eq!(r.groups[0].ranges, vec![0..2]);
    assert_eq!(r.groups[1].ranges, vec![3..6]);
    assert_eq!(r.groups[2].ranges, vec![11..17]);
}

#[test]
fn linked_tabstop_groups_repeated_indexes() {
    let r = parse("${1:x} ${1}").render();
    assert_eq!(r.text, "x ");
    assert_eq!(r.groups[0].idx, 1);
    assert_eq!(r.groups[0].ranges, vec![0..1, 2..2]);
}

#[test]
fn dollar_zero_is_explicit_exit() {
    let r = parse("println!(${1:msg})$0").render();
    assert_eq!(r.text, "println!(msg)");
    let last = r.groups.last().unwrap();
    assert_eq!(last.idx, 0);
    assert_eq!(last.ranges, vec![13..13]);
}

#[test]
fn missing_dollar_zero_uses_text_end_as_exit() {
    let r = parse("foo${1:bar}baz").render();
    assert_eq!(r.text, "foobarbaz");
    let last = r.groups.last().unwrap();
    assert_eq!(last.idx, 0);
    assert_eq!(last.ranges, vec![9..9]);
}

#[test]
fn escape_dollar_inserts_literal() {
    assert_eq!(rendered_text(r"price: \$5"), "price: $5");
}

#[test]
fn escape_brace_inserts_literal() {
    assert_eq!(rendered_text(r"\}"), "}");
}

#[test]
fn escape_backslash_inserts_literal() {
    assert_eq!(rendered_text(r"a\\b"), r"a\b");
}

#[test]
fn unsupported_choice_falls_through_to_text() {
    let r = parse("${1|a,b|}").render();
    assert!(r.text.contains("|a,b|") || r.text.contains("a,b"));
}

#[test]
fn unterminated_brace_falls_through_to_text() {
    let r = parse("${1:foo").render();
    assert_eq!(r.text, "${1:foo");
    assert_eq!(r.groups.len(), 1);
    assert_eq!(r.groups[0].idx, 0);
}

#[test]
fn dollar_at_eof_is_literal() {
    assert_eq!(rendered_text("end$"), "end$");
}

#[test]
fn multibyte_default_keeps_byte_offsets_correct() {
    let r = parse("${1:resume}: ${2:done}").render();
    assert_eq!(r.text, "resume: done");
    assert_eq!(r.groups[0].ranges, vec![0..6]);
    assert_eq!(r.groups[1].ranges, vec![8..12]);
}

#[test]
fn nested_braces_stay_inside_the_default() {
    let r = parse("${1:a{b}c}d").render();
    assert_eq!(r.text, "a{b}cd");
    assert_eq!(r.groups[0].ranges, vec![0..5]);
}

#[test]
fn escaped_closing_brace_does_not_close_the_default() {
    let r = parse(r"${1:a\}b}").render();
    assert_eq!(r.text, "a}b");
    assert_eq!(r.groups[0].ranges, vec![0..3]);
}

#[test]
fn tabstop_number_out_of_range_is_text() {
    let r = parse("$4294967296").render();
    assert_eq!(r.text, "$4294967296");
    let r = parse("$4294967295").render();
    assert_eq!(r.text, "");
    assert_eq!(r.groups[0].idx, 4294967295);
}

#[test]
fn ranges_count_bytes() {
    let r = parse("é${1:ü}$2").render();
    assert_eq!(r.text, "éü");
    assert_eq!(r.groups[0].ranges, vec![2..4]);
    assert_eq!(r.groups[1].ranges, vec![4..4]);
}

#[test]
fn the_last_explicit_exit_counts() {
    let r = parse("$0a$0").render();
    assert_eq!(r.groups.len(), 1);
    assert_eq!(r.groups[0].ranges, vec![1..1]);
}

#[test]
fn a_backslash_before_anything_else_stays() {
    assert_eq!(rendered_text(r"a\qb"), r"a\qb");
    assert_eq!(rendered_text(r"a\"), r"a\");
}

#[test]
fn an_exit_with_a_default_is_still_one_place() {
    let r = parse("a${0:foo}b").render();
    assert_eq!(r.text, "afoob");
    assert_eq!(r.groups.len(), 1);
    assert_eq!(r.groups[0].ranges, vec![1..1]);
}
