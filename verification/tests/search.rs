use regx::{is_match, CompileError, MatchError, Regx};

#[test]
fn one_or_more_needs_one_occurrence() {
    assert_eq!(is_match("a+", ""), Ok(false));
    assert_eq!(is_match("a+", "aaa"), Ok(true));
    assert_eq!(is_match("a+", "b"), Ok(false));
}

#[test]
fn zero_or_one_may_match_nothing() {
    assert_eq!(is_match("a?b", "b"), Ok(true));
    assert_eq!(is_match("a?b", "ab"), Ok(true));
    assert_eq!(is_match("a?b", "aab"), Ok(true));
}

#[test]
fn negated_class_rejects_its_members() {
    assert_eq!(is_match("[^abc]", "d"), Ok(true));
    assert_eq!(is_match("[^abc]", "a"), Ok(false));
    assert_eq!(is_match("[^abc]", "cab"), Ok(false));
    assert_eq!(is_match("[^abc]", "cabd"), Ok(true));
}

#[test]
fn group_captures_the_alternative_that_matched() {
    let mut regx = Regx::new("I have a dog", "(cat|dog)").unwrap();
    assert!(regx.matches());
    assert_eq!(regx.capture(1).map(|s| s.as_str()), Ok("dog"));
    assert_eq!(regx.capture(2), Err(MatchError::InvalidBackreference(2)));
    assert_eq!(regx.capture(0), Err(MatchError::InvalidBackreference(0)));
}

#[test]
fn back_reference_repeats_the_capture() {
    assert_eq!(is_match("(\\w+) and \\1", "cat and cat"), Ok(true));
    assert_eq!(is_match("(\\w+) and \\1", "cat and dog"), Ok(false));
}

#[test]
fn unknown_escape_is_an_error_and_no_mismatch() {
    assert_eq!(is_match("\\q", "q"), Err(CompileError::UnsupportedEscape('q')));
    assert_eq!(is_match("\\q", ""), Err(CompileError::UnsupportedEscape('q')));
    assert!(Regx::new("anything", "\\q").is_err());
}

#[test]
fn single_literal_matches_where_the_input_holds_it() {
    for c in ['a', 'z', ' ', '\\', '[', ']', '+', '?', '|', ')', '-', 'é', '1'] {
        for input in [
            "", "a", "xyz", "a+b", "[x]", "back\\slash", "what?", "a|b", "f(x)", "né", "1 2",
        ] {
            assert_eq!(
                is_match(&c.to_string(), input),
                Ok(input.contains(c)),
                "pattern {c:?} on {input:?}"
            );
        }
    }
}

#[test]
fn start_anchor_asks_for_a_prefix() {
    assert_eq!(is_match("^abc", "abc"), Ok(true));
    assert_eq!(is_match("^abc", "abcdef"), Ok(true));
    assert_eq!(is_match("^abc", "xabc"), Ok(false));
    assert_eq!(is_match("^abc", "ab"), Ok(false));
    assert_eq!(is_match("^abc", ""), Ok(false));
    assert_eq!(is_match("^abc", "abxabc"), Ok(false));
}

#[test]
fn end_anchor_asks_for_a_suffix() {
    assert_eq!(is_match("abc$", "abc"), Ok(true));
    assert_eq!(is_match("abc$", "xyzabc"), Ok(true));
    assert_eq!(is_match("abc$", "abcx"), Ok(false));
    assert_eq!(is_match("abc$", "abcabc"), Ok(true));
    assert_eq!(is_match("abc$", "bc"), Ok(false));
    assert_eq!(is_match("abc$", ""), Ok(false));
    assert_eq!(is_match("abc$", "abc\n"), Ok(false));
}

#[test]
fn both_anchors_ask_for_the_whole_input() {
    assert_eq!(is_match("^abc$", "abc"), Ok(true));
    assert_eq!(is_match("^abc$", "abcabc"), Ok(false));
    assert_eq!(is_match("^abc$", "xabc"), Ok(false));
    assert_eq!(is_match("^a+$", "aaaa"), Ok(true));
    assert_eq!(is_match("^a+$", "aaab"), Ok(false));
}

#[test]
fn empty_pattern_matches_every_input() {
    assert_eq!(is_match("", ""), Ok(true));
    assert_eq!(is_match("", "a"), Ok(true));
    assert_eq!(is_match("", "any line at all"), Ok(true));
}

#[test]
fn empty_input_matches_what_needs_no_character() {
    assert_eq!(is_match("a?", ""), Ok(true));
    assert_eq!(is_match("a?b?", ""), Ok(true));
    assert_eq!(is_match("()", ""), Ok(true));
    assert_eq!(is_match("(a|)", ""), Ok(true));
    assert_eq!(is_match("(a?)+", ""), Ok(true));
    assert_eq!(is_match("^$", ""), Ok(true));
    assert_eq!(is_match("^", ""), Ok(true));
    assert_eq!(is_match("$", ""), Ok(true));
    assert_eq!(is_match("a", ""), Ok(false));
    assert_eq!(is_match(".", ""), Ok(false));
    assert_eq!(is_match("\\d", ""), Ok(false));
    assert_eq!(is_match("\\w", ""), Ok(false));
    assert_eq!(is_match("[^a]", ""), Ok(false));
    assert_eq!(is_match("a?b", ""), Ok(false));
    assert_eq!(is_match("(a)", ""), Ok(false));
    assert_eq!(is_match("(a|b)", ""), Ok(false));
    assert_eq!(is_match("\\1", ""), Ok(false));
}

#[test]
fn attempts_start_before_the_end_of_the_line() {
    assert_eq!(is_match("$", "a"), Ok(false));
    assert_eq!(is_match("b?$", "a"), Ok(false));
    assert_eq!(is_match("b?$", "ab"), Ok(true));
    assert_eq!(is_match("^$", "a"), Ok(false));
}

#[test]
fn end_anchor_that_fails_does_not_end_the_search() {
    assert_eq!(is_match("a$", "aba"), Ok(true));
    assert_eq!(is_match("ab$", "abcab"), Ok(true));
}

#[test]
fn start_anchor_allows_one_attempt() {
    assert_eq!(is_match("^b", "ab"), Ok(false));
    assert_eq!(is_match("^a", "ab"), Ok(true));
    assert_eq!(is_match("^(a|b)c", "bc"), Ok(true));
    assert_eq!(is_match("^(a|b)c", "abc"), Ok(false));
}

#[test]
fn quantifier_gives_nothing_back() {
    assert_eq!(is_match("a+a", "aaa"), Ok(false));
    assert_eq!(is_match("a+b", "aaab"), Ok(true));
    assert_eq!(is_match(".+c", "abc"), Ok(false));
    assert_eq!(is_match("a?a", "a"), Ok(false));
    assert_eq!(is_match("a?a", "aa"), Ok(true));
}

#[test]
fn group_is_not_tried_again_when_a_later_node_fails() {
    assert_eq!(is_match("^(a|ab)c", "abc"), Ok(false));
    assert_eq!(is_match("^(ab|a)c", "abc"), Ok(true));
    assert_eq!(is_match("^(ab|a)c", "ac"), Ok(true));
}

#[test]
fn digits_and_word_characters() {
    assert_eq!(is_match("\\d", "apple123"), Ok(true));
    assert_eq!(is_match("\\d", "apple"), Ok(false));
    assert_eq!(is_match("\\w", "_"), Ok(true));
    assert_eq!(is_match("\\w", "-+=?"), Ok(false));
    assert_eq!(is_match("\\d\\d\\d apples", "sally has 124 apples"), Ok(true));
    assert_eq!(is_match("\\d \\w\\w\\ws", "sally has 1 dog"), Ok(false));
    assert_eq!(is_match("\\d\\\\d\\\\d", "4\\d\\d"), Ok(true));
}

#[test]
fn classes() {
    assert_eq!(is_match("[abc]", "apple"), Ok(true));
    assert_eq!(is_match("[abc]", "dog"), Ok(false));
    assert_eq!(is_match("[^xyz]", "xyz"), Ok(false));
    assert_eq!(is_match("[^xyz]+z", "xabz"), Ok(true));
    assert_eq!(is_match("[^xyz]+t", "xyzwt"), Ok(false));
    assert_eq!(is_match("gr[ae]y", "grey"), Ok(true));
    assert_eq!(is_match("gr[ae]y", "groy"), Ok(false));
}

#[test]
fn alternatives_need_a_group() {
    assert_eq!(is_match("a|b", "a"), Ok(false));
    assert_eq!(is_match("a|b", "b"), Ok(false));
    assert_eq!(is_match("a|b", "xa|by"), Ok(true));
    assert_eq!(is_match("(a|b)", "b"), Ok(true));
    assert_eq!(is_match("f(x)", "fx"), Ok(true));
    assert_eq!(is_match("^x)$", "x)"), Ok(true));
}

#[test]
fn wildcard() {
    assert_eq!(is_match("d.g", "dog"), Ok(true));
    assert_eq!(is_match("d.g", "dg"), Ok(false));
    assert_eq!(is_match("c.t", "cat"), Ok(true));
    assert_eq!(is_match("...", "ab"), Ok(false));
}

#[test]
fn input_is_walked_by_characters() {
    assert_eq!(is_match("é", "héllo"), Ok(true));
    assert_eq!(is_match("h.l", "hél"), Ok(true));
    assert_eq!(is_match("^..$", "éé"), Ok(true));
    assert_eq!(is_match("llo$", "héllo"), Ok(true));
}

#[test]
fn groups_and_back_references() {
    assert_eq!(is_match("(\\d+) (\\w+) squares and \\1 \\2 circles", "3 red squares and 3 red circles"), Ok(true));
    assert_eq!(is_match("(\\d+) (\\w+) squares and \\1 \\2 circles", "3 red squares and 4 red circles"), Ok(false));
    assert_eq!(is_match("(a|b)\\1", "aa"), Ok(true));
    assert_eq!(is_match("(a|b)\\1", "ab"), Ok(false));
    assert_eq!(is_match("^(a|b)\\1$", "bb"), Ok(true));
    assert_eq!(is_match("a (cat|dog) and \\1s", "a dog and dogs"), Ok(true));
    assert_eq!(is_match("a (cat|dog) and \\1s", "a dog and cats"), Ok(false));
}

#[test]
fn back_reference_without_a_capture_fails_the_attempt() {
    assert_eq!(is_match("\\1", "a"), Ok(false));
    assert_eq!(is_match("\\1(a)", "aa"), Ok(false));
    assert_eq!(is_match("(a)\\2", "aa"), Ok(false));
    assert_eq!(is_match("(a)\\0", "aa"), Ok(false));
    assert_eq!(is_match("\\1?a", "a"), Ok(true));
    assert_eq!(is_match("(\\1|a)b", "ab"), Ok(true));
}

#[test]
fn captured_text_is_read_as_a_pattern() {
    assert_eq!(is_match("(..) \\1", ".+ abc"), Ok(true));
    assert_eq!(is_match("^(...) \\1$", "a.c abc"), Ok(true));
    assert_eq!(is_match("^(...) \\1$", "abc a.c"), Ok(false));
    assert_eq!(is_match("(..)-\\1", "\\q-\\q"), Ok(false));
    assert_eq!(is_match("^(.)\\1$", ".x"), Ok(true));
}

#[test]
fn group_in_a_captured_text_takes_a_slot() {
    let mut regx = Regx::new("(a|b)=b", "([^=]+)=\\1").unwrap();
    assert!(regx.matches());
    assert_eq!(regx.capture(1).map(|s| s.as_str()), Ok("(a|b)"));
    assert_eq!(regx.capture(2).map(|s| s.as_str()), Ok("b"));
    assert_eq!(regx.capture(3), Err(MatchError::InvalidBackreference(3)));
}

#[test]
fn back_reference_that_reads_itself_does_not_match() {
    assert_eq!(is_match("(\\\\1)\\1", "\\1\\1"), Ok(false));
    assert_eq!(is_match("(\\\\1)\\1", "\\1"), Ok(false));
    assert_eq!(is_match("(\\\\1)\\1?x", "\\1x"), Ok(true));
}

#[test]
fn slots_are_numbered_as_groups_match() {
    let mut regx = Regx::new("ab", "((a)b)").unwrap();
    assert!(regx.matches());
    assert_eq!(regx.capture(1).map(|s| s.as_str()), Ok("a"));
    assert_eq!(regx.capture(2).map(|s| s.as_str()), Ok("ab"));
    assert_eq!(is_match("^((a)b)\\1\\2$", "abaab"), Ok(true));
    assert_eq!(is_match("^((a)b)\\2\\1$", "ababa"), Ok(true));
}

#[test]
fn each_attempt_starts_with_an_empty_table() {
    let mut regx = Regx::new("aXab", "(a)b").unwrap();
    assert!(regx.matches());
    assert_eq!(regx.capture(1).map(|s| s.as_str()), Ok("a"));
    assert_eq!(regx.capture(2), Err(MatchError::InvalidBackreference(2)));
    assert_eq!(is_match("(a)x|\\1", "ab"), Ok(false));
    assert_eq!(is_match("(a)c\\1", "ab aca"), Ok(true));
}

#[test]
fn first_attempt_that_succeeds_decides() {
    let mut regx = Regx::new("xba", "(a|b)").unwrap();
    assert!(regx.matches());
    assert_eq!(regx.capture(1).map(|s| s.as_str()), Ok("b"));
}

#[test]
fn search_without_a_match_leaves_no_capture() {
    let mut regx = Regx::new("ab", "(a)c").unwrap();
    assert!(!regx.matches());
    assert_eq!(regx.capture(1), Err(MatchError::InvalidBackreference(1)));
}

#[test]
fn table_is_empty_before_the_first_search() {
    let regx = Regx::new("a", "(a)").unwrap();
    assert_eq!(regx.capture(1), Err(MatchError::InvalidBackreference(1)));
}

#[test]
fn searching_again_gives_the_same_answer() {
    let mut regx = Regx::new("cat and cat", "(\\w+) and \\1").unwrap();
    assert!(regx.matches());
    assert!(regx.match_pattern());
    assert!(regx.matches());
    assert_eq!(regx.capture(1).map(|s| s.as_str()), Ok("cat"));
    assert_eq!(regx.capture(2), Err(MatchError::InvalidBackreference(2)));
    let mut other = Regx::new("cat and dog", "(\\w+) and \\1").unwrap();
    assert!(!other.matches());
    assert!(!other.match_pattern());
}

#[test]
fn two_compilations_match_alike() {
    let pattern = "^(\\w+)[^ab]?x\\1$";
    for input in ["catxcat", "cat!xcat", "cataxcat", "", "x"] {
        let mut first = Regx::new(input, pattern).unwrap();
        let mut second = Regx::new(input, pattern).unwrap();
        assert_eq!(first.matches(), second.matches());
        assert_eq!(Ok(first.matches()), is_match(pattern, input));
    }
}

#[test]
fn long_line_is_searched_to_its_end() {
    let mut input = "ab".repeat(20_000);
    input.push('c');
    assert_eq!(is_match("bc$", &input), Ok(true));
    assert_eq!(is_match("(a|b)+c", &input), Ok(true));
    assert_eq!(is_match("^(ab)+$", &input), Ok(false));
}
