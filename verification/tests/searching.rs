use stella_aho_corasick_core::{AhoCorasick, Error, Match, MatchKind, Options, StreamMatcher};

fn strings(items: &[&str]) -> Vec<String> {
    items.iter().map(|s| String::from(*s)).collect()
}

fn searcher(items: &[&str], options: Options) -> AhoCorasick {
    match AhoCorasick::new(strings(items), options) {
        Ok(ac) => ac,
        Err(e) => panic!("building failed: {}", e.message()),
    }
}

fn prepared_error(bytes: &[u8]) -> String {
    match AhoCorasick::from_prepared(bytes) {
        Ok(_) => String::from("accepted"),
        Err(e) => e.message(),
    }
}

fn whole_words() -> Options {
    Options { whole_words: true, ..Options::default() }
}

#[test]
fn default_options_are_leftmost_first_case_sensitive_unicode() {
    let o = Options::default();
    assert_eq!(o.match_kind, MatchKind::LeftmostFirst);
    assert!(!o.case_insensitive);
    assert!(!o.dfa);
    assert!(!o.whole_words);
    assert!(o.unicode_boundaries);
}

#[test]
fn leftmost_first_prefers_the_earlier_pattern() {
    let ac = searcher(&["ab", "a", "abcd"], Options::default());
    assert_eq!(ac.find_iter_packed_bytes("abcd").unwrap(), vec![0, 0, 2]);
}

#[test]
fn leftmost_longest_prefers_the_longest_pattern() {
    let options = Options { match_kind: MatchKind::LeftmostLongest, ..Options::default() };
    let ac = searcher(&["ab", "a", "abcd"], options);
    assert_eq!(ac.find_iter_packed_bytes("abcd").unwrap(), vec![2, 0, 4]);
}

#[test]
fn matches_are_reported_left_to_right_without_overlap() {
    let ac = searcher(&["aa"], Options::default());
    assert_eq!(ac.find_iter_packed_bytes("aaaaa").unwrap(), vec![0, 0, 2, 0, 2, 4]);
}

#[test]
fn no_patterns_find_nothing() {
    let ac = searcher(&[], Options::default());
    assert_eq!(ac.pattern_count(), 0);
    assert!(ac.find_iter_packed("anything").unwrap().is_empty());
    assert!(!ac.is_match("anything").unwrap());
    assert!(ac.find_iter_buf(b"anything").is_empty());
}

#[test]
fn pattern_count_counts_repeated_patterns() {
    let ac = searcher(&["a", "b", "a"], Options::default());
    assert_eq!(ac.pattern_count(), 3);
}

#[test]
fn repeated_pattern_reports_its_first_index() {
    let ac = searcher(&["x", "a", "a"], Options::default());
    assert_eq!(ac.find_iter_packed_bytes("a").unwrap(), vec![1, 0, 1]);
}

#[test]
fn case_insensitive_patterns_are_deduplicated_after_folding() {
    let options = Options { case_insensitive: true, ..Options::default() };
    let ac = searcher(&["ABC", "abc"], options);
    assert_eq!(ac.find_iter_packed_bytes("xAbC").unwrap(), vec![0, 1, 4]);
}

#[test]
fn case_insensitive_folds_dotted_capital_i() {
    let options = Options { case_insensitive: true, ..Options::default() };
    let ac = searcher(&["istanbul"], options);
    // `İ` is two bytes but folds to the one-byte `i`; offsets refer to the original.
    assert_eq!(ac.find_iter_packed_bytes("Visit İstanbul").unwrap(), vec![0, 6, 15]);
    assert_eq!(ac.find_iter_packed("Visit İstanbul").unwrap(), vec![0, 6, 14]);
}

#[test]
fn case_insensitive_folds_non_ascii_letters() {
    let options = Options { case_insensitive: true, ..Options::default() };
    let ac = searcher(&["straße"], options);
    assert_eq!(ac.find_iter_packed_bytes("STRAßE").unwrap(), vec![0, 0, 7]);
    let greek = searcher(&["σοφία"], options);
    assert!(greek.is_match("ΣΟΦΊΑ").unwrap());
}

#[test]
fn case_sensitive_search_does_not_fold() {
    let ac = searcher(&["abc"], Options::default());
    assert!(!ac.is_match("ABC").unwrap());
    assert!(ac.is_match("xabc").unwrap());
}

#[test]
fn utf16_offsets_count_surrogate_pairs() {
    let ac = searcher(&["b"], Options::default());
    assert_eq!(ac.find_iter_packed("😀b").unwrap(), vec![0, 2, 3]);
    assert_eq!(ac.find_iter_packed_bytes("😀b").unwrap(), vec![0, 4, 5]);
}

#[test]
fn utf16_offsets_accumulate_over_several_matches() {
    let ac = searcher(&["é", "z"], Options::default());
    assert_eq!(ac.find_iter_packed("aéz😀é").unwrap(), vec![0, 1, 2, 1, 2, 3, 0, 5, 6]);
}

#[test]
fn whole_words_skip_matches_inside_words() {
    let ac = searcher(&["cat"], whole_words());
    assert_eq!(ac.find_iter_packed("cat concat cats cat").unwrap(), vec![0, 0, 3, 0, 16, 19]);
    assert!(ac.is_match("a cat").unwrap());
    assert!(!ac.is_match("concatenate").unwrap());
}

#[test]
fn whole_words_take_the_longest_match_at_a_start() {
    let ac = searcher(&["new", "new york"], whole_words());
    assert_eq!(ac.find_iter_packed("new york").unwrap(), vec![1, 0, 8]);
    assert_eq!(ac.find_iter_packed_bytes("in new york").unwrap(), vec![1, 3, 11]);
}

#[test]
fn whole_words_skip_candidates_inside_a_chosen_match() {
    let ac = searcher(&["a b", "b c"], whole_words());
    assert_eq!(ac.find_iter_packed_bytes("a b c").unwrap(), vec![0, 0, 3]);
}

#[test]
fn whole_words_report_the_first_index_of_folded_duplicates() {
    let options = Options { case_insensitive: true, whole_words: true, ..Options::default() };
    let ac = searcher(&["x", "Go", "go"], options);
    assert_eq!(ac.find_iter_packed_bytes("let's go").unwrap(), vec![1, 6, 8]);
}

#[test]
fn unicode_boundaries_treat_letters_of_any_script_as_word_characters() {
    let ac = searcher(&["idea"], whole_words());
    assert!(ac.find_iter_packed("нетidea ok").unwrap().is_empty());
    let ascii = searcher(&["idea"], Options { unicode_boundaries: false, ..whole_words() });
    assert_eq!(ascii.find_iter_packed("нетidea ok").unwrap(), vec![0, 3, 7]);
}

#[test]
fn cjk_matches_need_no_surrounding_spaces() {
    let ac = searcher(&["東京"], whole_words());
    assert_eq!(ac.find_iter_packed("東京タワー").unwrap(), vec![0, 0, 2]);
    assert_eq!(ac.find_iter_packed_bytes("行く東京").unwrap(), vec![0, 6, 12]);
}

#[test]
fn overlapping_search_reports_every_occurrence() {
    let ac = searcher(&["ab", "bc"], Options::default());
    assert_eq!(ac.find_overlapping_iter_packed_bytes("abc").unwrap(), vec![0, 0, 2, 1, 1, 3]);
    assert_eq!(ac.find_overlapping_iter_packed("abc").unwrap(), vec![0, 0, 2, 1, 1, 3]);
}

#[test]
fn overlapping_search_uses_utf16_offsets() {
    let ac = searcher(&["ä", "b"], Options::default());
    assert_eq!(ac.find_overlapping_iter_packed("äb").unwrap(), vec![0, 0, 1, 1, 1, 2]);
    assert_eq!(ac.find_overlapping_iter_packed_bytes("äb").unwrap(), vec![0, 0, 2, 1, 2, 3]);
    let astral = searcher(&["😀", "x"], Options::default());
    assert_eq!(astral.find_overlapping_iter_packed("x😀x").unwrap(), vec![1, 0, 1, 0, 1, 3, 1, 3, 4]);
}

#[test]
fn overlapping_search_with_whole_words_keeps_only_whole_words() {
    let ac = searcher(&["cat", "cats"], whole_words());
    assert_eq!(ac.find_overlapping_iter_packed_bytes("cats cat").unwrap(), vec![1, 0, 4, 0, 5, 8]);
}

#[test]
fn replace_all_replaces_each_match_by_its_pattern() {
    let ac = searcher(&["cat", "dog"], Options::default());
    let out = ac.replace_all("cat and dog", &strings(&["dog", "cat"])).unwrap();
    assert_eq!(out, "dog and cat");
}

#[test]
fn replace_all_with_whole_words() {
    let ac = searcher(&["cat"], whole_words());
    assert_eq!(ac.replace_all("cat concat cat.", &strings(&["X"])).unwrap(), "X concat X.");
}

#[test]
fn replace_all_keeps_text_around_folded_matches() {
    let options = Options { case_insensitive: true, ..Options::default() };
    let ac = searcher(&["istanbul"], options);
    assert_eq!(ac.replace_all("Visit İstanbul!", &strings(&["X"])).unwrap(), "Visit X!");
}

#[test]
fn replace_all_needs_one_replacement_per_pattern() {
    let ac = searcher(&["cat", "dog"], Options::default());
    let result = ac.replace_all("cat", &strings(&["x"]));
    assert_eq!(result, Err(Error::ReplacementCountMismatch { expected: 2, actual: 1 }));
    assert_eq!(result.err().unwrap().message(), "Expected 2 replacements, got 1");
}

#[test]
fn byte_search_reports_match_records() {
    let ac = searcher(&["lo"], Options::default());
    assert_eq!(ac.find_iter_buf(b"hello lo"), vec![
        Match { pattern: 0, start: 3, end: 5 },
        Match { pattern: 0, start: 6, end: 8 },
    ]);
    assert_eq!(ac.find_iter_packed_buf(b"hello lo"), vec![0, 3, 5, 0, 6, 8]);
    assert_eq!(ac.find_in_chunk(b"lo"), vec![Match { pattern: 0, start: 0, end: 2 }]);
    assert!(ac.is_match_buf(b"xlox"));
    assert!(!ac.is_match_buf(b"xl ox"));
}

#[test]
fn byte_search_lowers_invalid_utf8_as_ascii() {
    let options = Options { case_insensitive: true, ..Options::default() };
    let ac = searcher(&["ab"], options);
    assert_eq!(ac.find_iter_packed_buf(&[0xff, b'A', b'B']), vec![0, 1, 3]);
}

#[test]
fn byte_search_folds_valid_utf8() {
    let options = Options { case_insensitive: true, ..Options::default() };
    let ac = searcher(&["istanbul"], options);
    assert_eq!(ac.find_iter_packed_buf("İSTANBUL".as_bytes()), vec![0, 0, 9]);
}

#[test]
fn to_prepared_and_back_keeps_searching_the_same() {
    let options = Options { case_insensitive: true, ..Options::default() };
    let ac = searcher(&["he", "she", "hers"], options);
    let bytes = ac.to_prepared().unwrap();
    let restored = AhoCorasick::from_prepared(&bytes).unwrap();
    let text = "USHERS and hers";
    assert_eq!(restored.pattern_count(), 3);
    assert_eq!(ac.find_iter_packed(text).unwrap(), restored.find_iter_packed(text).unwrap());
    assert_eq!(
        ac.find_overlapping_iter_packed(text).unwrap(),
        restored.find_overlapping_iter_packed(text).unwrap()
    );
    assert_eq!(restored.to_prepared().unwrap(), bytes);
}

#[test]
fn prepared_header_records_count_kind_and_flags() {
    let options = Options {
        match_kind: MatchKind::LeftmostLongest,
        case_insensitive: true,
        whole_words: true,
        unicode_boundaries: false,
        ..Options::default()
    };
    let bytes = AhoCorasick::prepare(strings(&["a", "b"]), options).unwrap();
    assert_eq!(&bytes[0..8], b"STLAHO\0\0");
    assert_eq!(&bytes[8..12], &1u32.to_le_bytes());
    assert_eq!(&bytes[12..16], &2u32.to_le_bytes());
    // Whole words search with a standard automaton.
    assert_eq!(bytes[16], 0);
    assert_eq!(bytes[17], 1 | 2 | 4);
    assert_eq!(&bytes[18..20], &[0, 0]);
    let overlap_len = u32::from_le_bytes([bytes[24], bytes[25], bytes[26], bytes[27]]);
    assert_eq!(overlap_len, 0);
}

#[test]
fn prepared_refuses_malformed_headers() {
    let options = Options { match_kind: MatchKind::LeftmostLongest, ..Options::default() };
    let good = AhoCorasick::prepare(strings(&["alpha", "beta"]), options).unwrap();
    let prefix = "Invalid prepared automaton: ";

    assert_eq!(prepared_error(b"nope"), format!("{prefix}missing magic"));
    assert_eq!(prepared_error(b"STLAHO\0\x01rest"), format!("{prefix}magic mismatch"));
    assert_eq!(prepared_error(b"STLAHO\0\0"), format!("{prefix}missing version"));

    let mut bad_version = good.clone();
    bad_version[8] = 2;
    assert_eq!(prepared_error(&bad_version), format!("{prefix}unsupported version"));

    assert_eq!(prepared_error(&good[..14]), format!("{prefix}missing pattern count"));
    assert_eq!(prepared_error(&good[..16]), format!("{prefix}missing match kind"));

    let mut bad_kind = good.clone();
    bad_kind[16] = 3;
    assert_eq!(prepared_error(&bad_kind), format!("{prefix}unknown match kind"));

    assert_eq!(prepared_error(&good[..17]), format!("{prefix}missing flags"));

    let mut bad_flags = good.clone();
    bad_flags[17] = 8;
    assert_eq!(prepared_error(&bad_flags), format!("{prefix}unknown flags"));

    assert_eq!(prepared_error(&good[..19]), format!("{prefix}missing reserved bytes"));

    let mut bad_reserved = good.clone();
    bad_reserved[19] = 1;
    assert_eq!(prepared_error(&bad_reserved), format!("{prefix}reserved bytes must be zero"));

    assert_eq!(prepared_error(&good[..22]), format!("{prefix}missing main length"));
    assert_eq!(prepared_error(&good[..26]), format!("{prefix}missing overlap length"));
    assert_eq!(prepared_error(&good[..30]), format!("{prefix}missing main bytes"));
    assert_eq!(prepared_error(&good[..good.len() - 1]), format!("{prefix}missing overlap bytes"));

    let mut trailing = good.clone();
    trailing.push(0);
    assert_eq!(prepared_error(&trailing), format!("{prefix}trailing bytes"));

    let mut standard_with_overlap = good.clone();
    standard_with_overlap[16] = 0;
    assert_eq!(
        prepared_error(&standard_with_overlap),
        format!("{prefix}standard automaton includes overlap bytes")
    );

    assert_eq!(prepared_error(&good), "accepted");
}

#[test]
fn prepared_refuses_a_leftmost_automaton_recorded_as_standard() {
    let options = Options { match_kind: MatchKind::LeftmostLongest, ..Options::default() };
    let leftmost = AhoCorasick::prepare(strings(&["alpha"]), options).unwrap();
    let main_len = u32::from_le_bytes([leftmost[20], leftmost[21], leftmost[22], leftmost[23]]) as usize;
    let mut bytes = leftmost[..28 + main_len].to_vec();
    bytes[16] = 0;
    bytes[24..28].copy_from_slice(&0u32.to_le_bytes());
    assert_eq!(prepared_error(&bytes), "Invalid prepared automaton: automaton match kind mismatch");
}

#[test]
fn prepared_leftmost_automaton_searches_with_its_own_kind() {
    let options = Options { match_kind: MatchKind::LeftmostLongest, ..Options::default() };
    let mut bytes = AhoCorasick::prepare(strings(&["ab", "abcd"]), options).unwrap();
    bytes[16] = 2;
    let restored = AhoCorasick::from_prepared(&bytes).unwrap();
    assert_eq!(restored.find_iter_packed_bytes("abcd").unwrap(), vec![1, 0, 4]);
    assert_eq!(restored.to_prepared().unwrap(), bytes);
}

#[test]
fn prepared_searcher_without_patterns_loads_again() {
    let bytes = AhoCorasick::prepare(Vec::new(), Options::default()).unwrap();
    let restored = AhoCorasick::from_prepared(&bytes).unwrap();
    assert_eq!(restored.pattern_count(), 0);
    assert_eq!(restored.is_match("abc"), Ok(false));
    assert_eq!(restored.find_iter_packed("abc"), Ok(vec![]));
    assert_eq!(restored.find_overlapping_iter_packed("abc"), Ok(vec![]));
    assert_eq!(restored.to_prepared().unwrap(), bytes);
    let standard = AhoCorasick::prepare(Vec::new(), whole_words()).unwrap();
    let restored = AhoCorasick::from_prepared(&standard).unwrap();
    assert!(restored.find_iter_packed("abc").unwrap().is_empty());
}

#[test]
fn prepared_leftmost_searcher_with_patterns_needs_its_overlap_bytes() {
    let bytes = AhoCorasick::prepare(strings(&["alpha"]), Options::default()).unwrap();
    let main_len = u32::from_le_bytes([bytes[20], bytes[21], bytes[22], bytes[23]]) as usize;
    let mut cut = bytes[..28 + main_len].to_vec();
    cut[24..28].copy_from_slice(&0u32.to_le_bytes());
    assert_eq!(
        prepared_error(&cut),
        "Invalid prepared automaton: non-standard automaton is missing overlap bytes"
    );
}

#[test]
fn error_messages_describe_each_error() {
    let cases = vec![
        (Error::BuildAutomaton(String::from("why")), "Failed to build automaton: why"),
        (
            Error::BuildOverlappingAutomaton(String::from("why")),
            "Failed to build overlapping automaton: why",
        ),
        (
            Error::InvalidPreparedAutomaton(String::from("why")),
            "Invalid prepared automaton: why",
        ),
        (Error::InvalidUtf8Span, "Search produced an invalid UTF-8 span"),
        (Error::PatternIndexDoesNotFit, "Pattern index does not fit usize"),
        (Error::PatternCountDoesNotFit, "Pattern count does not fit this platform"),
        (Error::MissingReplacement { pattern: 7 }, "Missing replacement for pattern 7"),
        (
            Error::ReplacementCountMismatch { expected: 10, actual: 0 },
            "Expected 10 replacements, got 0",
        ),
        (
            Error::ReplacementCountMismatch { expected: 4294967295, actual: 123456 },
            "Expected 4294967295 replacements, got 123456",
        ),
    ];
    for (error, text) in cases {
        assert_eq!(error.message(), text);
    }
}

#[test]
fn stream_finds_matches_across_chunks() {
    let mut sm = StreamMatcher::new(strings(&["hello"]), Options::default()).unwrap();
    assert!(sm.write(b"hel").is_empty());
    assert_eq!(sm.write(b"lo world"), vec![Match { pattern: 0, start: 0, end: 5 }]);
    assert_eq!(sm.write(b" hello"), vec![Match { pattern: 0, start: 12, end: 17 }]);
}

#[test]
fn stream_does_not_report_a_match_twice() {
    let mut sm = StreamMatcher::new(strings(&["ab"]), Options::default()).unwrap();
    assert_eq!(sm.write(b"ab"), vec![Match { pattern: 0, start: 0, end: 2 }]);
    assert!(sm.write(b"c").is_empty());
    assert_eq!(sm.write(b"ab"), vec![Match { pattern: 0, start: 3, end: 5 }]);
}

#[test]
fn stream_with_single_byte_patterns_searches_each_chunk() {
    let mut sm = StreamMatcher::new(strings(&["a"]), Options::default()).unwrap();
    assert_eq!(
        sm.write(b"aa"),
        vec![Match { pattern: 0, start: 0, end: 1 }, Match { pattern: 0, start: 1, end: 2 }]
    );
    assert_eq!(sm.write(b"ba"), vec![Match { pattern: 0, start: 3, end: 4 }]);
}

#[test]
fn stream_keeps_a_tail_that_starts_on_a_character() {
    let mut sm = StreamMatcher::new(strings(&["éé"]), Options::default()).unwrap();
    // The pattern is four bytes; the tail keeps at most three, moved past the
    // continuation byte so that it starts on `é`.
    assert!(sm.write("xéé".as_bytes()[..4].as_ref()).is_empty());
    assert_eq!(sm.write(&"xéé".as_bytes()[4..]), vec![Match { pattern: 0, start: 1, end: 5 }]);
}

#[test]
fn stream_flush_and_reset_start_over() {
    let mut sm = StreamMatcher::new(strings(&["hello"]), Options::default()).unwrap();
    assert!(sm.write(b"hel").is_empty());
    assert!(sm.flush().is_empty());
    assert!(sm.write(b"lo").is_empty());
    sm.reset();
    assert_eq!(sm.write(b"hello"), vec![Match { pattern: 0, start: 0, end: 5 }]);
}

#[test]
fn stream_case_insensitive() {
    let options = Options { case_insensitive: true, ..Options::default() };
    let mut sm = StreamMatcher::new(strings(&["hello"]), options).unwrap();
    assert!(sm.write(b"say HEL").is_empty());
    assert_eq!(sm.write(b"LO"), vec![Match { pattern: 0, start: 4, end: 9 }]);
}

#[test]
fn core_readme_example_finds_a_pattern() {
    let search = AhoCorasick::new(strings(&["contract", "clause"]), Options::default()).unwrap();
    assert!(search.is_match("contract review").unwrap());
}

#[test]
fn case_insensitive_folds_capital_sharp_s_to_sharp_s() {
    let options = Options { case_insensitive: true, ..Options::default() };
    let ac = searcher(&["ß"], options);
    assert_eq!(ac.find_iter_packed("ẞ").unwrap(), vec![0, 0, 1]);
    // Simple folding does not expand `ß` to `ss`.
    assert!(!ac.is_match("ss").unwrap());
}

fn with_main_image(prepared: &[u8], main: &[u8]) -> Vec<u8> {
    let mut bytes = prepared[..20].to_vec();
    bytes.extend_from_slice(&(main.len() as u32).to_le_bytes());
    bytes.extend_from_slice(&0u32.to_le_bytes());
    bytes.extend_from_slice(main);
    bytes
}

#[test]
fn prepared_refuses_bytes_that_are_no_automaton() {
    let standard = AhoCorasick::prepare(strings(&["a"]), whole_words()).unwrap();
    assert_eq!(
        prepared_error(&with_main_image(&standard, &[1, 2, 3])),
        "Invalid prepared automaton: InvalidAutomatonError: invalid serialized automaton"
    );
}

#[test]
fn prepared_refuses_bytes_after_the_automaton() {
    let standard = AhoCorasick::prepare(strings(&["a"]), whole_words()).unwrap();
    let mut main = standard[28..].to_vec();
    main.push(0);
    assert_eq!(
        prepared_error(&with_main_image(&standard, &main)),
        "Invalid prepared automaton: trailing automaton bytes"
    );
    let intact = with_main_image(&standard, &standard[28..]);
    assert_eq!(prepared_error(&intact), "accepted");
}

#[test]
fn folding_that_changes_a_character_width_maps_offsets_back() {
    // `ſ` (2 bytes) folds to `s` (1 byte) and `Ⱥ` (2 bytes) to `ⱥ` (3 bytes):
    // the folded text has the same total length, yet each offset is mapped
    // back to the original character.
    let options = Options { case_insensitive: true, ..Options::default() };
    let ac = searcher(&["ⱥ"], options);
    assert_eq!(ac.find_iter_packed_bytes("ſȺ").unwrap(), vec![0, 2, 4]);
    assert_eq!(ac.find_iter_packed_bytes("sȺ").unwrap(), vec![0, 1, 3]);
    assert_eq!(ac.find_iter_packed("ſȺ").unwrap(), vec![0, 1, 2]);
}

#[test]
fn replacing_after_a_shrinking_fold_keeps_the_text_around() {
    // `İ` (2 bytes) folds to `i` (1 byte) and `Ⱥ` (2 bytes) to `ⱥ` (3 bytes).
    let options = Options { case_insensitive: true, ..Options::default() };
    let ac = searcher(&["ⱥ"], options);
    assert_eq!(ac.replace_all("İȺ", &strings(&["X"])), Ok("İX".to_string()));
    assert_eq!(ac.find_iter_packed_bytes("İȺ").unwrap(), vec![0, 2, 4]);
    assert_eq!(ac.find_overlapping_iter_packed_bytes("İȺ").unwrap(), vec![0, 2, 4]);
}

#[test]
fn folding_that_keeps_each_width_reports_exact_offsets() {
    let options = Options { case_insensitive: true, ..Options::default() };
    let ac = searcher(&["b"], options);
    assert_eq!(ac.find_iter_packed_bytes("ÄB").unwrap(), vec![0, 2, 3]);
    assert_eq!(ac.find_iter_packed("ÄB").unwrap(), vec![0, 1, 2]);
}

#[test]
fn whole_word_overlapping_matches_are_the_whole_word_plain_ones() {
    let plain = searcher(&["ab", "abc", "c"], Options::default());
    let words = searcher(&["ab", "abc", "c"], whole_words());
    let all = plain.find_overlapping_iter_packed_bytes("abc c").unwrap();
    let kept = words.find_overlapping_iter_packed_bytes("abc c").unwrap();
    assert_eq!(all, vec![0, 0, 2, 1, 0, 3, 2, 2, 3, 2, 4, 5]);
    assert_eq!(kept, vec![1, 0, 3, 2, 4, 5]);
}

#[test]
fn stream_matches_end_in_the_chunk_just_written() {
    let mut sm = StreamMatcher::new(strings(&["abc"]), Options::default()).unwrap();
    assert_eq!(sm.write(b"xxab"), vec![]);
    let second = sm.write(b"cab");
    assert_eq!(second, vec![Match { pattern: 0, start: 2, end: 5 }]);
    let third = sm.write(b"c");
    assert_eq!(third, vec![Match { pattern: 0, start: 5, end: 8 }]);
    let stream = b"xxabcabc";
    for m in second.iter().chain(third.iter()) {
        assert_eq!(&stream[m.start as usize..m.end as usize], b"abc");
    }
}

#[test]
fn is_match_answers_whether_a_pattern_occurs() {
    let ac = searcher(&["needle", "hay"], Options::default());
    assert_eq!(ac.is_match("a needle here"), Ok(true));
    assert_eq!(ac.is_match("nothing here"), Ok(false));
    assert_eq!(ac.is_match(""), Ok(false));
    let folded = searcher(&["straße"], Options { case_insensitive: true, ..Options::default() });
    assert_eq!(folded.is_match("STRAẞE"), Ok(true));
}

#[test]
fn stream_finds_a_match_spanning_three_chunks() {
    let mut sm = StreamMatcher::new(strings(&["abcdef"]), Options::default()).unwrap();
    assert_eq!(sm.write(b"xab"), vec![]);
    assert_eq!(sm.write(b"cd"), vec![]);
    assert_eq!(sm.write(b"efy"), vec![Match { pattern: 0, start: 1, end: 7 }]);
}

#[test]
fn replacing_each_pattern_by_itself_keeps_the_text() {
    let patterns = strings(&["ab", "bc", "é"]);
    let text = "abc ébc ab";
    let plain = searcher(&["ab", "bc", "é"], Options::default());
    assert_eq!(plain.replace_all(text, &patterns), Ok(text.to_string()));
    let words = searcher(&["ab", "bc", "é"], whole_words());
    assert_eq!(words.replace_all(text, &patterns), Ok(text.to_string()));
}

#[test]
fn byte_search_of_a_text_matches_the_text_search() {
    let options = Options { case_insensitive: true, ..Options::default() };
    let ac = searcher(&["ⱥ", "straße"], options);
    let text = "İȺ STRAẞE";
    let records = ac.find_iter_buf(text.as_bytes());
    let flat: Vec<u32> = records.iter().flat_map(|m| [m.pattern, m.start, m.end]).collect();
    assert_eq!(flat, ac.find_iter_packed_bytes(text).unwrap());
    assert_eq!(ac.find_iter_packed_buf(text.as_bytes()), flat);
}

#[test]
fn stream_after_reset_writes_as_a_new_one() {
    let mut used = StreamMatcher::new(strings(&["abc", "cd"]), Options::default()).unwrap();
    used.write(b"xxab");
    used.write(b"c");
    used.reset();
    let mut fresh = StreamMatcher::new(strings(&["abc", "cd"]), Options::default()).unwrap();
    for chunk in [&b"ab"[..], b"cd", b"abcd", b"c"] {
        assert_eq!(used.write(chunk), fresh.write(chunk));
    }
    assert!(used.flush().is_empty());
    let mut fresh = StreamMatcher::new(strings(&["abc", "cd"]), Options::default()).unwrap();
    for chunk in [&b"a"[..], b"bcd"] {
        assert_eq!(used.write(chunk), fresh.write(chunk));
    }
}
