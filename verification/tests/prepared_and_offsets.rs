use stella_aho_corasick_core::options::RawMatchKind;
use stella_aho_corasick_core::{AhoCorasick, CaseFoldingAC, MatchKind, Options};

#[test]
fn packed_bytes_emit_byte_offsets() {
    // `ä` is 2 UTF-8 bytes but 1 UTF-16 code unit, so the units diverge.
    let ac = AhoCorasick::new(vec![String::from("b")], Options::default()).unwrap();

    // Packed output is UTF-16: [pattern, start, end] = [0, 1, 2].
    assert_eq!(ac.find_iter_packed("äb").unwrap(), vec![0, 1, 2]);
    // Byte variant reports byte offsets: [0, 2, 3].
    assert_eq!(ac.find_iter_packed_bytes("äb").unwrap(), vec![0, 2, 3]);
    assert_eq!(ac.find_overlapping_iter_packed_bytes("äb").unwrap(), vec![0, 2, 3]);
}

#[test]
fn prepared_roundtrip_preserves_matching() {
    let options = Options {
        match_kind: MatchKind::LeftmostLongest,
        case_insensitive: true,
        whole_words: true,
        unicode_boundaries: true,
        ..Options::default()
    };
    let patterns = vec![String::from("istanbul"), String::from("city")];
    let direct = AhoCorasick::new(patterns.clone(), options).unwrap();
    let prepared_bytes = AhoCorasick::prepare(patterns, options).unwrap();
    let prepared = AhoCorasick::from_prepared(&prepared_bytes).unwrap();
    let haystack = "Visit İstanbul city today";

    assert_eq!(
        direct.find_iter_packed(haystack).unwrap(),
        prepared.find_iter_packed(haystack).unwrap()
    );
    assert_eq!(
        direct
            .replace_all(haystack, &[String::from("X"), String::from("Y")])
            .unwrap(),
        prepared
            .replace_all(haystack, &[String::from("X"), String::from("Y")])
            .unwrap()
    );
}

#[test]
fn prepared_roundtrip_preserves_ascii_boundaries() {
    let options = Options {
        whole_words: true,
        unicode_boundaries: false,
        ..Options::default()
    };
    let patterns = vec![String::from("idea")];
    let direct = AhoCorasick::new(patterns.clone(), options).unwrap();
    let prepared_bytes = AhoCorasick::prepare(patterns, options).unwrap();
    let prepared = AhoCorasick::from_prepared(&prepared_bytes).unwrap();

    assert_eq!(
        direct.find_iter_packed("нетidea ok").unwrap(),
        prepared.find_iter_packed("нетidea ok").unwrap()
    );
    assert_eq!(prepared.find_iter_packed("нетidea ok").unwrap().len(), 3);
}

#[test]
fn prepared_rejects_invalid_bytes() {
    let result = AhoCorasick::from_prepared(b"nope");

    assert!(result.is_err(), "invalid prepared bytes should fail");
    let message = result.err().map_or_else(String::new, |error| error.message());
    assert!(
        message.contains("Invalid prepared automaton"),
        "error should explain that the prepared automaton is invalid"
    );
}

#[test]
fn prepared_rejects_missing_overlap_bytes_for_non_standard_match_kind() {
    let options = Options {
        match_kind: MatchKind::LeftmostFirst,
        ..Options::default()
    };
    let mut bytes = AhoCorasick::prepare(vec![String::from("alpha")], options).unwrap();
    let main_len_offset = 20usize;
    let overlap_len_offset = 24usize;
    let main_len_bytes: [u8; 4] = bytes
        .get(main_len_offset..overlap_len_offset)
        .unwrap()
        .try_into()
        .unwrap();
    let main_len = usize::try_from(u32::from_le_bytes(main_len_bytes)).unwrap();
    bytes
        .get_mut(overlap_len_offset..overlap_len_offset + 4)
        .unwrap()
        .copy_from_slice(&0u32.to_le_bytes());
    bytes.truncate(28usize.saturating_add(main_len));

    let result = AhoCorasick::from_prepared(&bytes);

    assert!(
        result.is_err(),
        "non-standard prepared automata must carry overlap bytes"
    );
    let message = result.err().map_or_else(String::new, |error| error.message());
    assert!(
        message.contains("missing overlap bytes"),
        "error should explain that overlap bytes are required"
    );
}

#[test]
fn folded_positions_map_back_to_original_characters() {
    let ac = CaseFoldingAC::build(vec!["ⱥ".to_string()], RawMatchKind::LeftmostFirst, true, false).unwrap();
    let prep = ac.prepare("İȺ");
    assert_eq!(prep.search_text(), "iⱥ");
    assert_eq!(prep.orig_pos(0), 0);
    assert_eq!(prep.orig_pos(1), 2);
    assert_eq!(prep.orig_pos(4), 4);
}

#[test]
fn prepared_form_of_built_patterns_restores_the_same_searcher() {
    let patterns = vec!["istanbul".to_string(), "city".to_string()];
    let options = Options { case_insensitive: true, ..Options::default() };
    let bytes = AhoCorasick::prepare(patterns.clone(), options).unwrap();
    let built = AhoCorasick::new(patterns, options).unwrap();
    let restored = AhoCorasick::from_prepared(&bytes).unwrap();
    let text = "Visit İstanbul city today";
    assert_eq!(restored.pattern_count(), built.pattern_count());
    assert_eq!(restored.find_iter_packed(text), built.find_iter_packed(text));
    assert_eq!(restored.find_overlapping_iter_packed(text), built.find_overlapping_iter_packed(text));
    assert_eq!(restored.is_match(text), built.is_match(text));
    assert_eq!(restored.to_prepared().unwrap(), bytes);
}
