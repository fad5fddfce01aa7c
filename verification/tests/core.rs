//! Queues, texts and command-line settings.

use agent_loadgen::cli::{
    count_roots_and_edges, parse_headers, parse_key_values, FidelityArgs, SettingError, TokenArgs, TokenArgsError,
    TokenChoice, TraceSelectionArgs,
};
use agent_loadgen::digest::{hex_digest, push_le_bytes, read_le_number, LineDigest};
use agent_loadgen::groups::TextGroups;
use agent_loadgen::json::{parse_json, parse_json5, Json};
use agent_loadgen::numeric::{div_ceil, elapsed_ms, saturating_i64};
use agent_loadgen::ordered::{sort, sorted_distinct};
use agent_loadgen::scheduler::ReadyQueue;
use agent_loadgen::text::{decimal_text, hexadecimal_text, is_blank, read_whole_number, same_text, text_precedes};
use agent_loadgen::text_map::TextMap;
use agent_loadgen::token_shape::alphabet::TokenAlphabetSource;

#[test]
fn pops_by_deadline_then_ordinal() {
    let mut queue = ReadyQueue::with_capacity(4);
    queue.push(20, 3, "late");
    queue.push(10, 2, "second");
    queue.push(10, 1, "first");
    queue.push(30, 0, "last");

    assert!(queue.pop_due(9, usize::MAX).is_empty());
    assert_eq!(
        queue.pop_due(20, usize::MAX).into_iter().map(|item| item.value).collect::<Vec<_>>(),
        vec!["first", "second", "late"]
    );
    assert_eq!(queue.next_ready_at_ns(), Some(30));
}

#[test]
fn limit_retains_due_items() {
    let mut queue = ReadyQueue::with_capacity(3);
    for ordinal in 0..3 {
        queue.push(0, ordinal, ordinal);
    }
    assert_eq!(queue.pop_due(0, 2).len(), 2);
    assert!(!queue.is_empty());
    assert_eq!(queue.pop_due(0, 2)[0].value, 2);
    assert!(queue.is_empty());
}

#[test]
fn cache_mode_rejects_duplicate_keys() {
    let result = parse_key_values(
        vec!["ownership=session".to_string(), "ownership=shared".to_string()],
        "engine cache mode",
    );
    assert!(result.is_err());
}

#[test]
fn settings_are_split_at_the_first_equals_sign() {
    let settings =
        parse_key_values(vec!["b=1=2".to_string(), "a=x".to_string()], "engine cache mode").unwrap();
    assert_eq!(
        settings.entries(),
        &vec![("a".to_string(), "x".to_string()), ("b".to_string(), "1=2".to_string())]
    );
    let message = |values: Vec<&str>| {
        parse_key_values(values.into_iter().map(str::to_string).collect(), "mode").unwrap_err().message()
    };
    assert_eq!(message(vec!["a=1", "plain"]), "mode \"plain\" must use NAME=VALUE");
    assert_eq!(message(vec!["a="]), "mode names and values must not be empty");
    assert_eq!(message(vec!["=a"]), "mode names and values must not be empty");
    assert_eq!(message(vec!["a=1", "a=2"]), "mode \"a\" is declared more than once");
    assert!(matches!(
        parse_key_values(vec!["x".to_string()], "mode"),
        Err(SettingError::NotAPair { .. })
    ));
}

#[test]
fn headers_keep_their_order_and_may_be_empty() {
    let headers = parse_headers(vec!["b=".to_string(), "a=1=2".to_string(), "b=3".to_string()]).unwrap();
    assert_eq!(
        headers,
        vec![
            ("b".to_string(), String::new()),
            ("a".to_string(), "1=2".to_string()),
            ("b".to_string(), "3".to_string())
        ]
    );
    assert_eq!(
        parse_headers(vec!["plain".to_string()]).unwrap_err().message(),
        "header \"plain\" must use NAME=VALUE"
    );
    assert_eq!(parse_headers(vec!["=x".to_string()]).unwrap_err().message(), "header name must not be empty");
}

fn token_args(tokenizer: Option<&str>, start: Option<u32>, allow: bool) -> TokenArgs {
    TokenArgs {
        tokenizer: tokenizer.map(str::to_string),
        token_start: start,
        token_alphabet_size: 1024,
        excluded_token_ids: vec![101],
        allow_unverified_token_range: allow,
    }
}

#[test]
fn tokens_come_from_one_source() {
    assert!(matches!(
        token_args(Some("model"), None, false).token_source(),
        Ok(TokenChoice::Tokenizer(name)) if name == "model"
    ));
    assert!(matches!(
        token_args(None, Some(100), true).token_source(),
        Ok(TokenChoice::Range { start: 100, size: 1024 })
    ));
    let refused = |args: TokenArgs| args.token_source().unwrap_err();
    assert_eq!(refused(token_args(Some("model"), None, true)), TokenArgsError::RangeAllowedWithoutStart);
    assert_eq!(refused(token_args(None, Some(1), false)), TokenArgsError::StartWithoutRangeAllowed);
    assert_eq!(refused(token_args(Some("model"), Some(1), true)), TokenArgsError::BothGiven);
    assert_eq!(refused(token_args(None, None, false)), TokenArgsError::NoneGiven);
    let mut large = token_args(None, Some(1), true);
    large.token_alphabet_size = u32::MAX as usize + 1;
    assert_eq!(refused(large), TokenArgsError::SizeTooLarge);
    assert_eq!(TokenArgsError::BothGiven.message(), "use either --tokenizer or --token-start, not both");
    let alphabet = token_args(None, Some(100), true)
        .load(TokenAlphabetSource::UnverifiedRange { start: 100, size: 4 })
        .unwrap();
    assert_eq!(alphabet.len(), 3);
    assert_eq!(alphabet.token(1), 102);
}

#[test]
fn argument_groups_hold_their_values() {
    let selection = TraceSelectionArgs { max_requests: Some(2), session_id: Some("s".to_string()) };
    assert_eq!(selection.clone(), selection);
    let fidelity = FidelityArgs { token_path_verified: true, engine_cache_mode: vec!["a=b".to_string()] };
    assert_eq!(fidelity.clone(), fidelity);
    assert_eq!(count_roots_and_edges(&Vec::new()), (0, 0));
}

#[test]
fn numerals() {
    assert_eq!(decimal_text(0), "0");
    assert_eq!(decimal_text(u64::MAX), "18446744073709551615");
    assert_eq!(hexadecimal_text(0xab, 16), "00000000000000ab");
    assert_eq!(read_whole_number(&"0042".chars().collect()), Some(42));
    assert_eq!(read_whole_number(&"18446744073709551616".chars().collect()), None);
    assert_eq!(read_whole_number(&"4x".chars().collect()), None);
    assert_eq!(read_whole_number(&Vec::new()), None);
    assert_eq!(div_ceil(7, 2), 4);
    assert_eq!(saturating_i64(u64::MAX), i64::MAX);
    assert_eq!(elapsed_ms(5, 9), 0);
    assert_eq!(elapsed_ms(i64::MAX, i64::MIN), i64::MAX as u64);
}

#[test]
fn texts_compare_by_their_bytes() {
    assert!(text_precedes("a", "b"));
    assert!(text_precedes("", "a"));
    assert!(text_precedes("é", "é"));
    assert!(!text_precedes("é", "z"));
    assert!(same_text("é", "é"));
    assert!(!same_text("a", "aa"));
    assert!(is_blank(" \t\u{3000}"));
    assert!(!is_blank(" x "));
}

#[test]
fn maps_keep_their_names_in_order() {
    let mut map = TextMap::new();
    assert!(map.is_empty());
    assert!(!map.insert("b".to_string(), "1".to_string()));
    assert!(!map.insert("a".to_string(), "2".to_string()));
    assert!(map.insert("b".to_string(), "3".to_string()));
    assert_eq!(
        map.entries(),
        &vec![("a".to_string(), "2".to_string()), ("b".to_string(), "3".to_string())]
    );
}

#[test]
fn groups_hand_their_lists_out_once() {
    let mut groups = TextGroups::new();
    groups.push("a", 1);
    groups.push("b", 2);
    groups.push("a", 3);
    assert_eq!(groups.get("a"), Some(&vec![1, 3]));
    assert_eq!(groups.take("a"), vec![1, 3]);
    assert_eq!(groups.take("a"), Vec::<usize>::new());
    assert_eq!(groups.get("b"), Some(&vec![2]));
    assert_eq!(groups.get("c"), None);
}

#[test]
fn numbers_are_sorted() {
    assert_eq!(sort(vec![5u64, 1, 4, 1]), vec![1, 1, 4, 5]);
    assert_eq!(sorted_distinct(vec![5, 1, 4, 1]), vec![1, 4, 5]);
}

#[test]
fn digests_are_known() {
    assert_eq!(hex_digest(b""), "e3b0c44298fc1c149afbf4c8996fb92427ae41e4649b934ca495991b7852b855");
    assert_eq!(hex_digest(b"abc"), "ba7816bf8f01cfea414140de5dae2223b00361a396177a9cb410ff61f20015ad");
    let mut bytes = Vec::new();
    push_le_bytes(&mut bytes, 0x0102);
    assert_eq!(bytes, vec![2, 1, 0, 0, 0, 0, 0, 0]);
    assert_eq!(read_le_number(&bytes), 0x0102);
}

#[test]
fn json_values_are_looked_up() {
    let value = Json::Object(vec![
        ("a".to_string(), Json::Array(vec![Json::Number("1".to_string()), Json::Null, Json::Bool(true)])),
        ("b".to_string(), Json::Text("x\"\n\u{1}é".to_string())),
    ]);
    assert_eq!(value.get("a").unwrap().as_array().unwrap()[0].as_u64(), Some(1));
    assert_eq!(value.get("b").unwrap().as_str(), Some("x\"\n\u{1}é"));
    assert!(value.get("c").is_none());
}

#[test]
fn lines_are_digested_one_by_one() {
    let mut digest = LineDigest::new();
    digest.push_line("abc");
    digest.push_line("");
    digest.push_line("é");
    let bytes = digest.finish();
    let text: String = bytes.iter().map(|byte| format!("{byte:02x}")).collect();
    assert_eq!(text, hex_digest("abc\n\né\n".as_bytes()));
    let empty: String = LineDigest::new().finish().iter().map(|byte| format!("{byte:02x}")).collect();
    assert_eq!(empty, hex_digest(b""));
}

#[test]
fn json_is_read() {
    let shown = |value: Json| format!("{value:?}");
    let source = b" {\"b\": [1, -2.50, null, true], \"a\": {\"x\": \"\\u00e9\\n\"}, \"b\": 3} ";
    assert_eq!(
        shown(parse_json(source).unwrap()),
        "Object([(\"a\", Object([(\"x\", Text(\"é\\n\"))])), (\"b\", Number(\"3\"))])"
    );
    assert_eq!(
        shown(parse_json(b"[1, -2.50, 1e2, null, true]").unwrap()),
        "Array([Number(\"1\"), Number(\"-2.5\"), Number(\"100.0\"), Null, Bool(true)])"
    );
    assert!(parse_json(b"{a: 1}").is_err());
    assert!(parse_json(b"[1,]").is_err());
    assert!(parse_json(b"\xff").is_err());
    assert_eq!(shown(parse_json5("{a: +1, 'b': [0x10,],}").unwrap()), "Object([(\"a\", Number(\"1\")), (\"b\", Array([Number(\"16\")]))])");
    assert!(parse_json5("{a: }").is_err());
}
