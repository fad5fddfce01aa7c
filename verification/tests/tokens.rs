//! Token alphabets, codewords and dictionaries.

use agent_loadgen::contracts::TraceRequest;
use agent_loadgen::digest::hex_digest;
use agent_loadgen::json::Json;
use agent_loadgen::token_shape::allocated;
use agent_loadgen::token_shape::alphabet::{make_codeword, SafeTokenAlphabet, TokenAlphabetSource, TokenizerFiles};
use agent_loadgen::token_shape::codeword::splitmix64;
use agent_loadgen::token_shape::dictionary::{validate_codeword_capacity, TokenDictionary};
use agent_loadgen::token_shape::error::TokenError;
use agent_loadgen::token_shape::tokenizer::{collect_named_integer_ids, token_content};
use std::collections::HashSet;

fn request(id: &str, input_tokens: usize, hashes: &[u64]) -> TraceRequest {
    TraceRequest {
        ordinal: 0,
        source_request_id: id.to_string(),
        source_x_request_id: None,
        source_model: None,
        input_tokens,
        output_tokens: 2,
        request_received_ms: 1,
        trace_block_size: 4,
        input_sequence_hashes: hashes.to_vec(),
        agent_context: None,
    }
}

fn alphabet() -> SafeTokenAlphabet {
    SafeTokenAlphabet::from_unverified_range(100, 65_536, &[]).unwrap()
}

#[test]
fn preserves_shared_prefix_and_exact_length() {
    let first = request("a", 6, &[11, 22]);
    let second = request("b", 8, &[11, 33]);
    let dictionary = TokenDictionary::build(&vec![first.clone(), second.clone()], alphabet()).unwrap();
    let first_tokens = dictionary.synthesize(&first).unwrap();
    let second_tokens = dictionary.synthesize(&second).unwrap();

    assert_eq!(first_tokens.len(), 6);
    assert_eq!(second_tokens.len(), 8);
    assert_eq!(&first_tokens[..4], &second_tokens[..4]);
    assert_ne!(&first_tokens[4..], &second_tokens[4..6]);
}

#[test]
fn cut_blocks_keep_what_their_tokens_can_hold() {
    let requests: Vec<TraceRequest> = (0..600).map(|hash| request("cut", 1, &[hash])).collect();
    let alphabet = SafeTokenAlphabet::from_unverified_range(0, 65_536, &[]).unwrap();
    let dictionary = TokenDictionary::build(&requests, alphabet).unwrap();
    let tokens: Vec<Vec<u32>> = requests.iter().map(|request| dictionary.synthesize(request).unwrap()).collect();
    let mut met = 0;
    for a in 0..600_usize {
        for b in 0..a {
            let same = splitmix64(a as u64) % 65_536 == splitmix64(b as u64) % 65_536;
            assert_eq!(tokens[a] == tokens[b], same);
            met += usize::from(same);
        }
    }
    assert!(met < 20);
}

#[test]
fn token_shape_preserves_shared_prefix_and_exact_length() {
    let first = request("a", 6, &[11, 22]);
    let second = request("b", 8, &[11, 33]);
    let dictionary = allocated::TokenDictionary::build(
        &vec![first.clone(), second.clone()],
        allocated::SafeTokenAlphabet::new(100, 16).unwrap(),
    )
    .unwrap();
    let first_tokens = dictionary.synthesize(&first).unwrap();
    let second_tokens = dictionary.synthesize(&second).unwrap();

    assert_eq!(first_tokens.len(), 6);
    assert_eq!(second_tokens.len(), 8);
    assert_eq!(&first_tokens[..4], &second_tokens[..4]);
    assert_ne!(&first_tokens[4..], &second_tokens[4..6]);
}

#[test]
fn injective_codewords_cover_extreme_hashes() {
    let alphabet = alphabet();
    let low = make_codeword(0, 4, &alphabet);
    let high = make_codeword(u64::MAX, 4, &alphabet);
    assert_ne!(low, high);
    assert_eq!(low.len(), 4);
    assert_eq!(high.len(), 4);
}

#[test]
fn partial_blocks_use_hash_entropy_from_the_first_token() {
    let alphabet = SafeTokenAlphabet::from_unverified_range(100, 1024, &[]).unwrap();
    let first = make_codeword(11, 16, &alphabet);
    let second = make_codeword(22, 16, &alphabet);

    assert_ne!(first[0], second[0]);
    assert_ne!(&first[..4], &second[..4]);
}

#[test]
fn rejects_insufficient_codeword_capacity() {
    let alphabet = SafeTokenAlphabet::from_unverified_range(0, 2, &[]).unwrap();
    assert!(TokenDictionary::new(16, 1, alphabet).is_err());
}

#[test]
fn dictionary_is_independent_of_request_order() {
    let first = request("a", 4, &[11]);
    let second = request("b", 4, &[22]);
    let left = allocated::TokenDictionary::build(
        &vec![first.clone(), second.clone()],
        allocated::SafeTokenAlphabet::new(100, 16).unwrap(),
    )
    .unwrap();
    let right = allocated::TokenDictionary::build(
        &vec![second, first],
        allocated::SafeTokenAlphabet::new(100, 16).unwrap(),
    )
    .unwrap();
    assert_eq!(left.manifest().dictionary_digest_sha256, right.manifest().dictionary_digest_sha256);
}

const TOKENIZER: &str = r#"{
    "version": "1.0",
    "truncation": null,
    "padding": null,
    "added_tokens": [
        {"id": 3, "content": "[EOS]", "single_word": false, "lstrip": false, "rstrip": false, "normalized": false, "special": true}
    ],
    "normalizer": null,
    "pre_tokenizer": {"type": "Whitespace"},
    "post_processor": null,
    "decoder": null,
    "model": {"type": "WordLevel", "vocab": {"a": 0, "b": 1, "c": 2, "[EOS]": 3}, "unk_token": "a"}
}"#;

fn tokenizer_files() -> TokenizerFiles {
    let mut files = TokenizerFiles::local(
        "model",
        "model/tokenizer.json".to_string(),
        vec![
            ("model/generation_config.json".to_string(), true),
            ("model/special_tokens_map.json".to_string(), false),
        ],
    );
    assert_eq!(files.metadata_json, vec!["model/generation_config.json".to_string()]);
    assert_eq!(files.source, "local:model");
    files.tokenizer_bytes = TOKENIZER.as_bytes().to_vec();
    files.metadata = vec![("model/generation_config.json".to_string(), b"{\"eos_token_id\": 3}".to_vec())];
    files
}

fn token_ids(alphabet: &SafeTokenAlphabet) -> Vec<u32> {
    (0..alphabet.len()).map(|digit| alphabet.token(digit)).collect()
}

fn load_model(normalizer: &str, model: &str) -> Result<Vec<u32>, TokenError> {
    let mut files = tokenizer_files();
    files.tokenizer_bytes = format!(
        r#"{{"version": "1.0", "added_tokens": [{{"id": 2, "content": "end", "single_word": false, "lstrip": false,
            "rstrip": false, "normalized": true, "special": true}}], "normalizer": {normalizer}, "model": {model}}}"#
    )
    .into_bytes();
    files.metadata.clear();
    SafeTokenAlphabet::from_tokenizer(&files, 16, &[]).map(|alphabet| token_ids(&alphabet))
}

#[test]
fn merges_are_as_long_as_their_prefix() {
    let unusable =
        "failed to load tokenizer model/tokenizer.json: a merge is too short for its prefix, or a character map is broken";
    let refused = |model: &str| load_model("null", model).unwrap_err().message() == unusable;
    assert!(refused(
        r###"{"type": "BPE", "vocab": {"a": 0}, "merges": [["a", "a"]], "continuing_subword_prefix": "##"}"###
    ));
    assert!(refused(r###"{"vocab": {"a": 0}, "merges": ["a a"], "continuing_subword_prefix": "##"}"###));
    assert!(refused(
        r###"{"type": "BPE", "vocab": {"a": 0, "é": 1}, "merges": [["a", "é"]], "continuing_subword_prefix": "#"}"###
    ));
    let fitting = r###"{"type": "BPE", "vocab": {"a": 0, "##a": 1, "end": 2, "aa": 3},
        "merges": ["#version: 0.2", "a ##a"], "continuing_subword_prefix": "##"}"###;
    assert_eq!(load_model("null", fitting).unwrap(), vec![0, 1, 3]);
    let pairs = r###"{"type": "BPE", "vocab": {"a": 0, "##a": 1, "end": 2, "aa": 3},
        "merges": [["a", "##a"]], "continuing_subword_prefix": "##"}"###;
    assert_eq!(load_model("null", pairs).unwrap(), vec![0, 1, 3]);
    let other = r###"{"type": "WordPiece", "vocab": {"a": 0, "##a": 1, "end": 2}, "unk_token": "a",
        "continuing_subword_prefix": "##", "max_input_chars_per_word": 9, "merges": [["a", "a"]]}"###;
    assert_eq!(load_model("null", other).unwrap(), vec![0, 1]);
}

#[test]
fn character_maps_are_whole() {
    let model = r#"{"type": "WordLevel", "vocab": {"a": 0, "b": 1, "end": 2}, "unk_token": "a"}"#;
    let refused = |normalizer: &str| matches!(load_model(normalizer, model), Err(TokenError::Tokenizer { .. }));
    assert!(refused(r#"{"type": "Precompiled"}"#));
    assert!(refused(r#"{"type": "Sequence", "normalizers": [{"type": "Precompiled", "precompiled_charsmap": "A"}]}"#));
    assert!(refused(r#"{"type": "Lower"}"#));
    let whole = r#"{"type": "Precompiled", "precompiled_charsmap": "AAAAAA=="}"#;
    assert_eq!(load_model(whole, model).unwrap(), vec![0, 1]);
    assert_eq!(load_model(r#"{"type": "Lowercase"}"#, model).unwrap(), vec![0, 1]);
}

#[test]
fn character_maps_count_where_they_are_read() {
    let model = r#"{"type": "WordLevel", "vocab": {"a": 0, "b": 1, "end": 2}, "unk_token": "a"}"#;
    let loaded = |normalizer: &str| load_model(normalizer, model).unwrap() == vec![0, 1];
    let refused = |normalizer: &str| matches!(load_model(normalizer, model), Err(TokenError::Tokenizer { .. }));
    assert!(loaded(r#"{"type": "Lowercase", "normalizers": [{"type": "Precompiled"}], "note": {"type": "Precompiled"}}"#));
    assert!(loaded(
        r#"{"type": "Sequence", "normalizers": [{"type": "NFC", "x": [{"type": "Precompiled"}]}], "note": {"type": "Precompiled"}}"#
    ));
    assert!(loaded(r#"{"type": "Precompiled", "precompiled_charsmap": "AAAAAA==", "note": {"type": "Precompiled"}}"#));
    assert!(loaded(r#"{"strip_left": true, "strip_right": false, "normalizers": [{"type": "Precompiled"}]}"#));
    assert!(loaded(r#"{"type": {"NFC": null}, "normalizers": [{"type": "Precompiled"}]}"#));
    assert!(loaded(r#"{"normalizers": [{"type": "Precompiled", "precompiled_charsmap": "AAAAAA=="}]}"#));
    assert!(loaded(r#"[[{"type": "Precompiled", "precompiled_charsmap": "AAAAAA=="}]]"#));
    assert!(refused(r#"{"normalizers": [{"type": "Precompiled"}]}"#));
    assert!(refused(r#"{"type": {"Precompiled": null}}"#));
    assert!(refused(r#"[[{"type": "Precompiled"}]]"#));
    assert!(refused(r#"{"type": "Prepend", "type": "Lowercase", "normalizers": [{"type": "Precompiled"}]}"#));
    assert!(loaded(r#"{"type": "Lowercase", "type": "NFC", "normalizers": [{"type": "Precompiled"}]}"#));
}

#[test]
fn repeated_fields_reach_the_reader() {
    let load = |text: &str| {
        let mut files = tokenizer_files();
        files.tokenizer_bytes = text.as_bytes().to_vec();
        files.metadata.clear();
        SafeTokenAlphabet::from_tokenizer(&files, 16, &[]).map(|alphabet| token_ids(&alphabet))
    };
    assert_eq!(load(TOKENIZER).unwrap(), vec![0, 1, 2]);
    let repeated = |name: &str, value: &str| {
        TOKENIZER.replace("\"lstrip\": false", &format!("\"lstrip\": false, \"{name}\": {value}"))
    };
    assert!(load(&repeated("content", "\"[EOS]\"")).is_err());
    assert!(load(&repeated("id", "3")).is_err());
    assert!(load(&repeated("special", "false")).is_err());
    assert_eq!(load(&repeated("other", "1, \"other\": 2")).unwrap(), vec![0, 1, 2]);
    assert_eq!(load(&TOKENIZER.replace("\"a\": 0", "\"a\": 9, \"a\": 0")).unwrap(), vec![0, 1, 2]);
    let twice = |first: &str| TOKENIZER.replace("\"model\": ", &format!("\"model\": {first}, \"model\": "));
    assert_eq!(load(&twice(r#"{"type": "WordLevel", "vocab": {}, "unk_token": "a"}"#)).unwrap(), vec![0, 1, 2]);
    assert!(load(&twice("{}")).is_err());
    let short = r###"{"type": "BPE", "vocab": {"a": 0}, "merges": ["a a"], "continuing_subword_prefix": "##"}"###;
    assert!(load(&twice(short)).unwrap_err().message().ends_with("or a character map is broken"));
    assert!(load("{}").is_err());
    assert!(load("[1]").is_err());
    assert!(load("{\"version\": \"1.0\"} \n").is_err());
}

#[test]
fn metadata_is_read_as_json5() {
    let load = |bytes: &[u8]| {
        let mut files = tokenizer_files();
        files.metadata = vec![
            ("first".to_string(), b"{}".to_vec()),
            ("second".to_string(), bytes.to_vec()),
            ("third".to_string(), b"[".to_vec()),
        ];
        SafeTokenAlphabet::from_tokenizer(&files, 16, &[]).unwrap_err().message()
    };
    assert_eq!(load(b"\xff"), "tokenizer metadata is not UTF-8 in second");
    assert_eq!(load(b"{"), "invalid tokenizer metadata JSON in second");
    assert_eq!(load(b"{}"), "invalid tokenizer metadata JSON in third");
    let mut files = tokenizer_files();
    files.metadata =
        vec![("config.json".to_string(), b"// ends\n{eos_token_id: [0x1, 2,], pad_token: 'missing',}".to_vec())];
    let error = SafeTokenAlphabet::from_tokenizer(&files, 16, &[]).unwrap_err();
    assert!(matches!(error, TokenError::TooFewTokens));
    files.metadata = vec![("config.json".to_string(), b"{eos_token_id: 0x1, /* last */ pad_token: 'c',}".to_vec())];
    let error = SafeTokenAlphabet::from_tokenizer(&files, 16, &[]).unwrap_err();
    assert!(matches!(error, TokenError::TooFewTokens));
    files.metadata = vec![("config.json".to_string(), b"{eos_token_id: 0x1}".to_vec())];
    let alphabet = SafeTokenAlphabet::from_tokenizer(&files, 16, &[]).unwrap();
    assert_eq!(token_ids(&alphabet), vec![0, 2]);
}

#[test]
fn tokenizer_alphabet_excludes_special_tokens() {
    let alphabet = SafeTokenAlphabet::load(TokenAlphabetSource::Tokenizer(tokenizer_files()), 16, &[]).unwrap();
    assert_eq!(token_ids(&alphabet), vec![0, 1, 2]);
    assert!(alphabet.manifest().verified);
    assert_eq!(alphabet.manifest().excluded_token_count, 1);
    assert_eq!(alphabet.manifest().tokenizer_digest_sha256, Some(hex_digest(TOKENIZER.as_bytes())));
}

#[test]
fn callers_may_leave_tokens_out() {
    let alphabet = SafeTokenAlphabet::load(TokenAlphabetSource::Tokenizer(tokenizer_files()), 2, &[1]).unwrap();
    assert_eq!(token_ids(&alphabet), vec![0, 2]);
    let mut broken = tokenizer_files();
    broken.tokenizer_bytes = b"{".to_vec();
    let error = SafeTokenAlphabet::load(TokenAlphabetSource::Tokenizer(broken), 2, &[]).unwrap_err();
    assert!(error.message().starts_with("failed to load tokenizer model/tokenizer.json: "));
    let error = SafeTokenAlphabet::load(TokenAlphabetSource::Tokenizer(tokenizer_files()), 16, &[0, 1]).unwrap_err();
    assert!(matches!(error, TokenError::TooFewTokens));
}

#[test]
fn metadata_names_identifiers() {
    let value = Json::Object(vec![
        ("eos_token_id".to_string(), Json::Array(vec![Json::Number("5".to_string()), Json::Number("6".to_string())])),
        ("nested".to_string(), Json::Object(vec![("eos_token_id".to_string(), Json::Number("7".to_string()))])),
        ("eos_token".to_string(), Json::Object(vec![("content".to_string(), Json::Text("</s>".to_string()))])),
    ]);
    let mut ids = HashSet::new();
    collect_named_integer_ids(&value, "eos_token_id", &mut ids);
    assert!(ids.contains(&5) && ids.contains(&6));
    assert_eq!(token_content(&Json::Text("<s>".to_string())), Some("<s>"));
    assert_eq!(token_content(value.get("eos_token").unwrap()), Some("</s>"));
    assert_eq!(token_content(&Json::Null), None);
}

#[test]
fn ranges_are_checked() {
    let refused = |start: u32, size: u32, excluded: &[u32]| {
        SafeTokenAlphabet::from_unverified_range(start, size, excluded).unwrap_err().message()
    };
    assert_eq!(refused(0, 1, &[]), "token alphabet size must be at least two");
    assert_eq!(refused(u32::MAX, 2, &[]), "token alphabet exceeds u32");
    assert_eq!(refused(0, 3, &[0, 1]), "the safe token alphabet contains fewer than two token IDs");
    let alphabet = SafeTokenAlphabet::from_unverified_range(10, 4, &[11]).unwrap();
    assert_eq!(alphabet.len(), 3);
    assert_eq!(alphabet.manifest().minimum_token_id, 10);
    assert_eq!(alphabet.manifest().maximum_token_id, 13);
    assert!(!alphabet.manifest().verified);
    assert!(alphabet.manifest().tokenizer_digest_sha256.is_none());
}

#[test]
fn different_hashes_give_different_blocks() {
    let alphabet = alphabet();
    let mut seen = HashSet::new();
    for hash in 0..200u64 {
        assert!(seen.insert(make_codeword(hash, 4, &alphabet)));
    }
    assert_eq!(splitmix64(0), 16294208416658607535);
    assert_ne!(splitmix64(1), splitmix64(2));
}

#[test]
fn dictionaries_refuse_what_they_cannot_spell() {
    assert!(validate_codeword_capacity(4, 65_536).is_ok());
    assert_eq!(
        validate_codeword_capacity(4, 65_535).unwrap_err().message(),
        "a token alphabet of 65535 IDs and block size 4 cannot encode every u64 trace hash without collisions"
    );
    assert!(validate_codeword_capacity(0, 65_536).is_err());
    assert_eq!(
        TokenDictionary::build(&Vec::new(), alphabet()).err().unwrap().message(),
        "cannot build a token dictionary for an empty trace"
    );
    let mut other = request("b", 4, &[1]);
    other.trace_block_size = 8;
    assert_eq!(
        TokenDictionary::build(&vec![request("a", 4, &[1]), other.clone()], alphabet()).err().unwrap().message(),
        "all requests must use one trace block size"
    );
    let dictionary = TokenDictionary::new(4, 1, alphabet()).unwrap();
    assert_eq!(
        dictionary.synthesize(&other).unwrap_err().message(),
        "request block size does not match the token dictionary"
    );
    assert_eq!(
        dictionary.synthesize(&request("c", 9, &[1])).unwrap_err().message(),
        "request c produced 4 tokens, expected 9"
    );
    assert_eq!(dictionary.manifest().codeword_count, 1);
}

#[test]
fn allocated_dictionaries_know_their_hashes() {
    let build = |requests: Vec<TraceRequest>| {
        allocated::TokenDictionary::build(&requests, allocated::SafeTokenAlphabet::new(100, 16).unwrap())
    };
    let dictionary = build(vec![request("a", 4, &[11]), request("b", 4, &[22])]).unwrap();
    assert_eq!(dictionary.manifest().codeword_count, 2);
    assert_eq!(
        dictionary.synthesize(&request("c", 4, &[33])).unwrap_err().message(),
        "missing codeword for sequence hash 33"
    );
    assert_ne!(
        dictionary.synthesize(&request("a", 4, &[11])).unwrap(),
        dictionary.synthesize(&request("b", 4, &[22])).unwrap()
    );
    assert_eq!(build(Vec::new()).err().unwrap().message(), "cannot build a token dictionary for an empty trace");
    assert!(allocated::SafeTokenAlphabet::new(0, 1).is_err());
}
