//! Tokens that synthetic requests may use.

use crate::contracts::{clone_optional, optional_text};
use crate::digest::{hex_digest, hex_of, le_bytes_all, push_all_le_bytes, sha256};
use crate::json::{json5_value, json_value, parse_json, parse_json5, JsonView};
use crate::ordered::{ascending, sorted_distinct};
use crate::text::{decimal, decimal_text, read_utf8};
use crate::token_shape::codeword::{codeword, spell_codeword};
use crate::token_shape::error::TokenError;
use crate::token_shape::file::{can_load, drop_normalizer, loads, without_normalizer};
use crate::token_shape::tokenizer::{
    added_tokens, collect_special_ids, is_readable, known_tokens, list_added_tokens, list_model_tokens,
    makes_special, read_tokenizer, tokenizer_contents,
};
use std::collections::HashSet;
use vstd::prelude::*;
use vstd::utf8::{decode_utf8, valid_utf8};

verus! {

/// Where an alphabet comes from, and what it holds.
#[derive(Debug)]
pub struct TokenAlphabetManifest {
    pub source: String,
    pub verified: bool,
    pub tokenizer_digest_sha256: Option<String>,
    pub token_count: usize,
    pub minimum_token_id: u32,
    pub maximum_token_id: u32,
    pub excluded_token_count: usize,
    pub token_ids_digest_sha256: String,
}

impl Clone for TokenAlphabetManifest {
    fn clone(&self) -> (copy: Self)
        ensures
            copy == *self,
    {
        TokenAlphabetManifest {
            source: self.source.clone(),
            verified: self.verified,
            tokenizer_digest_sha256: clone_optional(&self.tokenizer_digest_sha256),
            token_count: self.token_count,
            minimum_token_id: self.minimum_token_id,
            maximum_token_id: self.maximum_token_id,
            excluded_token_count: self.excluded_token_count,
            token_ids_digest_sha256: self.token_ids_digest_sha256.clone(),
        }
    }
}

/// Why a tokenizer file is refused that cannot be read.
pub open spec fn unusable() -> Seq<char> {
    "a merge is too short for its prefix, or a character map is broken"@
}

/// The files of a tokenizer and what was read from them.
#[derive(Debug)]
pub struct TokenizerFiles {
    pub source: String,
    /// The path of the tokenizer file.
    pub tokenizer_json: String,
    pub tokenizer_bytes: Vec<u8>,
    /// The paths of the metadata files.
    pub metadata_json: Vec<String>,
    /// The paths of the metadata files that were read, with their bytes.
    pub metadata: Vec<(String, Vec<u8>)>,
}

/// The paths marked as present, in order.
pub open spec fn present(candidates: Seq<(String, bool)>, n: nat) -> Seq<String>
    decreases n,
{
    if n == 0 {
        Seq::empty()
    } else {
        let before = present(candidates, (n - 1) as nat);
        if candidates[n - 1].1 {
            before.push(candidates[n - 1].0)
        } else {
            before
        }
    }
}

impl TokenizerFiles {
    /// Describes a tokenizer on disk: of the candidate metadata files, those that are present.
    pub fn local(source: &str, tokenizer_json: String, candidates: Vec<(String, bool)>) -> (files: Self)
        ensures
            files.source@ == "local:"@ + source@,
            files.tokenizer_json == tokenizer_json,
            files.tokenizer_bytes@.len() == 0,
            files.metadata_json@ == present(candidates@, candidates@.len()),
            files.metadata@.len() == 0,
    {
        let mut label = "local:".to_string();
        label.append(source);
        let mut metadata_json: Vec<String> = Vec::new();
        let mut i: usize = 0;
        while i < candidates.len()
            invariant
                i <= candidates@.len(),
                metadata_json@ == present(candidates@, i as nat),
            decreases candidates@.len() - i,
        {
            if candidates[i].1 {
                metadata_json.push(candidates[i].0.clone());
            }
            i += 1;
        }
        TokenizerFiles {
            source: label,
            tokenizer_json,
            tokenizer_bytes: Vec::new(),
            metadata_json,
            metadata: Vec::new(),
        }
    }
}

/// Where to take an alphabet from.
#[derive(Debug)]
pub enum TokenAlphabetSource {
    Tokenizer(TokenizerFiles),
    UnverifiedRange { start: u32, size: u32 },
}

/// Each identifier is greater than the ones before it.
pub open spec fn strictly_rising(ids: Seq<u32>) -> bool {
    forall|i: int, j: int| 0 <= i < j < ids.len() ==> #[trigger] ids[i] < #[trigger] ids[j]
}

/// A sorted list of at least two token identifiers.
#[derive(Debug)]
pub struct SafeTokenAlphabet {
    token_ids: Vec<u32>,
    manifest: TokenAlphabetManifest,
}

impl View for SafeTokenAlphabet {
    type V = Seq<u32>;

    closed spec fn view(&self) -> Seq<u32> {
        self.token_ids@
    }
}

/// `manifest` describes the identifiers.
pub open spec fn describes(
    manifest: TokenAlphabetManifest,
    ids: Seq<u32>,
    source: Seq<char>,
    verified: bool,
    tokenizer_digest: Option<Seq<char>>,
    excluded: nat,
) -> bool {
    &&& manifest.source@ == source
    &&& manifest.verified == verified
    &&& optional_text(manifest.tokenizer_digest_sha256) == tokenizer_digest
    &&& manifest.token_count == ids.len()
    &&& manifest.minimum_token_id == ids[0]
    &&& manifest.maximum_token_id == ids.last()
    &&& manifest.excluded_token_count == excluded
    &&& manifest.token_ids_digest_sha256@ == hex_of(sha256(le_bytes_all(ids, ids.len())))
}

/// The identifiers from `start` up to `end` that are not excluded.
pub open spec fn range_without(start: int, end: int, excluded: Set<u32>) -> Seq<u32>
    decreases end - start,
{
    if end <= start {
        Seq::empty()
    } else {
        let before = range_without(start, end - 1, excluded);
        if excluded.contains((end - 1) as u32) {
            before
        } else {
            before.push((end - 1) as u32)
        }
    }
}

/// Why a range of tokens gives no alphabet.
pub open spec fn range_failure(start: u32, size: u32, excluded: Set<u32>) -> Option<TokenError> {
    if size < 2 {
        Some(TokenError::AlphabetTooSmall)
    } else if start + size > u32::MAX {
        Some(TokenError::AlphabetTooLarge)
    } else if range_without(start as int, start + size, excluded).len() < 2 {
        Some(TokenError::TooFewTokens)
    } else {
        None
    }
}

/// `alphabet` is what a range of tokens gives.
pub open spec fn is_range_alphabet(
    alphabet: SafeTokenAlphabet,
    start: u32,
    size: u32,
    excluded: Set<u32>,
) -> bool {
    &&& alphabet@ == range_without(start as int, start + size, excluded)
    &&& describes(
        alphabet.described(),
        alphabet@,
        "unverified-range:"@ + decimal(start as nat) + ":"@ + decimal(size as nat),
        false,
        None,
        excluded.len(),
    )
}

/// An identifier of the model that is not excluded.
pub open spec fn offered(model: Set<u32>, excluded: Set<u32>, id: u32) -> bool {
    model.contains(id) && !excluded.contains(id)
}

/// `ids` are the least `limit` identifiers on offer, in order; all of them where they are fewer.
pub open spec fn least_of(ids: Seq<u32>, model: Set<u32>, excluded: Set<u32>, limit: nat) -> bool {
    &&& strictly_rising(ids)
    &&& ids.len() <= limit
    &&& forall|i: int| 0 <= i < ids.len() ==> offered(model, excluded, #[trigger] ids[i])
    &&& forall|id: u32| #[trigger]
        offered(model, excluded, id) ==> ids.contains(id) || (ids.len() == limit && forall|i: int|
            0 <= i < ids.len() ==> #[trigger] ids[i] < id)
}

/// The identifiers that a tokenizer's files exclude.
pub open spec fn is_excluded(
    extra: Seq<u32>,
    metadata: Seq<JsonView>,
    known: Map<Seq<char>, u32>,
    added: Map<u32, bool>,
    id: u32,
) -> bool {
    ||| extra.contains(id)
    ||| added.contains_key(id) && added[id]
    ||| exists|i: int| 0 <= i < metadata.len() && #[trigger] makes_special(metadata[i], known, id)
}

/// The set of identifiers that a tokenizer's files exclude.
pub open spec fn excluded_ids(
    extra: Seq<u32>,
    metadata: Seq<JsonView>,
    known: Map<Seq<char>, u32>,
    added: Map<u32, bool>,
) -> Set<u32> {
    Set::new(|id: u32| is_excluded(extra, metadata, known, added, id))
}

/// `alphabet` is what a model's identifiers give, less the excluded ones.
pub open spec fn is_model_alphabet(
    alphabet: SafeTokenAlphabet,
    source: Seq<char>,
    bytes: Seq<u8>,
    model: Set<u32>,
    excluded: Set<u32>,
    limit: nat,
) -> bool {
    &&& least_of(alphabet@, model, excluded, limit)
    &&& describes(
        alphabet.described(),
        alphabet@,
        source,
        true,
        Some(hex_of(sha256(bytes))),
        excluded.len(),
    )
}

/// Fewer than two identifiers are on offer within the limit.
pub open spec fn leaves_too_few(model: Set<u32>, excluded: Set<u32>, limit: nat) -> bool {
    exists|ids: Seq<u32>| #[trigger]
        least_of(ids, model, excluded, limit) && ids.len() < 2
}

fn distinct_ids(ids: &[u32]) -> (set: HashSet<u32>)
    ensures
        set@ == ids@.to_set(),
{
    broadcast use vstd::std_specs::hash::group_hash_axioms;

    let mut set: HashSet<u32> = HashSet::new();
    let mut i: usize = 0;
    assert(ids@.take(0).to_set() =~= Set::<u32>::empty());
    while i < ids.len()
        invariant
            i <= ids@.len(),
            set@ == ids@.take(i as int).to_set(),
        decreases ids@.len() - i,
    {
        broadcast use vstd::std_specs::hash::group_hash_axioms;

        set.insert(ids[i]);
        assert(ids@.take(i + 1) =~= ids@.take(i as int).push(ids@[i as int]));
        proof {
            crate::trace::load::lemma_push_to_set(ids@.take(i as int), ids@[i as int]);
        }
        i += 1;
    }
    assert(ids@.take(i as int) =~= ids@);
    set
}

proof fn lemma_range_rises(start: int, end: int, excluded: Set<u32>)
    requires
        0 <= start,
        end <= 0x1_0000_0000,
    ensures
        strictly_rising(range_without(start, end, excluded)),
        forall|i: int|
            0 <= i < range_without(start, end, excluded).len() ==> start <= #[trigger] range_without(
                start,
                end,
                excluded,
            )[i] < end,
    decreases end - start,
{
    if end > start {
        lemma_range_rises(start, end - 1, excluded);
    }
}

impl SafeTokenAlphabet {
    #[verifier::type_invariant]
    spec fn valid(self) -> bool {
        &&& self.token_ids@.len() >= 2
        &&& strictly_rising(self.token_ids@)
    }

    /// What the manifest says.
    pub closed spec fn described(&self) -> TokenAlphabetManifest {
        self.manifest
    }

    /// Takes an alphabet from a tokenizer, or from a range that the caller vouches for.
    pub fn load(source: TokenAlphabetSource, limit: usize, extra_excluded_ids: &[u32]) -> (result: Result<
        Self,
        TokenError,
    >)
        ensures
            limit < 2 ==> result == Err::<Self, TokenError>(TokenError::AlphabetTooSmall),
            limit >= 2 ==> match source {
                TokenAlphabetSource::UnverifiedRange { start, size } => range_outcome(
                    result,
                    start,
                    size,
                    extra_excluded_ids@.to_set(),
                ),
                TokenAlphabetSource::Tokenizer(files) => tokenizer_outcome(
                    result,
                    files,
                    limit as nat,
                    extra_excluded_ids@,
                ),
            },
    {
        if limit < 2 {
            return Err(TokenError::AlphabetTooSmall);
        }
        match source {
            TokenAlphabetSource::Tokenizer(files) => Self::from_tokenizer(&files, limit, extra_excluded_ids),
            TokenAlphabetSource::UnverifiedRange { start, size } => Self::from_unverified_range(
                start,
                size,
                extra_excluded_ids,
            ),
        }
    }

    /// Takes the tokens of a range, less the excluded ones.
    pub fn from_unverified_range(start: u32, size: u32, extra_excluded_ids: &[u32]) -> (result: Result<
        Self,
        TokenError,
    >)
        ensures
            range_outcome(result, start, size, extra_excluded_ids@.to_set()),
    {
        broadcast use vstd::std_specs::hash::group_hash_axioms;

        if size < 2 {
            return Err(TokenError::AlphabetTooSmall);
        }
        let end = match start.checked_add(size) {
            Some(end) => end,
            None => return Err(TokenError::AlphabetTooLarge),
        };
        let excluded = distinct_ids(extra_excluded_ids);
        let mut token_ids: Vec<u32> = Vec::new();
        let mut id: u32 = start;
        while id < end
            invariant
                start <= id <= end,
                token_ids@ == range_without(start as int, id as int, excluded@),
            decreases end - id,
        {
            broadcast use vstd::std_specs::hash::group_hash_axioms;

            if !excluded.contains(&id) {
                token_ids.push(id);
            }
            id += 1;
        }
        let mut source = "unverified-range:".to_string();
        source.append(decimal_text(start as u64).as_str());
        source.append(":");
        source.append(decimal_text(size as u64).as_str());
        proof {
            lemma_range_rises(start as int, end as int, excluded@);
        }
        Self::finish(token_ids, source, false, None, excluded.len())
    }

    /// Takes the least identifiers of a tokenizer's model, less the excluded ones.
    pub fn from_tokenizer(files: &TokenizerFiles, limit: usize, extra_excluded_ids: &[u32]) -> (result: Result<
        Self,
        TokenError,
    >)
        ensures
            tokenizer_outcome(result, *files, limit as nat, extra_excluded_ids@),
    {
        broadcast use vstd::std_specs::hash::group_hash_axioms;

        let file = match parse_json(files.tokenizer_bytes.as_slice()) {
            Ok(file) => file,
            Err(error) => return Err(TokenError::Tokenizer { path: files.tokenizer_json.clone(), error }),
        };
        if !can_load(files.tokenizer_bytes.as_slice(), &file) {
            return Err(
                TokenError::Tokenizer {
                    path: files.tokenizer_json.clone(),
                    error: "a merge is too short for its prefix, or a character map is broken".to_string(),
                },
            );
        }
        let text = drop_normalizer(files.tokenizer_bytes.as_slice(), &file);
        assert(is_readable(text@)) by {
            assert(loads(files.tokenizer_bytes@));
        }
        let tokenizer = match read_tokenizer(text.as_slice()) {
            Ok(tokenizer) => tokenizer,
            Err(error) => return Err(TokenError::Tokenizer { path: files.tokenizer_json.clone(), error }),
        };
        let ghost known = known_tokens(tokenizer);
        let ghost added = added_tokens(tokenizer);
        let mut excluded = distinct_ids(extra_excluded_ids);
        let tokens = list_added_tokens(&tokenizer);
        let mut i: usize = 0;
        while i < tokens.len()
            invariant
                i <= tokens@.len(),
                forall|id: u32| #[trigger]
                    excluded@.contains(id) <==> extra_excluded_ids@.contains(id) || exists|k: int|
                        0 <= k < i && #[trigger] tokens@[k] == (id, true),
            decreases tokens@.len() - i,
        {
            broadcast use vstd::std_specs::hash::group_hash_axioms;

            let ghost held = excluded@;
            let (token_id, special) = tokens[i];
            if special {
                excluded.insert(token_id);
            }
            proof {
                assert forall|id: u32| #[trigger] excluded@.contains(id) <==> extra_excluded_ids@.contains(id)
                    || exists|k: int| 0 <= k < i + 1 && #[trigger] tokens@[k] == (id, true) by {
                    assert(excluded@.contains(id) <==> held.contains(id) || tokens@[i as int] == (id, true));
                }
            }
            i += 1;
        }
        let ghost base = excluded@;
        proof {
            assert forall|id: u32| #[trigger] base.contains(id) <==> extra_excluded_ids@.contains(id) || (
            added.contains_key(id) && added[id]) by {
                assert(tokens@.contains((id, true)) <==> added.contains_key(id) && added[id] == true);
                if tokens@.contains((id, true)) {
                    let k = tokens@.index_of((id, true));
                    assert(tokens@[k] == (id, true));
                }
            }
        }
        let ghost metadata = metadata_views(files.metadata@);
        let mut m: usize = 0;
        while m < files.metadata.len()
            invariant
                m <= files.metadata@.len(),
                metadata == metadata_views(files.metadata@),
                metadata_failure(files.metadata@, m as nat) is None,
                tokenizer_contents(without_normalizer(files.tokenizer_bytes@)) is Some,
                loads(files.tokenizer_bytes@),
                json_value(files.tokenizer_bytes@) == Some(file@),
                known == known_tokens(tokenizer),
                forall|id: u32| #[trigger]
                    excluded@.contains(id) <==> base.contains(id) || exists|k: int|
                        0 <= k < m && #[trigger] makes_special(metadata[k], known, id),
            decreases files.metadata@.len() - m,
        {
            let ghost held = excluded@;
            let (path, bytes) = &files.metadata[m];
            let value = match read_utf8(bytes.as_slice()) {
                Some(text) => match parse_json5(text.as_str()) {
                    Ok(value) => value,
                    Err(_) => {
                        let error = TokenError::MetadataJson { path: path.clone() };
                        proof {
                            lemma_first_failure(files.metadata@, m as nat + 1, files.metadata@.len());
                        }
                        return Err(error);
                    },
                },
                None => {
                    let error = TokenError::MetadataEncoding { path: path.clone() };
                    proof {
                        lemma_first_failure(files.metadata@, m as nat + 1, files.metadata@.len());
                    }
                    return Err(error);
                },
            };
            collect_special_ids(&value, &tokenizer, &mut excluded);
            proof {
                assert(metadata[m as int] == value@);
                assert forall|id: u32| #[trigger] excluded@.contains(id) <==> base.contains(id) || exists|k: int|
                    0 <= k < m + 1 && #[trigger] makes_special(metadata[k], known, id) by {
                    assert(excluded@.contains(id) <==> held.contains(id) || makes_special(
                        metadata[m as int],
                        known,
                        id,
                    ));
                }
            }
            m += 1;
        }
        proof {
            assert forall|id: u32| #[trigger] excluded@.contains(id) <==> excluded_ids(
                extra_excluded_ids@,
                metadata,
                known,
                added,
            ).contains(id) by {
                assert(base.contains(id) || !base.contains(id));
            }
            assert(excluded@ =~= excluded_ids(extra_excluded_ids@, metadata, known, added));
        }
        Self::from_model(
            list_model_tokens(&tokenizer),
            &excluded,
            limit,
            files.source.clone(),
            files.tokenizer_bytes.as_slice(),
        )
    }

    /// Takes the least of a model's identifiers, less the excluded ones.
    pub fn from_model(
        model: Vec<u32>,
        excluded: &HashSet<u32>,
        limit: usize,
        source: String,
        tokenizer_bytes: &[u8],
    ) -> (result: Result<Self, TokenError>)
        ensures
            model_outcome(result, source@, tokenizer_bytes@, model@.to_set(), excluded@, limit as nat),
    {
        broadcast use vstd::std_specs::hash::group_hash_axioms;

        let ghost whole = model@.to_set();
        let mut wide: Vec<u64> = Vec::new();
        let mut i: usize = 0;
        while i < model.len()
            invariant
                i <= model@.len(),
                wide@.len() == i,
                forall|k: int| 0 <= k < i ==> #[trigger] wide@[k] == model@[k],
            decreases model@.len() - i,
        {
            wide.push(model[i] as u64);
            i += 1;
        }
        let ghost all = wide@;
        let sorted = sorted_distinct(wide);
        proof {
            assert forall|k: int| 0 <= k < sorted@.len() implies #[trigger] sorted@[k] <= u32::MAX && model@.contains(
                sorted@[k] as u32,
            ) by {
                assert(sorted@.contains(sorted@[k]));
                assert(all.contains(sorted@[k]));
                let j = all.index_of(sorted@[k]);
                assert(model@[j] == sorted@[k]);
            }
            assert forall|id: u32| #[trigger] model@.contains(id) implies sorted@.contains(id as u64) by {
                let j = model@.index_of(id);
                assert(all[j] == id as u64);
                assert(all.contains(id as u64));
            }
        }
        let mut token_ids: Vec<u32> = Vec::new();
        let mut j: usize = 0;
        while j < sorted.len() && token_ids.len() < limit
            invariant
                j <= sorted@.len(),
                ascending(sorted@),
                token_ids@.len() <= limit,
                forall|k: int|
                    0 <= k < sorted@.len() ==> #[trigger] sorted@[k] <= u32::MAX && model@.contains(sorted@[k] as u32),
                strictly_rising(token_ids@),
                forall|k: int| 0 <= k < token_ids@.len() ==> offered(whole, excluded@, #[trigger] token_ids@[k]),
                forall|k: int, l: int|
                    0 <= k < token_ids@.len() && j <= l < sorted@.len() ==> #[trigger] token_ids@[k]
                        < #[trigger] sorted@[l],
                forall|k: int|
                    0 <= k < j && !excluded@.contains(#[trigger] sorted@[k] as u32) ==> token_ids@.contains(
                        sorted@[k] as u32,
                    ),
                whole == model@.to_set(),
            decreases sorted@.len() - j,
        {
            broadcast use vstd::std_specs::hash::group_hash_axioms;

            assert(sorted@[j as int] <= u32::MAX);
            let id = sorted[j] as u32;
            let ghost before = token_ids@;
            if !excluded.contains(&id) {
                assert(offered(whole, excluded@, id));
                token_ids.push(id);
                assert(token_ids@.last() == id);
            }
            proof {
                assert forall|k: int| 0 <= k < j + 1 && !excluded@.contains(
                    #[trigger] sorted@[k] as u32,
                ) implies token_ids@.contains(sorted@[k] as u32) by {
                    if k < j {
                        let x = before.index_of(sorted@[k] as u32);
                        assert(token_ids@[x] == sorted@[k] as u32);
                    } else {
                        assert(token_ids@[token_ids@.len() - 1] == id);
                    }
                }
            }
            j += 1;
        }
        proof {
            assert forall|id: u32| #[trigger] offered(whole, excluded@, id) implies token_ids@.contains(id) || (token_ids@.len() == limit
                && forall|k: int| 0 <= k < token_ids@.len() ==> #[trigger] token_ids@[k] < id) by {
                assert(model@.contains(id));
                let k = sorted@.index_of(id as u64);
                assert(sorted@[k] == id as u64);
                if k < j {
                    assert(token_ids@.contains(sorted@[k] as u32));
                }
            }
            assert(least_of(token_ids@, whole, excluded@, limit as nat));
        }
        let digest = hex_digest(tokenizer_bytes);
        Self::finish(token_ids, source, true, Some(digest), excluded.len())
    }

    fn finish(
        token_ids: Vec<u32>,
        source: String,
        verified: bool,
        tokenizer_digest_sha256: Option<String>,
        excluded_token_count: usize,
    ) -> (result: Result<Self, TokenError>)
        requires
            strictly_rising(token_ids@),
        ensures
            match result {
                Ok(alphabet) => alphabet@ == token_ids@ && token_ids@.len() >= 2 && describes(
                    alphabet.described(),
                    token_ids@,
                    source@,
                    verified,
                    optional_text(tokenizer_digest_sha256),
                    excluded_token_count as nat,
                ),
                Err(error) => token_ids@.len() < 2 && error == TokenError::TooFewTokens,
            },
    {
        if token_ids.len() < 2 {
            return Err(TokenError::TooFewTokens);
        }
        let minimum_token_id = token_ids[0];
        let maximum_token_id = token_ids[token_ids.len() - 1];
        let mut bytes: Vec<u8> = Vec::new();
        push_all_le_bytes(&mut bytes, &token_ids);
        assert(bytes@ =~= le_bytes_all(token_ids@, token_ids@.len()));
        let manifest = TokenAlphabetManifest {
            source,
            verified,
            tokenizer_digest_sha256,
            token_count: token_ids.len(),
            minimum_token_id,
            maximum_token_id,
            excluded_token_count,
            token_ids_digest_sha256: hex_digest(bytes.as_slice()),
        };
        Ok(SafeTokenAlphabet { token_ids, manifest })
    }

    pub fn manifest(&self) -> (manifest: &TokenAlphabetManifest)
        ensures
            *manifest == self.described(),
    {
        &self.manifest
    }

    /// How many tokens there are.
    pub fn len(&self) -> (count: usize)
        ensures
            count == self@.len(),
            count >= 2,
            self@.no_duplicates(),
    {
        proof {
            use_type_invariant(self);
        }
        self.token_ids.len()
    }

    /// The token for a digit.
    pub fn token(&self, digit: usize) -> (token: u32)
        requires
            digit < self@.len(),
        ensures
            token == self@[digit as int],
    {
        self.token_ids[digit]
    }
}

/// What a range of tokens gives.
pub open spec fn range_outcome(
    result: Result<SafeTokenAlphabet, TokenError>,
    start: u32,
    size: u32,
    excluded: Set<u32>,
) -> bool {
    match result {
        Ok(alphabet) => range_failure(start, size, excluded) is None && is_range_alphabet(
            alphabet,
            start,
            size,
            excluded,
        ),
        Err(error) => range_failure(start, size, excluded) == Some(error),
    }
}

/// What a model's identifiers give, less the excluded ones.
pub open spec fn model_outcome(
    result: Result<SafeTokenAlphabet, TokenError>,
    source: Seq<char>,
    bytes: Seq<u8>,
    model: Set<u32>,
    excluded: Set<u32>,
    limit: nat,
) -> bool {
    match result {
        Ok(alphabet) => is_model_alphabet(alphabet, source, bytes, model, excluded, limit),
        Err(error) => leaves_too_few(model, excluded, limit) && error == TokenError::TooFewTokens,
    }
}

/// The tokenizer file is at fault, with these words where they are fixed.
pub open spec fn is_tokenizer_error(
    result: Result<SafeTokenAlphabet, TokenError>,
    files: TokenizerFiles,
    reason: Option<Seq<char>>,
) -> bool {
    match result {
        Err(TokenError::Tokenizer { path, error }) => path == files.tokenizer_json && (reason is None || reason
            == Some(error@)),
        _ => false,
    }
}

/// Why one of the first `n` metadata files, the first of them that is at fault, cannot be read.
pub open spec fn metadata_failure(metadata: Seq<(String, Vec<u8>)>, n: nat) -> Option<TokenError>
    decreases n,
{
    if n == 0 {
        None
    } else {
        let (path, bytes) = metadata[n - 1];
        match metadata_failure(metadata, (n - 1) as nat) {
            Some(failure) => Some(failure),
            None => if !valid_utf8(bytes@) {
                Some(TokenError::MetadataEncoding { path })
            } else if json5_value(decode_utf8(bytes@)) is None {
                Some(TokenError::MetadataJson { path })
            } else {
                None
            },
        }
    }
}

/// What the metadata files hold.
pub open spec fn metadata_views(metadata: Seq<(String, Vec<u8>)>) -> Seq<JsonView> {
    Seq::new(metadata.len(), |i: int| json5_value(decode_utf8(metadata[i].1@))->0)
}

proof fn lemma_first_failure(metadata: Seq<(String, Vec<u8>)>, n: nat, m: nat)
    requires
        n <= m,
        metadata_failure(metadata, n) is Some,
    ensures
        metadata_failure(metadata, m) == metadata_failure(metadata, n),
    decreases m - n,
{
    if n < m {
        lemma_first_failure(metadata, n, (m - 1) as nat);
    }
}

/// What a tokenizer's files give: an alphabet of the model's identifiers, or the first thing that
/// is wrong with the tokenizer file or else with a metadata file.
pub open spec fn tokenizer_outcome(
    result: Result<SafeTokenAlphabet, TokenError>,
    files: TokenizerFiles,
    limit: nat,
    extra: Seq<u32>,
) -> bool {
    match json_value(files.tokenizer_bytes@) {
        None => is_tokenizer_error(result, files, None),
        Some(_) => if !loads(files.tokenizer_bytes@) {
            is_tokenizer_error(result, files, Some(unusable()))
        } else {
            match tokenizer_contents(without_normalizer(files.tokenizer_bytes@)) {
                None => is_tokenizer_error(result, files, None),
                Some((known, model, added)) => match metadata_failure(files.metadata@, files.metadata@.len()) {
                    Some(failure) => result == Err::<SafeTokenAlphabet, TokenError>(failure),
                    None => model_outcome(
                        result,
                        files.source@,
                        files.tokenizer_bytes@,
                        model,
                        excluded_ids(extra, metadata_views(files.metadata@), known, added),
                        limit,
                    ),
                },
            }
        },
    }
}

/// Writes the codeword of a hash in an alphabet.
pub fn make_codeword(hash: u64, block_size: usize, alphabet: &SafeTokenAlphabet) -> (tokens: Vec<u32>)
    ensures
        tokens@ == codeword(hash, block_size as nat, alphabet@),
{
    proof {
        use_type_invariant(alphabet);
    }
    spell_codeword(hash, block_size, &alphabet.token_ids)
}

} // verus!
