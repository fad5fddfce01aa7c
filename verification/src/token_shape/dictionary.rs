//! A dictionary that spells hashes as tokens by their digits.

use crate::contracts::TraceRequest;
use crate::digest::{hex_digest, hex_of, le_bytes, push_le_bytes, push_text_bytes, sha256};
use crate::token_shape::alphabet::{make_codeword, SafeTokenAlphabet, TokenAlphabetManifest};
use crate::token_shape::codeword::{codeword, encodes_every_hash, has_capacity, law_codewords_tell_hashes_apart};
use crate::token_shape::error::TokenError;
use std::collections::HashSet;
use vstd::prelude::*;
use vstd::utf8::encode_utf8;

verus! {

/// The name of the scheme that codewords follow.
pub open spec fn codeword_algorithm() -> Seq<char> {
    "splitmix64-base-n-lsd-v2"@
}

/// What a dictionary is made of.
#[derive(Debug)]
pub struct TokenDictionaryManifest {
    pub trace_block_size: usize,
    pub codeword_algorithm: String,
    pub codeword_count: usize,
    pub alphabet: TokenAlphabetManifest,
    pub dictionary_digest_sha256: String,
}

impl Clone for TokenDictionaryManifest {
    fn clone(&self) -> (copy: Self)
        ensures
            copy == *self,
    {
        TokenDictionaryManifest {
            trace_block_size: self.trace_block_size,
            codeword_algorithm: self.codeword_algorithm.clone(),
            codeword_count: self.codeword_count,
            alphabet: self.alphabet.clone(),
            dictionary_digest_sha256: self.dictionary_digest_sha256.clone(),
        }
    }
}

/// Spells the hashes of requests as tokens.
#[derive(Debug)]
pub struct TokenDictionary {
    block_size: usize,
    alphabet: SafeTokenAlphabet,
    manifest: TokenDictionaryManifest,
}

/// What the digest of a dictionary is taken of.
pub open spec fn dictionary_source(block_size: usize, alphabet_digest: Seq<char>) -> Seq<u8> {
    encode_utf8(codeword_algorithm()) + le_bytes(block_size as u64) + encode_utf8(alphabet_digest)
}

/// Why no dictionary can be had for this block size and alphabet.
pub open spec fn dictionary_failure(block_size: usize, alphabet_size: usize) -> Option<TokenError> {
    if block_size == 0 {
        Some(TokenError::ZeroBlockSize)
    } else {
        capacity_failure(block_size, alphabet_size)
    }
}

/// Why codewords of this length cannot stand for every hash.
pub open spec fn capacity_failure(block_size: usize, alphabet_size: usize) -> Option<TokenError> {
    if encodes_every_hash(block_size as nat, alphabet_size as nat) {
        None
    } else {
        Some(TokenError::Capacity { alphabet_size, block_size })
    }
}

/// `dictionary` spells with this alphabet in blocks of this size.
pub open spec fn is_dictionary(
    dictionary: TokenDictionary,
    block_size: usize,
    codeword_count: usize,
    alphabet: SafeTokenAlphabet,
) -> bool {
    let manifest = dictionary.described();
    &&& dictionary.block() == block_size
    &&& dictionary.token_ids() == alphabet@
    &&& manifest.trace_block_size == block_size
    &&& manifest.codeword_algorithm@ == codeword_algorithm()
    &&& manifest.codeword_count == codeword_count
    &&& manifest.alphabet == alphabet.described()
    &&& manifest.dictionary_digest_sha256@ == hex_of(
        sha256(dictionary_source(block_size, alphabet.described().token_ids_digest_sha256@)),
    )
}

/// The tokens of a request: the codewords of its hashes, one after the other, cut to its length.
pub open spec fn spelled(block_size: nat, token_ids: Seq<u32>, hashes: Seq<u64>, length: nat) -> Seq<u32> {
    Seq::new(length, |i: int| spelled_at(block_size, token_ids, hashes, i))
}

/// One token of a request.
pub open spec fn spelled_at(block_size: nat, token_ids: Seq<u32>, hashes: Seq<u64>, i: int) -> u32 {
    codeword(hashes[i / block_size as int], block_size, token_ids)[i % block_size as int]
}

/// Why a request cannot be spelled.
pub open spec fn spelling_failure(block_size: usize, request: TraceRequest) -> Option<TokenError> {
    if request.trace_block_size != block_size {
        Some(TokenError::OtherBlockSize)
    } else if request.input_sequence_hashes@.len() * block_size < request.input_tokens {
        Some(
            TokenError::Length {
                request_id: request.source_request_id,
                produced: (request.input_sequence_hashes@.len() * block_size) as usize,
                expected: request.input_tokens,
            },
        )
    } else {
        None
    }
}

/// Refuses an alphabet whose codewords of this length cannot stand for every hash.
pub fn validate_codeword_capacity(block_size: usize, alphabet_size: usize) -> (result: Result<(), TokenError>)
    ensures
        match result {
            Ok(()) => capacity_failure(block_size, alphabet_size) is None,
            Err(error) => capacity_failure(block_size, alphabet_size) == Some(error),
        },
{
    if has_capacity(block_size, alphabet_size) {
        Ok(())
    } else {
        Err(TokenError::Capacity { alphabet_size, block_size })
    }
}

/// The distinct hashes of the first `n` requests.
pub open spec fn hashes_of(requests: Seq<TraceRequest>, n: nat) -> Set<u64>
    decreases n,
{
    if n == 0 {
        Set::empty()
    } else {
        hashes_of(requests, (n - 1) as nat).union(requests[n - 1].input_sequence_hashes@.to_set())
    }
}

/// All requests use one block size.
pub open spec fn one_block_size(requests: Seq<TraceRequest>) -> bool {
    forall|i: int|
        0 <= i < requests.len() ==> (#[trigger] requests[i]).trace_block_size == requests[0].trace_block_size
}

/// Why no dictionary can be had for these requests.
pub open spec fn build_failure(requests: Seq<TraceRequest>, alphabet_size: usize) -> Option<TokenError> {
    if requests.len() == 0 {
        Some(TokenError::NoRequests)
    } else if !one_block_size(requests) {
        Some(TokenError::MixedBlockSizes)
    } else {
        dictionary_failure(requests[0].trace_block_size, alphabet_size)
    }
}

pub(crate) fn collect_hashes(requests: &Vec<TraceRequest>) -> (hashes: HashSet<u64>)
    ensures
        hashes@ == hashes_of(requests@, requests@.len()),
{
    broadcast use vstd::std_specs::hash::group_hash_axioms;

    let mut hashes: HashSet<u64> = HashSet::new();
    let mut i: usize = 0;
    while i < requests.len()
        invariant
            i <= requests@.len(),
            hashes@ == hashes_of(requests@, i as nat),
        decreases requests@.len() - i,
    {
        let list = &requests[i].input_sequence_hashes;
        let ghost before = hashes@;
        let mut j: usize = 0;
        assert(list@.take(0).to_set() =~= Set::<u64>::empty());
        assert(before =~= before.union(list@.take(0).to_set()));
        while j < list.len()
            invariant
                j <= list@.len(),
                hashes@ == before.union(list@.take(j as int).to_set()),
            decreases list@.len() - j,
        {
            broadcast use vstd::std_specs::hash::group_hash_axioms;

            hashes.insert(list[j]);
            proof {
                assert(list@.take(j + 1) =~= list@.take(j as int).push(list@[j as int]));
                crate::trace::load::lemma_push_to_set(list@.take(j as int), list@[j as int]);
                assert(hashes@ =~= before.union(list@.take(j + 1).to_set()));
            }
            j += 1;
        }
        assert(list@.take(j as int) =~= list@);
        i += 1;
    }
    hashes
}

/// Tells whether all requests use one block size.
pub(crate) fn uses_one_block_size(requests: &Vec<TraceRequest>) -> (result: bool)
    requires
        requests@.len() > 0,
    ensures
        result == one_block_size(requests@),
{
    let block_size = requests[0].trace_block_size;
    let mut i: usize = 0;
    while i < requests.len()
        invariant
            i <= requests@.len(),
            block_size == requests@[0].trace_block_size,
            forall|k: int| 0 <= k < i ==> (#[trigger] requests@[k]).trace_block_size == block_size,
        decreases requests@.len() - i,
    {
        if requests[i].trace_block_size != block_size {
            return false;
        }
        i += 1;
    }
    true
}

impl TokenDictionary {
    #[verifier::type_invariant]
    spec fn valid(self) -> bool {
        &&& self.block_size > 0
        &&& self.alphabet@.no_duplicates()
        &&& encodes_every_hash(self.block_size as nat, self.alphabet@.len())
    }

    /// Tokens in a block.
    pub closed spec fn block(&self) -> usize {
        self.block_size
    }

    /// The tokens that stand for digits.
    pub closed spec fn token_ids(&self) -> Seq<u32> {
        self.alphabet@
    }

    /// What the manifest says.
    pub closed spec fn described(&self) -> TokenDictionaryManifest {
        self.manifest
    }

    /// Makes the dictionary for a block size and an alphabet.
    pub fn new(block_size: usize, codeword_count: usize, alphabet: SafeTokenAlphabet) -> (result: Result<
        Self,
        TokenError,
    >)
        ensures
            match result {
                Ok(dictionary) => dictionary_failure(block_size, alphabet@.len() as usize) is None
                    && is_dictionary(dictionary, block_size, codeword_count, alphabet),
                Err(error) => dictionary_failure(block_size, alphabet@.len() as usize) == Some(error),
            },
    {
        if block_size == 0 {
            return Err(TokenError::ZeroBlockSize);
        }
        match validate_codeword_capacity(block_size, alphabet.len()) {
            Ok(()) => {},
            Err(error) => return Err(error),
        }
        let mut bytes: Vec<u8> = Vec::new();
        push_text_bytes(&mut bytes, "splitmix64-base-n-lsd-v2");
        push_le_bytes(&mut bytes, block_size as u64);
        push_text_bytes(&mut bytes, alphabet.manifest().token_ids_digest_sha256.as_str());
        assert(bytes@ =~= dictionary_source(block_size, alphabet.described().token_ids_digest_sha256@));
        let manifest = TokenDictionaryManifest {
            trace_block_size: block_size,
            codeword_algorithm: "splitmix64-base-n-lsd-v2".to_string(),
            codeword_count,
            alphabet: alphabet.manifest().clone(),
            dictionary_digest_sha256: hex_digest(bytes.as_slice()),
        };
        Ok(TokenDictionary { block_size, alphabet, manifest })
    }

    /// Makes the dictionary for the hashes of some requests.
    pub fn build(requests: &Vec<TraceRequest>, alphabet: SafeTokenAlphabet) -> (result: Result<Self, TokenError>)
        ensures
            match result {
                Ok(dictionary) => build_failure(requests@, alphabet@.len() as usize) is None && is_dictionary(
                    dictionary,
                    requests@[0].trace_block_size,
                    hashes_of(requests@, requests@.len()).len() as usize,
                    alphabet,
                ),
                Err(error) => build_failure(requests@, alphabet@.len() as usize) == Some(error),
            },
    {
        broadcast use vstd::std_specs::hash::group_hash_axioms;

        if requests.len() == 0 {
            return Err(TokenError::NoRequests);
        }
        if !uses_one_block_size(requests) {
            return Err(TokenError::MixedBlockSizes);
        }
        let hashes = collect_hashes(requests);
        Self::new(requests[0].trace_block_size, hashes.len(), alphabet)
    }

    pub fn manifest(&self) -> (manifest: &TokenDictionaryManifest)
        ensures
            *manifest == self.described(),
    {
        &self.manifest
    }

    /// Spells the input of a request.
    pub fn synthesize(&self, request: &TraceRequest) -> (result: Result<Vec<u32>, TokenError>)
        ensures
            match result {
                Ok(tokens) => spelling_failure(self.block(), *request) is None && tokens@ == spelled(
                    self.block() as nat,
                    self.token_ids(),
                    request.input_sequence_hashes@,
                    request.input_tokens as nat,
                ),
                Err(error) => spelling_failure(self.block(), *request) == Some(error),
            },
    {
        proof {
            use_type_invariant(self);
        }
        if request.trace_block_size != self.block_size {
            return Err(TokenError::OtherBlockSize);
        }
        let block = self.block_size;
        let length = request.input_tokens;
        let ghost whole = spelled(
            block as nat,
            self.alphabet@,
            request.input_sequence_hashes@,
            length as nat,
        );
        let mut tokens: Vec<u32> = Vec::with_capacity(length);
        let mut i: usize = 0;
        assert(tokens@ =~= whole.take(0));
        while i < request.input_sequence_hashes.len() && tokens.len() < length
            invariant
                i <= request.input_sequence_hashes@.len(),
                block > 0,
                block == self.block_size,
                length == request.input_tokens,
                whole == spelled(block as nat, self.alphabet@, request.input_sequence_hashes@, length as nat),
                tokens@.len() <= length,
                tokens@.len() < length ==> tokens@.len() == i * block,
                tokens@.len() == length ==> length <= i * block,
                tokens@ == whole.take(tokens@.len() as int),
            decreases request.input_sequence_hashes@.len() - i,
        {
            let hash = request.input_sequence_hashes[i];
            let word = make_codeword(hash, block, &self.alphabet);
            let ghost start = tokens@.len() as int;
            let remaining = length - tokens.len();
            let take = if remaining < block {
                remaining
            } else {
                block
            };
            let mut j: usize = 0;
            while j < take
                invariant
                    j <= take <= block,
                    start + take <= length,
                    start == i * block,
                    block > 0,
                    i < request.input_sequence_hashes@.len(),
                    hash == request.input_sequence_hashes@[i as int],
                    word@ == codeword(hash, block as nat, self.alphabet@),
                    whole == spelled(block as nat, self.alphabet@, request.input_sequence_hashes@, length as nat),
                    length == request.input_tokens,
                    tokens@ == whole.take(start + j),
                decreases take - j,
            {
                proof {
                    let at = start + j;
                    vstd::arithmetic::div_mod::lemma_fundamental_div_mod_converse(
                        at,
                        block as int,
                        i as int,
                        j as int,
                    );
                    assert(at / block as int == i && at % block as int == j);
                    assert(whole[at] == spelled_at(
                        block as nat,
                        self.alphabet@,
                        request.input_sequence_hashes@,
                        at,
                    ));
                    assert(whole[at] == word@[j as int]);
                    assert(whole.take(at + 1) =~= whole.take(at).push(whole[at]));
                }
                tokens.push(word[j]);
                j += 1;
            }
            proof {
                assert((i + 1) * block == i * block + block) by (nonlinear_arith);
            }
            i += 1;
        }
        assert(whole.take(length as int) =~= whole);
        proof {
            let count = request.input_sequence_hashes@.len() as int;
            let b = block as int;
            let n = i as int;
            if tokens@.len() == length {
                assert(n * b <= count * b) by (nonlinear_arith)
                    requires
                        n <= count,
                        b > 0,
                ;
            }
        }
        if tokens.len() != length {
            return Err(
                TokenError::Length {
                    request_id: request.source_request_id.clone(),
                    produced: tokens.len(),
                    expected: length,
                },
            );
        }
        Ok(tokens)
    }
}

/// Requests that begin with the same hashes begin with the same tokens.
pub proof fn law_shared_hashes_give_shared_tokens(
    block_size: nat,
    token_ids: Seq<u32>,
    a: Seq<u64>,
    a_length: nat,
    b: Seq<u64>,
    b_length: nat,
    shared: nat,
)
    requires
        block_size > 0,
        shared <= a.len(),
        shared <= b.len(),
        a.take(shared as int) == b.take(shared as int),
    ensures
        forall|i: int|
            0 <= i < shared * block_size && i < a_length && i < b_length ==> #[trigger] spelled(
                block_size,
                token_ids,
                a,
                a_length,
            )[i] == spelled(block_size, token_ids, b, b_length)[i],
{
    assert forall|i: int|
        0 <= i < shared * block_size && i < a_length && i < b_length implies #[trigger] spelled(
        block_size,
        token_ids,
        a,
        a_length,
    )[i] == spelled(block_size, token_ids, b, b_length)[i] by {
        let k = i / block_size as int;
        let s = shared as int;
        let n = block_size as int;
        assert(0 <= k < s) by (nonlinear_arith)
            requires
                0 <= i < s * n,
                n > 0,
                k == i / n,
        ;
        assert(a.take(s)[k] == b.take(s)[k]);
        assert(spelled_at(block_size, token_ids, a, i) == spelled_at(block_size, token_ids, b, i));
    }
}

/// Where full blocks at one place differ in their hashes, they differ in their tokens.
pub proof fn law_different_hashes_give_different_blocks(
    block_size: nat,
    token_ids: Seq<u32>,
    a: Seq<u64>,
    a_length: nat,
    b: Seq<u64>,
    b_length: nat,
    k: nat,
)
    requires
        block_size > 0,
        token_ids.no_duplicates(),
        encodes_every_hash(block_size, token_ids.len()),
        k < a.len(),
        k < b.len(),
        (k + 1) * block_size <= a_length,
        (k + 1) * block_size <= b_length,
        a[k as int] != b[k as int],
    ensures
        spelled(block_size, token_ids, a, a_length).subrange(k * block_size as int, (k + 1) * block_size as int)
            != spelled(block_size, token_ids, b, b_length).subrange(
            k * block_size as int,
            (k + 1) * block_size as int,
        ),
{
    lemma_block_is_codeword(block_size, token_ids, a, a_length, k);
    lemma_block_is_codeword(block_size, token_ids, b, b_length, k);
    if codeword(a[k as int], block_size, token_ids) == codeword(b[k as int], block_size, token_ids) {
        law_codewords_tell_hashes_apart(a[k as int], b[k as int], block_size, token_ids);
    }
}

proof fn lemma_block_is_codeword(block_size: nat, token_ids: Seq<u32>, hashes: Seq<u64>, length: nat, k: nat)
    requires
        block_size > 0,
        k < hashes.len(),
        (k + 1) * block_size <= length,
    ensures
        spelled(block_size, token_ids, hashes, length).subrange(
            k * block_size as int,
            (k + 1) * block_size as int,
        ) == codeword(hashes[k as int], block_size, token_ids),
{
    let n = block_size as int;
    let start = k * n;
    assert((k + 1) * n == start + n && start >= 0) by (nonlinear_arith)
        requires
            start == k * n,
            k >= 0,
            n > 0,
    ;
    let whole = spelled(block_size, token_ids, hashes, length);
    let part = whole.subrange(start, start + n);
    let word = codeword(hashes[k as int], block_size, token_ids);
    assert forall|j: int| 0 <= j < n implies #[trigger] part[j] == word[j] by {
        vstd::arithmetic::div_mod::lemma_fundamental_div_mod_converse(start + j, n, k as int, j);
        assert(whole[start + j] == spelled_at(block_size, token_ids, hashes, start + j));
    }
    assert(part =~= word);
}

} // verus!
