//! A dictionary that hands out codewords one hash at a time, from a plain range of tokens.

use crate::contracts::TraceRequest;
use crate::digest::{
    hex_digest, hex_of, le_bytes, le_bytes_all, le_bytes_short, push_all_le_bytes, push_le_bytes,
    push_le_bytes_short, sha256,
};
use crate::numeric::ceil_div;
use crate::ordered::{ascending, lemma_ascending_unique, sorted_distinct};
use crate::token_shape::codeword::{mixed, splitmix64};
use crate::token_shape::dictionary::{hashes_of, one_block_size, uses_one_block_size};
use crate::token_shape::error::TokenError;
use std::collections::HashMap;
use vstd::prelude::*;

verus! {

/// A range of tokens.
#[derive(Debug, Clone, Copy, PartialEq, Eq, Structural)]
pub struct SafeTokenAlphabet {
    pub start: u32,
    pub size: u32,
}

impl SafeTokenAlphabet {
    /// At least two tokens, all of them in range.
    pub open spec fn valid(self) -> bool {
        self.size >= 2 && self.start + self.size - 1 <= u32::MAX
    }

    /// Takes the `size` tokens from `start` on.
    pub fn new(start: u32, size: u32) -> (result: Result<Self, TokenError>)
        ensures
            match result {
                Ok(alphabet) => alphabet.valid() && alphabet == (SafeTokenAlphabet { start, size }),
                Err(error) => error == (if size < 2 {
                    TokenError::AlphabetTooSmall
                } else {
                    TokenError::AlphabetTooLarge
                }) && (size < 2 || start + size - 1 > u32::MAX),
            },
    {
        if size < 2 {
            return Err(TokenError::AlphabetTooSmall);
        }
        match start.checked_add(size - 1) {
            Some(_) => Ok(SafeTokenAlphabet { start, size }),
            None => Err(TokenError::AlphabetTooLarge),
        }
    }
}

/// What a dictionary is made of.
#[derive(Debug)]
pub struct TokenDictionaryManifest {
    pub trace_block_size: usize,
    pub token_start: u32,
    pub token_alphabet_size: u32,
    pub codeword_count: usize,
    pub dictionary_digest_sha256: String,
}

/// `value` with its bits turned left by twenty-three places.
pub open spec fn turned(value: u64) -> u64 {
    (value << 23u64) | (value >> 41u64)
}

/// The state behind the first `n` tokens of a codeword.
pub open spec fn state_after(hash: u64, nonce: u64, n: nat) -> u64
    decreases n,
{
    if n == 0 {
        hash ^ turned(nonce) ^ 0x9e37_79b9_7f4a_7c15u64
    } else {
        mixed(state_after(hash, nonce, (n - 1) as nat) ^ ((n - 1) as u64).wrapping_mul(0xd6e8_feb8_6659_fd93))
    }
}

/// One token of a codeword.
pub open spec fn word_at(hash: u64, nonce: u64, alphabet: SafeTokenAlphabet, i: int) -> u32 {
    (alphabet.start + state_after(hash, nonce, (i + 1) as nat) % (alphabet.size as u64)) as u32
}

/// A codeword for a hash.
pub open spec fn word(hash: u64, nonce: u64, block_size: nat, alphabet: SafeTokenAlphabet) -> Seq<u32> {
    Seq::new(block_size, |i: int| word_at(hash, nonce, alphabet, i))
}

/// The least nonce from `nonce` on whose codeword is not taken.
pub open spec fn free_nonce(
    hash: u64,
    nonce: nat,
    taken: Seq<Seq<u32>>,
    block_size: nat,
    alphabet: SafeTokenAlphabet,
) -> Option<nat>
    decreases 0x1_0000_0000_0000_0000 - nonce,
{
    if nonce > u64::MAX {
        None
    } else if !taken.contains(word(hash, nonce as u64, block_size, alphabet)) {
        Some(nonce)
    } else {
        free_nonce(hash, nonce + 1, taken, block_size, alphabet)
    }
}

/// The codewords of the first `n` hashes: each takes the first of its own that no earlier hash
/// has taken.
pub open spec fn assigned(
    hashes: Seq<u64>,
    n: nat,
    block_size: nat,
    alphabet: SafeTokenAlphabet,
) -> Option<Seq<Seq<u32>>>
    decreases n,
{
    if n == 0 {
        Some(Seq::empty())
    } else {
        match assigned(hashes, (n - 1) as nat, block_size, alphabet) {
            Some(taken) => match free_nonce(hashes[n - 1], 0, taken, block_size, alphabet) {
                Some(nonce) => Some(taken.push(word(hashes[n - 1], nonce as u64, block_size, alphabet))),
                None => None,
            },
            None => None,
        }
    }
}

/// What the digest of a dictionary is taken of: the head, then the first `n` entries.
pub open spec fn table_source(
    block_size: usize,
    alphabet: SafeTokenAlphabet,
    hashes: Seq<u64>,
    words: Seq<Seq<u32>>,
    n: nat,
) -> Seq<u8>
    decreases n,
{
    if n == 0 {
        le_bytes(block_size as u64) + le_bytes_short(alphabet.start) + le_bytes_short(alphabet.size)
    } else {
        table_source(block_size, alphabet, hashes, words, (n - 1) as nat) + le_bytes(hashes[n - 1]) + le_bytes_all(
            words[n - 1],
            words[n - 1].len(),
        )
    }
}

fn make_codeword(hash: u64, nonce: u64, block_size: usize, alphabet: SafeTokenAlphabet) -> (tokens: Vec<u32>)
    requires
        alphabet.valid(),
    ensures
        tokens@ == word(hash, nonce, block_size as nat, alphabet),
{
    let mut state: u64 = hash ^ ((nonce << 23u64) | (nonce >> 41u64)) ^ 0x9e37_79b9_7f4a_7c15u64;
    let mut tokens: Vec<u32> = Vec::with_capacity(block_size);
    let ghost whole = word(hash, nonce, block_size as nat, alphabet);
    let mut position: usize = 0;
    while position < block_size
        invariant
            position <= block_size,
            alphabet.valid(),
            state == state_after(hash, nonce, position as nat),
            whole == word(hash, nonce, block_size as nat, alphabet),
            tokens@ == whole.take(position as int),
        decreases block_size - position,
    {
        state = splitmix64(state ^ (position as u64).wrapping_mul(0xd6e8_feb8_6659_fd93));
        assert(state == state_after(hash, nonce, (position + 1) as nat));
        let offset = (state % (alphabet.size as u64)) as u32;
        assert(offset < alphabet.size);
        tokens.push(alphabet.start + offset);
        proof {
            assert(whole[position as int] == word_at(hash, nonce, alphabet, position as int));
            assert(whole.take(position + 1) =~= whole.take(position as int).push(whole[position as int]));
        }
        position += 1;
    }
    assert(whole.take(block_size as int) =~= whole);
    tokens
}

fn same_tokens(a: &Vec<u32>, b: &Vec<u32>) -> (same: bool)
    ensures
        same == (a@ == b@),
{
    if a.len() != b.len() {
        return false;
    }
    let mut i: usize = 0;
    while i < a.len()
        invariant
            i <= a@.len(),
            a@.len() == b@.len(),
            forall|k: int| 0 <= k < i ==> a@[k] == b@[k],
        decreases a@.len() - i,
    {
        if a[i] != b[i] {
            return false;
        }
        i += 1;
    }
    assert(a@ =~= b@);
    true
}

/// The contents of token lists.
pub open spec fn token_views(words: Seq<Vec<u32>>) -> Seq<Seq<u32>> {
    Seq::new(words.len(), |i: int| words[i]@)
}

fn is_taken(words: &Vec<Vec<u32>>, candidate: &Vec<u32>) -> (taken: bool)
    ensures
        taken == token_views(words@).contains(candidate@),
{
    let mut i: usize = 0;
    while i < words.len()
        invariant
            i <= words@.len(),
            forall|k: int| 0 <= k < i ==> (#[trigger] words@[k])@ != candidate@,
        decreases words@.len() - i,
    {
        if same_tokens(&words[i], candidate) {
            assert(token_views(words@)[i as int] == candidate@);
            return true;
        }
        i += 1;
    }
    assert forall|k: int| 0 <= k < token_views(words@).len() implies #[trigger] token_views(words@)[k]
        != candidate@ by {
        assert(token_views(words@)[k] == words@[k]@);
    }
    false
}

/// Spells the hashes of requests as tokens.
#[derive(Debug)]
pub struct TokenDictionary {
    block_size: usize,
    hashes: Vec<u64>,
    words: Vec<Vec<u32>>,
    places: HashMap<u64, usize>,
    manifest: TokenDictionaryManifest,
}

/// Why no dictionary can be had for these requests: of the hashes in `sorted`, one finds every
/// codeword taken.
pub open spec fn table_failure(
    requests: Seq<TraceRequest>,
    sorted: Seq<u64>,
    alphabet: SafeTokenAlphabet,
) -> Option<TokenError> {
    if requests.len() == 0 {
        Some(TokenError::NoRequests)
    } else if requests[0].trace_block_size == 0 {
        Some(TokenError::ZeroBlockSize)
    } else if !one_block_size(requests) {
        Some(TokenError::MixedBlockSizes)
    } else if assigned(sorted, sorted.len(), requests[0].trace_block_size as nat, alphabet) is None {
        Some(TokenError::NonceOverflow)
    } else {
        None
    }
}

/// `sorted` lists the hashes of the requests, each once, from the least up.
pub open spec fn lists_hashes(sorted: Seq<u64>, requests: Seq<TraceRequest>) -> bool {
    ascending(sorted) && forall|hash: u64| #[trigger]
        sorted.contains(hash) <==> hashes_of(requests, requests.len()).contains(hash)
}

/// `dictionary` spells the hashes of the requests.
pub open spec fn is_table(
    dictionary: TokenDictionary,
    requests: Seq<TraceRequest>,
    alphabet: SafeTokenAlphabet,
) -> bool {
    let manifest = dictionary.described();
    let block_size = requests[0].trace_block_size;
    let sorted = dictionary.listed();
    &&& lists_hashes(sorted, requests)
    &&& dictionary.block() == block_size
    &&& assigned(sorted, sorted.len(), block_size as nat, alphabet) == Some(dictionary.codewords())
    &&& manifest.trace_block_size == block_size
    &&& manifest.token_start == alphabet.start
    &&& manifest.token_alphabet_size == alphabet.size
    &&& manifest.codeword_count == sorted.len()
    &&& manifest.dictionary_digest_sha256@ == hex_of(
        sha256(table_source(block_size, alphabet, sorted, dictionary.codewords(), sorted.len())),
    )
}

/// How many hashes of a request are looked up.
pub open spec fn lookups(hashes: nat, length: nat, block_size: nat) -> nat {
    let wanted = if length == 0 {
        1
    } else {
        ceil_div(length, block_size)
    };
    if hashes < wanted {
        hashes
    } else {
        wanted
    }
}

/// The first of `hashes`, from position `k` up to `n`, that is not listed.
pub open spec fn first_unlisted(sorted: Seq<u64>, hashes: Seq<u64>, k: nat, n: nat) -> Option<u64>
    decreases n - k,
{
    if k >= n {
        None
    } else if !sorted.contains(hashes[k as int]) {
        Some(hashes[k as int])
    } else {
        first_unlisted(sorted, hashes, k + 1, n)
    }
}

impl TokenDictionary {
    #[verifier::type_invariant]
    spec fn valid(self) -> bool {
        &&& self.block_size > 0
        &&& self.words@.len() == self.hashes@.len()
        &&& forall|i: int| 0 <= i < self.words@.len() ==> (#[trigger] self.words@[i])@.len() == self.block_size
        &&& forall|hash: u64| #[trigger]
            self.places@.contains_key(hash) ==> self.places@[hash] < self.hashes@.len()
                && self.hashes@[self.places@[hash] as int] == hash
        &&& forall|i: int| 0 <= i < self.hashes@.len() ==> self.places@.contains_key(#[trigger] self.hashes@[i])
        &&& ascending(self.hashes@)
    }

    /// Tokens in a block.
    pub closed spec fn block(&self) -> usize {
        self.block_size
    }

    /// The hashes that have a codeword, from the least up.
    pub closed spec fn listed(&self) -> Seq<u64> {
        self.hashes@
    }

    /// Their codewords, in the same order.
    pub closed spec fn codewords(&self) -> Seq<Seq<u32>> {
        token_views(self.words@)
    }

    /// What the manifest says.
    pub closed spec fn described(&self) -> TokenDictionaryManifest {
        self.manifest
    }

    /// The codeword of a listed hash.
    pub open spec fn codeword_of(&self, hash: u64) -> Seq<u32> {
        self.codewords()[self.listed().index_of(hash)]
    }

    /// Makes the dictionary for the hashes of some requests.
    pub fn build(requests: &Vec<TraceRequest>, alphabet: SafeTokenAlphabet) -> (result: Result<Self, TokenError>)
        requires
            alphabet.valid(),
        ensures
            match result {
                Ok(dictionary) => table_failure(requests@, dictionary.listed(), alphabet) is None && is_table(
                    dictionary,
                    requests@,
                    alphabet,
                ),
                Err(error) => exists|sorted: Seq<u64>| #[trigger]
                    lists_hashes(sorted, requests@) && table_failure(requests@, sorted, alphabet) == Some(error),
            },
    {
        broadcast use vstd::std_specs::hash::group_hash_axioms;

        let hashes = list_hashes(requests);
        assert(lists_hashes(hashes@, requests@));
        if requests.len() == 0 {
            return Err(TokenError::NoRequests);
        }
        let block_size = requests[0].trace_block_size;
        if block_size == 0 {
            return Err(TokenError::ZeroBlockSize);
        }
        if !uses_one_block_size(requests) {
            return Err(TokenError::MixedBlockSizes);
        }
        let mut words: Vec<Vec<u32>> = Vec::with_capacity(hashes.len());
        let mut places: HashMap<u64, usize> = HashMap::new();
        assert(token_views(words@) =~= Seq::<Seq<u32>>::empty());
        let mut i: usize = 0;
        while i < hashes.len()
            invariant
                i <= hashes@.len(),
                words@.len() == i,
                alphabet.valid(),
                ascending(hashes@),
                lists_hashes(hashes@, requests@),
                requests@.len() > 0,
                block_size == requests@[0].trace_block_size,
                block_size > 0,
                one_block_size(requests@),
                assigned(hashes@, i as nat, block_size as nat, alphabet) == Some(token_views(words@)),
                forall|k: int| 0 <= k < i ==> (#[trigger] words@[k])@.len() == block_size,
                forall|hash: u64| #[trigger]
                    places@.contains_key(hash) ==> places@[hash] < i && hashes@[places@[hash] as int] == hash,
                forall|k: int| 0 <= k < i ==> places@.contains_key(#[trigger] hashes@[k]),
            decreases hashes@.len() - i,
        {
            broadcast use vstd::std_specs::hash::group_hash_axioms;

            let hash = hashes[i];
            let ghost taken = token_views(words@);
            let mut nonce: u64 = 0;
            let mut candidate = make_codeword(hash, nonce, block_size, alphabet);
            while is_taken(&words, &candidate)
                invariant
                    alphabet.valid(),
                    i < hashes@.len(),
                    hash == hashes@[i as int],
                    taken == token_views(words@),
                    lists_hashes(hashes@, requests@),
                    requests@.len() > 0,
                    block_size == requests@[0].trace_block_size,
                    block_size > 0,
                    one_block_size(requests@),
                    assigned(hashes@, i as nat, block_size as nat, alphabet) == Some(taken),
                    candidate@ == word(hash, nonce, block_size as nat, alphabet),
                    free_nonce(hash, 0, taken, block_size as nat, alphabet) == free_nonce(
                        hash,
                        nonce as nat,
                        taken,
                        block_size as nat,
                        alphabet,
                    ),
                decreases u64::MAX - nonce,
            {
                if nonce == u64::MAX {
                    proof {
                        assert(free_nonce(hash, nonce as nat + 1, taken, block_size as nat, alphabet) is None);
                        assert(assigned(hashes@, (i + 1) as nat, block_size as nat, alphabet) is None);
                        lemma_stays_unassigned(hashes@, (i + 1) as nat, hashes@.len(), block_size as nat, alphabet);
                    }
                    return Err(TokenError::NonceOverflow);
                }
                nonce += 1;
                candidate = make_codeword(hash, nonce, block_size, alphabet);
            }
            words.push(candidate);
            places.insert(hash, i);
            assert(token_views(words@) =~= taken.push(word(hash, nonce, block_size as nat, alphabet)));
            i += 1;
        }
        let mut bytes: Vec<u8> = Vec::new();
        push_le_bytes(&mut bytes, block_size as u64);
        push_le_bytes_short(&mut bytes, alphabet.start);
        push_le_bytes_short(&mut bytes, alphabet.size);
        let ghost views = token_views(words@);
        assert(bytes@ =~= table_source(block_size, alphabet, hashes@, views, 0));
        let mut j: usize = 0;
        while j < hashes.len()
            invariant
                j <= hashes@.len(),
                words@.len() == hashes@.len(),
                views == token_views(words@),
                bytes@ == table_source(block_size, alphabet, hashes@, views, j as nat),
            decreases hashes@.len() - j,
        {
            push_le_bytes(&mut bytes, hashes[j]);
            push_all_le_bytes(&mut bytes, &words[j]);
            assert(views[j as int] == words@[j as int]@);
            j += 1;
            assert(bytes@ =~= table_source(block_size, alphabet, hashes@, views, j as nat));
        }
        let manifest = TokenDictionaryManifest {
            trace_block_size: block_size,
            token_start: alphabet.start,
            token_alphabet_size: alphabet.size,
            codeword_count: hashes.len(),
            dictionary_digest_sha256: hex_digest(bytes.as_slice()),
        };
        Ok(TokenDictionary { block_size, hashes, words, places, manifest })
    }

    pub fn manifest(&self) -> (manifest: &TokenDictionaryManifest)
        ensures
            *manifest == self.described(),
    {
        &self.manifest
    }

    /// Why a request cannot be spelled.
    pub open spec fn failure(&self, request: TraceRequest) -> Option<TokenError> {
        let hashes = request.input_sequence_hashes@;
        let block_size = self.block();
        if request.trace_block_size != block_size {
            Some(TokenError::OtherBlockSize)
        } else {
            match first_unlisted(
                self.listed(),
                hashes,
                0,
                lookups(hashes.len(), request.input_tokens as nat, block_size as nat),
            ) {
                Some(hash) => Some(TokenError::NoCodeword { hash }),
                None => if hashes.len() * block_size < request.input_tokens {
                    Some(
                        TokenError::Length {
                            request_id: request.source_request_id,
                            produced: (hashes.len() * block_size) as usize,
                            expected: request.input_tokens,
                        },
                    )
                } else {
                    None
                },
            }
        }
    }

    /// One token of a request.
    pub open spec fn token_of(&self, hashes: Seq<u64>, i: int) -> u32 {
        self.codeword_of(hashes[i / self.block() as int])[i % self.block() as int]
    }

    /// The tokens of a request: the codewords of its hashes, one after the other, cut to its length.
    pub open spec fn tokens_of(&self, hashes: Seq<u64>, length: nat) -> Seq<u32> {
        Seq::new(length, |i: int| self.token_of(hashes, i))
    }

    /// Spells the input of a request.
    pub fn synthesize(&self, request: &TraceRequest) -> (result: Result<Vec<u32>, TokenError>)
        ensures
            match result {
                Ok(tokens) => self.failure(*request) is None && tokens@ == self.tokens_of(
                    request.input_sequence_hashes@,
                    request.input_tokens as nat,
                ),
                Err(error) => self.failure(*request) == Some(error),
            },
    {
        broadcast use vstd::std_specs::hash::group_hash_axioms;

        proof {
            use_type_invariant(self);
        }
        if request.trace_block_size != self.block_size {
            return Err(TokenError::OtherBlockSize);
        }
        let block = self.block_size;
        let length = request.input_tokens;
        let ghost hashes = request.input_sequence_hashes@;
        let ghost whole = self.tokens_of(hashes, length as nat);
        let ghost wanted = lookups(hashes.len(), length as nat, block as nat);
        let mut tokens: Vec<u32> = Vec::with_capacity(length);
        let mut i: usize = 0;
        let mut done = false;
        assert(tokens@ =~= whole.take(0));
        while i < request.input_sequence_hashes.len() && !done
            invariant
                i <= hashes.len(),
                hashes == request.input_sequence_hashes@,
                self.valid(),
                request.trace_block_size == self.block(),
                block > 0,
                block == self.block_size,
                length == request.input_tokens,
                whole == self.tokens_of(hashes, length as nat),
                wanted == lookups(hashes.len(), length as nat, block as nat),
                tokens@.len() <= length,
                done <==> i > 0 && tokens@.len() == length,
                !done ==> tokens@.len() == i * block,
                done ==> length <= i * block && i == wanted,
                tokens@ == whole.take(tokens@.len() as int),
                first_unlisted(self.listed(), hashes, 0, wanted) == first_unlisted(
                    self.listed(),
                    hashes,
                    i as nat,
                    wanted,
                ),
            decreases hashes.len() - i,
        {
            broadcast use vstd::std_specs::hash::group_hash_axioms;

            let hash = request.input_sequence_hashes[i];
            proof {
                lemma_wanted(hashes.len(), length as nat, block as nat, i as nat, tokens@.len());
                self.lemma_places(hash);
            }
            let place = match self.places.get(&hash) {
                Some(place) => *place,
                None => return Err(TokenError::NoCodeword { hash }),
            };
            let word = &self.words[place];
            assert(word@ == self.codeword_of(hash));
            let ghost start = tokens@.len() as int;
            let remaining = length - tokens.len();
            let take = if remaining < block {
                remaining
            } else {
                block
            };
            let mut j: usize = 0;
            while j < take
                invariant
                    j <= take <= block,
                    block == self.block(),
                    start + take <= length,
                    start == i * block,
                    block > 0,
                    i < hashes.len(),
                    hash == hashes[i as int],
                    word@ == self.codeword_of(hash),
                    word@.len() == block,
                    whole == self.tokens_of(hashes, length as nat),
                    tokens@ == whole.take(start + j),
                decreases take - j,
            {
                proof {
                    let at = start + j;
                    vstd::arithmetic::div_mod::lemma_fundamental_div_mod_converse(
                        at,
                        block as int,
                        i as int,
                        j as int,
                    );
                    assert(at / block as int == i && at % block as int == j);
                    assert(whole[at] == self.token_of(hashes, at));
                    assert(whole.take(at + 1) =~= whole.take(at).push(whole[at]));
                }
                tokens.push(word[j]);
                j += 1;
            }
            proof {
                assert((i + 1) * block == i * block + block) by (nonlinear_arith);
                lemma_wanted(hashes.len(), length as nat, block as nat, i as nat, start as nat);
            }
            i += 1;
            done = tokens.len() == length;
        }
        assert(whole.take(length as int) =~= whole);
        proof {
            let count = hashes.len() as int;
            let b = block as int;
            let n = i as int;
            if done {
                assert(n * b <= count * b) by (nonlinear_arith)
                    requires
                        n <= count,
                        b > 0,
                ;
            } else {
                assert(wanted <= i);
            }
            assert(first_unlisted(self.listed(), hashes, i as nat, wanted) is None);
        }
        if tokens.len() != length {
            return Err(
                TokenError::Length {
                    request_id: request.source_request_id.clone(),
                    produced: tokens.len(),
                    expected: length,
                },
            );
        }
        Ok(tokens)
    }

    proof fn lemma_places(&self, hash: u64)
        requires
            self.valid(),
        ensures
            self.places@.contains_key(hash) <==> self.listed().contains(hash),
            self.places@.contains_key(hash) ==> self.listed().index_of(hash) == self.places@[hash]
                && self.words@[self.places@[hash] as int]@ == self.codeword_of(hash),
    {
        if self.places@.contains_key(hash) {
            let place = self.places@[hash] as int;
            assert(self.hashes@[place] == hash);
            let k = self.hashes@.index_of(hash);
            assert(self.hashes@[k] == hash);
            assert(k == place);
        }
        if self.listed().contains(hash) {
            let k = self.hashes@.index_of(hash);
            assert(self.places@.contains_key(self.hashes@[k]));
        }
    }
}

proof fn lemma_wanted(hashes: nat, length: nat, block: nat, i: nat, produced: nat)
    requires
        block > 0,
        i < hashes,
        produced == i * block,
        produced <= length,
        produced == length ==> i == 0,
    ensures
        i < lookups(hashes, length, block),
        produced + block >= length ==> lookups(hashes, length, block) == i + 1,
{
    if length > 0 {
        let q = ceil_div(length, block) as int;
        let b = block as int;
        let n = i as int;
        let l = length as int;
        assert((l + b - 1) / b == q);
        assert(n < q) by (nonlinear_arith)
            requires
                n * b < l,
                b > 0,
                q == (l + b - 1) / b,
                n >= 0,
        ;
        if produced + block >= length {
            assert(q <= n + 1) by (nonlinear_arith)
                requires
                    n * b + b >= l,
                    b > 0,
                    q == (l + b - 1) / b,
                    n >= 0,
            ;
        }
    }
}

proof fn lemma_stays_unassigned(hashes: Seq<u64>, m: nat, n: nat, block_size: nat, alphabet: SafeTokenAlphabet)
    requires
        m <= n,
        assigned(hashes, m, block_size, alphabet) is None,
    ensures
        assigned(hashes, n, block_size, alphabet) is None,
    decreases n,
{
    if m < n {
        lemma_stays_unassigned(hashes, m, (n - 1) as nat, block_size, alphabet);
    }
}

fn list_hashes(requests: &Vec<TraceRequest>) -> (sorted: Vec<u64>)
    ensures
        lists_hashes(sorted@, requests@),
{
    let mut all: Vec<u64> = Vec::new();
    let mut i: usize = 0;
    while i < requests.len()
        invariant
            i <= requests@.len(),
            forall|hash: u64| #[trigger] all@.contains(hash) <==> hashes_of(requests@, i as nat).contains(hash),
        decreases requests@.len() - i,
    {
        let ghost before = all@;
        let mut more = requests[i].input_sequence_hashes.clone();
        let ghost added = more@;
        assert(added =~= requests@[i as int].input_sequence_hashes@);
        all.append(&mut more);
        proof {
            assert forall|hash: u64| #[trigger] all@.contains(hash) <==> hashes_of(requests@, (i + 1) as nat).contains(
                hash,
            ) by {
                assert(all@ =~= before + added);
                if all@.contains(hash) {
                    let k = all@.index_of(hash);
                    if k < before.len() {
                        assert(before[k] == hash);
                        assert(before.contains(hash));
                    } else {
                        assert(added[k - before.len()] == hash);
                        assert(added.contains(hash));
                    }
                }
                if before.contains(hash) {
                    let k = before.index_of(hash);
                    assert(all@[k] == hash);
                }
                if added.contains(hash) {
                    let k = added.index_of(hash);
                    assert(all@[before.len() + k] == hash);
                }
                assert(before.contains(hash) <==> hashes_of(requests@, i as nat).contains(hash));
            }
        }
        i += 1;
    }
    sorted_distinct(all)
}

/// The dictionary does not depend on the order of the requests, or on how often a hash occurs:
/// the same hashes give the same codewords and the same digest.
pub proof fn law_order_does_not_matter(
    a: TokenDictionary,
    a_requests: Seq<TraceRequest>,
    b: TokenDictionary,
    b_requests: Seq<TraceRequest>,
    alphabet: SafeTokenAlphabet,
)
    requires
        is_table(a, a_requests, alphabet),
        is_table(b, b_requests, alphabet),
        a_requests[0].trace_block_size == b_requests[0].trace_block_size,
        hashes_of(a_requests, a_requests.len()) == hashes_of(b_requests, b_requests.len()),
    ensures
        a.listed() == b.listed(),
        a.codewords() == b.codewords(),
        a.described().dictionary_digest_sha256@ == b.described().dictionary_digest_sha256@,
{
    assert forall|hash: u64| #[trigger] a.listed().contains(hash) <==> b.listed().contains(hash) by {
        assert(hashes_of(a_requests, a_requests.len()).contains(hash) <==> hashes_of(
            b_requests,
            b_requests.len(),
        ).contains(hash));
    }
    lemma_ascending_unique(a.listed(), b.listed());
}

/// No two hashes have the same codeword.
pub proof fn law_codewords_are_distinct(
    hashes: Seq<u64>,
    n: nat,
    block_size: nat,
    alphabet: SafeTokenAlphabet,
)
    requires
        n <= hashes.len(),
        assigned(hashes, n, block_size, alphabet) is Some,
    ensures
        assigned(hashes, n, block_size, alphabet)->0.len() == n,
        assigned(hashes, n, block_size, alphabet)->0.no_duplicates(),
    decreases n,
{
    if n > 0 {
        law_codewords_are_distinct(hashes, (n - 1) as nat, block_size, alphabet);
        let taken = assigned(hashes, (n - 1) as nat, block_size, alphabet)->0;
        lemma_free_nonce_is_free(hashes[n - 1], 0, taken, block_size, alphabet);
    }
}

proof fn lemma_free_nonce_is_free(
    hash: u64,
    nonce: nat,
    taken: Seq<Seq<u32>>,
    block_size: nat,
    alphabet: SafeTokenAlphabet,
)
    ensures
        free_nonce(hash, nonce, taken, block_size, alphabet) matches Some(free) ==> !taken.contains(
            word(hash, free as u64, block_size, alphabet),
        ),
    decreases 0x1_0000_0000_0000_0000 - nonce,
{
    if nonce <= u64::MAX && taken.contains(word(hash, nonce as u64, block_size, alphabet)) {
        lemma_free_nonce_is_free(hash, nonce + 1, taken, block_size, alphabet);
    }
}

} // verus!
