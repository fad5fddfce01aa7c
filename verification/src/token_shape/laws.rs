//! Which tokens are used, and what they spell.

use crate::contracts::TraceRequest;
use crate::json::JsonView;
use crate::token_shape::alphabet::{
    excluded_ids, is_excluded, is_range_alphabet, least_of, offered, range_failure, range_without, strictly_rising,
    SafeTokenAlphabet,
};
use crate::token_shape::allocated::{
    first_unlisted, free_nonce, lookups, word, word_at, state_after,
};
use crate::token_shape::codeword::{codeword, digit_at, mixed, token_at};
use crate::token_shape::dictionary::{
    build_failure, dictionary_failure, spelled, spelled_at, spelling_failure,
};
use crate::token_shape::tokenizer::{decodes_special, makes_special, marks_id, names_id, spells_id};
use vstd::arithmetic::power::pow;
use vstd::prelude::*;

verus! {

// ---------------------------------------------------------------------------------------------
// Alphabets
// ---------------------------------------------------------------------------------------------

/// The metadata give an identifier under a name: by itself or in a list.
pub open spec fn gives_id(value: JsonView, name: Seq<char>, id: u32) -> bool {
    match value.field(name) {
        Some(JsonView::Array(items)) => exists|i: int|
            0 <= i < items.len() && (#[trigger] items[i]).whole() == Some(id as u64),
        Some(own) => own.whole() == Some(id as u64),
        None => false,
    }
}

/// The metadata give a token under a name: by its text, or by an object with its text.
pub open spec fn gives_text(value: JsonView, name: Seq<char>, text: Seq<char>) -> bool {
    ||| value.field(name) == Some(JsonView::Text(text))
    ||| {
        &&& value.field(name) is Some
        &&& !(value.field(name)->0 is Text)
        &&& value.field(name)->0.field("content"@) == Some(JsonView::Text(text))
    }
}

/// The identifiers of the tokens that begin, end and pad a text are special, also where the metadata
/// nest the settings of the text model.
pub proof fn law_named_identifiers_are_special(
    value: JsonView,
    inner: JsonView,
    known: Map<Seq<char>, u32>,
    id: u32,
)
    requires
        inner == value || value.field("text_config"@) == Some(inner),
        gives_id(inner, "bos_token_id"@, id) || gives_id(inner, "eos_token_id"@, id) || gives_id(
            inner,
            "pad_token_id"@,
            id,
        ),
    ensures
        makes_special(value, known, id),
{
    lemma_gives_id(value, "bos_token_id"@, id);
    lemma_gives_id(value, "eos_token_id"@, id);
    lemma_gives_id(value, "pad_token_id"@, id);
    lemma_gives_id(inner, "bos_token_id"@, id);
    lemma_gives_id(inner, "eos_token_id"@, id);
    lemma_gives_id(inner, "pad_token_id"@, id);
}

proof fn lemma_gives_id(value: JsonView, name: Seq<char>, id: u32)
    ensures
        gives_id(value, name, id) ==> names_id(value, name, id),
{
    if gives_id(value, name, id) {
        if let Some(JsonView::Array(items)) = value.field(name) {
            let i = choose|i: int| 0 <= i < items.len() && (#[trigger] items[i]).whole() == Some(id as u64);
            assert(spells_id(items[i], id));
        }
    }
}

/// The tokens that the metadata name by their text are special.
pub proof fn law_named_tokens_are_special(
    value: JsonView,
    text: Seq<char>,
    known: Map<Seq<char>, u32>,
    id: u32,
)
    requires
        known.contains_pair(text, id),
        gives_text(value, "bos_token"@, text) || gives_text(value, "eos_token"@, text) || gives_text(
            value,
            "pad_token"@,
            text,
        ) || gives_text(value, "sep_token"@, text) || gives_text(value, "cls_token"@, text) || gives_text(
            value,
            "mask_token"@,
            text,
        ),
    ensures
        makes_special(value, known, id),
{
}

/// A token that the metadata decode as a special one is special.
pub proof fn law_decoded_tokens_are_special(
    value: JsonView,
    entries: Seq<(Seq<char>, JsonView)>,
    i: int,
    known: Map<Seq<char>, u32>,
    id: u32,
)
    requires
        value.field("added_tokens_decoder"@) == Some(JsonView::Object(entries)),
        0 <= i < entries.len(),
        entries[i].0 == crate::text::decimal(id as nat),
        entries[i].1.field("special"@) == Some(JsonView::Bool(true)),
    ensures
        makes_special(value, known, id),
{
    crate::text::law_numerals_read_back(id as nat);
    let text = entries[i].0;
    assert(text.len() > 0 && '0' <= text[0] <= '9');
    assert(marks_id(entries[i], id));
    match value.field("added_tokens_decoder"@) {
        Some(JsonView::Object(list)) => {
            assert(marks_id(list[i], id));
        },
        _ => {},
    }
    assert(decodes_special(value, id));
}

/// No excluded token is used: neither one that was named, nor a special one of the tokenizer, nor one
/// that the metadata make special; nor any that the model does not have. Those that are used rise, are
/// as many as are wanted where there are enough, and are the smallest.
pub proof fn law_only_safe_tokens_are_used(
    ids: Seq<u32>,
    model: Set<u32>,
    extra: Seq<u32>,
    metadata: Seq<JsonView>,
    known: Map<Seq<char>, u32>,
    added: Map<u32, bool>,
    limit: nat,
    id: u32,
    m: int,
)
    requires
        least_of(ids, model, excluded_ids(extra, metadata, known, added), limit),
        ids.contains(id),
    ensures
        model.contains(id),
        !extra.contains(id),
        !(added.contains_key(id) && added[id]),
        0 <= m < metadata.len() ==> !makes_special(metadata[m], known, id),
        ids.len() <= limit,
        forall|other: u32| #[trigger]
            offered(model, excluded_ids(extra, metadata, known, added), other) && other < id ==> ids.contains(other),
        forall|i: int, j: int| 0 <= i < j < ids.len() ==> #[trigger] ids[i] < #[trigger] ids[j],
{
    let excluded = excluded_ids(extra, metadata, known, added);
    let k = ids.index_of(id);
    assert(offered(model, excluded, ids[k]));
    assert(!is_excluded(extra, metadata, known, added, id));
}

/// A range of tokens is used from its start on, as long as it is, without those that are excluded.
pub proof fn law_ranges_are_used_but_for_the_excluded(start: int, end: int, excluded: Set<u32>, id: u32)
    requires
        0 <= start <= end <= u32::MAX,
    ensures
        range_without(start, end, excluded).contains(id) <==> start <= id < end && !excluded.contains(id),
        strictly_rising(range_without(start, end, excluded)),
        forall|i: int|
            0 <= i < range_without(start, end, excluded).len() ==> start <= #[trigger] range_without(
                start,
                end,
                excluded,
            )[i] < end,
    decreases end - start,
{
    let ids = range_without(start, end, excluded);
    if start < end {
        law_ranges_are_used_but_for_the_excluded(start, end - 1, excluded, id);
        let before = range_without(start, end - 1, excluded);
        let last = (end - 1) as u32;
        if before.contains(id) {
            let k = before.index_of(id);
            assert(ids[k] == id);
        }
        if !excluded.contains(last) {
            assert(ids[ids.len() - 1] == last);
        }
        if ids.contains(id) && id != last {
            let k = ids.index_of(id);
            assert(before[k] == id);
        }
    }
}

/// A range is refused exactly where it is too small, runs past the last token, or has fewer than two
/// tokens left. What is made of one tells where it starts and ends, and that nothing vouches for it.
pub proof fn law_ranges_tell_what_they_are(
    alphabet: SafeTokenAlphabet,
    start: u32,
    size: u32,
    excluded: Set<u32>,
)
    requires
        range_failure(start, size, excluded) is None,
        is_range_alphabet(alphabet, start, size, excluded),
    ensures
        size >= 2,
        start + size <= u32::MAX,
        alphabet@.len() >= 2,
        !alphabet.described().verified,
        alphabet.described().tokenizer_digest_sha256 is None,
        alphabet.described().token_count == alphabet@.len(),
        alphabet.described().minimum_token_id == alphabet@[0],
        alphabet.described().maximum_token_id == alphabet@[alphabet@.len() - 1],
        forall|i: int|
            0 <= i < alphabet@.len() ==> alphabet.described().minimum_token_id <= #[trigger] alphabet@[i]
                <= alphabet.described().maximum_token_id,
        alphabet.described().excluded_token_count == excluded.len(),
{
    law_ranges_are_used_but_for_the_excluded(start as int, start + size, excluded, 0);
    assert forall|i: int| 0 <= i < alphabet@.len() implies alphabet.described().minimum_token_id
        <= #[trigger] alphabet@[i] <= alphabet.described().maximum_token_id by {
        if i > 0 {
            assert(alphabet@[0] < alphabet@[i]);
        }
        if i < alphabet@.len() - 1 {
            assert(alphabet@[i] < alphabet@[alphabet@.len() - 1]);
        }
    }
}

// ---------------------------------------------------------------------------------------------
// Codewords
// ---------------------------------------------------------------------------------------------

/// Digits come least significant first: the first is what is left over by the base, and the others are
/// those of the quotient.
pub proof fn law_digits_start_with_the_smallest(value: nat, base: nat, position: nat)
    requires
        base > 0,
    ensures
        digit_at(value, base, 0) == value % base,
        digit_at(value, base, position + 1) == digit_at(value / base, base, position),
        digit_at(value, base, position) < base,
{
    let b = base as int;
    let v = value as int;
    vstd::arithmetic::power::lemma_pow0(b);
    vstd::arithmetic::power::lemma_pow_positive(b, position);
    vstd::arithmetic::power::lemma_pow_adds(b, 1, position);
    vstd::arithmetic::power::lemma_pow1(b);
    let low = pow(b, position);
    vstd::arithmetic::div_mod::lemma_div_denominator(v, b, low);
    assert(v / 1 == v);
}

/// The tokens of a codeword are of the alphabet; the first is that of the mixed hash by the size of the
/// alphabet.
pub proof fn law_codewords_are_of_the_alphabet(hash: u64, block_size: nat, token_ids: Seq<u32>, i: int)
    requires
        token_ids.len() > 0,
        0 <= i < block_size,
    ensures
        codeword(hash, block_size, token_ids).len() == block_size,
        token_ids.contains(codeword(hash, block_size, token_ids)[i]),
        codeword(hash, block_size, token_ids)[0] == token_ids[mixed(hash) as int % token_ids.len() as int],
{
    law_digits_start_with_the_smallest(mixed(hash) as nat, token_ids.len(), i as nat);
    law_digits_start_with_the_smallest(mixed(hash) as nat, token_ids.len(), 0);
    let digit = digit_at(mixed(hash) as nat, token_ids.len(), i as nat) as int;
    assert(codeword(hash, block_size, token_ids)[i] == token_ids[digit]);
    assert(codeword(hash, block_size, token_ids)[0] == token_at(hash, token_ids, 0));
}

/// An input is spelled block by block: as long as it is to be, the tokens of each block being those of
/// its hash, cut off at the end.
pub proof fn law_inputs_are_spelled_by_blocks(
    block_size: nat,
    token_ids: Seq<u32>,
    hashes: Seq<u64>,
    length: nat,
    k: int,
    j: int,
)
    requires
        block_size > 0,
        0 <= k < hashes.len(),
        0 <= j < block_size,
        k * block_size + j < length,
    ensures
        spelled(block_size, token_ids, hashes, length).len() == length,
        spelled(block_size, token_ids, hashes, length)[k * block_size + j] == codeword(
            hashes[k],
            block_size,
            token_ids,
        )[j],
{
    let at = k * block_size + j;
    assert(k * block_size >= 0) by (nonlinear_arith)
        requires
            k >= 0,
            block_size > 0,
    ;
    assert(at == block_size * k + j) by (nonlinear_arith)
        requires
            at == k * block_size + j,
    ;
    vstd::arithmetic::div_mod::lemma_fundamental_div_mod_converse(at, block_size as int, k, j);
    assert(spelled(block_size, token_ids, hashes, length)[at] == spelled_at(block_size, token_ids, hashes, at));
}

/// An input can be spelled exactly where its blocks are of the size of the dictionary and its hashes
/// are enough for its length.
pub proof fn law_enough_hashes_can_be_spelled(block_size: usize, request: TraceRequest)
    ensures
        spelling_failure(block_size, request) is None <==> request.trace_block_size == block_size
            && request.input_tokens <= request.input_sequence_hashes@.len() * block_size,
{
}

/// A dictionary is refused exactly where blocks have no size, or have too few codewords to give every
/// hash its own; and that of a trace also where the trace is empty or has blocks of several sizes.
pub proof fn law_dictionaries_have_room_for_every_hash(
    requests: Seq<TraceRequest>,
    block_size: usize,
    alphabet_size: usize,
)
    ensures
        dictionary_failure(block_size, alphabet_size) is None <==> block_size > 0 && pow(
            alphabet_size as int,
            block_size as nat,
        ) >= 0x1_0000_0000_0000_0000,
        build_failure(requests, alphabet_size) is None <==> {
            &&& requests.len() > 0
            &&& forall|i: int|
                0 <= i < requests.len() ==> (#[trigger] requests[i]).trace_block_size == requests[0].trace_block_size
            &&& requests[0].trace_block_size > 0
            &&& pow(alphabet_size as int, requests[0].trace_block_size as nat) >= 0x1_0000_0000_0000_0000
        },
{
}

// ---------------------------------------------------------------------------------------------
// Allocated codewords
// ---------------------------------------------------------------------------------------------

/// The tokens of an allocated codeword lie in the range of its alphabet.
pub proof fn law_allocated_tokens_lie_in_their_range(
    hash: u64,
    nonce: u64,
    block_size: nat,
    alphabet: crate::token_shape::allocated::SafeTokenAlphabet,
    i: int,
)
    requires
        alphabet.valid(),
        0 <= i < block_size,
    ensures
        word(hash, nonce, block_size, alphabet).len() == block_size,
        alphabet.start <= word(hash, nonce, block_size, alphabet)[i] < alphabet.start + alphabet.size,
{
    let state = state_after(hash, nonce, (i + 1) as nat);
    assert(state % (alphabet.size as u64) < alphabet.size);
    assert(word(hash, nonce, block_size, alphabet)[i] == word_at(hash, nonce, alphabet, i));
}

/// The nonce of a codeword is the first from which on the codeword is new.
pub proof fn law_the_first_free_codeword_is_taken(
    hash: u64,
    nonce: nat,
    taken: Seq<Seq<u32>>,
    block_size: nat,
    alphabet: crate::token_shape::allocated::SafeTokenAlphabet,
)
    requires
        nonce <= 0x1_0000_0000_0000_0000,
    ensures
        match free_nonce(hash, nonce, taken, block_size, alphabet) {
            Some(found) => {
                &&& nonce <= found <= u64::MAX
                &&& !taken.contains(word(hash, found as u64, block_size, alphabet))
                &&& forall|n: nat|
                    nonce <= n < found ==> taken.contains(#[trigger] word(hash, n as u64, block_size, alphabet))
            },
            None => forall|n: nat|
                nonce <= n <= u64::MAX ==> taken.contains(#[trigger] word(hash, n as u64, block_size, alphabet)),
        },
    decreases 0x1_0000_0000_0000_0000 - nonce,
{
    if nonce <= u64::MAX && taken.contains(word(hash, nonce as u64, block_size, alphabet)) {
        law_the_first_free_codeword_is_taken(hash, nonce + 1, taken, block_size, alphabet);
    }
}

proof fn lemma_unlisted(sorted: Seq<u64>, hashes: Seq<u64>, k: nat, n: nat)
    ensures
        first_unlisted(sorted, hashes, k, n) is None <==> forall|i: int|
            k <= i < n ==> sorted.contains(#[trigger] hashes[i]),
    decreases n - k,
{
    if k < n {
        lemma_unlisted(sorted, hashes, k + 1, n);
        if sorted.contains(hashes[k as int]) {
            if first_unlisted(sorted, hashes, k, n) is None {
                assert forall|i: int| k <= i < n implies sorted.contains(#[trigger] hashes[i]) by {
                    if i > k {
                        assert(k + 1 <= i);
                    }
                }
            }
        }
    }
}

/// An input can be spelled with allocated codewords where its blocks are of the right size, its hashes
/// are enough, and each of them has a codeword.
pub proof fn law_listed_hashes_can_be_spelled(
    dictionary: crate::token_shape::allocated::TokenDictionary,
    request: TraceRequest,
)
    ensures
        dictionary.failure(request) is None ==> request.trace_block_size == dictionary.block() && request.input_tokens
            <= request.input_sequence_hashes@.len() * dictionary.block(),
        request.trace_block_size == dictionary.block() && request.input_tokens
            <= request.input_sequence_hashes@.len() * dictionary.block() && (forall|i: int|
            0 <= i < request.input_sequence_hashes@.len() ==> dictionary.listed().contains(
                #[trigger] request.input_sequence_hashes@[i],
            )) ==> dictionary.failure(request) is None,
        dictionary.tokens_of(request.input_sequence_hashes@, request.input_tokens as nat).len()
            == request.input_tokens,
{
    let hashes = request.input_sequence_hashes@;
    let n = lookups(hashes.len(), request.input_tokens as nat, dictionary.block() as nat);
    lemma_unlisted(dictionary.listed(), hashes, 0, n);
}

} // verus!
