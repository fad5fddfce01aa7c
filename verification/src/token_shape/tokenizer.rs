//! What a tokenizer file says about its tokens.

use crate::json::{json_views, lemma_field_is_smaller, Json, JsonView};
use crate::text::{char_list, read_whole_number, whole_number};
use crate::token_shape::file::{loads, without_normalizer};
use std::collections::HashSet;
use vstd::prelude::*;

verus! {

/// `tokenizers::Tokenizer`.
#[verifier::external_type_specification]
#[verifier::external_body]
pub struct ExTokenizer(tokenizers::Tokenizer);

/// The identifiers that a tokenizer looks tokens up under.
pub uninterp spec fn known_tokens(tokenizer: tokenizers::Tokenizer) -> Map<Seq<char>, u32>;

/// The identifiers of a tokenizer's model, without its added tokens.
pub uninterp spec fn model_tokens(tokenizer: tokenizers::Tokenizer) -> Set<u32>;

/// The added tokens of a tokenizer: for each identifier, whether it is special.
pub uninterp spec fn added_tokens(tokenizer: tokenizers::Tokenizer) -> Map<u32, bool>;

/// What the bytes of a tokenizer file hold: the known tokens, the model's identifiers and the
/// added tokens; nothing where they cannot be read.
pub uninterp spec fn tokenizer_contents(bytes: Seq<u8>) -> Option<
    (Map<Seq<char>, u32>, Set<u32>, Map<u32, bool>),
>;

/// The bytes of a tokenizer file that can be read, without a normalizer.
pub open spec fn is_readable(text: Seq<u8>) -> bool {
    exists|bytes: Seq<u8>| #[trigger] loads(bytes) && text == without_normalizer(bytes)
}

/// `tokenizers::Tokenizer::from_bytes`: reads a tokenizer; whether it can, and what it holds,
/// depends on the bytes alone. Nothing is said of the words of an error. It panics where the bytes
/// are not JSON, where a merge is shorter than the prefix of its second part, where a character map
/// is broken, and where an added token cannot be normalized: such bytes are left out.
#[verifier::external_body]
pub(crate) fn read_tokenizer(bytes: &[u8]) -> (result: Result<tokenizers::Tokenizer, String>)
    requires
        is_readable(bytes@),
    ensures
        match result {
            Ok(tokenizer) => tokenizer_contents(bytes@) == Some(
                (known_tokens(tokenizer), model_tokens(tokenizer), added_tokens(tokenizer)),
            ),
            Err(_) => tokenizer_contents(bytes@) is None,
        },
{
    tokenizers::Tokenizer::from_bytes(bytes).map_err(|error| error.to_string())
}

/// `tokenizers::TokenizerImpl::token_to_id`: looks a token up.
#[verifier::external_body]
pub(crate) fn find_token(tokenizer: &tokenizers::Tokenizer, token: &str) -> (result: Option<u32>)
    ensures
        result == (if known_tokens(*tokenizer).contains_key(token@) {
            Some(known_tokens(*tokenizer)[token@])
        } else {
            None
        }),
{
    tokenizer.token_to_id(token)
}

/// `tokenizers::TokenizerImpl::get_vocab` without added tokens: the identifiers, in any order.
#[verifier::external_body]
pub(crate) fn list_model_tokens(tokenizer: &tokenizers::Tokenizer) -> (ids: Vec<u32>)
    ensures
        ids@.to_set() == model_tokens(*tokenizer),
{
    tokenizer.get_vocab(false).into_values().collect()
}

/// `entries` holds the entries of `table`, and no others.
pub open spec fn lists_entries(entries: Seq<(u32, bool)>, table: Map<u32, bool>) -> bool {
    forall|id: u32, special: bool| #[trigger]
        entries.contains((id, special)) <==> table.contains_key(id) && table[id] == special
}

/// `tokenizers::TokenizerImpl::get_added_tokens_decoder`: the added tokens, in any order, each
/// with its identifier and whether it is special.
#[verifier::external_body]
pub(crate) fn list_added_tokens(tokenizer: &tokenizers::Tokenizer) -> (added: Vec<(u32, bool)>)
    ensures
        lists_entries(added@, added_tokens(*tokenizer)),
{
    tokenizer.get_added_tokens_decoder().into_iter().map(|(id, token)| (id, token.special)).collect()
}

// ---------------------------------------------------------------------------------------------
// Metadata files
// ---------------------------------------------------------------------------------------------

/// A value spells `id`.
pub open spec fn spells_id(value: JsonView, id: u32) -> bool {
    value.whole() == Some(id as u64)
}

/// One of `items` spells `id`.
pub open spec fn lists_id(items: Seq<JsonView>, n: nat, id: u32) -> bool {
    exists|i: int| 0 <= i < n && #[trigger] spells_id(items[i], id)
}

/// A value spells `id`, alone or in a list.
pub open spec fn holds_id(value: JsonView, id: u32) -> bool {
    match value {
        JsonView::Array(items) => lists_id(items, items.len(), id),
        _ => spells_id(value, id),
    }
}

/// A field, here or in the nested text configuration, holds `id`, alone or in a list.
pub open spec fn names_id(value: JsonView, field: Seq<char>, id: u32) -> bool
    decreases value,
{
    ||| (match value.field(field) {
        Some(own) => holds_id(own, id),
        None => false,
    })
    ||| (match value.field("text_config"@) {
        Some(nested) => {
            proof {
                lemma_field_is_smaller(value, "text_config"@);
            }
            names_id(nested, field, id)
        },
        None => false,
    })
}

/// The text of a token: a string, or the content of an object.
pub open spec fn content_of(value: JsonView) -> Option<Seq<char>> {
    match value {
        JsonView::Text(text) => Some(text),
        _ => match value.field("content"@) {
            Some(JsonView::Text(text)) => Some(text),
            _ => None,
        },
    }
}

/// A field holds the text of a token that is known as `id`.
pub open spec fn names_token(value: JsonView, field: Seq<char>, known: Map<Seq<char>, u32>, id: u32) -> bool {
    match value.field(field) {
        Some(token) => match content_of(token) {
            Some(text) => known.contains_key(text) && known[text] == id,
            None => false,
        },
        None => false,
    }
}

/// The identifier that a text spells, with or without a plus sign.
pub open spec fn id_text(text: Seq<char>) -> Option<u32> {
    let digits = if text.len() > 0 && text[0] == '+' {
        text.drop_first()
    } else {
        text
    };
    match whole_number(digits) {
        Some(value) => if value <= u32::MAX {
            Some(value as u32)
        } else {
            None
        },
        None => None,
    }
}

/// An entry of a decoder table marks its identifier as special.
pub open spec fn marks_id(entry: (Seq<char>, JsonView), id: u32) -> bool {
    id_text(entry.0) == Some(id) && entry.1.field("special"@) == Some(JsonView::Bool(true))
}

/// The table of added tokens marks `id` as special.
pub open spec fn decodes_special(value: JsonView, id: u32) -> bool {
    match value.field("added_tokens_decoder"@) {
        Some(JsonView::Object(entries)) => exists|i: int|
            0 <= i < entries.len() && #[trigger] marks_id(entries[i], id),
        _ => false,
    }
}

/// A metadata file makes `id` special.
pub open spec fn makes_special(value: JsonView, known: Map<Seq<char>, u32>, id: u32) -> bool {
    ||| names_id(value, "bos_token_id"@, id)
    ||| names_id(value, "eos_token_id"@, id)
    ||| names_id(value, "pad_token_id"@, id)
    ||| names_token(value, "bos_token"@, known, id)
    ||| names_token(value, "eos_token"@, known, id)
    ||| names_token(value, "pad_token"@, known, id)
    ||| names_token(value, "sep_token"@, known, id)
    ||| names_token(value, "cls_token"@, known, id)
    ||| names_token(value, "mask_token"@, known, id)
    ||| decodes_special(value, id)
}

fn insert_spelled(value: &Json, output: &mut HashSet<u32>)
    ensures
        forall|id: u32| #[trigger]
            final(output)@.contains(id) <==> old(output)@.contains(id) || spells_id(value@, id),
{
    broadcast use vstd::std_specs::hash::group_hash_axioms;

    if let Some(id) = value.as_u64() {
        if id <= u32::MAX as u64 {
            output.insert(id as u32);
        }
    }
}

fn insert_held(value: &Json, output: &mut HashSet<u32>)
    ensures
        forall|id: u32| #[trigger]
            final(output)@.contains(id) <==> old(output)@.contains(id) || holds_id(value@, id),
{
    match value.as_array() {
        Some(items) => {
            let ghost views = json_views(items@);
            let mut i: usize = 0;
            assert forall|id: u32| !#[trigger] lists_id(views, 0, id) by {}
            while i < items.len()
                invariant
                    i <= items@.len(),
                    views == json_views(items@),
                    forall|id: u32| #[trigger]
                        output@.contains(id) <==> old(output)@.contains(id) || lists_id(views, i as nat, id),
                decreases items@.len() - i,
            {
                let ghost held = output@;
                insert_spelled(&items[i], output);
                proof {
                    assert(views[i as int] == items@[i as int]@);
                    assert forall|id: u32| #[trigger] output@.contains(id) <==> old(output)@.contains(id)
                        || lists_id(views, (i + 1) as nat, id) by {
                        assert(held.contains(id) <==> old(output)@.contains(id) || lists_id(views, i as nat, id));
                        if lists_id(views, (i + 1) as nat, id) {
                            let k = choose|k: int| 0 <= k < i + 1 && #[trigger] spells_id(views[k], id);
                            if k < i {
                                assert(lists_id(views, i as nat, id));
                            }
                        }
                        if spells_id(views[i as int], id) {
                            assert(lists_id(views, (i + 1) as nat, id));
                        }
                        if lists_id(views, i as nat, id) {
                            let k = choose|k: int| 0 <= k < i && #[trigger] spells_id(views[k], id);
                            assert(lists_id(views, (i + 1) as nat, id));
                        }
                    }
                }
                i += 1;
            }
        },
        None => {
            insert_spelled(value, output);
        },
    }
}

/// Adds the identifiers that a field holds, here or in the nested text configuration.
pub fn collect_named_integer_ids(value: &Json, field: &str, output: &mut HashSet<u32>)
    ensures
        forall|id: u32| #[trigger]
            final(output)@.contains(id) <==> old(output)@.contains(id) || names_id(value@, field@, id),
    decreases value,
{
    match value.get(field) {
        Some(own) => {
            insert_held(own, output);
        },
        None => {},
    }
    let ghost here = output@;
    match value.get("text_config") {
        Some(nested) => {
            collect_named_integer_ids(nested, field, output);
            assert forall|id: u32| #[trigger] output@.contains(id) <==> old(output)@.contains(id) || names_id(
                value@,
                field@,
                id,
            ) by {
                assert(output@.contains(id) <==> here.contains(id) || names_id(nested@, field@, id));
            }
        },
        None => {},
    }
}

/// The text of a token.
pub fn token_content(value: &Json) -> (result: Option<&str>)
    ensures
        match result {
            Some(text) => content_of(value@) == Some(text@),
            None => content_of(value@) is None,
        },
{
    match value.as_str() {
        Some(text) => Some(text),
        None => match value.get("content") {
            Some(inner) => inner.as_str(),
            None => None,
        },
    }
}

fn collect_token(value: &Json, field: &str, tokenizer: &tokenizers::Tokenizer, excluded: &mut HashSet<u32>)
    ensures
        forall|id: u32| #[trigger]
            final(excluded)@.contains(id) <==> old(excluded)@.contains(id) || names_token(
                value@,
                field@,
                known_tokens(*tokenizer),
                id,
            ),
{
    broadcast use vstd::std_specs::hash::group_hash_axioms;

    if let Some(token) = value.get(field) {
        if let Some(text) = token_content(token) {
            if let Some(id) = find_token(tokenizer, text) {
                excluded.insert(id);
            }
        }
    }
}

fn read_id(text: &str) -> (result: Option<u32>)
    ensures
        result == id_text(text@),
{
    let mut chars = char_list(text);
    if chars.len() > 0 && chars[0] == '+' {
        chars.remove(0);
        assert(chars@ =~= text@.drop_first());
    }
    match read_whole_number(&chars) {
        Some(value) => if value <= u32::MAX as u64 {
            Some(value as u32)
        } else {
            None
        },
        None => None,
    }
}

/// Adds the identifiers that a metadata file makes special.
pub(crate) fn collect_special_ids(value: &Json, tokenizer: &tokenizers::Tokenizer, excluded: &mut HashSet<u32>)
    ensures
        forall|id: u32| #[trigger]
            final(excluded)@.contains(id) <==> old(excluded)@.contains(id) || makes_special(
                value@,
                known_tokens(*tokenizer),
                id,
            ),
{
    broadcast use vstd::std_specs::hash::group_hash_axioms;

    collect_named_integer_ids(value, "bos_token_id", excluded);
    collect_named_integer_ids(value, "eos_token_id", excluded);
    collect_named_integer_ids(value, "pad_token_id", excluded);
    collect_token(value, "bos_token", tokenizer, excluded);
    collect_token(value, "eos_token", tokenizer, excluded);
    collect_token(value, "pad_token", tokenizer, excluded);
    collect_token(value, "sep_token", tokenizer, excluded);
    collect_token(value, "cls_token", tokenizer, excluded);
    collect_token(value, "mask_token", tokenizer, excluded);
    let ghost before = excluded@;
    match value.get("added_tokens_decoder") {
        Some(Json::Object(entries)) => {
            let ghost decoder = value@.field("added_tokens_decoder"@)->0;
            let ghost views = decoder->Object_0;
            let mut i: usize = 0;
            while i < entries.len()
                invariant
                    i <= entries@.len(),
                    decoder == Json::Object(*entries)@,
                    decoder == JsonView::Object(views),
                    views.len() == entries@.len(),
                    forall|id: u32| #[trigger]
                        excluded@.contains(id) <==> before.contains(id) || exists|k: int|
                            0 <= k < i && #[trigger] marks_id(views[k], id),
                decreases entries@.len() - i,
            {
                broadcast use vstd::std_specs::hash::group_hash_axioms;

                let ghost held = excluded@;
                assert(views[i as int] == (entries@[i as int].0@, entries@[i as int].1@));
                let special = match entries[i].1.get("special") {
                    Some(Json::Bool(flag)) => *flag,
                    _ => false,
                };
                if special {
                    if let Some(id) = read_id(entries[i].0.as_str()) {
                        excluded.insert(id);
                    }
                }
                proof {
                    assert forall|id: u32| #[trigger] excluded@.contains(id) <==> before.contains(id)
                        || exists|k: int| 0 <= k < i + 1 && #[trigger] marks_id(views[k], id) by {
                        assert(excluded@.contains(id) <==> held.contains(id) || marks_id(views[i as int], id));
                    }
                }
                i += 1;
            }
        },
        _ => {},
    }
    assert forall|id: u32| #[trigger] excluded@.contains(id) <==> old(excluded)@.contains(id) || makes_special(
        value@,
        known_tokens(*tokenizer),
        id,
    ) by {
        assert(before.contains(id) || !before.contains(id));
    }
}

} // verus!
