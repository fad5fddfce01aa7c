//! Which tokenizer files can be read, and the form in which they are.

use crate::json::{json_value, lemma_field_is_smaller, parse_json, Json, JsonView};
use crate::text::{char_list, find_char, gather, position_of, same_text};
use vstd::prelude::*;
use vstd::utf8::{encode_utf8, is_char_boundary};

verus! {

// ---------------------------------------------------------------------------------------------
// Merges
// ---------------------------------------------------------------------------------------------

/// A text can be cut behind its first `start` bytes: it has as many, and a character ends there.
pub open spec fn can_cut(text: Seq<char>, start: nat) -> bool {
    is_char_boundary(encode_utf8(text), start as int)
}

/// A line of a list of merges that gives its version, and no merge.
pub open spec fn is_version_line(line: Seq<char>) -> bool {
    line.len() >= 8 && line.subrange(0, 8) == "#version"@
}

/// The second part of a merge, which is a pair or a line with a space between the parts, can be cut
/// behind its first `start` bytes.
pub open spec fn merge_fits(merge: JsonView, start: nat) -> bool {
    match merge {
        JsonView::Array(parts) => match parts[1] {
            JsonView::Text(second) => parts.len() == 2 ==> can_cut(second, start),
            _ => true,
        },
        JsonView::Text(line) => {
            ||| is_version_line(line)
            ||| position_of(line, ' ') >= line.len()
            ||| can_cut(line.skip(position_of(line, ' ') as int + 1), start)
        },
        _ => true,
    }
}

/// Two fields of a model, taken as its merges and as its prefix, go together.
pub open spec fn fields_fit(merges: (Seq<char>, JsonView), prefix: (Seq<char>, JsonView)) -> bool {
    match (merges.1, prefix.1) {
        (JsonView::Array(items), JsonView::Text(text)) => merges.0 == "merges"@ && prefix.0
            == "continuing_subword_prefix"@ ==> forall|k: int|
            0 <= k < items.len() ==> merge_fits(#[trigger] items[k], encode_utf8(text).len()),
        _ => true,
    }
}

/// A field that makes a model another one than a byte-pair encoding.
pub open spec fn names_other_kind(field: (Seq<char>, JsonView)) -> bool {
    match field.1 {
        JsonView::Text(kind) => field.0 == "type"@ && kind != "BPE"@,
        _ => false,
    }
}

/// Each merge of a byte-pair encoding is long enough for the prefix of its second part.
pub open spec fn merges_fit(model: JsonView) -> bool {
    match model {
        JsonView::Object(fields) => {
            ||| exists|i: int| 0 <= i < fields.len() && #[trigger] names_other_kind(fields[i])
            ||| forall|i: int, j: int|
                0 <= i < fields.len() && 0 <= j < fields.len() ==> #[trigger] fields_fit(fields[i], fields[j])
        },
        _ => true,
    }
}

// ---------------------------------------------------------------------------------------------
// Members
// ---------------------------------------------------------------------------------------------

/// Where a walk over JSON bytes stands: how many brackets are open, and whether it is inside a
/// string, there behind a backslash.
pub struct Walk {
    pub depth: nat,
    pub quoted: bool,
    pub escaped: bool,
}

/// A walk before its first byte.
pub open spec fn at_start() -> Walk {
    Walk { depth: 0, quoted: false, escaped: false }
}

/// A walk after one more byte.
pub open spec fn walk_on(walk: Walk, byte: u8) -> Walk {
    if walk.escaped {
        Walk { escaped: false, ..walk }
    } else if walk.quoted {
        Walk { quoted: byte != 34, escaped: byte == 92, ..walk }
    } else if byte == 34 {
        Walk { quoted: true, ..walk }
    } else if byte == 91 || byte == 123 {
        Walk { depth: walk.depth + 1, ..walk }
    } else if (byte == 93 || byte == 125) && walk.depth > 0 {
        Walk { depth: (walk.depth - 1) as nat, ..walk }
    } else {
        walk
    }
}

/// A walk after the first `n` bytes.
pub open spec fn walked(bytes: Seq<u8>, n: nat) -> Walk
    decreases n,
{
    if n == 0 {
        at_start()
    } else {
        walk_on(walked(bytes, (n - 1) as nat), bytes[n - 1])
    }
}

/// A comma that is in no string and between no brackets.
pub open spec fn is_cut(bytes: Seq<u8>, n: nat) -> bool {
    bytes[n as int] == 44 && walked(bytes, n) == at_start()
}

/// Where the part that starts at `start` ends.
pub open spec fn part_end(bytes: Seq<u8>, start: nat) -> nat
    decreases bytes.len() - start,
{
    if start >= bytes.len() {
        bytes.len()
    } else if is_cut(bytes, start) {
        start
    } else {
        part_end(bytes, start + 1)
    }
}

/// The parts, from `start` on, that commas separate.
pub open spec fn parts(bytes: Seq<u8>, start: nat) -> Seq<Seq<u8>>
    decreases bytes.len() - start,
    when start <= bytes.len()
    via parts_end
{
    let end = part_end(bytes, start);
    let own = bytes.subrange(start as int, end as int);
    if end >= bytes.len() {
        seq![own]
    } else {
        seq![own] + parts(bytes, end + 1)
    }
}

#[via_fn]
proof fn parts_end(bytes: Seq<u8>, start: nat) {
    lemma_part_end(bytes, start);
}

proof fn lemma_part_end(bytes: Seq<u8>, start: nat)
    requires
        start <= bytes.len(),
    ensures
        start <= part_end(bytes, start) <= bytes.len(),
    decreases bytes.len() - start,
{
    if start < bytes.len() && !is_cut(bytes, start) {
        lemma_part_end(bytes, start + 1);
    }
}

/// What stands between the first opening brace and the last closing one.
pub open spec fn inside(bytes: Seq<u8>) -> Seq<u8> {
    match (bytes.index_of_first(123), bytes.index_of_last(125)) {
        (Some(first), Some(last)) => if first < last {
            bytes.subrange(first + 1, last)
        } else {
            Seq::empty()
        },
        _ => Seq::empty(),
    }
}

/// The members of a JSON object, a name and a value each, as they are written. One name may stand
/// more than once.
pub open spec fn members(bytes: Seq<u8>) -> Seq<Seq<u8>> {
    parts(inside(bytes), 0)
}

/// An object of one member.
pub open spec fn member_view(member: Seq<u8>) -> Option<JsonView> {
    json_value(seq![123u8] + member + seq![125u8])
}

// ---------------------------------------------------------------------------------------------
// Character maps
// ---------------------------------------------------------------------------------------------

/// A character map can be read.
pub uninterp spec fn charsmap_reads(charsmap: Seq<char>) -> bool;

/// `serde_json::from_str` into a `tokenizers::normalizers::Precompiled`, of an object with the
/// character map alone, as `serde_json` prints it: whether it can be read, which depends on the
/// character map alone.
#[verifier::external_body]
fn reads_charsmap(charsmap: &str) -> (result: bool)
    ensures
        result == charsmap_reads(charsmap@),
{
    let text = format!("{{\"precompiled_charsmap\":{}}}", serde_json::Value::from(charsmap));
    serde_json::from_str::<tokenizers::normalizers::Precompiled>(&text).is_ok()
}

/// The kind that a normalizer names.
pub open spec fn kind_of(value: JsonView) -> Option<Seq<char>> {
    match value.field("type"@) {
        Some(JsonView::Text(kind)) => Some(kind),
        Some(JsonView::Object(fields)) => if fields.len() == 1 && fields[0].1 == JsonView::Null {
            Some(fields[0].0)
        } else {
            None
        },
        _ => None,
    }
}

/// A kind of normalizer that is known by its name even where other fields stand beside it.
pub open spec fn is_bare_kind(kind: Seq<char>) -> bool {
    ||| kind == "StripAccents"@
    ||| kind == "NFC"@
    ||| kind == "NFD"@
    ||| kind == "NFKC"@
    ||| kind == "NFKD"@
}

/// A kind of normalizer that holds no other one and no character map.
pub open spec fn is_simple_kind(kind: Seq<char>) -> bool {
    ||| is_bare_kind(kind)
    ||| kind == "Bert"@
    ||| kind == "Strip"@
    ||| kind == "Lowercase"@
    ||| kind == "Nmt"@
    ||| kind == "Replace"@
    ||| kind == "Prepend"@
    ||| kind == "ByteLevel"@
}

/// A field holds a truth value.
pub open spec fn is_flag(value: JsonView, name: Seq<char>) -> bool {
    value.field(name) matches Some(JsonView::Bool(_))
}

/// The fields of one of the two normalizers that are known by their fields.
pub open spec fn has_flags(value: JsonView) -> bool {
    ||| is_flag(value, "strip_left"@) && is_flag(value, "strip_right"@)
    ||| {
        &&& is_flag(value, "clean_text"@)
        &&& is_flag(value, "handle_chinese_chars"@)
        &&& is_flag(value, "lowercase"@)
        &&& match value.field("strip_accents"@) {
            None | Some(JsonView::Null) | Some(JsonView::Bool(_)) => true,
            _ => false,
        }
    }
}

/// A normalizer is read as one that holds no other one and no character map: by the kind that it
/// names, where that is `sure`, or else by its fields.
pub open spec fn is_simple(value: JsonView, sure: bool) -> bool {
    match kind_of(value) {
        Some(kind) => if sure && kind == "Sequence"@ {
            false
        } else {
            sure && is_simple_kind(kind) || is_bare_kind(kind) || has_flags(value)
        },
        None => has_flags(value),
    }
}

/// The character map of a normalizer can be read.
pub open spec fn charsmap_fits(value: JsonView) -> bool {
    match value.field("precompiled_charsmap"@) {
        Some(JsonView::Text(charsmap)) => charsmap_reads(charsmap),
        _ => false,
    }
}

/// Each character map that a normalizer is read with, its own or one of the normalizers that it
/// lists, can be read. The kind that it names counts where it is `sure`.
pub open spec fn charsmaps_read(value: JsonView, sure: bool) -> bool
    decreases value,
{
    match value {
        JsonView::Array(items) => if items.len() > 0 {
            match items[0] {
                JsonView::Array(listed) => forall|i: int|
                    0 <= i < listed.len() ==> charsmaps_read(#[trigger] listed[i], true),
                _ => true,
            }
        } else {
            true
        },
        JsonView::Object(_) => if sure && kind_of(value) == Some("Precompiled"@) {
            charsmap_fits(value)
        } else if is_simple(value, sure) {
            true
        } else {
            proof {
                lemma_field_is_smaller(value, "normalizers"@);
            }
            match value.field("normalizers"@) {
                Some(JsonView::Array(listed)) => forall|i: int|
                    0 <= i < listed.len() ==> charsmaps_read(#[trigger] listed[i], true),
                _ => true,
            }
        },
        _ => true,
    }
}

/// A member of a normalizer names its kind.
pub open spec fn names_kind(member: Seq<u8>) -> bool {
    match member_view(member) {
        Some(view) => view.field("type"@) is Some,
        None => false,
    }
}

/// A member of a normalizer names its kind once: by a text, or by an object of one member.
pub open spec fn settles_kind(member: Seq<u8>) -> bool {
    match member_view(member) {
        Some(view) => match view.field("type"@) {
            Some(JsonView::Text(_)) => true,
            Some(_) => members(member).len() == 1,
            None => false,
        },
        None => false,
    }
}

/// The normalizer that a member of a tokenizer file holds names its kind once.
pub open spec fn kind_is_sure(member: Seq<u8>) -> bool {
    exists|i: int| #[trigger] is_only_kind(members(member), i)
}

/// Member `i` names the kind, once, and no other one does.
pub open spec fn is_only_kind(list: Seq<Seq<u8>>, i: int) -> bool {
    &&& 0 <= i < list.len()
    &&& settles_kind(list[i])
    &&& forall|j: int| 0 <= j < list.len() && #[trigger] names_kind(list[j]) ==> j == i
}

// ---------------------------------------------------------------------------------------------
// Files
// ---------------------------------------------------------------------------------------------

/// A member of a tokenizer file can be read.
pub open spec fn member_loads(member: Seq<u8>) -> bool {
    match member_view(member) {
        Some(view) => {
            &&& view.field("model"@) matches Some(model) ==> merges_fit(model)
            &&& view.field("normalizer"@) matches Some(normalizer) ==> charsmaps_read(
                normalizer,
                kind_is_sure(member),
            )
        },
        None => true,
    }
}

/// A tokenizer file can be read: its merges are long enough, its character maps are whole.
pub open spec fn loads(bytes: Seq<u8>) -> bool {
    match json_value(bytes) {
        Some(JsonView::Object(_)) => forall|i: int|
            0 <= i < members(bytes).len() ==> member_loads(#[trigger] members(bytes)[i]),
        Some(_) => true,
        None => false,
    }
}

/// A tokenizer file with one more member behind all others: it has no normalizer. Which tokens the
/// file knows, and under which identifiers, does not depend on that.
pub open spec fn without_normalizer(bytes: Seq<u8>) -> Seq<u8> {
    match (json_value(bytes), bytes.index_of_last(125)) {
        (Some(JsonView::Object(fields)), Some(last)) => if fields.len() > 0 {
            bytes.take(last) + encode_utf8(",\"normalizer\":null}"@)
        } else {
            bytes
        },
        _ => bytes,
    }
}

fn can_cut_text(text: &str, start: usize) -> (result: bool)
    ensures
        result == can_cut(text@, start as nat),
{
    text.is_char_boundary(start)
}

fn is_version(line: &Vec<char>) -> (result: bool)
    ensures
        result == is_version_line(line@),
{
    line.len() >= 8 && same_text(gather(line, 0, 8).as_str(), "#version")
}

fn test_merge(merge: &Json, start: usize) -> (result: bool)
    ensures
        result == merge_fits(merge@, start as nat),
{
    match merge {
        Json::Array(parts) => {
            if parts.len() != 2 {
                return true;
            }
            assert(merge@->Array_0[1] == parts@[1]@);
            match &parts[1] {
                Json::Text(second) => can_cut_text(second.as_str(), start),
                _ => true,
            }
        },
        Json::Text(line) => {
            let chars = char_list(line.as_str());
            let space = find_char(&chars, ' ');
            if is_version(&chars) || space >= chars.len() {
                true
            } else {
                let second = gather(&chars, space + 1, chars.len());
                assert(second@ =~= line@.skip(space + 1));
                can_cut_text(second.as_str(), start)
            }
        },
        _ => true,
    }
}

fn test_merges(items: &Vec<Json>, prefix: &str) -> (result: bool)
    ensures
        result == forall|k: int|
            0 <= k < items@.len() ==> merge_fits((#[trigger] items@[k])@, encode_utf8(prefix@).len()),
{
    let start = prefix.as_bytes().len();
    let mut k: usize = 0;
    while k < items.len()
        invariant
            k <= items@.len(),
            start == encode_utf8(prefix@).len(),
            forall|j: int| 0 <= j < k ==> merge_fits((#[trigger] items@[j])@, start as nat),
        decreases items@.len() - k,
    {
        if !test_merge(&items[k], start) {
            return false;
        }
        k += 1;
    }
    true
}

fn test_pair(merges: &(String, Json), prefix: &(String, Json)) -> (result: bool)
    ensures
        result == fields_fit((merges.0@, merges.1@), (prefix.0@, prefix.1@)),
{
    match (&merges.1, &prefix.1) {
        (Json::Array(items), Json::Text(text)) => {
            if same_text(merges.0.as_str(), "merges") && same_text(
                prefix.0.as_str(),
                "continuing_subword_prefix",
            ) {
                let ghost views = merges.1@->Array_0;
                assert forall|k: int| 0 <= k < items@.len() implies views[k] == (#[trigger] items@[k])@ by {}
                test_merges(items, text.as_str())
            } else {
                true
            }
        },
        _ => true,
    }
}

fn test_merges_of_model(model: &Json) -> (result: bool)
    ensures
        result == merges_fit(model@),
{
    match model {
        Json::Object(fields) => {
            let ghost views = model@->Object_0;
            let mut i: usize = 0;
            while i < fields.len()
                invariant
                    i <= fields@.len(),
                    *model == Json::Object(*fields),
                    model@ == JsonView::Object(views),
                    views.len() == fields@.len(),
                    forall|k: int| 0 <= k < i ==> !(#[trigger] names_other_kind(views[k])),
                decreases fields@.len() - i,
            {
                assert(views[i as int] == (fields@[i as int].0@, fields@[i as int].1@));
                if let Json::Text(kind) = &fields[i].1 {
                    if same_text(fields[i].0.as_str(), "type") && !same_text(kind.as_str(), "BPE") {
                        assert(names_other_kind(views[i as int]));
                        return true;
                    }
                }
                i += 1;
            }
            i = 0;
            while i < fields.len()
                invariant
                    i <= fields@.len(),
                    *model == Json::Object(*fields),
                    model@ == JsonView::Object(views),
                    views.len() == fields@.len(),
                    forall|k: int| 0 <= k < views.len() ==> !(#[trigger] names_other_kind(views[k])),
                    forall|k: int, l: int|
                        0 <= k < i && 0 <= l < views.len() ==> #[trigger] fields_fit(views[k], views[l]),
                decreases fields@.len() - i,
            {
                let mut j: usize = 0;
                while j < fields.len()
                    invariant
                        i < fields@.len(),
                        j <= fields@.len(),
                        *model == Json::Object(*fields),
                        model@ == JsonView::Object(views),
                        views.len() == fields@.len(),
                        forall|k: int| 0 <= k < views.len() ==> !(#[trigger] names_other_kind(views[k])),
                        forall|l: int| 0 <= l < j ==> #[trigger] fields_fit(views[i as int], views[l]),
                    decreases fields@.len() - j,
                {
                    assert(views[i as int] == (fields@[i as int].0@, fields@[i as int].1@));
                    assert(views[j as int] == (fields@[j as int].0@, fields@[j as int].1@));
                    if !test_pair(&fields[i], &fields[j]) {
                        assert(!fields_fit(model@->Object_0[i as int], model@->Object_0[j as int]));
                        return false;
                    }
                    j += 1;
                }
                i += 1;
            }
            true
        },
        _ => true,
    }
}

fn walk_byte(depth: usize, quoted: bool, escaped: bool, byte: u8) -> (walk: (usize, bool, bool))
    requires
        depth < usize::MAX,
    ensures
        (Walk { depth: walk.0 as nat, quoted: walk.1, escaped: walk.2 }) == walk_on(
            Walk { depth: depth as nat, quoted, escaped },
            byte,
        ),
        walk.0 <= depth + 1,
{
    if escaped {
        (depth, quoted, false)
    } else if quoted {
        (depth, byte != 34, byte == 92)
    } else if byte == 34 {
        (depth, true, escaped)
    } else if byte == 91 || byte == 123 {
        (depth + 1, quoted, escaped)
    } else if (byte == 93 || byte == 125) && depth > 0 {
        (depth - 1, quoted, escaped)
    } else {
        (depth, quoted, escaped)
    }
}

/// The lists as sequences.
pub open spec fn byte_lists(lists: Seq<Vec<u8>>) -> Seq<Seq<u8>> {
    lists.map_values(|list: Vec<u8>| list@)
}

fn copy_bytes(bytes: &[u8], start: usize, end: usize) -> (copy: Vec<u8>)
    requires
        start <= end <= bytes@.len(),
    ensures
        copy@ == bytes@.subrange(start as int, end as int),
{
    let mut copy: Vec<u8> = Vec::with_capacity(end - start);
    let mut i = start;
    while i < end
        invariant
            start <= i <= end <= bytes@.len(),
            copy@ == bytes@.subrange(start as int, i as int),
        decreases end - i,
    {
        copy.push(bytes[i]);
        i += 1;
        assert(copy@ =~= bytes@.subrange(start as int, i as int));
    }
    copy
}

fn split_parts(bytes: &[u8]) -> (list: Vec<Vec<u8>>)
    ensures
        byte_lists(list@) == parts(bytes@, 0),
{
    let mut list: Vec<Vec<u8>> = Vec::new();
    let mut start: usize = 0;
    let mut i: usize = 0;
    let mut depth: usize = 0;
    let mut quoted = false;
    let mut escaped = false;
    assert(byte_lists(list@) + parts(bytes@, 0) =~= parts(bytes@, 0));
    while i < bytes.len()
        invariant
            start <= i <= bytes@.len(),
            depth <= i,
            (Walk { depth: depth as nat, quoted, escaped }) == walked(bytes@, i as nat),
            part_end(bytes@, start as nat) == part_end(bytes@, i as nat),
            byte_lists(list@) + parts(bytes@, start as nat) == parts(bytes@, 0),
        decreases bytes@.len() - i,
    {
        let byte = bytes[i];
        if byte == 44 && depth == 0 && !quoted && !escaped {
            let ghost before = byte_lists(list@);
            list.push(copy_bytes(bytes, start, i));
            proof {
                assert(is_cut(bytes@, i as nat));
                let own = bytes@.subrange(start as int, i as int);
                assert(parts(bytes@, start as nat) == seq![own] + parts(bytes@, i as nat + 1));
                assert(byte_lists(list@) =~= before.push(own));
                assert(byte_lists(list@) + parts(bytes@, i as nat + 1) =~= before + (seq![own] + parts(
                    bytes@,
                    i as nat + 1,
                )));
            }
            start = i + 1;
        }
        let walk = walk_byte(depth, quoted, escaped, byte);
        depth = walk.0;
        quoted = walk.1;
        escaped = walk.2;
        i += 1;
    }
    let ghost before = byte_lists(list@);
    list.push(copy_bytes(bytes, start, i));
    proof {
        let own = bytes@.subrange(start as int, i as int);
        assert(parts(bytes@, start as nat) == seq![own]);
        assert(byte_lists(list@) =~= before + seq![own]);
    }
    list
}

fn find_first(bytes: &[u8], byte: u8) -> (result: Option<usize>)
    ensures
        match result {
            Some(first) => first < bytes@.len() && bytes@.index_of_first(byte) == Some(first as int),
            None => bytes@.index_of_first(byte) is None,
        },
{
    let mut i: usize = 0;
    while i < bytes.len()
        invariant
            i <= bytes@.len(),
            forall|k: int| 0 <= k < i ==> bytes@[k] != byte,
        decreases bytes@.len() - i,
    {
        if bytes[i] == byte {
            proof {
                bytes@.index_of_first_ensures(byte);
                assert(bytes@.contains(byte));
                assert(bytes@.index_of_first(byte)->0 == i);
            }
            return Some(i);
        }
        i += 1;
    }
    proof {
        bytes@.index_of_first_ensures(byte);
    }
    None
}

fn find_last(bytes: &[u8], byte: u8) -> (result: Option<usize>)
    ensures
        match result {
            Some(last) => last < bytes@.len() && bytes@.index_of_last(byte) == Some(last as int),
            None => bytes@.index_of_last(byte) is None,
        },
{
    let mut i: usize = bytes.len();
    while i > 0
        invariant
            i <= bytes@.len(),
            forall|k: int| i <= k < bytes@.len() ==> bytes@[k] != byte,
        decreases i,
    {
        i -= 1;
        if bytes[i] == byte {
            proof {
                bytes@.index_of_last_ensures(byte);
                assert(bytes@.contains(byte));
                assert(bytes@.index_of_last(byte)->0 == i);
            }
            return Some(i);
        }
    }
    proof {
        bytes@.index_of_last_ensures(byte);
    }
    None
}

fn split_members(bytes: &[u8]) -> (list: Vec<Vec<u8>>)
    ensures
        byte_lists(list@) == members(bytes@),
{
    match (find_first(bytes, 123), find_last(bytes, 125)) {
        (Some(first), Some(last)) => if first < last {
            split_parts(copy_bytes(bytes, first + 1, last).as_slice())
        } else {
            split_parts(Vec::<u8>::new().as_slice())
        },
        _ => split_parts(Vec::<u8>::new().as_slice()),
    }
}

fn read_member(member: &Vec<u8>) -> (result: Option<Json>)
    ensures
        match result {
            Some(json) => member_view(member@) == Some(json@),
            None => member_view(member@) is None,
        },
{
    let mut text: Vec<u8> = Vec::new();
    text.push(123);
    let mut i: usize = 0;
    assert(text@ =~= seq![123u8] + member@.take(0));
    while i < member.len()
        invariant
            i <= member@.len(),
            text@ == seq![123u8] + member@.take(i as int),
        decreases member@.len() - i,
    {
        text.push(member[i]);
        i += 1;
        assert(text@ =~= seq![123u8] + member@.take(i as int));
    }
    text.push(125);
    assert(text@ =~= seq![123u8] + member@ + seq![125u8]);
    match parse_json(text.as_slice()) {
        Ok(json) => Some(json),
        Err(_) => None,
    }
}

fn test_kind(member: &Vec<u8>) -> (result: (bool, bool))
    ensures
        result.0 == names_kind(member@),
        result.1 == settles_kind(member@),
{
    match read_member(member) {
        Some(json) => match json.get("type") {
            Some(Json::Text(_)) => (true, true),
            Some(_) => {
                let list = split_members(member.as_slice());
                assert(byte_lists(list@).len() == list@.len());
                (true, list.len() == 1)
            },
            None => (false, false),
        },
        None => (false, false),
    }
}

fn test_sure(member: &Vec<u8>) -> (result: bool)
    ensures
        result == kind_is_sure(member@),
{
    let list = split_members(member.as_slice());
    let ghost views = members(member@);
    assert(views.len() == list@.len());
    let mut found: Option<usize> = None;
    let mut settled = false;
    let mut i: usize = 0;
    while i < list.len()
        invariant
            i <= list@.len(),
            views == members(member@),
            views == byte_lists(list@),
            match found {
                Some(f) => {
                    &&& f < i
                    &&& names_kind(views[f as int])
                    &&& settled == settles_kind(views[f as int])
                    &&& forall|j: int| 0 <= j < i && #[trigger] names_kind(views[j]) ==> j == f
                },
                None => forall|j: int| 0 <= j < i ==> !#[trigger] names_kind(views[j]),
            },
        decreases list@.len() - i,
    {
        let (named, settles) = test_kind(&list[i]);
        assert(views[i as int] == list@[i as int]@);
        if named {
            if let Some(f) = found {
                assert(!kind_is_sure(member@)) by {
                    assert(names_kind(views[f as int]) && names_kind(views[i as int]));
                }
                return false;
            }
            found = Some(i);
            settled = settles;
        }
        i += 1;
    }
    proof {
        match found {
            Some(f) => {
                if settled {
                    assert(is_only_kind(views, f as int));
                } else if kind_is_sure(member@) {
                    let k = choose|k: int| #[trigger] is_only_kind(views, k);
                    assert(names_kind(views[f as int]));
                    assert(k == f);
                }
            },
            None => {
                if kind_is_sure(member@) {
                    let k = choose|k: int| #[trigger] is_only_kind(views, k);
                    assert(names_kind(views[k]));
                }
            },
        }
    }
    found.is_some() && settled
}

fn is_flag_set(value: &Json, name: &str) -> (result: bool)
    ensures
        result == is_flag(value@, name@),
{
    match value.get(name) {
        Some(Json::Bool(_)) => true,
        _ => false,
    }
}

fn test_flags(value: &Json) -> (result: bool)
    ensures
        result == has_flags(value@),
{
    if is_flag_set(value, "strip_left") && is_flag_set(value, "strip_right") {
        return true;
    }
    let accents = match value.get("strip_accents") {
        None | Some(Json::Null) | Some(Json::Bool(_)) => true,
        _ => false,
    };
    accents && is_flag_set(value, "clean_text") && is_flag_set(value, "handle_chinese_chars") && is_flag_set(
        value,
        "lowercase",
    )
}

fn read_kind(value: &Json) -> (result: Option<&str>)
    ensures
        match result {
            Some(kind) => kind_of(value@) == Some(kind@),
            None => kind_of(value@) is None,
        },
{
    match value.get("type") {
        Some(Json::Text(kind)) => Some(kind.as_str()),
        Some(Json::Object(fields)) => {
            let ghost views = value@.field("type"@)->0->Object_0;
            if fields.len() == 1 {
                assert(views[0] == (fields@[0].0@, fields@[0].1@));
                match &fields[0].1 {
                    Json::Null => Some(fields[0].0.as_str()),
                    _ => None,
                }
            } else {
                None
            }
        },
        _ => None,
    }
}

fn test_bare_kind(kind: &str) -> (result: bool)
    ensures
        result == is_bare_kind(kind@),
{
    same_text(kind, "StripAccents") || same_text(kind, "NFC") || same_text(kind, "NFD") || same_text(kind, "NFKC")
        || same_text(kind, "NFKD")
}

fn test_simple_kind(kind: &str) -> (result: bool)
    ensures
        result == is_simple_kind(kind@),
{
    test_bare_kind(kind) || same_text(kind, "Bert") || same_text(kind, "Strip") || same_text(kind, "Lowercase")
        || same_text(kind, "Nmt") || same_text(kind, "Replace") || same_text(kind, "Prepend") || same_text(
        kind,
        "ByteLevel",
    )
}

fn test_simple(value: &Json, sure: bool) -> (result: bool)
    ensures
        result == is_simple(value@, sure),
{
    match read_kind(value) {
        Some(kind) => if sure && same_text(kind, "Sequence") {
            false
        } else {
            sure && test_simple_kind(kind) || test_bare_kind(kind) || test_flags(value)
        },
        None => test_flags(value),
    }
}

fn test_own_charsmap(value: &Json) -> (result: bool)
    ensures
        result == charsmap_fits(value@),
{
    match value.get("precompiled_charsmap") {
        Some(Json::Text(charsmap)) => reads_charsmap(charsmap.as_str()),
        _ => false,
    }
}

fn test_listed(list: &Json) -> (result: bool)
    ensures
        result == match list@ {
            JsonView::Array(listed) => forall|i: int|
                0 <= i < listed.len() ==> charsmaps_read(#[trigger] listed[i], true),
            _ => true,
        },
    decreases list, 0nat,
{
    match list {
        Json::Array(items) => {
            let ghost views = list@->Array_0;
            let mut i: usize = 0;
            while i < items.len()
                invariant
                    i <= items@.len(),
                    *list == Json::Array(*items),
                    list@ == JsonView::Array(views),
                    views.len() == items@.len(),
                    forall|k: int| 0 <= k < i ==> charsmaps_read(#[trigger] views[k], true),
                decreases items@.len() - i,
            {
                assert(views[i as int] == items@[i as int]@);
                assert(decreases_to!(*list => items@[i as int]));
                if !test_charsmaps(&items[i], true) {
                    assert(!charsmaps_read(list@->Array_0[i as int], true));
                    return false;
                }
                i += 1;
            }
            true
        },
        _ => true,
    }
}

fn test_charsmaps(value: &Json, sure: bool) -> (result: bool)
    ensures
        result == charsmaps_read(value@, sure),
    decreases value, 1nat,
{
    match value {
        Json::Array(items) => {
            if items.len() > 0 {
                assert(value@->Array_0[0] == items@[0]@);
                assert(decreases_to!(*value => items@[0]));
                test_listed(&items[0])
            } else {
                true
            }
        },
        Json::Object(_) => {
            let precompiled = match read_kind(value) {
                Some(kind) => same_text(kind, "Precompiled"),
                None => false,
            };
            if sure && precompiled {
                test_own_charsmap(value)
            } else if test_simple(value, sure) {
                true
            } else {
                match value.get("normalizers") {
                    Some(listed) => test_listed(listed),
                    None => true,
                }
            }
        },
        _ => true,
    }
}

fn test_member(member: &Vec<u8>) -> (result: bool)
    ensures
        result == member_loads(member@),
{
    match read_member(member) {
        Some(json) => {
            let merges = match json.get("model") {
                Some(model) => test_merges_of_model(model),
                None => true,
            };
            let charsmaps = match json.get("normalizer") {
                Some(normalizer) => test_charsmaps(normalizer, test_sure(member)),
                None => true,
            };
            merges && charsmaps
        },
        None => true,
    }
}

/// Tells whether a tokenizer file, which holds `file`, can be read.
pub(crate) fn can_load(bytes: &[u8], file: &Json) -> (result: bool)
    requires
        json_value(bytes@) == Some(file@),
    ensures
        result == loads(bytes@),
{
    match file {
        Json::Object(_) => {
            let list = split_members(bytes);
            let ghost views = members(bytes@);
            let mut i: usize = 0;
            while i < list.len()
                invariant
                    i <= list@.len(),
                    views == members(bytes@),
                    views == byte_lists(list@),
                    json_value(bytes@) == Some(file@),
                    file@ is Object,
                    forall|k: int| 0 <= k < i ==> member_loads(#[trigger] views[k]),
                decreases list@.len() - i,
            {
                assert(views[i as int] == list@[i as int]@);
                if !test_member(&list[i]) {
                    assert(!member_loads(members(bytes@)[i as int]));
                    return false;
                }
                i += 1;
            }
            true
        },
        _ => true,
    }
}

/// Writes a tokenizer file, which holds `file`, without a normalizer.
pub(crate) fn drop_normalizer(bytes: &[u8], file: &Json) -> (text: Vec<u8>)
    requires
        json_value(bytes@) == Some(file@),
    ensures
        text@ == without_normalizer(bytes@),
{
    let empty = match file {
        Json::Object(fields) => {
            assert(file@->Object_0.len() == fields@.len());
            fields.len() == 0
        },
        _ => true,
    };
    let last = match find_last(bytes, 125) {
        Some(last) => last,
        None => return copy_bytes(bytes, 0, bytes.len()),
    };
    if empty {
        let text = copy_bytes(bytes, 0, bytes.len());
        assert(text@ =~= bytes@);
        return text;
    }
    let mut text = copy_bytes(bytes, 0, last);
    let member = ",\"normalizer\":null}".as_bytes();
    let mut i: usize = 0;
    assert(text@ =~= bytes@.take(last as int) + member@.take(0));
    while i < member.len()
        invariant
            i <= member@.len(),
            last < bytes@.len(),
            text@ == bytes@.take(last as int) + member@.take(i as int),
        decreases member@.len() - i,
    {
        text.push(member[i]);
        i += 1;
        assert(text@ =~= bytes@.take(last as int) + member@.take(i as int));
    }
    assert(member@.take(i as int) =~= member@);
    text
}

} // verus!
