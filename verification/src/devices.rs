//! Names of output devices: listing them, and finding the one that was asked for.

use crate::text;
use vstd::prelude::*;
use vstd::relations::*;
use vstd::seq_lib::*;
use vstd::string::StringExecFns;
use vstd::utf8::*;

verus! {

/// Whether one row of bytes comes before another in lexicographic order, or is the same.
pub open spec fn bytes_in_order(a: Seq<u8>, b: Seq<u8>) -> bool
    decreases a.len(),
{
    if a.len() == 0 {
        true
    } else if b.len() == 0 {
        false
    } else if a[0] != b[0] {
        a[0] < b[0]
    } else {
        bytes_in_order(a.drop_first(), b.drop_first())
    }
}

/// Whether one name comes before another in the order of their bytes, or is the same.
pub open spec fn in_order(a: Seq<char>, b: Seq<char>) -> bool {
    bytes_in_order(encode_utf8(a), encode_utf8(b))
}

/// The names as texts.
pub open spec fn texts(names: Seq<String>) -> Seq<Seq<char>> {
    names.map_values(|name: String| name@)
}

/// Whether the names are in ascending order.
pub open spec fn is_sorted(names: Seq<Seq<char>>) -> bool {
    forall|i: int, j: int|
        0 <= i < j < names.len() ==> in_order(#[trigger] names[i], #[trigger] names[j])
}

/// Of two rows of bytes one comes first.
proof fn lemma_bytes_order_total(a: Seq<u8>, b: Seq<u8>)
    ensures
        bytes_in_order(a, b) || bytes_in_order(b, a),
        bytes_in_order(a, b) && bytes_in_order(b, a) ==> a == b,
    decreases a.len(),
{
    if a.len() == 0 || b.len() == 0 {
        if a.len() == 0 && b.len() == 0 {
            assert(a =~= b);
        }
    } else if a[0] == b[0] {
        lemma_bytes_order_total(a.drop_first(), b.drop_first());
        if a.drop_first() == b.drop_first() {
            assert(a =~= seq![a[0]] + a.drop_first());
            assert(b =~= seq![b[0]] + b.drop_first());
        }
    }
}

/// What comes before something comes before all that follows that.
proof fn lemma_bytes_order_transitive(a: Seq<u8>, b: Seq<u8>, c: Seq<u8>)
    requires
        bytes_in_order(a, b),
        bytes_in_order(b, c),
    ensures
        bytes_in_order(a, c),
    decreases a.len(),
{
    if a.len() > 0 && a[0] == b[0] && b[0] == c[0] {
        lemma_bytes_order_transitive(a.drop_first(), b.drop_first(), c.drop_first());
    }
}

/// Whether one name comes before another in the order of their bytes, or is the same.
fn name_in_order(a: &String, b: &String) -> (result: bool)
    ensures
        result == in_order(a@, b@),
{
    let left: &[u8] = a.as_str().as_bytes();
    let right: &[u8] = b.as_str().as_bytes();
    let mut idx: usize = 0;
    assert(left@.skip(0) =~= left@);
    assert(right@.skip(0) =~= right@);
    while idx < left.len()
        invariant
            idx <= left@.len(),
            idx <= right@.len(),
            left@ == encode_utf8(a@),
            right@ == encode_utf8(b@),
            in_order(a@, b@) == bytes_in_order(left@.skip(idx as int), right@.skip(idx as int)),
        decreases left@.len() - idx,
    {
        if idx >= right.len() {
            return false;
        }
        if left[idx] != right[idx] {
            return left[idx] < right[idx];
        }
        assert(left@.skip(idx as int).drop_first() =~= left@.skip(idx as int + 1));
        assert(right@.skip(idx as int).drop_first() =~= right@.skip(idx as int + 1));
        idx = idx + 1;
    }
    true
}

/// Putting something in a row anywhere adds it to what the row holds.
proof fn lemma_insert_adds(row: Seq<Seq<char>>, at: int, item: Seq<char>)
    requires
        0 <= at <= row.len(),
    ensures
        row.insert(at, item).to_multiset() == row.to_multiset().insert(item),
{
    let longer = row.insert(at, item);
    assert(longer.remove(at) =~= row);
    to_multiset_remove(longer, at);
    assert(longer[at] == item);
    to_multiset_contains(longer, item);
    assert(longer.to_multiset() =~= longer.to_multiset().remove(item).insert(item));
}

/// Puts a name in its place among sorted names.
fn insert_name(sorted: &mut Vec<String>, name: String)
    requires
        is_sorted(texts(old(sorted)@)),
    ensures
        is_sorted(texts(final(sorted)@)),
        texts(final(sorted)@).to_multiset() == texts(old(sorted)@).to_multiset().insert(name@),
{
    let ghost before = texts(sorted@);
    let mut at: usize = 0;
    while at < sorted.len() && name_in_order(&sorted[at], &name)
        invariant
            at <= sorted@.len(),
            before == texts(sorted@),
            sorted@ == old(sorted)@,
            forall|i: int| 0 <= i < at ==> in_order(#[trigger] before[i], name@),
        decreases sorted@.len() - at,
    {
        at = at + 1;
    }
    let ghost text = name@;
    proof {
        if at < before.len() {
            lemma_bytes_order_total(encode_utf8(before[at as int]), encode_utf8(text));
        }
        assert forall|i: int| at <= i < before.len() implies in_order(text, #[trigger] before[i]) by {
            if at < i {
                assert(in_order(before[at as int], before[i]));
                lemma_bytes_order_transitive(
                    encode_utf8(text),
                    encode_utf8(before[at as int]),
                    encode_utf8(before[i]),
                );
            }
        }
        lemma_insert_adds(before, at as int, text);
    }
    sorted.insert(at, name);
    proof {
        let after = texts(sorted@);
        assert(after =~= before.insert(at as int, text));
        assert forall|i: int, j: int| 0 <= i < j < after.len() implies in_order(
            #[trigger] after[i],
            #[trigger] after[j],
        ) by {
            if j < at {
                assert(in_order(before[i], before[j]));
            } else if j == at {
                assert(in_order(before[i], text));
            } else if i < at {
                assert(in_order(before[i], before[j - 1]));
            } else if i == at {
                assert(in_order(text, before[j - 1]));
            } else {
                assert(in_order(before[i - 1], before[j - 1]));
            }
        }
    }
}

/// Whether one of the names is exactly this one.
pub open spec fn is_among(name: Seq<char>, names: Seq<String>) -> bool {
    exists|i: int| 0 <= i < names.len() && #[trigger] names[i]@ == name
}

/// Names that make up the same collection are as many, and each of the one stands in the other.
proof fn lemma_same_texts(a: Seq<String>, b: Seq<String>)
    requires
        texts(a).to_multiset() == texts(b).to_multiset(),
    ensures
        a.len() == b.len(),
        forall|i: int| 0 <= i < a.len() ==> is_among(#[trigger] a[i]@, b),
{
    to_multiset_len(texts(a));
    to_multiset_len(texts(b));
    assert forall|i: int| 0 <= i < a.len() implies is_among(#[trigger] a[i]@, b) by {
        to_multiset_contains(texts(a), a[i]@);
        to_multiset_contains(texts(b), a[i]@);
        assert(texts(a)[i] == a[i]@);
        let j = choose|j: int| 0 <= j < texts(b).len() && texts(b)[j] == a[i]@;
        assert(b[j]@ == a[i]@);
    }
}

/// The names of the output devices in ascending order, each as often as it was given.
pub fn list_render_device_names(names: Vec<String>) -> (result: Vec<String>)
    ensures
        is_sorted(texts(result@)),
        texts(result@).to_multiset() == texts(names@).to_multiset(),
        result@.len() == names@.len(),
        forall|i: int, j: int|
            0 <= i < j < result@.len() ==> in_order(#[trigger] result@[i]@, #[trigger] result@[j]@),
        forall|i: int| 0 <= i < result@.len() ==> is_among(#[trigger] result@[i]@, names@),
        forall|i: int| 0 <= i < names@.len() ==> is_among(#[trigger] names@[i]@, result@),
{
    let mut result: Vec<String> = Vec::new();
    let mut idx: usize = 0;
    assert(texts(result@) =~= texts(names@).take(0));
    while idx < names.len()
        invariant
            idx <= names@.len(),
            is_sorted(texts(result@)),
            texts(result@).to_multiset() == texts(names@).take(idx as int).to_multiset(),
        decreases names@.len() - idx,
    {
        insert_name(&mut result, names[idx].clone());
        proof {
            to_multiset_build(texts(names@).take(idx as int), names@[idx as int]@);
            assert(texts(names@).take(idx as int).push(names@[idx as int]@) =~= texts(names@).take(
                idx as int + 1,
            ));
        }
        idx = idx + 1;
    }
    assert(texts(names@).take(idx as int) =~= texts(names@));
    proof {
        lemma_same_texts(names@, result@);
        lemma_same_texts(result@, names@);
        assert forall|i: int, j: int| 0 <= i < j < result@.len() implies in_order(
            #[trigger] result@[i]@,
            #[trigger] result@[j]@,
        ) by {
            assert(in_order(texts(result@)[i], texts(result@)[j]));
        }
    }
    result
}

/// The order of names, as a relation.
pub open spec fn name_order() -> spec_fn(Seq<char>, Seq<char>) -> bool {
    |a: Seq<char>, b: Seq<char>| in_order(a, b)
}

/// Any two names can be put in order, and two names that could stand either way are the same.
pub proof fn law_names_are_totally_ordered()
    ensures
        total_ordering(name_order()),
{
    let order = name_order();
    assert forall|a: Seq<char>| #[trigger] order(a, a) by {
        lemma_bytes_order_total(encode_utf8(a), encode_utf8(a));
    }
    assert forall|a: Seq<char>, b: Seq<char>| #[trigger] order(a, b) && #[trigger] order(
        b,
        a,
    ) implies a == b by {
        lemma_bytes_order_total(encode_utf8(a), encode_utf8(b));
        encode_utf8_decode_utf8(a);
        encode_utf8_decode_utf8(b);
    }
    assert forall|a: Seq<char>, b: Seq<char>, c: Seq<char>| #[trigger] order(a, b)
        && #[trigger] order(b, c) implies order(a, c) by {
        lemma_bytes_order_transitive(encode_utf8(a), encode_utf8(b), encode_utf8(c));
    }
    assert forall|a: Seq<char>, b: Seq<char>| #[trigger] order(a, b) || #[trigger] order(b, a) by {
        lemma_bytes_order_total(encode_utf8(a), encode_utf8(b));
    }
}

/// One row of bytes comes before another where the first byte in which they differ is the smaller
/// number, and not the other way round.
proof fn lemma_smaller_byte_first(a: Seq<u8>, b: Seq<u8>, k: int)
    requires
        0 <= k < a.len(),
        k < b.len(),
        forall|j: int| 0 <= j < k ==> a[j] == b[j],
        a[k] < b[k],
    ensures
        bytes_in_order(a, b),
        !bytes_in_order(b, a),
    decreases k,
{
    if k > 0 {
        assert(a[0] == b[0]);
        let (rest_a, rest_b) = (a.drop_first(), b.drop_first());
        assert forall|j: int| 0 <= j < k - 1 implies rest_a[j] == rest_b[j] by {
            assert(a[j + 1] == b[j + 1]);
        }
        lemma_smaller_byte_first(rest_a, rest_b, k - 1);
    }
}

/// A row of bytes comes before a longer one that begins with it, and not the other way round.
proof fn lemma_beginning_first(a: Seq<u8>, b: Seq<u8>)
    requires
        a.len() < b.len(),
        forall|j: int| 0 <= j < a.len() ==> a[j] == b[j],
    ensures
        bytes_in_order(a, b),
        !bytes_in_order(b, a),
    decreases a.len(),
{
    if a.len() > 0 {
        assert(a[0] == b[0]);
        let (rest_a, rest_b) = (a.drop_first(), b.drop_first());
        assert forall|j: int| 0 <= j < rest_a.len() implies rest_a[j] == rest_b[j] by {
            assert(a[j + 1] == b[j + 1]);
        }
        lemma_beginning_first(rest_a, rest_b);
    }
}

/// Names are ordered like words: of two names that agree in their first bytes, the one whose next
/// byte is the smaller number comes first, and never the other one.
pub proof fn law_smaller_byte_comes_first(a: Seq<char>, b: Seq<char>, k: int)
    requires
        0 <= k < encode_utf8(a).len(),
        k < encode_utf8(b).len(),
        forall|j: int| 0 <= j < k ==> encode_utf8(a)[j] == encode_utf8(b)[j],
        encode_utf8(a)[k] < encode_utf8(b)[k],
    ensures
        in_order(a, b),
        !in_order(b, a),
{
    lemma_smaller_byte_first(encode_utf8(a), encode_utf8(b), k);
}

/// A name comes before every longer name that begins with it, and never after.
pub proof fn law_beginning_comes_first(a: Seq<char>, b: Seq<char>)
    requires
        encode_utf8(a).len() < encode_utf8(b).len(),
        forall|j: int| 0 <= j < encode_utf8(a).len() ==> encode_utf8(a)[j] == encode_utf8(b)[j],
    ensures
        in_order(a, b),
        !in_order(b, a),
{
    lemma_beginning_first(encode_utf8(a), encode_utf8(b));
}

/// In a listing, of two names that agree in their first bytes the earlier one has the smaller or
/// the same next byte, and it never goes on where the later one ends.
pub proof fn law_listing_ascends(names: Seq<Seq<char>>, i: int, j: int, k: int)
    requires
        is_sorted(names),
        0 <= i < j < names.len(),
        0 <= k < encode_utf8(names[i]).len(),
        k <= encode_utf8(names[j]).len(),
        forall|m: int| 0 <= m < k ==> encode_utf8(names[i])[m] == encode_utf8(names[j])[m],
    ensures
        k < encode_utf8(names[j]).len(),
        encode_utf8(names[i])[k] <= encode_utf8(names[j])[k],
{
    let (a, b) = (encode_utf8(names[i]), encode_utf8(names[j]));
    assert(in_order(names[i], names[j]));
    if k == b.len() {
        assert forall|m: int| 0 <= m < b.len() implies b[m] == a[m] by {
            assert(a[m] == b[m]);
        }
        lemma_beginning_first(b, a);
    } else if a[k] > b[k] {
        assert forall|m: int| 0 <= m < k implies b[m] == a[m] by {
            assert(a[m] == b[m]);
        }
        lemma_smaller_byte_first(b, a, k);
    }
}

/// The texts of names are those names, each in its place.
pub proof fn law_texts(names: Seq<String>)
    ensures
        texts(names).len() == names.len(),
        forall|i: int| 0 <= i < names.len() ==> #[trigger] texts(names)[i] == names[i]@,
{
}

/// The listing depends on which names there are, not on the order in which they were found.
pub proof fn law_listing_is_canonical(a: Seq<Seq<char>>, b: Seq<Seq<char>>)
    requires
        is_sorted(a),
        is_sorted(b),
        a.to_multiset() == b.to_multiset(),
    ensures
        a == b,
{
    law_names_are_totally_ordered();
    assert(sorted_by(a, name_order()));
    assert(sorted_by(b, name_order()));
    lemma_sorted_unique(a, b, name_order());
}

/// Part of the name of the device that is chosen at first, in lower case.
pub open spec fn preferred() -> Seq<char> {
    "cable input"@
}

/// The first device whose name holds `CABLE Input` in any case; the first device of all where
/// there is none.
pub open spec fn is_preferred_device(devices: Seq<Seq<char>>, index: int) -> bool {
    if exists|i: int| 0 <= i < devices.len() && text::occurs(
        text::lowercase(#[trigger] devices[i]),
        preferred(),
    ) {
        &&& 0 <= index < devices.len()
        &&& text::occurs(text::lowercase(devices[index]), preferred())
        &&& forall|i: int|
            0 <= i < index ==> !text::occurs(text::lowercase(#[trigger] devices[i]), preferred())
    } else {
        index == 0
    }
}

/// Where the device stands that is chosen at first.
pub fn preferred_device(devices: &Vec<String>) -> (index: usize)
    ensures
        is_preferred_device(texts(devices@), index as int),
{
    let wanted: Vec<char> = text::to_ascii_lowercase("cable input");
    proof {
        reveal_strlit("cable input");
        assert(wanted@ =~= preferred());
    }
    let mut idx: usize = 0;
    while idx < devices.len()
        invariant
            idx <= devices@.len(),
            wanted@ == preferred(),
            forall|i: int|
                0 <= i < idx ==> !text::occurs(
                    text::lowercase(#[trigger] texts(devices@)[i]),
                    preferred(),
                ),
        decreases devices@.len() - idx,
    {
        let name: Vec<char> = text::to_ascii_lowercase(devices[idx].as_str());
        if text::contains(&name, &wanted) {
            assert(texts(devices@)[idx as int] == devices@[idx as int]@);
            return idx;
        }
        idx = idx + 1;
    }
    0
}

/// The device that is chosen at first is the first whose name holds the characters of
/// `cable input` in a row, but for the case of letters; where no name does, it is the first of all.
pub proof fn law_preferred_device(devices: Seq<Seq<char>>, index: int)
    requires
        is_preferred_device(devices, index),
    ensures
        ({
            let part = seq!['c', 'a', 'b', 'l', 'e', ' ', 'i', 'n', 'p', 'u', 't'];
            &&& 0 <= index
            &&& index > 0 ==> index < devices.len()
            &&& index > 0 ==> exists|p: int| text::holds_at(devices[index], part, p)
            &&& forall|i: int, p: int|
                0 <= i < devices.len() && #[trigger] text::holds_at(devices[i], part, p) ==> index
                    <= i && exists|q: int| text::holds_at(devices[index], part, q)
        }),
{
    let part = seq!['c', 'a', 'b', 'l', 'e', ' ', 'i', 'n', 'p', 'u', 't'];
    reveal_strlit("cable input");
    assert(text::lowercase(part) =~= preferred());
    assert forall|i: int| 0 <= i < devices.len() implies (text::occurs(
        text::lowercase(#[trigger] devices[i]),
        preferred(),
    ) <==> exists|p: int| text::holds_at(devices[i], part, p)) by {
        text::law_occurrence_ignoring_case(devices[i], part);
    }
}

/// Whether a device of this name is meant by `needle`: the same name or a longer one, whatever
/// the case of ASCII letters.
pub open spec fn is_meant(name: Seq<char>, needle: Seq<char>) -> bool {
    ||| text::lowercase(name) == text::lowercase(needle)
    ||| text::occurs(text::lowercase(name), text::lowercase(needle))
}

/// A needle means a device exactly if the whole of it stands somewhere in the device's name,
/// character by character but for the case of ASCII letters; so no name that is shorter than the
/// needle is meant by it.
pub proof fn law_whole_needle_is_in_the_name(name: Seq<char>, needle: Seq<char>)
    ensures
        is_meant(name, needle) <==> exists|p: int| text::holds_at(name, needle, p),
        name.len() < needle.len() ==> !is_meant(name, needle),
{
    text::law_occurrence_ignoring_case(name, needle);
    let (low, wanted) = (text::lowercase(name), text::lowercase(needle));
    if low == wanted {
        assert(low.subrange(0, low.len() as int) =~= wanted);
        assert(text::occurs_at(low, wanted, 0));
    }
}

/// Where a needle stands in the name of a device that it means: at that place every character of
/// the needle has its like in the name, the same or the other case of the same ASCII letter.
pub proof fn law_place_of_the_needle(name: Seq<char>, needle: Seq<char>) -> (place: int)
    requires
        is_meant(name, needle),
    ensures
        0 <= place <= name.len() - needle.len(),
        forall|j: int|
            0 <= j < needle.len() ==> {
                ||| #[trigger] name[place + j] == needle[j]
                ||| 'A' <= needle[j] <= 'Z' && name[place + j] as int == needle[j] as int + 32
                ||| 'a' <= needle[j] <= 'z' && name[place + j] as int == needle[j] as int - 32
            },
{
    law_whole_needle_is_in_the_name(name, needle);
    choose|p: int| text::holds_at(name, needle, p)
}

/// What a search among devices comes to.
pub enum Search {
    /// The device at this place is the one.
    Found(usize),
    /// The name of the device at this place could not be read, and none before it was the one.
    Unreadable(usize),
    /// No device is the one.
    NotFound,
}

/// Whether the device at `i` has exactly the name `needle`.
pub open spec fn is_named(names: Seq<Option<String>>, needle: Seq<char>, i: int) -> bool {
    names[i] matches Some(name) && name@ == needle
}

/// Whether any device has exactly the name `needle`.
pub open spec fn is_present(names: Seq<Option<String>>, needle: Seq<char>) -> bool {
    exists|i: int| 0 <= i < names.len() && #[trigger] is_named(names, needle, i)
}

/// Whether a search for part of a name goes past the device at `i`.
pub open spec fn passes_over(names: Seq<Option<String>>, needle: Seq<char>, i: int) -> bool {
    names[i] is Some && !is_meant(names[i]->0@, needle)
}

/// Whether `result` is what the search for `needle` comes to.
///
/// The first device of exactly that name is the one, wherever it stands and whichever other names
/// could be read. Where there is none, it is the first one that `needle` means; then a name that
/// could not be read ends the search.
pub open spec fn is_result(
    names: Seq<Option<String>>,
    needle: Seq<char>,
    result: Search,
) -> bool {
    if is_present(names, needle) {
        result matches Search::Found(at) && at < names.len() && is_named(names, needle, at as int)
            && forall|i: int| 0 <= i < at ==> !(#[trigger] is_named(names, needle, i))
    } else {
        match result {
            Search::Found(at) => {
                &&& at < names.len()
                &&& names[at as int] matches Some(name) && is_meant(name@, needle)
                &&& forall|i: int| 0 <= i < at ==> #[trigger] passes_over(names, needle, i)
            },
            Search::Unreadable(at) => {
                &&& at < names.len()
                &&& names[at as int] is None
                &&& forall|i: int| 0 <= i < at ==> #[trigger] passes_over(names, needle, i)
            },
            Search::NotFound => forall|i: int|
                0 <= i < names.len() ==> #[trigger] passes_over(names, needle, i),
        }
    }
}

/// Looks for the device that `needle` names: the first of exactly that name, and where there is
/// none the first that `needle` means. In the second case a name that could not be read ends the
/// search.
pub fn find_render_device_by_name(names: &Vec<Option<String>>, needle: &str) -> (result: Search)
    ensures
        is_result(names@, needle@, result),
{
    let wanted: String = needle.to_owned();
    let mut idx: usize = 0;
    while idx < names.len()
        invariant
            idx <= names@.len(),
            wanted@ == needle@,
            forall|i: int| 0 <= i < idx ==> !(#[trigger] is_named(names@, needle@, i)),
        decreases names@.len() - idx,
    {
        if let Some(name) = &names[idx] {
            if *name == wanted {
                assert(is_named(names@, needle@, idx as int));
                return Search::Found(idx);
            }
        }
        idx = idx + 1;
    }
    assert(!is_present(names@, needle@));
    find_by_part(names, needle)
}

/// Looks for the first device that `needle` means, in the order given; a device whose name could
/// not be read ends the search.
fn find_by_part(names: &Vec<Option<String>>, needle: &str) -> (result: Search)
    requires
        !is_present(names@, needle@),
    ensures
        is_result(names@, needle@, result),
{
    let wanted: Vec<char> = text::to_ascii_lowercase(needle);
    let mut idx: usize = 0;
    while idx < names.len()
        invariant
            idx <= names@.len(),
            !is_present(names@, needle@),
            wanted@ == text::lowercase(needle@),
            forall|i: int| 0 <= i < idx ==> #[trigger] passes_over(names@, needle@, i),
        decreases names@.len() - idx,
    {
        match &names[idx] {
            None => {
                return Search::Unreadable(idx);
            },
            Some(name) => {
                let lowered: Vec<char> = text::to_ascii_lowercase(name.as_str());
                if text::contains(&lowered, &wanted) {
                    return Search::Found(idx);
                }
                proof {
                    if text::lowercase(name@) == text::lowercase(needle@) {
                        assert(lowered@.subrange(0, lowered@.len() as int) =~= lowered@);
                        assert(text::occurs_at(lowered@, wanted@, 0));
                    }
                }
            },
        }
        idx = idx + 1;
    }
    Search::NotFound
}

/// The device that was chosen is the one that is found, wherever it stands, whatever longer names
/// stand before it and whichever other names could be read: of several of the same name the first.
pub proof fn law_chosen_device_is_found(
    names: Seq<Option<String>>,
    chosen: int,
    result: Search,
)
    requires
        0 <= chosen < names.len(),
        names[chosen] is Some,
        forall|i: int|
            0 <= i < chosen ==> !(#[trigger] is_named(names, names[chosen]->0@, i)),
        is_result(names, names[chosen]->0@, result),
    ensures
        result matches Search::Found(at) && at == chosen,
{
    assert(is_named(names, names[chosen]->0@, chosen));
}

/// What a search comes to, in terms of the characters of the names.
///
/// A device of exactly the name is found, and of those the first. Else a device is found only
/// where the whole needle stands in its name but for the case of ASCII letters, and the names
/// before it could all be read and hold it nowhere. The search ends without a device at the first
/// name that could not be read, or where every name could be read and none holds the needle.
pub proof fn law_search_by_character(
    names: Seq<Option<String>>,
    needle: Seq<char>,
    result: Search,
)
    requires
        is_result(names, needle, result),
    ensures
        forall|i: int|
            0 <= i < names.len() && (#[trigger] names[i]) is Some && names[i]->0@ == needle
                ==> result is Found && result->Found_0 <= i
                && names[result->Found_0 as int]->0@ == needle,
        result matches Search::Found(at) ==> {
            &&& at < names.len()
            &&& names[at as int] is Some
            &&& needle.len() <= names[at as int]->0@.len()
            &&& exists|p: int| text::holds_at(names[at as int]->0@, needle, p)
            &&& names[at as int]->0@ == needle || forall|i: int|
                0 <= i < at ==> (#[trigger] names[i]) is Some && forall|p: int|
                    !text::holds_at(names[i]->0@, needle, p)
        },
        result matches Search::Unreadable(at) ==> {
            &&& at < names.len()
            &&& names[at as int] is None
            &&& forall|i: int|
                0 <= i < at ==> (#[trigger] names[i]) is Some && forall|p: int|
                    !text::holds_at(names[i]->0@, needle, p)
        },
        result is NotFound ==> forall|i: int|
            0 <= i < names.len() ==> (#[trigger] names[i]) is Some && forall|p: int|
                !text::holds_at(names[i]->0@, needle, p),
{
    assert forall|i: int| 0 <= i < names.len() && (#[trigger] names[i]) is Some && names[i]->0@
        == needle implies is_present(names, needle) by {
        assert(is_named(names, needle, i));
    }
    assert forall|i: int| 0 <= i < names.len() && (#[trigger] names[i]) is Some implies (is_meant(
        names[i]->0@,
        needle,
    ) <==> exists|p: int| text::holds_at(names[i]->0@, needle, p)) by {
        law_whole_needle_is_in_the_name(names[i]->0@, needle);
    }
    if is_present(names, needle) {
        let at = result->Found_0 as int;
        assert(is_named(names, needle, at));
        assert(text::holds_at(names[at]->0@, needle, 0));
        assert forall|i: int| 0 <= i < names.len() && (#[trigger] names[i]) is Some
            && names[i]->0@ == needle implies at <= i by {
            assert(is_named(names, needle, i));
        }
    } else {
        if result is NotFound {
            assert forall|i: int| 0 <= i < names.len() implies (#[trigger] names[i]) is Some
                && forall|p: int| !text::holds_at(names[i]->0@, needle, p) by {
                assert(passes_over(names, needle, i));
            }
        } else {
            let at = match result {
                Search::Found(at) => at as int,
                Search::Unreadable(at) => at as int,
                Search::NotFound => 0,
            };
            if result is Found {
                law_whole_needle_is_in_the_name(names[at]->0@, needle);
            }
            assert forall|i: int| 0 <= i < at implies (#[trigger] names[i]) is Some && forall|
                p: int,
            |
                !text::holds_at(names[i]->0@, needle, p) by {
                assert(passes_over(names, needle, i));
            }
        }
    }
}

/// A search has one result.
pub proof fn law_search_is_determined(
    names: Seq<Option<String>>,
    needle: Seq<char>,
    a: Search,
    b: Search,
)
    requires
        is_result(names, needle, a),
        is_result(names, needle, b),
    ensures
        a == b,
{
    if is_present(names, needle) {
        let i = a->Found_0;
        let j = b->Found_0;
        assert(is_named(names, needle, i as int) && is_named(names, needle, j as int));
    } else {
        lemma_stops_there(names, needle, a);
        lemma_stops_there(names, needle, b);
    }
}

/// A search for part of a name ends at a device that it does not go past.
proof fn lemma_stops_there(names: Seq<Option<String>>, needle: Seq<char>, result: Search)
    requires
        !is_present(names, needle),
        is_result(names, needle, result),
    ensures
        result matches Search::Found(at) ==> !passes_over(names, needle, at as int),
        result matches Search::Unreadable(at) ==> !passes_over(names, needle, at as int),
{
}

/// What is said where the device named `target` cannot be used.
pub fn target_not_found(target: &str) -> (result: String)
    ensures
        result@ == "target device not found: "@ + target@,
{
    "target device not found: ".to_owned().concat(target)
}

/// What is said where a search finds no device.
pub fn no_matching_device() -> (result: &'static str)
    ensures
        result@ == "no matching render device"@,
{
    "no matching render device"
}

/// What is said where the default speaker cannot be had.
pub fn no_default_speaker() -> (result: &'static str)
    ensures
        result@ == "failed to get default speaker device"@,
{
    "failed to get default speaker device"
}

/// The name of a device means it, in any mix of upper and lower case ASCII letters.
pub proof fn law_own_name_is_meant(name: Seq<char>, needle: Seq<char>)
    requires
        text::lowercase(name) == text::lowercase(needle),
    ensures
        is_meant(name, needle),
        is_meant(needle, name),
{
}

/// Any part of a device's name means it.
pub proof fn law_part_of_a_name_is_meant(name: Seq<char>, from: int, to: int)
    requires
        0 <= from <= to <= name.len(),
    ensures
        is_meant(name, name.subrange(from, to)),
{
    let part = name.subrange(from, to);
    assert(text::lowercase(name).subrange(from, from + part.len()) =~= text::lowercase(part));
    assert(text::occurs_at(text::lowercase(name), text::lowercase(part), from));
}

} // verus!
